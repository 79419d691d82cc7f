//! The engine from end to end: the first pass, the plan, the merges and the
//! publishing, run one after the other on a working directory.

use vstd::prelude::*;
use crate::error::FqcatError;
use crate::merge::{outcomes_of, traverse_tree, traversed, LevelReport};
use crate::names::is_accumulator;
use crate::output::{lemma_successful_run_output, steady, wrote_sources};
use crate::prepare::{prepare_for_merges, prepared, prepared_names};
use crate::publish::{publish_final_fastq, published};
use crate::run::{
    all_ok, clean, cleaned_up, lemma_successful_run_cleans_up, levels_ok, run_files, run_merged,
    run_prepared, unmarked,
};
use crate::tree::{build_merge_tree, names_of, plan, MergeTree};
use crate::workspace::Workspace;

verus! {

/// What a run did after its first pass.
pub struct RunReport {
    /// The plan that was run.
    pub tree: MergeTree,
    /// How the merges of every level ended: one report for every level of
    /// the plan, in the order of the levels, each with the number of its
    /// level.
    pub levels: Vec<LevelReport>,
    /// How the publishing ended.
    pub published: Result<(), FqcatError>,
}

impl RunReport {
    /// Every merge and the publishing succeeded.
    pub open spec fn complete(&self) -> bool {
        levels_ok(outcomes_of(self.levels@)) && self.published is Ok
    }

    /// Whether every merge and the publishing succeeded.
    pub fn is_complete(&self) -> (b: bool)
        ensures
            b == self.complete(),
    {
        let mut k: usize = 0;
        while k < self.levels.len()
            invariant
                k <= self.levels.len(),
                forall|j: int|
                    0 <= j < k ==> all_ok(#[trigger] outcomes_of(self.levels@)[j]),
            decreases self.levels.len() - k,
        {
            let outcomes = &self.levels[k].outcomes;
            let mut i: usize = 0;
            while i < outcomes.len()
                invariant
                    i <= outcomes.len(),
                    k < self.levels.len(),
                    outcomes@ == outcomes_of(self.levels@)[k as int],
                    forall|j: int| 0 <= j < i ==> (#[trigger] outcomes@[j]) is Ok,
                decreases outcomes.len() - i,
            {
                if outcomes[i].is_err() {
                    assert(!all_ok(outcomes_of(self.levels@)[k as int]));
                    return false;
                }
                i += 1;
            }
            k += 1;
        }
        self.published.is_ok()
    }
}

/// Runs the engine on the sources in `fastq_files`: the first pass, the
/// plan for the names that it returns, the merges of that plan level by
/// level, and the publishing of the final accumulator of `search_dir` as
/// `output_name`. A failure of the first pass ends the run. A merge that
/// fails is reported and does not end it, and neither does a failure of
/// the publishing.
///
/// A run in which every step succeeded cleans up after itself and writes
/// the lines of its sources, in their order, as the output.
pub fn concatenate(
    ws: &mut Workspace,
    fastq_files: Vec<String>,
    search_dir: &String,
    output_name: &str,
) -> (r: Result<RunReport, FqcatError>)
    ensures
        match r {
            Err(e) => {
                &&& prepared(old(ws)@, names_of(fastq_files@), search_dir@).result == Err::<
                    (),
                    FqcatError,
                >(e)
                &&& final(ws)@ == run_prepared(old(ws)@, names_of(fastq_files@), search_dir@)
            },
            Ok(report) => {
                &&& prepared(old(ws)@, names_of(fastq_files@), search_dir@).result is Ok
                &&& report.tree@ == plan(prepared_names(names_of(fastq_files@), search_dir@), 0)
                &&& outcomes_of(report.levels@) == traversed(
                    run_prepared(old(ws)@, names_of(fastq_files@), search_dir@),
                    report.tree@,
                ).1
                &&& report.levels@.len() == report.tree@.len()
                &&& forall|k: int|
                    0 <= k < report.levels@.len() ==> #[trigger] report.levels@[k].level
                        == report.tree@[k].level
                &&& report.published == published(
                    run_merged(old(ws)@, names_of(fastq_files@), search_dir@),
                    search_dir@,
                    output_name@,
                ).result
                &&& final(ws)@ == run_files(
                    old(ws)@,
                    names_of(fastq_files@),
                    search_dir@,
                    output_name@,
                )
            },
        },
        (r matches Ok(report) && report.complete() && clean(old(ws)@) && unmarked(
            names_of(fastq_files@),
        ) && !is_accumulator(output_name@)) ==> {
            &&& cleaned_up(old(ws)@, final(ws)@, output_name@)
            &&& clean(final(ws)@)
            &&& steady(old(ws)@, names_of(fastq_files@)) ==> wrote_sources(
                old(ws)@,
                final(ws)@,
                names_of(fastq_files@),
                output_name@,
            )
        },
{
    let ghost sources = names_of(fastq_files@);
    let prepped = match prepare_for_merges(ws, fastq_files, search_dir) {
        Ok(new_files) => new_files,
        Err(e) => {
            return Err(e);
        },
    };
    let tree = match build_merge_tree(&prepped, None) {
        Ok(tree) => tree,
        Err(e) => {
            return Err(e);
        },
    };
    let levels = traverse_tree(ws, &tree);
    let published = publish_final_fastq(ws, search_dir.as_str(), output_name);
    let report = RunReport { tree, levels, published };
    proof {
        if report.complete() && clean(old(ws)@) && unmarked(sources) && !is_accumulator(
            output_name@,
        ) {
            lemma_successful_run_cleans_up(old(ws)@, sources, search_dir@, output_name@);
            if steady(old(ws)@, sources) {
                lemma_successful_run_output(old(ws)@, sources, search_dir@, output_name@);
            }
        }
    }
    Ok(report)
}

} // verus!
