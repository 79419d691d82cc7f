//! A whole run: the first pass, the merges of every level, and the
//! publishing of what is left. What a run that succeeds leaves behind.

use vstd::prelude::*;
use crate::error::FqcatError;
use crate::merge::{level_merged, merged, traversed};
use crate::names::{
    accumulator_path, is_accumulator, lemma_accumulator_is_marked, lemma_accumulator_paths_differ,
};
use crate::prepare::{prepared, prepared_names, recoded};
use crate::publish::{final_accumulator, published};
use crate::tree::{level_plan, pairs_of, plan, survivors_of, LevelPlan, PairPlan};
use crate::workspace::Files;

verus! {

/// Every merge of a level succeeded.
pub open spec fn all_ok(outcomes: Seq<Result<(), FqcatError>>) -> bool {
    forall|i: int| 0 <= i < outcomes.len() ==> (#[trigger] outcomes[i]) is Ok
}

/// Every merge of every level succeeded.
pub open spec fn levels_ok(levels: Seq<Seq<Result<(), FqcatError>>>) -> bool {
    forall|k: int| 0 <= k < levels.len() ==> all_ok(#[trigger] levels[k])
}

/// The files after the first pass.
pub open spec fn run_prepared(files: Files, sources: Seq<Seq<char>>, dir: Seq<char>) -> Files {
    prepared(files, sources, dir).files
}

/// The files after the merges of every level.
pub open spec fn run_merged(files: Files, sources: Seq<Seq<char>>, dir: Seq<char>) -> Files {
    traversed(run_prepared(files, sources, dir), plan(prepared_names(sources, dir), 0)).0
}

/// The files after a whole run: the first pass over the sources, the plan
/// for the names that it returns, the merges of that plan, and the
/// publishing of the final accumulator as `output`.
pub open spec fn run_files(
    files: Files,
    sources: Seq<Seq<char>>,
    dir: Seq<char>,
    output: Seq<char>,
) -> Files {
    published(run_merged(files, sources, dir), dir, output).files
}

/// A whole run succeeds when the first pass, every merge of every level
/// and the publishing succeed.
pub open spec fn run_succeeds(
    files: Files,
    sources: Seq<Seq<char>>,
    dir: Seq<char>,
    output: Seq<char>,
) -> bool {
    &&& prepared(files, sources, dir).result is Ok
    &&& levels_ok(
        traversed(run_prepared(files, sources, dir), plan(prepared_names(sources, dir), 0)).1,
    )
    &&& published(run_merged(files, sources, dir), dir, output).result is Ok
}

/// The run left the working directory as it found it, but for the output:
/// the output exists, no other file was added or removed, and every other
/// file has the bytes it had.
pub open spec fn cleaned_up(before: Files, after: Files, output: Seq<char>) -> bool {
    &&& after.dom() == before.dom().insert(output)
    &&& forall|name: Seq<char>|
        #[trigger] before.dom().contains(name) && name != output ==> after[name] == before[name]
}

/// No file is an accumulator: the marker stands in the file name of none.
/// The names of the directories do not count.
pub open spec fn clean(files: Files) -> bool {
    forall|name: Seq<char>| #[trigger] files.dom().contains(name) ==> !is_accumulator(name)
}

/// No name is that of an accumulator: the marker stands in the file name
/// of none, whatever its directories are called.
pub open spec fn unmarked(names: Seq<Seq<char>>) -> bool {
    forall|i: int| 0 <= i < names.len() ==> !is_accumulator(#[trigger] names[i])
}

/// Every file of `base` is still there, with the bytes it had.
pub open spec fn keeps(files: Files, base: Files) -> bool {
    forall|name: Seq<char>|
        #[trigger] base.dom().contains(name) ==> files.dom().contains(name) && files[name]
            == base[name]
}

/// The names of a level are staged when an accumulator stands at every
/// even position and no accumulator stands at two positions.
pub open spec fn staged(names: Seq<Seq<char>>) -> bool {
    &&& forall|i: int| 0 <= i < names.len() && i % 2 == 0 ==> is_accumulator(#[trigger] names[i])
    &&& forall|i: int, j: int|
        0 <= i < j < names.len() && is_accumulator(#[trigger] names[i]) && is_accumulator(
            #[trigger] names[j],
        ) ==> names[i] != names[j]
}

/// `name` is an accumulator of the level that has not been merged away by
/// the first `done` pairs.
pub open spec fn live(names: Seq<Seq<char>>, done: int, name: Seq<char>) -> bool {
    exists|i: int|
        0 <= i < names.len() && #[trigger] names[i] == name && is_accumulator(name) && !(i % 2 == 1
            && i < 2 * done)
}

/// Every file is a file of `base` or a live accumulator of the level.
pub open spec fn only_adds(files: Files, base: Files, names: Seq<Seq<char>>, done: int) -> bool {
    forall|name: Seq<char>|
        #[trigger] files.dom().contains(name) ==> base.dom().contains(name) || live(
            names,
            done,
            name,
        )
}

/// A merge that succeeds, with an accumulator on its left, touches its
/// two files and no other: the left file exists afterwards, the right
/// file is gone where it is an accumulator and untouched where it is not.
pub proof fn lemma_merge_touches_its_pair(files: Files, pair: PairPlan)
    requires
        is_accumulator(pair.left),
        merged(files, pair).result is Ok,
    ensures
        files.dom().contains(pair.right),
        forall|name: Seq<char>|
            name != pair.left && name != pair.right ==> {
                &&& merged(files, pair).files.dom().contains(name) == files.dom().contains(name)
                &&& merged(files, pair).files[name] == files[name]
            },
        is_accumulator(pair.right) ==> !merged(files, pair).files.dom().contains(pair.right),
        pair.left != pair.right ==> merged(files, pair).files.dom().contains(pair.left),
        !is_accumulator(pair.right) ==> {
            &&& merged(files, pair).files.dom().contains(pair.right)
            &&& merged(files, pair).files[pair.right] == files[pair.right]
        },
{
}

/// After the first `k` merges of a level, all of which succeeded, the
/// files of `base` are untouched, and every other file is an accumulator
/// of the level that was not merged away.
pub proof fn lemma_level_keeps_base(
    base: Files,
    files: Files,
    names: Seq<Seq<char>>,
    k: int,
)
    requires
        clean(base),
        staged(names),
        keeps(files, base),
        only_adds(files, base, names, 0),
        0 <= k <= pairs_of(names).len(),
        all_ok(level_merged(files, pairs_of(names).take(k)).1),
    ensures
        keeps(level_merged(files, pairs_of(names).take(k)).0, base),
        only_adds(level_merged(files, pairs_of(names).take(k)).0, base, names, k),
    decreases k,
{
    let pairs = pairs_of(names);
    if k == 0 {
        assert(pairs.take(0) == Seq::<PairPlan>::empty());
    } else {
        let head = pairs.take(k - 1);
        assert(pairs.take(k).drop_last() == head);
        let mid = level_merged(files, head);
        let pair = pairs[k - 1];
        assert(pairs.take(k).last() == pair);
        let step = merged(mid.0, pair);
        assert(level_merged(files, pairs.take(k)).1 == mid.1.push(step.result));
        assert(all_ok(mid.1)) by {
            assert forall|i: int| 0 <= i < mid.1.len() implies (#[trigger] mid.1[i]) is Ok by {
                assert(mid.1.push(step.result)[i] == mid.1[i]);
            }
        }
        assert(step.result is Ok) by {
            assert(mid.1.push(step.result)[mid.1.len() as int] == step.result);
        }
        lemma_level_keeps_base(base, files, names, k - 1);
        assert(pair.left == names[2 * (k - 1)]);
        assert(pair.right == names[2 * (k - 1) + 1]);
        assert(is_accumulator(names[2 * (k - 1)]));
        lemma_merge_touches_its_pair(mid.0, pair);
        let after = step.files;
        assert(level_merged(files, pairs.take(k)).0 == after);
        assert forall|name: Seq<char>| base.dom().contains(name) implies after.dom().contains(name)
            && after[name] == base[name] by {
            assert(!is_accumulator(name));
            assert(mid.0.dom().contains(name) && mid.0[name] == base[name]);
        }
        assert forall|name: Seq<char>| after.dom().contains(name) implies base.dom().contains(name)
            || live(names, k, name) by {
            if name == pair.left {
                assert(names[2 * (k - 1)] == name);
            } else if name == pair.right {
                assert(!is_accumulator(name));
                assert(mid.0.dom().contains(name));
                if !base.dom().contains(name) {
                    assert(live(names, k - 1, name));
                }
            } else {
                assert(mid.0.dom().contains(name));
                if !base.dom().contains(name) {
                    assert(live(names, k - 1, name));
                    let i = choose|i: int|
                        0 <= i < names.len() && #[trigger] names[i] == name && is_accumulator(name)
                            && !(i % 2 == 1 && i < 2 * (k - 1));
                    if i == 2 * (k - 1) + 1 {
                        assert(names[i] == pair.right);
                    }
                    assert(names[i] == name);
                }
            }
        }
    }
}

/// After a level whose merges all succeeded, the names that are left are
/// staged again, and every file that was added is among them.
pub proof fn lemma_level_leaves_survivors(base: Files, files: Files, names: Seq<Seq<char>>)
    requires
        clean(base),
        staged(names),
        keeps(files, base),
        only_adds(files, base, names, 0),
        all_ok(level_merged(files, pairs_of(names)).1),
    ensures
        staged(survivors_of(names)),
        keeps(level_merged(files, pairs_of(names)).0, base),
        only_adds(level_merged(files, pairs_of(names)).0, base, survivors_of(names), 0),
{
    let pairs = pairs_of(names);
    let left = survivors_of(names);
    let after = level_merged(files, pairs).0;
    assert(pairs.take(pairs.len() as int) == pairs);
    lemma_level_keeps_base(base, files, names, pairs.len() as int);
    assert forall|i: int| 0 <= i < left.len() && i % 2 == 0 implies is_accumulator(
        #[trigger] left[i],
    ) by {
        assert(left[i] == names[2 * i]);
    }
    assert forall|i: int, j: int|
        0 <= i < j < left.len() && is_accumulator(#[trigger] left[i]) && is_accumulator(
            #[trigger] left[j],
        ) implies left[i] != left[j] by {
        assert(left[i] == names[2 * i]);
        assert(left[j] == names[2 * j]);
    }
    assert forall|name: Seq<char>| #[trigger] after.dom().contains(name) implies base.dom().contains(
        name,
    ) || live(left, 0, name) by {
        if !base.dom().contains(name) {
            assert(live(names, pairs.len() as int, name));
            let i = choose|i: int|
                0 <= i < names.len() && #[trigger] names[i] == name && is_accumulator(name) && !(i
                    % 2 == 1 && i < 2 * pairs.len());
            assert(i % 2 == 0);
            assert(left[i / 2] == names[i]);
        }
    }
}

/// Running a plan runs its first level and then the rest of it.
pub proof fn lemma_traversed_first(files: Files, chain: Seq<LevelPlan>)
    requires
        chain.len() >= 1,
    ensures
        traversed(files, chain).0 == traversed(
            level_merged(files, chain[0].pairs).0,
            chain.drop_first(),
        ).0,
        traversed(files, chain).1 == seq![level_merged(files, chain[0].pairs).1] + traversed(
            level_merged(files, chain[0].pairs).0,
            chain.drop_first(),
        ).1,
    decreases chain.len(),
{
    let first = level_merged(files, chain[0].pairs);
    let none = Seq::<LevelPlan>::empty();
    if chain.len() == 1 {
        assert(chain.drop_last() == none);
        assert(chain.drop_first() == none);
        assert(chain.last() == chain[0]);
        assert(traversed(files, none).0 == files);
        assert(traversed(files, none).1 == Seq::<Seq<Result<(), FqcatError>>>::empty());
        assert(traversed(first.0, none).0 == first.0);
        assert(traversed(first.0, none).1 == Seq::<Seq<Result<(), FqcatError>>>::empty());
        assert(traversed(files, chain).0 == first.0);
        assert(traversed(files, chain).1 == Seq::<Seq<Result<(), FqcatError>>>::empty().push(
            first.1,
        ));
        assert(Seq::<Seq<Result<(), FqcatError>>>::empty().push(first.1) == seq![first.1]
            + Seq::<Seq<Result<(), FqcatError>>>::empty());
    } else {
        let front = chain.drop_last();
        lemma_traversed_first(files, front);
        assert(front[0] == chain[0]);
        assert(front.drop_first() == chain.drop_first().drop_last());
        assert(chain.drop_first().last() == chain.last());
        let inner = traversed(first.0, front.drop_first());
        let last = level_merged(inner.0, chain.last().pairs);
        assert(traversed(files, front).0 == inner.0);
        assert(traversed(files, chain).0 == last.0);
        assert(traversed(first.0, chain.drop_first()).0 == last.0);
        assert(traversed(files, chain).1 == traversed(files, front).1.push(last.1));
        assert(traversed(first.0, chain.drop_first()).1 == inner.1.push(last.1));
        assert((seq![first.1] + inner.1).push(last.1) == seq![first.1] + inner.1.push(last.1));
    }
}

/// After the merges of a whole plan, all of which succeeded, the files of
/// `base` are untouched, and the only other file that can be left is the
/// first of the names.
pub proof fn lemma_traversal_keeps_base(
    base: Files,
    files: Files,
    names: Seq<Seq<char>>,
    previous: nat,
)
    requires
        clean(base),
        staged(names),
        names.len() >= 1,
        keeps(files, base),
        only_adds(files, base, names, 0),
        levels_ok(traversed(files, plan(names, previous)).1),
    ensures
        keeps(traversed(files, plan(names, previous)).0, base),
        only_adds(traversed(files, plan(names, previous)).0, base, seq![names[0]], 0),
    decreases names.len(),
{
    let chain = plan(names, previous);
    let left = survivors_of(names);
    let first = level_merged(files, pairs_of(names));
    assert(chain[0] == level_plan(names, previous + 1));
    lemma_traversed_first(files, chain);
    let rest = traversed(first.0, chain.drop_first());
    let outcomes = traversed(files, chain).1;
    assert(outcomes[0] == first.1);
    assert(all_ok(first.1));
    lemma_level_leaves_survivors(base, files, names);
    if left.len() > 1 {
        assert(chain.drop_first() == plan(left, previous + 1));
        assert(levels_ok(rest.1)) by {
            assert forall|k: int| 0 <= k < rest.1.len() implies all_ok(#[trigger] rest.1[k]) by {
                assert(outcomes[k + 1] == rest.1[k]);
            }
        }
        lemma_traversal_keeps_base(base, first.0, left, previous + 1);
        assert(left[0] == names[0]);
    } else {
        assert(chain.drop_first() == Seq::<LevelPlan>::empty());
        assert(left == seq![names[0]]);
    }
}

/// After the first pass over the first `k` sources, where it succeeded,
/// the files of `base` are untouched, and every other file is the
/// accumulator of an even position below `k`.
pub proof fn lemma_first_pass_keeps_base(base: Files, sources: Seq<Seq<char>>, dir: Seq<char>, k: int)
    requires
        clean(base),
        0 <= k <= sources.len(),
        prepared(base, sources.take(k), dir).result is Ok,
    ensures
        keeps(prepared(base, sources.take(k), dir).files, base),
        forall|name: Seq<char>|
            #[trigger] prepared(base, sources.take(k), dir).files.dom().contains(name)
                ==> base.dom().contains(name) || exists|i: int|
                0 <= i < k && i % 2 == 0 && name == #[trigger] accumulator_path(dir, i as nat),
    decreases k,
{
    if k == 0 {
        assert(sources.take(0) == Seq::<Seq<char>>::empty());
    } else {
        let head = sources.take(k - 1);
        assert(sources.take(k).drop_last() == head);
        let before = prepared(base, head, dir);
        lemma_first_pass_keeps_base(base, sources, dir, k - 1);
        let after = prepared(base, sources.take(k), dir).files;
        if (k - 1) % 2 == 0 {
            let output = accumulator_path(dir, (k - 1) as nat);
            lemma_accumulator_is_marked(dir, (k - 1) as nat);
            assert(after == recoded(before.files, sources.take(k).last(), output).files);
            assert forall|name: Seq<char>| #[trigger]
                after.dom().contains(name) implies base.dom().contains(name) || exists|i: int|
                0 <= i < k && i % 2 == 0 && name == #[trigger] accumulator_path(dir, i as nat) by {
                if name != output {
                    assert(before.files.dom().contains(name));
                }
            }
        }
    }
}

/// The names that the first pass returns are staged, where no source is
/// an accumulator.
pub proof fn lemma_prepared_names_staged(sources: Seq<Seq<char>>, dir: Seq<char>)
    requires
        unmarked(sources),
    ensures
        staged(prepared_names(sources, dir)),
{
    let names = prepared_names(sources, dir);
    assert forall|i: int| 0 <= i < names.len() && i % 2 == 0 implies is_accumulator(
        #[trigger] names[i],
    ) by {
        lemma_accumulator_is_marked(dir, i as nat);
    }
    assert forall|i: int, j: int|
        0 <= i < j < names.len() && is_accumulator(#[trigger] names[i]) && is_accumulator(
            #[trigger] names[j],
        ) implies names[i] != names[j] by {
        if i % 2 != 0 {
            assert(names[i] == sources[i]);
        }
        if j % 2 != 0 {
            assert(names[j] == sources[j]);
        }
        lemma_accumulator_paths_differ(dir, i as nat, j as nat);
    }
}

/// After a first pass that succeeded, the names that it returns are
/// staged, the files that were there are untouched, and every file that
/// was added is an accumulator among those names.
pub proof fn lemma_first_pass_stages(files: Files, sources: Seq<Seq<char>>, dir: Seq<char>)
    requires
        clean(files),
        unmarked(sources),
        prepared(files, sources, dir).result is Ok,
    ensures
        staged(prepared_names(sources, dir)),
        keeps(run_prepared(files, sources, dir), files),
        only_adds(run_prepared(files, sources, dir), files, prepared_names(sources, dir), 0),
{
    let names = prepared_names(sources, dir);
    let first = run_prepared(files, sources, dir);
    assert(sources.take(sources.len() as int) == sources);
    lemma_first_pass_keeps_base(files, sources, dir, sources.len() as int);
    lemma_prepared_names_staged(sources, dir);
    assert forall|name: Seq<char>| #[trigger] first.dom().contains(name) implies files.dom().contains(
        name,
    ) || live(names, 0, name) by {
        if !files.dom().contains(name) {
            let i = choose|i: int|
                0 <= i < sources.len() && i % 2 == 0 && name == #[trigger] accumulator_path(
                    dir,
                    i as nat,
                );
            lemma_accumulator_is_marked(dir, i as nat);
            assert(names[i] == name);
        }
    }
}

/// A run needs a source: over an empty list nothing is there to publish,
/// so a run that succeeds has at least one source.
pub proof fn lemma_run_needs_a_source(
    files: Files,
    sources: Seq<Seq<char>>,
    dir: Seq<char>,
    output: Seq<char>,
)
    requires
        clean(files),
        run_succeeds(files, sources, dir, output),
    ensures
        sources.len() >= 1,
{
    if sources.len() == 0 {
        let names = prepared_names(sources, dir);
        let first = run_prepared(files, sources, dir);
        let chain = plan(names, 0);
        lemma_accumulator_is_marked(dir, 0);
        assert(chain[0] == level_plan(names, 1));
        lemma_traversed_first(first, chain);
        assert(chain.drop_first() == Seq::<LevelPlan>::empty());
        assert(pairs_of(names) == Seq::<PairPlan>::empty());
        assert(level_merged(first, pairs_of(names)).0 == first);
        assert(traversed(first, Seq::<LevelPlan>::empty()).0 == first);
        assert(run_merged(files, sources, dir) == first);
        assert(first == files);
        assert(!first.dom().contains(final_accumulator(dir)));
    }
}

/// A run that succeeds cleans up after itself. Where no file of the
/// working directory, no source and not the output is an accumulator, a
/// run that succeeds leaves the working directory as it found it, but for
/// the output: no accumulator is left, and every file but the output has
/// the bytes it had. The working directory itself may have any name: only
/// the names of the files count.
pub proof fn lemma_successful_run_cleans_up(
    files: Files,
    sources: Seq<Seq<char>>,
    dir: Seq<char>,
    output: Seq<char>,
)
    requires
        clean(files),
        unmarked(sources),
        !is_accumulator(output),
        run_succeeds(files, sources, dir, output),
    ensures
        cleaned_up(files, run_files(files, sources, dir, output), output),
        clean(run_files(files, sources, dir, output)),
{
    let names = prepared_names(sources, dir);
    let first = run_prepared(files, sources, dir);
    let second = run_merged(files, sources, dir);
    let end = run_files(files, sources, dir, output);
    let last = final_accumulator(dir);
    lemma_accumulator_is_marked(dir, 0);
    lemma_run_needs_a_source(files, sources, dir, output);
    lemma_first_pass_stages(files, sources, dir);
    lemma_traversal_keeps_base(files, first, names, 0);
    assert(names[0] == last);
    assert forall|name: Seq<char>| second.dom().contains(name) implies files.dom().contains(name)
        || name == last by {
        if !files.dom().contains(name) {
            assert(live(seq![names[0]], 0, name));
        }
    }
    assert(end.dom() =~= files.dom().insert(output));
}

} // verus!
