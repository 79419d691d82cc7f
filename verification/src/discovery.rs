//! Which of the files found in a directory are inputs.

use vstd::prelude::*;
use crate::error::FqcatError;
use crate::names::{final_chars, final_component, in_directory, join_directory};
use crate::text::{chars_of, matches_at, starts_with};
use crate::tree::names_of;

verus! {

/// The pattern that the inputs in `dir` match: every name in `dir` that
/// ends in `.fastq.gz`.
pub open spec fn pattern_in(dir: Seq<char>) -> Seq<char> {
    in_directory(dir, "*.fastq.gz"@)
}

/// A file whose name, without its directories, begins with `._` holds
/// metadata of the platform and is no input.
pub open spec fn is_metadata(name: Seq<char>) -> bool {
    starts_with(final_component(name), "._"@)
}

/// The names that are inputs, in their order.
pub open spec fn selected(names: Seq<Seq<char>>) -> Seq<Seq<char>>
    decreases names.len(),
{
    if names.len() == 0 {
        Seq::empty()
    } else if is_metadata(names.last()) {
        selected(names.drop_last())
    } else {
        selected(names.drop_last()).push(names.last())
    }
}

/// The pattern to search `search_dir` with.
pub fn search_pattern(search_dir: &str) -> (pattern: String)
    ensures
        pattern@ == pattern_in(search_dir@),
{
    join_directory(search_dir, "*.fastq.gz")
}

/// Whether a file holds metadata of the platform.
pub fn holds_metadata(name: &str) -> (b: bool)
    ensures
        b == is_metadata(name@),
{
    let base = final_chars(name);
    let prefix = chars_of("._");
    matches_at(&base, &prefix, 0)
}

/// Selects the inputs among the files that matched the search pattern,
/// keeping their order. Fails where none is left.
pub fn find_fastqs(matches: Vec<String>) -> (r: Result<Vec<String>, FqcatError>)
    ensures
        match r {
            Ok(fastq_files) => {
                &&& names_of(fastq_files@) == selected(names_of(matches@))
                &&& fastq_files@.len() > 0
            },
            Err(e) => e == FqcatError::Discovery && selected(names_of(matches@)).len() == 0,
        },
{
    let ghost names = names_of(matches@);
    let mut fastq_files: Vec<String> = Vec::new();
    let mut i: usize = 0;
    while i < matches.len()
        invariant
            i <= matches.len(),
            names == names_of(matches@),
            names_of(fastq_files@) == selected(names.take(i as int)),
        decreases matches.len() - i,
    {
        proof {
            assert(names.take(i + 1).drop_last() == names.take(i as int));
            assert(names.take(i + 1).last() == matches@[i as int]@);
        }
        if !holds_metadata(matches[i].as_str()) {
            let ghost before = names_of(fastq_files@);
            fastq_files.push(matches[i].clone());
            assert(names_of(fastq_files@) == before.push(matches@[i as int]@));
        }
        i += 1;
    }
    assert(names.take(matches.len() as int) == names);
    if fastq_files.is_empty() {
        assert(names_of(fastq_files@).len() == 0);
        return Err(FqcatError::Discovery);
    }
    Ok(fastq_files)
}

} // verus!
