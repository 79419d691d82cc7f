//! How files are named: the accumulator marker, the suffix that selects a
//! decoder, and the names of the intermediate files.

use vstd::prelude::*;
use vstd::string::*;
use crate::error::FqcatError;
use crate::text::{
    chars_of, contains_text, ends_with, find_text, last_index_of, lemma_last_index_of_absent,
    lemma_last_index_of_concat, matches_at, occurs_at, rfind_char, same_text, tail_from,
};

verus! {

/// The encoding of a source stream.
#[derive(Clone, Copy, Debug, PartialEq, Eq, Structural)]
pub enum Codec {
    /// Zstandard frames, one after another.
    Zstd,
    /// Gzip members, one after another.
    Gzip,
    /// Uncompressed text.
    Plain,
}

/// The text that marks a name as that of an accumulator.
pub open spec fn marker() -> Seq<char> {
    "tmp"@
}

/// What follows the last `/` of a name; the whole name where it has none.
pub open spec fn final_component(name: Seq<char>) -> Seq<char> {
    name.skip(last_index_of(name, '/') + 1)
}

/// A name is that of an accumulator when the marker stands in its final
/// component, the name of the file itself. The directories of a name do
/// not count: a source stays a source in whatever directory it lies.
pub open spec fn is_accumulator(name: Seq<char>) -> bool {
    contains_text(final_component(name), marker())
}

/// The suffix of a name: what follows the last `.` of its final component.
/// A final component without a `.`, one whose only `.` is its first
/// character, and the component `..` have no suffix.
pub open spec fn extension(name: Seq<char>) -> Option<Seq<char>> {
    let base = final_component(name);
    let dot = last_index_of(base, '.');
    if dot <= 0 || base == ".."@ {
        None
    } else {
        Some(base.skip(dot + 1))
    }
}

/// The decoder that a name selects, if its suffix is present.
pub open spec fn codec_of(name: Seq<char>) -> Option<Codec> {
    match extension(name) {
        None => None,
        Some(suffix) => Some(
            if suffix == "zst"@ {
                Codec::Zstd
            } else if suffix == "gz"@ {
                Codec::Gzip
            } else {
                Codec::Plain
            },
        ),
    }
}

/// A file name placed in a directory, with exactly one `/` added where the
/// directory does not already end in one.
pub open spec fn in_directory(dir: Seq<char>, file: Seq<char>) -> Seq<char> {
    if ends_with(dir, "/"@) {
        dir + file
    } else {
        dir + "/"@ + file
    }
}

/// The character of a decimal digit.
pub open spec fn digit(d: nat) -> char {
    if d == 0 {
        '0'
    } else if d == 1 {
        '1'
    } else if d == 2 {
        '2'
    } else if d == 3 {
        '3'
    } else if d == 4 {
        '4'
    } else if d == 5 {
        '5'
    } else if d == 6 {
        '6'
    } else if d == 7 {
        '7'
    } else if d == 8 {
        '8'
    } else {
        '9'
    }
}

/// A number in decimal, without leading zeros.
pub open spec fn decimal(n: nat) -> Seq<char>
    decreases n,
{
    if n < 10 {
        seq![digit(n)]
    } else {
        decimal(n / 10).push(digit(n % 10))
    }
}

/// The file name of the accumulator with the given index.
pub open spec fn accumulator_file(index: nat) -> Seq<char> {
    marker() + decimal(index) + ".fastq.zst"@
}

/// The name of the accumulator with the given index in a directory.
pub open spec fn accumulator_path(dir: Seq<char>, index: nat) -> Seq<char> {
    in_directory(dir, accumulator_file(index))
}

/// The value of a decimal digit.
pub open spec fn digit_value(c: char) -> nat {
    if c == '0' {
        0
    } else if c == '1' {
        1
    } else if c == '2' {
        2
    } else if c == '3' {
        3
    } else if c == '4' {
        4
    } else if c == '5' {
        5
    } else if c == '6' {
        6
    } else if c == '7' {
        7
    } else if c == '8' {
        8
    } else {
        9
    }
}

/// The number that a sequence of decimal digits stands for.
pub open spec fn decimal_value(digits: Seq<char>) -> nat
    decreases digits.len(),
{
    if digits.len() == 0 {
        0
    } else {
        10 * decimal_value(digits.drop_last()) + digit_value(digits.last())
    }
}

/// A number is read back from its decimal form, so two numbers with the
/// same decimal form are the same number.
pub proof fn lemma_decimal_value(n: nat)
    ensures
        decimal_value(decimal(n)) == n,
    decreases n,
{
    if n < 10 {
        assert(decimal(n).drop_last() == Seq::<char>::empty());
        assert(decimal_value(decimal(n).drop_last()) == 0);
    } else {
        lemma_decimal_value(n / 10);
        assert(decimal(n).drop_last() == decimal(n / 10));
    }
}

/// A number in decimal is made of digits: no `.` and no `/` stands in it.
pub proof fn lemma_decimal_is_digits(n: nat)
    ensures
        decimal(n).len() >= 1,
        forall|k: int| 0 <= k < decimal(n).len() ==> decimal(n)[k] != '.' && decimal(n)[k] != '/',
    decreases n,
{
    if n >= 10 {
        lemma_decimal_is_digits(n / 10);
        assert forall|k: int| 0 <= k < decimal(n).len() implies decimal(n)[k] != '.' && decimal(
            n,
        )[k] != '/' by {
            if k < decimal(n / 10).len() {
                assert(decimal(n)[k] == decimal(n / 10)[k]);
            }
        }
    }
}

/// The final component of the name of an accumulator is its file name.
pub proof fn lemma_accumulator_final_component(dir: Seq<char>, index: nat)
    ensures
        final_component(accumulator_path(dir, index)) == accumulator_file(index),
{
    reveal_strlit("tmp");
    reveal_strlit(".fastq.zst");
    reveal_strlit("/");
    let head = if ends_with(dir, "/"@) {
        dir
    } else {
        dir + "/"@
    };
    if ends_with(dir, "/"@) {
        let tail = dir.subrange(dir.len() - 1, dir.len() as int);
        assert(tail == "/"@);
        assert(tail[0] == '/');
    }
    assert(head.len() >= 1 && head.last() == '/');
    let digits = decimal(index);
    lemma_decimal_is_digits(index);
    let stem = "tmp"@ + digits;
    let suffix = ".fastq.zst"@;
    let file = stem + suffix;
    let path = accumulator_path(dir, index);
    assert(path == head + file);
    assert(file == accumulator_file(index));
    assert forall|k: int| 0 <= k < file.len() implies file[k] != '/' by {
        if k < 3 {
        } else if k < stem.len() {
            assert(file[k] == digits[k - 3]);
        } else {
            assert(file[k] == suffix[k - stem.len()]);
        }
    }
    lemma_last_index_of_absent(file, '/');
    lemma_last_index_of_concat(head, file, '/');
    assert(last_index_of(head, '/') == head.len() - 1);
    assert(path.skip(head.len() as int) == file);
}

/// The name of every accumulator carries the marker.
pub proof fn lemma_accumulator_is_marked(dir: Seq<char>, index: nat)
    ensures
        is_accumulator(accumulator_path(dir, index)),
{
    let file = accumulator_file(index);
    lemma_accumulator_final_component(dir, index);
    let tail = decimal(index) + ".fastq.zst"@;
    assert(file == marker() + tail);
    assert(file.subrange(0, marker().len() as int) == marker());
    assert(occurs_at(file, marker(), 0));
}

/// Accumulators with different indices have different names.
pub proof fn lemma_accumulator_paths_differ(dir: Seq<char>, i: nat, j: nat)
    requires
        i != j,
    ensures
        accumulator_path(dir, i) != accumulator_path(dir, j),
{
    let head = if ends_with(dir, "/"@) {
        dir + marker()
    } else {
        dir + "/"@ + marker()
    };
    let tail = ".fastq.zst"@;
    let a = accumulator_path(dir, i);
    let b = accumulator_path(dir, j);
    assert(a == head + decimal(i) + tail);
    assert(b == head + decimal(j) + tail);
    if a == b {
        assert(decimal(i).len() == decimal(j).len());
        assert forall|k: int| 0 <= k < decimal(i).len() implies decimal(i)[k] == decimal(j)[k] by {
            assert(a[head.len() + k] == decimal(i)[k]);
            assert(b[head.len() + k] == decimal(j)[k]);
        }
        assert(decimal(i) =~= decimal(j));
        lemma_decimal_value(i);
        lemma_decimal_value(j);
    }
}

/// The name of every accumulator selects the Zstandard decoder.
pub proof fn lemma_accumulator_is_zstd(dir: Seq<char>, index: nat)
    ensures
        codec_of(accumulator_path(dir, index)) == Some(Codec::Zstd),
{
    reveal_strlit("tmp");
    reveal_strlit(".fastq.zst");
    reveal_strlit("zst");
    reveal_strlit("..");
    lemma_accumulator_final_component(dir, index);
    lemma_decimal_is_digits(index);
    let stem = "tmp"@ + decimal(index);
    let suffix = ".fastq.zst"@;
    let file = stem + suffix;
    assert(file == accumulator_file(index));
    let dot = last_index_of(suffix, '.');
    assert(dot == 6) by {
        let s9 = suffix.drop_last();
        let s8 = s9.drop_last();
        let s7 = s8.drop_last();
        assert(suffix.last() == 't');
        assert(s9.last() == 's');
        assert(s8.last() == 'z');
        assert(s7.last() == '.');
        assert(last_index_of(s7, '.') == 6);
        assert(last_index_of(s8, '.') == 6);
        assert(last_index_of(s9, '.') == 6);
    }
    lemma_last_index_of_concat(stem, suffix, '.');
    assert(last_index_of(file, '.') == stem.len() + 6);
    assert(file.skip(stem.len() as int + 7) == "zst"@);
    assert(file.len() != 2);
}

/// The characters of the final component of `name`.
pub fn final_chars(name: &str) -> (base: Vec<char>)
    ensures
        base@ == final_component(name@),
{
    let text = chars_of(name);
    let start: usize = match rfind_char(&text, '/') {
        Some(i) => i + 1,
        None => 0,
    };
    tail_from(&text, start)
}

/// Whether the marker stands in the final component of `name`.
pub fn carries_marker(name: &str) -> (b: bool)
    ensures
        b == is_accumulator(name@),
{
    let base = final_chars(name);
    let pattern = chars_of("tmp");
    find_text(&base, &pattern)
}

/// Selects the decoder by the suffix of `name`: `zst` is Zstandard, `gz` is
/// gzip, any other suffix is plain text. A name without a suffix is refused.
pub fn select_codec(name: &str) -> (r: Result<Codec, FqcatError>)
    ensures
        r == match codec_of(name@) {
            Some(codec) => Ok::<Codec, FqcatError>(codec),
            None => Err(FqcatError::Naming),
        },
{
    let base = final_chars(name);
    let parent = chars_of("..");
    if same_text(&base, &parent) {
        return Err(FqcatError::Naming);
    }
    match rfind_char(&base, '.') {
        None => Err(FqcatError::Naming),
        Some(dot) => {
            if dot == 0 {
                Err(FqcatError::Naming)
            } else {
                let suffix = tail_from(&base, dot + 1);
                let zst = chars_of("zst");
                let gz = chars_of("gz");
                if same_text(&suffix, &zst) {
                    Ok(Codec::Zstd)
                } else if same_text(&suffix, &gz) {
                    Ok(Codec::Gzip)
                } else {
                    Ok(Codec::Plain)
                }
            }
        },
    }
}

/// The one-character text of a decimal digit.
fn digit_text(d: usize) -> (t: &'static str)
    requires
        d < 10,
    ensures
        t@ == seq![digit(d as nat)],
{
    proof {
        reveal_strlit("0");
        reveal_strlit("1");
        reveal_strlit("2");
        reveal_strlit("3");
        reveal_strlit("4");
        reveal_strlit("5");
        reveal_strlit("6");
        reveal_strlit("7");
        reveal_strlit("8");
        reveal_strlit("9");
    }
    let t = if d == 0 {
        "0"
    } else if d == 1 {
        "1"
    } else if d == 2 {
        "2"
    } else if d == 3 {
        "3"
    } else if d == 4 {
        "4"
    } else if d == 5 {
        "5"
    } else if d == 6 {
        "6"
    } else if d == 7 {
        "7"
    } else if d == 8 {
        "8"
    } else {
        "9"
    };
    assert(t@ =~= seq![digit(d as nat)]);
    t
}

/// Appends `n` in decimal to `out`.
fn push_decimal(out: &mut String, n: usize)
    ensures
        final(out)@ == old(out)@ + decimal(n as nat),
    decreases n,
{
    if n >= 10 {
        push_decimal(out, n / 10);
    }
    out.append(digit_text(n % 10));
    assert(final(out)@ =~= old(out)@ + decimal(n as nat));
}

/// Places `file` in `dir`, adding a `/` where `dir` does not end in one.
pub fn join_directory(dir: &str, file: &str) -> (path: String)
    ensures
        path@ == in_directory(dir@, file@),
{
    let text = chars_of(dir);
    let slash = chars_of("/");
    let mut path = String::new();
    path.append(dir);
    let closed = text.len() >= slash.len() && matches_at(&text, &slash, text.len() - slash.len());
    if !closed {
        path.append("/");
    }
    path.append(file);
    assert(path@ =~= in_directory(dir@, file@));
    path
}

/// The name of the accumulator with the given index in `dir`.
pub fn accumulator_name(dir: &str, index: usize) -> (name: String)
    ensures
        name@ == accumulator_path(dir@, index as nat),
{
    let mut file = String::new();
    file.append("tmp");
    push_decimal(&mut file, index);
    file.append(".fastq.zst");
    assert(file@ =~= accumulator_file(index as nat));
    join_directory(dir, file.as_str())
}

} // verus!
