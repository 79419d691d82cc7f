//! Character-level helpers on names.

use vstd::prelude::*;

verus! {

/// `pattern` stands in `text` starting at index `at`.
pub open spec fn occurs_at(text: Seq<char>, pattern: Seq<char>, at: int) -> bool {
    &&& 0 <= at
    &&& at + pattern.len() <= text.len()
    &&& text.subrange(at, at + pattern.len()) == pattern
}

/// `pattern` stands somewhere in `text`.
pub open spec fn contains_text(text: Seq<char>, pattern: Seq<char>) -> bool {
    exists|at: int| occurs_at(text, pattern, at)
}

/// `text` begins with `prefix`.
pub open spec fn starts_with(text: Seq<char>, prefix: Seq<char>) -> bool {
    occurs_at(text, prefix, 0)
}

/// `text` ends with `suffix`.
pub open spec fn ends_with(text: Seq<char>, suffix: Seq<char>) -> bool {
    occurs_at(text, suffix, text.len() - suffix.len())
}

/// The index of the last `c` in `text`, or -1 where there is none.
pub open spec fn last_index_of(text: Seq<char>, c: char) -> int
    decreases text.len(),
{
    if text.len() == 0 {
        -1
    } else if text.last() == c {
        text.len() - 1
    } else {
        last_index_of(text.drop_last(), c)
    }
}

/// The last `c` of a text that is made of two parts is the last `c` of the
/// second part, or else that of the first.
pub proof fn lemma_last_index_of_concat(a: Seq<char>, b: Seq<char>, c: char)
    ensures
        last_index_of(a + b, c) == if last_index_of(b, c) >= 0 {
            a.len() + last_index_of(b, c)
        } else {
            last_index_of(a, c)
        },
    decreases b.len(),
{
    if b.len() == 0 {
        assert(a + b == a);
    } else {
        assert((a + b).last() == b.last());
        assert((a + b).drop_last() == a + b.drop_last());
        if b.last() != c {
            lemma_last_index_of_concat(a, b.drop_last(), c);
        }
    }
}

/// A text in which `c` does not stand has no last `c`.
pub proof fn lemma_last_index_of_absent(text: Seq<char>, c: char)
    requires
        forall|i: int| 0 <= i < text.len() ==> text[i] != c,
    ensures
        last_index_of(text, c) == -1,
    decreases text.len(),
{
    if text.len() > 0 {
        let front = text.drop_last();
        assert forall|i: int| 0 <= i < front.len() implies front[i] != c by {
            assert(front[i] == text[i]);
        }
        lemma_last_index_of_absent(front, c);
    }
}

/// The characters of a string, one by one.
pub fn chars_of(s: &str) -> (out: Vec<char>)
    ensures
        out@ == s@,
{
    let mut out: Vec<char> = Vec::new();
    for c in it: s.chars()
        invariant
            it.seq() == s@,
            out@ == it.seq().take(it.index()),
    {
        out.push(c);
        assert(out@ == it.seq().take(it.index() + 1));
    }
    assert(out@ == s@);
    out
}

/// Whether `pattern` stands in `text` at index `at`.
pub fn matches_at(text: &Vec<char>, pattern: &Vec<char>, at: usize) -> (b: bool)
    ensures
        b == occurs_at(text@, pattern@, at as int),
{
    if pattern.len() > text.len() || at > text.len() - pattern.len() {
        return false;
    }
    let mut k: usize = 0;
    while k < pattern.len()
        invariant
            k <= pattern.len(),
            at + pattern.len() <= text.len(),
            forall|j: int| 0 <= j < k ==> text@[at + j] == pattern@[j],
        decreases pattern.len() - k,
    {
        if text[at + k] != pattern[k] {
            assert(text@.subrange(at as int, at + pattern.len())[k as int] != pattern@[k as int]);
            return false;
        }
        k += 1;
    }
    assert(text@.subrange(at as int, at + pattern.len()) =~= pattern@);
    true
}

/// Whether `pattern` stands somewhere in `text`.
pub fn find_text(text: &Vec<char>, pattern: &Vec<char>) -> (b: bool)
    ensures
        b == contains_text(text@, pattern@),
{
    if pattern.len() > text.len() {
        return false;
    }
    let last: usize = text.len() - pattern.len();
    let mut at: usize = 0;
    while at < last
        invariant
            last == text.len() - pattern.len(),
            at <= last,
            forall|j: int| 0 <= j < at ==> !occurs_at(text@, pattern@, j),
        decreases last - at,
    {
        if matches_at(text, pattern, at) {
            return true;
        }
        at += 1;
    }
    matches_at(text, pattern, last)
}

/// Whether two character vectors hold the same text.
pub fn same_text(a: &Vec<char>, b: &Vec<char>) -> (r: bool)
    ensures
        r == (a@ == b@),
{
    if a.len() != b.len() {
        return false;
    }
    let r = matches_at(a, b, 0);
    assert(a@.subrange(0, a@.len() as int) == a@);
    r
}

/// The characters of `text` from index `from` on.
pub fn tail_from(text: &Vec<char>, from: usize) -> (out: Vec<char>)
    requires
        from <= text.len(),
    ensures
        out@ == text@.skip(from as int),
{
    let mut out: Vec<char> = Vec::new();
    let mut i: usize = from;
    while i < text.len()
        invariant
            from <= i <= text.len(),
            out@ == text@.subrange(from as int, i as int),
        decreases text.len() - i,
    {
        out.push(text[i]);
        assert(out@ == text@.subrange(from as int, i + 1));
        i += 1;
    }
    assert(out@ == text@.skip(from as int));
    out
}

/// The index of the last `c` in `text`, if there is one.
pub fn rfind_char(text: &Vec<char>, c: char) -> (r: Option<usize>)
    ensures
        match r {
            Some(i) => i < text.len() && i as int == last_index_of(text@, c),
            None => last_index_of(text@, c) == -1,
        },
{
    let mut end: usize = text.len();
    assert(text@.take(end as int) == text@);
    while end > 0
        invariant
            end <= text.len(),
            last_index_of(text@, c) == last_index_of(text@.take(end as int), c),
        decreases end,
    {
        if text[end - 1] == c {
            return Some(end - 1);
        }
        assert(text@.take(end as int).drop_last() == text@.take(end - 1));
        end -= 1;
    }
    None
}

} // verus!
