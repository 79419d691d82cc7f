//! Text as a sequence of lines: how a decoded stream is read line by line,
//! and how lines are written out again in batches.

use vstd::arithmetic::div_mod::{lemma_mod_multiples_vanish, lemma_small_mod};
use vstd::prelude::*;
use vstd::slice::{slice_subrange, slice_to_vec};
use vstd::utf8::{is_char_boundary_iff_not_is_continuation_byte, valid_utf8, valid_utf8_split};
use crate::codec::is_utf8;
use crate::error::LineError;

verus! {

/// The byte that ends a line.
pub const NEWLINE: u8 = 10;

/// The byte that is dropped where it stands directly before the end of a
/// line.
pub const CARRIAGE_RETURN: u8 = 13;

/// What a line reader gets out of a stream.
pub ghost struct LineRun {
    /// The lines read before the first failure, in order, without their
    /// line ends.
    pub lines: Seq<Seq<u8>>,
    /// Whether the reader reached the end of the stream without a failure.
    pub complete: bool,
}

/// The index of the first line end in `data`; its length where it has none.
pub open spec fn first_newline(data: Seq<u8>) -> int
    decreases data.len(),
{
    if data.len() == 0 || data[0] == NEWLINE {
        0
    } else {
        1 + first_newline(data.skip(1))
    }
}

/// A line without the carriage return that may stand at its end.
pub open spec fn strip_return(raw: Seq<u8>) -> Seq<u8> {
    if raw.len() > 0 && raw.last() == CARRIAGE_RETURN {
        raw.drop_last()
    } else {
        raw
    }
}

/// Reads `data` line by line. `clean` says whether the stream behind `data`
/// ended without an error; where it did not, the reader fails once `data` is
/// used up.
///
/// A line runs up to the next line end, which is dropped together with a
/// carriage return directly before it. Text after the last line end is a
/// line of its own and keeps its carriage return. A line that is not valid
/// UTF-8 is a failure, and reading stops there.
pub open spec fn read_lines(data: Seq<u8>, clean: bool) -> LineRun
    decreases data.len(),
{
    if data.len() == 0 {
        LineRun { lines: Seq::empty(), complete: clean }
    } else {
        let end = first_newline(data);
        if 0 <= end < data.len() {
            let raw = data.take(end);
            if valid_utf8(raw) {
                let rest = read_lines(data.skip(end + 1), clean);
                LineRun { lines: seq![strip_return(raw)] + rest.lines, complete: rest.complete }
            } else {
                LineRun { lines: Seq::empty(), complete: false }
            }
        } else if clean && valid_utf8(data) {
            LineRun { lines: seq![data], complete: true }
        } else {
            LineRun { lines: Seq::empty(), complete: false }
        }
    }
}

/// How the reading of `data` ends: without an error, or with the error of
/// the line at which it stops. A line that is not valid UTF-8 stops it; so
/// does, behind the last line end, a stream that did not end cleanly.
pub open spec fn read_end(data: Seq<u8>, clean: bool) -> Option<LineError>
    decreases data.len(),
{
    if data.len() == 0 {
        if clean {
            None
        } else {
            Some(LineError::Decode)
        }
    } else {
        let end = first_newline(data);
        if 0 <= end < data.len() {
            if valid_utf8(data.take(end)) {
                read_end(data.skip(end + 1), clean)
            } else {
                Some(LineError::NotUtf8)
            }
        } else if !clean {
            Some(LineError::Decode)
        } else if valid_utf8(data) {
            None
        } else {
            Some(LineError::NotUtf8)
        }
    }
}

/// The reading ends without an error exactly where the run is complete.
pub proof fn lemma_read_end(data: Seq<u8>, clean: bool)
    ensures
        read_end(data, clean) is None <==> read_lines(data, clean).complete,
    decreases data.len(),
{
    if data.len() > 0 {
        let end = first_newline(data);
        if 0 <= end < data.len() && valid_utf8(data.take(end)) {
            lemma_read_end(data.skip(end + 1), clean);
        }
    }
}

/// The lines written out: each followed by one line end.
pub open spec fn render(lines: Seq<Seq<u8>>) -> Seq<u8>
    decreases lines.len(),
{
    if lines.len() == 0 {
        Seq::empty()
    } else {
        render(lines.drop_last()) + lines.last() + seq![NEWLINE]
    }
}

/// How many lines of a run reach the output when they are written in
/// batches of `batch` lines: all of a complete run; of a failed run only
/// the full batches, since the batch that was being filled is dropped. A
/// batch of no lines is never full.
pub open spec fn flushed(run: LineRun, batch: nat) -> nat {
    if run.complete {
        run.lines.len()
    } else if batch == 0 {
        0
    } else {
        (run.lines.len() - run.lines.len() % batch) as nat
    }
}

/// The bytes that reach the output when `data` is read line by line and
/// written in batches of `batch` lines.
pub open spec fn payload_of(data: Seq<u8>, clean: bool, batch: nat) -> Seq<u8> {
    let run = read_lines(data, clean);
    render(run.lines.take(flushed(run, batch) as int))
}

/// The lines held by a batch buffer.
pub open spec fn lines_of(batch: Seq<Vec<u8>>) -> Seq<Seq<u8>> {
    Seq::new(batch.len(), |i: int| batch[i]@)
}

/// Writing two runs of lines one after the other writes their
/// concatenation.
pub proof fn lemma_render_concat(a: Seq<Seq<u8>>, b: Seq<Seq<u8>>)
    ensures
        render(a + b) == render(a) + render(b),
    decreases b.len(),
{
    if b.len() == 0 {
        assert(a + b == a);
        assert(render(a) + render(b) == render(a));
    } else {
        lemma_render_concat(a, b.drop_last());
        assert((a + b).drop_last() == a + b.drop_last());
        assert((a + b).last() == b.last());
        assert(render(a + b) == render(a) + render(b));
    }
}

/// The lines written out in batches of `batch` lines: the first batch, then
/// the next, down to the last, which may hold fewer lines.
pub open spec fn render_batched(lines: Seq<Seq<u8>>, batch: nat) -> Seq<u8>
    decreases lines.len(),
{
    if batch == 0 || lines.len() <= batch {
        render(lines)
    } else {
        render(lines.take(batch as int)) + render_batched(lines.skip(batch as int), batch)
    }
}

/// Batching is invisible in the output: written in batches of any size,
/// the lines give the bytes that they give written as one batch.
pub proof fn lemma_batching_is_invisible(lines: Seq<Seq<u8>>, batch: nat)
    ensures
        render_batched(lines, batch) == render(lines),
        render_batched(lines, batch) == render_batched(lines, lines.len()),
    decreases lines.len(),
{
    if batch != 0 && lines.len() > batch {
        lemma_batching_is_invisible(lines.skip(batch as int), batch);
        lemma_render_concat(lines.take(batch as int), lines.skip(batch as int));
        assert(lines.take(batch as int) + lines.skip(batch as int) == lines);
    }
}

/// A line that a reader hands back as it was written: valid UTF-8, without
/// a line end in it and without a carriage return at its end.
pub open spec fn stable_line(line: Seq<u8>) -> bool {
    &&& valid_utf8(line)
    &&& forall|i: int| 0 <= i < line.len() ==> line[i] != NEWLINE
    &&& !(line.len() > 0 && line.last() == CARRIAGE_RETURN)
}

/// Every line of the sequence is handed back as it was written.
pub open spec fn stable_lines(lines: Seq<Seq<u8>>) -> bool {
    forall|i: int| 0 <= i < lines.len() ==> stable_line(#[trigger] lines[i])
}

/// None of the lines ends in a carriage return.
pub open spec fn no_trailing_return(lines: Seq<Seq<u8>>) -> bool {
    forall|i: int|
        0 <= i < lines.len() ==> !((#[trigger] lines[i]).len() > 0 && lines[i].last()
            == CARRIAGE_RETURN)
}

/// The first line is written first.
pub proof fn lemma_render_first(lines: Seq<Seq<u8>>)
    requires
        lines.len() > 0,
    ensures
        render(lines) == lines[0] + seq![NEWLINE] + render(lines.drop_first()),
{
    let head = seq![lines[0]];
    lemma_render_concat(head, lines.drop_first());
    assert(head + lines.drop_first() == lines);
    assert(head.drop_last() == Seq::<Seq<u8>>::empty());
    assert(render(head) == lines[0] + seq![NEWLINE]) by {
        assert(render(head.drop_last()) == Seq::<u8>::empty());
        assert(Seq::<u8>::empty() + lines[0] == lines[0]);
    }
}

/// What was written is read back: lines that are written out and read
/// again come back unchanged, in their order, none lost and none twice.
pub proof fn lemma_written_lines_read_back(lines: Seq<Seq<u8>>, clean: bool)
    requires
        stable_lines(lines),
    ensures
        read_lines(render(lines), clean) == (LineRun { lines, complete: clean }),
    decreases lines.len(),
{
    if lines.len() == 0 {
        assert(lines == Seq::<Seq<u8>>::empty());
    } else {
        let line = lines[0];
        let rest = lines.drop_first();
        let data = render(lines);
        lemma_render_first(lines);
        assert(stable_line(line));
        assert forall|i: int| 0 <= i < line.len() implies data[i] != NEWLINE by {
            assert(data[i] == line[i]);
        }
        assert(data[line.len() as int] == NEWLINE);
        lemma_first_newline_is(data, line.len() as int);
        assert(data.take(line.len() as int) == line);
        assert(data.skip(line.len() as int + 1) == render(rest));
        assert(stable_lines(rest)) by {
            assert forall|i: int| 0 <= i < rest.len() implies stable_line(#[trigger] rest[i]) by {
                assert(rest[i] == lines[i + 1]);
            }
        }
        lemma_written_lines_read_back(rest, clean);
        assert(seq![line] + rest == lines);
    }
}

/// Lines written after a text are read after its lines: where a text is
/// read to its end and does not stop in the middle of a line, the lines
/// that are written out behind it are read back behind its own.
pub proof fn lemma_lines_append(text: Seq<u8>, more: Seq<Seq<u8>>)
    requires
        read_lines(text, true).complete,
        text.len() == 0 || text.last() == NEWLINE,
        stable_lines(more),
    ensures
        read_lines(text + render(more), true) == (LineRun {
            lines: read_lines(text, true).lines + more,
            complete: true,
        }),
    decreases text.len(),
{
    let whole = text + render(more);
    if text.len() == 0 {
        assert(whole == render(more));
        lemma_written_lines_read_back(more, true);
        assert(Seq::<Seq<u8>>::empty() + more == more);
    } else {
        let end = first_newline(text);
        lemma_first_newline(text);
        if end == text.len() {
            assert(text[end - 1] == NEWLINE);
        }
        assert forall|i: int| 0 <= i < end implies whole[i] != NEWLINE by {
            assert(whole[i] == text[i]);
        }
        assert(whole[end] == text[end]);
        lemma_first_newline_is(whole, end);
        assert(whole.take(end) == text.take(end));
        let rest = text.skip(end + 1);
        assert(whole.skip(end + 1) == rest + render(more));
        if rest.len() > 0 {
            assert(rest.last() == text.last());
        }
        lemma_lines_append(rest, more);
        let first = seq![strip_return(text.take(end))];
        assert(first + (read_lines(rest, true).lines + more) == (first + read_lines(
            rest,
            true,
        ).lines) + more);
    }
}

/// Every line that a reader hands out is valid UTF-8 and holds no line
/// end.
pub proof fn lemma_read_lines_are_text(data: Seq<u8>, clean: bool)
    ensures
        forall|i: int|
            0 <= i < read_lines(data, clean).lines.len() ==> {
                let line = #[trigger] read_lines(data, clean).lines[i];
                &&& valid_utf8(line)
                &&& forall|k: int| 0 <= k < line.len() ==> line[k] != NEWLINE
            },
    decreases data.len(),
{
    let run = read_lines(data, clean);
    if data.len() > 0 {
        let end = first_newline(data);
        lemma_first_newline(data);
        if end < data.len() {
            let raw = data.take(end);
            if valid_utf8(raw) {
                let rest = read_lines(data.skip(end + 1), clean);
                lemma_read_lines_are_text(data.skip(end + 1), clean);
                let line = strip_return(raw);
                if line != raw {
                    is_char_boundary_iff_not_is_continuation_byte(raw, raw.len() - 1);
                    valid_utf8_split(raw, raw.len() - 1);
                    assert(raw.subrange(0, raw.len() - 1) == line);
                }
                assert forall|i: int| 0 <= i < run.lines.len() implies {
                    let line = #[trigger] run.lines[i];
                    &&& valid_utf8(line)
                    &&& forall|k: int| 0 <= k < line.len() ==> line[k] != NEWLINE
                } by {
                    if i > 0 {
                        assert(run.lines[i] == rest.lines[i - 1]);
                    } else {
                        assert forall|k: int| 0 <= k < line.len() implies line[k] != NEWLINE by {
                            assert(line[k] == data[k]);
                        }
                    }
                }
            }
        }
    }
}

/// The lines that a reader hands out are handed back as they are written,
/// where none of them ends in a carriage return.
pub proof fn lemma_read_lines_are_stable(data: Seq<u8>, clean: bool)
    requires
        no_trailing_return(read_lines(data, clean).lines),
    ensures
        stable_lines(read_lines(data, clean).lines),
{
    let run = read_lines(data, clean);
    lemma_read_lines_are_text(data, clean);
    assert forall|i: int| 0 <= i < run.lines.len() implies stable_line(#[trigger] run.lines[i]) by {
        let line = read_lines(data, clean).lines[i];
    }
}

/// Transcoding keeps the lines: where the lines of a text are read to the
/// end and none of them ends in a carriage return, the bytes written for
/// it, in batches of any size, are read back as the same lines.
pub proof fn lemma_transcoding_keeps_lines(text: Seq<u8>, clean: bool, batch: nat)
    requires
        read_lines(text, clean).complete,
        no_trailing_return(read_lines(text, clean).lines),
    ensures
        read_lines(payload_of(text, clean, batch), true) == (LineRun {
            lines: read_lines(text, clean).lines,
            complete: true,
        }),
{
    let run = read_lines(text, clean);
    assert(run.lines.take(run.lines.len() as int) == run.lines);
    lemma_read_lines_are_stable(text, clean);
    lemma_written_lines_read_back(run.lines, true);
}

/// `first_newline` is in range, points at a line end unless it is the
/// length, and no line end stands before it.
pub proof fn lemma_first_newline(data: Seq<u8>)
    ensures
        0 <= first_newline(data) <= data.len(),
        first_newline(data) < data.len() ==> data[first_newline(data)] == NEWLINE,
        forall|i: int| 0 <= i < first_newline(data) ==> data[i] != NEWLINE,
    decreases data.len(),
{
    if data.len() > 0 && data[0] != NEWLINE {
        let rest = data.skip(1);
        lemma_first_newline(rest);
        assert forall|i: int| 0 <= i < first_newline(data) implies data[i] != NEWLINE by {
            if i > 0 {
                assert(rest[i - 1] == data[i]);
            }
        }
    }
}

/// The first line end of `data` is at `end` when none stands before `end`
/// and `end` is a line end or the length.
pub proof fn lemma_first_newline_is(data: Seq<u8>, end: int)
    requires
        0 <= end <= data.len(),
        forall|i: int| 0 <= i < end ==> data[i] != NEWLINE,
        end < data.len() ==> data[end] == NEWLINE,
    ensures
        first_newline(data) == end,
    decreases data.len(),
{
    if data.len() > 0 && data[0] != NEWLINE {
        let rest = data.skip(1);
        assert forall|i: int| 0 <= i < end - 1 implies rest[i] != NEWLINE by {
            assert(rest[i] == data[i + 1]);
        }
        lemma_first_newline_is(rest, end - 1);
    }
}

/// One step of a line reader.
pub enum LineStep {
    /// A line was read; reading goes on at `next`.
    Line { content: Vec<u8>, next: usize },
    /// The stream ended without an error.
    End,
    /// The line could not be read.
    Failed { error: LineError },
}

/// Reads the line of `data` that starts at `from`.
pub fn next_line(data: &[u8], from: usize, clean: bool) -> (step: LineStep)
    requires
        from <= data.len(),
    ensures
        match step {
            LineStep::Line { content, next } => {
                &&& from < next <= data.len()
                &&& read_lines(data@.skip(from as int), clean).lines == seq![content@] + read_lines(
                    data@.skip(next as int),
                    clean,
                ).lines
                &&& read_lines(data@.skip(from as int), clean).complete == read_lines(
                    data@.skip(next as int),
                    clean,
                ).complete
                &&& read_end(data@.skip(from as int), clean) == read_end(
                    data@.skip(next as int),
                    clean,
                )
            },
            LineStep::End => {
                &&& read_lines(data@.skip(from as int), clean) == (LineRun {
                    lines: Seq::empty(),
                    complete: true,
                })
                &&& read_end(data@.skip(from as int), clean) is None
            },
            LineStep::Failed { error } => {
                &&& read_lines(data@.skip(from as int), clean) == (LineRun {
                    lines: Seq::empty(),
                    complete: false,
                })
                &&& read_end(data@.skip(from as int), clean) == Some(error)
            },
        },
{
    let ghost rest = data@.skip(from as int);
    if from == data.len() {
        return if clean {
            LineStep::End
        } else {
            LineStep::Failed { error: LineError::Decode }
        };
    }
    let mut end: usize = from;
    while end < data.len() && data[end] != NEWLINE
        invariant
            from <= end <= data.len(),
            forall|i: int| from <= i < end ==> data@[i] != NEWLINE,
        decreases data.len() - end,
    {
        end += 1;
    }
    proof {
        assert forall|i: int| 0 <= i < end - from implies rest[i] != NEWLINE by {
            assert(rest[i] == data@[from + i]);
        }
        lemma_first_newline_is(rest, end - from);
    }
    let raw = slice_subrange(data, from, end);
    assert(raw@ == rest.take(end - from));
    if end < data.len() {
        if !is_utf8(raw) {
            return LineStep::Failed { error: LineError::NotUtf8 };
        }
        let content = if end > from && data[end - 1] == CARRIAGE_RETURN {
            slice_to_vec(slice_subrange(data, from, end - 1))
        } else {
            slice_to_vec(raw)
        };
        assert(content@ == strip_return(raw@));
        assert(rest.skip(end - from + 1) == data@.skip(end + 1));
        LineStep::Line { content, next: end + 1 }
    } else {
        assert(raw@ == rest);
        if !clean {
            LineStep::Failed { error: LineError::Decode }
        } else if is_utf8(raw) {
            assert(data@.skip(end as int).len() == 0);
            LineStep::Line { content: slice_to_vec(raw), next: end }
        } else {
            LineStep::Failed { error: LineError::NotUtf8 }
        }
    }
}

/// Appends `more` to `out`.
pub fn append_bytes(out: &mut Vec<u8>, more: &[u8])
    ensures
        final(out)@ == old(out)@ + more@,
{
    let mut i: usize = 0;
    while i < more.len()
        invariant
            i <= more.len(),
            out@ == old(out)@ + more@.take(i as int),
        decreases more.len() - i,
    {
        out.push(more[i]);
        assert(more@.take(i + 1) == more@.take(i as int).push(more@[i as int]));
        i += 1;
    }
    assert(more@.take(more.len() as int) == more@);
}

/// Writes the lines of a batch buffer to `out`, each followed by a line
/// end.
pub fn write_batch(out: &mut Vec<u8>, batch: &Vec<Vec<u8>>)
    ensures
        final(out)@ == old(out)@ + render(lines_of(batch@)),
{
    let mut i: usize = 0;
    while i < batch.len()
        invariant
            i <= batch.len(),
            out@ == old(out)@ + render(lines_of(batch@).take(i as int)),
        decreases batch.len() - i,
    {
        append_bytes(out, batch[i].as_slice());
        out.push(NEWLINE);
        proof {
            let lines = lines_of(batch@);
            assert(lines.take(i + 1).drop_last() == lines.take(i as int));
            assert(lines.take(i + 1).last() == batch@[i as int]@);
        }
        i += 1;
    }
    assert(lines_of(batch@).take(batch.len() as int) == lines_of(batch@));
}

/// What was written from a stream, and whether all of it was.
pub struct Transcript {
    /// The bytes written.
    pub payload: Vec<u8>,
    /// Whether every line of the stream was read and written.
    pub complete: bool,
    /// The error of the line at which the reading stopped, where it did.
    pub failure: Option<LineError>,
}

/// Reads `data` line by line into a batch buffer of `batch` lines. A full
/// buffer is written to the payload and emptied. At the end of the stream
/// what the buffer still holds is written too; at a failure it is dropped.
pub fn batch_lines(data: &[u8], clean: bool, batch: usize) -> (out: Transcript)
    ensures
        out.payload@ == payload_of(data@, clean, batch as nat),
        out.complete == read_lines(data@, clean).complete,
        out.failure == read_end(data@, clean),
        out.complete == (out.failure is None),
{
    let ghost run = read_lines(data@, clean);
    let ghost mut written: Seq<Seq<u8>> = Seq::empty();
    let ghost mut rounds: nat = 0;
    let mut payload: Vec<u8> = Vec::new();
    let mut buffer: Vec<Vec<u8>> = Vec::new();
    let mut at: usize = 0;
    assert(data@.skip(0) == data@);
    assert(written + lines_of(buffer@) + run.lines == run.lines);
    loop
        invariant
            at <= data.len(),
            run == read_lines(data@, clean),
            run.lines == written + lines_of(buffer@) + read_lines(data@.skip(at as int), clean).lines,
            run.complete == read_lines(data@.skip(at as int), clean).complete,
            read_end(data@, clean) == read_end(data@.skip(at as int), clean),
            payload@ == render(written),
            written.len() == rounds * batch,
            batch > 0 ==> buffer.len() < batch,
        decreases data.len() - at,
    {
        match next_line(data, at, clean) {
            LineStep::Line { content, next } => {
                let ghost before = lines_of(buffer@);
                buffer.push(content);
                at = next;
                proof {
                    assert(lines_of(buffer@) == before + seq![content@]);
                    let rest = read_lines(data@.skip(at as int), clean).lines;
                    assert(written + before + (seq![content@] + rest) == written + lines_of(buffer@)
                        + rest);
                }
                if buffer.len() == batch {
                    write_batch(&mut payload, &buffer);
                    proof {
                        lemma_render_concat(written, lines_of(buffer@));
                        written = written + lines_of(buffer@);
                        assert(rounds * batch + batch == (rounds + 1) * batch) by (nonlinear_arith);
                        rounds = rounds + 1;
                    }
                    buffer.clear();
                    assert(lines_of(buffer@) == Seq::<Seq<u8>>::empty());
                    assert(written + lines_of(buffer@) == written);
                }
            },
            LineStep::End => {
                write_batch(&mut payload, &buffer);
                proof {
                    lemma_render_concat(written, lines_of(buffer@));
                    assert(run.lines == written + lines_of(buffer@));
                    assert(run.lines.take(run.lines.len() as int) == run.lines);
                }
                return Transcript { payload, complete: true, failure: None };
            },
            LineStep::Failed { error } => {
                proof {
                    let held = lines_of(buffer@);
                    assert(run.lines == written + held);
                    assert(batch > 0 ==> (rounds * batch + held.len()) % (batch as int)
                        == held.len()) by {
                        if batch > 0 {
                            lemma_mod_multiples_vanish(rounds as int, held.len() as int, batch as int);
                            lemma_small_mod(held.len(), batch as nat);
                            assert(rounds * batch == batch * rounds) by (nonlinear_arith);
                        }
                    }
                    assert(batch == 0 ==> written.len() == 0) by (nonlinear_arith)
                        requires
                            written.len() == rounds * batch,
                    ;
                    assert(run.lines.take(written.len() as int) == written);
                }
                return Transcript { payload, complete: false, failure: Some(error) };
            },
        }
    }
}

} // verus!
