//! The first pass: every other input is recompressed from gzip into a new
//! Zstandard accumulator.

use vstd::prelude::*;
use crate::codec::{
    faithful, gzip_decode, gzip_decoded, zstd_decoded, zstd_encode, zstd_encoded, ZSTD_LEVEL,
};
use crate::error::{FqcatError, LineError};
use crate::lines::{
    batch_lines, lemma_read_end, lemma_read_lines_are_stable, lemma_written_lines_read_back,
    no_trailing_return, payload_of, read_end, read_lines, LineRun,
};
use crate::merge::{frame_bytes, holds_text, Step};
use crate::names::{accumulator_name, accumulator_path};
use crate::tree::names_of;
use crate::workspace::{appended, Files, Workspace};

verus! {

/// What recompression does once the encoder has returned `frame`, where
/// the reading of the input ended as `read` says. A frame that was
/// returned is appended to the output; it holds the lines that were read
/// before the reading stopped. The operation succeeds where the input was
/// read to its end and the frame was returned; it fails with the error of
/// the line at which the reading stopped, or else with that of the
/// encoder.
pub open spec fn stored(
    files: Files,
    output: Seq<char>,
    frame: Option<Seq<u8>>,
    read: Option<LineError>,
) -> Step {
    Step {
        files: match frame {
            Some(bytes) => appended(files, output, bytes),
            None => files,
        },
        result: match read {
            Some(error) => Err(FqcatError::Transcode(error)),
            None => if frame is None {
                Err(FqcatError::Transcode(LineError::Encode))
            } else {
                Ok(())
            },
        },
    }
}

/// What recompression does with the decoded bytes of the input: the output
/// is created as a new file, empty even where a file of its name existed,
/// and the lines, written one by one, are stored in it as one Zstandard
/// frame.
pub open spec fn recoded_stream(files: Files, output: Seq<char>, data: Seq<u8>, clean: bool) -> Step {
    stored(
        files.insert(output, Seq::empty()),
        output,
        zstd_encoded(payload_of(data, clean, 1), ZSTD_LEVEL),
        read_end(data, clean),
    )
}

/// What recompressing the gzip file `input` into `output` does. It fails,
/// and changes nothing, where the input does not exist.
pub open spec fn recoded(files: Files, input: Seq<char>, output: Seq<char>) -> Step {
    if !files.dom().contains(input) {
        Step { files, result: Err(FqcatError::Io) }
    } else {
        let stream = gzip_decoded(files[input]);
        recoded_stream(files, output, stream.0, stream.1)
    }
}

/// What recompression reads from `input`: it is decoded as gzip,
/// whatever its name, and read line by line.
pub open spec fn recode_run(files: Files, input: Seq<char>) -> LineRun {
    let stream = gzip_decoded(files[input]);
    read_lines(stream.0, stream.1)
}

/// What a recompression that succeeds means for the output: it holds the
/// lines of the input and nothing else, and, where none of them ends in a
/// carriage return, it is read back as exactly those lines.
pub open spec fn recodes_lines(before: Files, after: Files, input: Seq<char>, output: Seq<char>) -> bool {
    let lines = recode_run(before, input).lines;
    let now = zstd_decoded(after[output]);
    &&& holds_text(after, output, lines)
    &&& no_trailing_return(lines) ==> read_lines(now.0, now.1) == (LineRun { lines, complete: true })
}

/// A recompression that succeeds, and whose frame holds its payload,
/// leaves the lines of the input, and nothing else, in the output.
pub proof fn lemma_recode_stores_lines(files: Files, input: Seq<char>, output: Seq<char>)
    requires
        recoded(files, input, output).result is Ok,
        faithful(payload_of_recode(files, input)),
    ensures
        recodes_lines(files, recoded(files, input, output).files, input, output),
{
    let stream = gzip_decoded(files[input]);
    let run = recode_run(files, input);
    let payload = payload_of_recode(files, input);
    lemma_read_end(stream.0, stream.1);
    assert(run.lines.take(run.lines.len() as int) == run.lines);
    let frame = zstd_encoded(payload, ZSTD_LEVEL)->0;
    let after = recoded(files, input, output).files;
    assert(after[output] == frame) by {
        assert(Seq::<u8>::empty() + frame == frame);
    }
    if no_trailing_return(run.lines) {
        lemma_read_lines_are_stable(stream.0, stream.1);
        lemma_written_lines_read_back(run.lines, true);
    }
}

/// The bytes that the recompression of `input` hands to the encoder.
pub open spec fn payload_of_recode(files: Files, input: Seq<char>) -> Seq<u8> {
    let stream = gzip_decoded(files[input]);
    payload_of(stream.0, stream.1, 1)
}

/// The frame that the recompression of `input` gets from the encoder holds
/// what was handed to it.
pub open spec fn recode_faithful(files: Files, input: Seq<char>) -> bool {
    files.dom().contains(input) ==> faithful(payload_of_recode(files, input))
}

/// The first pass before it comes to the input at position `i`.
pub open spec fn before_input(files: Files, names: Seq<Seq<char>>, dir: Seq<char>, i: int) -> Step {
    prepared(files, names.take(i), dir)
}

/// Every frame that the first pass gets from the encoder holds what was
/// handed to it.
pub open spec fn first_pass_faithful(files: Files, names: Seq<Seq<char>>, dir: Seq<char>) -> bool {
    forall|i: int|
        0 <= i < names.len() && i % 2 == 0 && (#[trigger] before_input(
            files,
            names,
            dir,
            i,
        )).result is Ok ==> recode_faithful(before_input(files, names, dir, i).files, names[i])
}

/// The names after the first pass: the accumulator with the index of the
/// position at every even position, the input's own name at every odd one.
pub open spec fn prepared_names(names: Seq<Seq<char>>, dir: Seq<char>) -> Seq<Seq<char>> {
    Seq::new(
        names.len(),
        |i: int|
            if i % 2 == 0 {
                accumulator_path(dir, i as nat)
            } else {
                names[i]
            },
    )
}

/// What the first pass does: the inputs at even positions are recompressed
/// in order, each into its accumulator. The first failure ends the pass.
pub open spec fn prepared(files: Files, names: Seq<Seq<char>>, dir: Seq<char>) -> Step
    decreases names.len(),
{
    if names.len() == 0 {
        Step { files, result: Ok(()) }
    } else {
        let before = prepared(files, names.drop_last(), dir);
        let last = names.len() - 1;
        if before.result is Err || last % 2 != 0 {
            before
        } else {
            recoded(before.files, names.last(), accumulator_path(dir, last as nat))
        }
    }
}

/// Ends a recompression with what the encoder returned, `read` saying how
/// the reading of the input ended.
pub fn store_frame(
    ws: &mut Workspace,
    output_path: &str,
    frame: Option<Vec<u8>>,
    read: Option<LineError>,
) -> (r: Result<(), FqcatError>)
    ensures
        final(ws)@ == stored(old(ws)@, output_path@, frame_bytes(frame), read).files,
        r == stored(old(ws)@, output_path@, frame_bytes(frame), read).result,
{
    let framed = frame.is_some();
    if let Some(bytes) = frame {
        ws.append(output_path, bytes.as_slice());
    }
    match read {
        Some(error) => Err(FqcatError::Transcode(error)),
        None => if framed {
            Ok(())
        } else {
            Err(FqcatError::Transcode(LineError::Encode))
        },
    }
}

/// Creates the output as a new file and stores the lines of a decoded
/// input in it as one Zstandard frame.
pub fn recode_stream(ws: &mut Workspace, output_path: &str, data: &[u8], clean: bool) -> (r: Result<
    (),
    FqcatError,
>)
    ensures
        final(ws)@ == recoded_stream(old(ws)@, output_path@, data@, clean).files,
        r == recoded_stream(old(ws)@, output_path@, data@, clean).result,
        faithful(payload_of(data@, clean, 1)),
{
    ws.write(output_path, Vec::new());
    let transcript = batch_lines(data, clean, 1);
    let frame = zstd_encode(transcript.payload.as_slice(), ZSTD_LEVEL);
    store_frame(ws, output_path, frame, transcript.failure)
}

/// Recompresses the gzip file `input_path` into the Zstandard file
/// `output_path`, which it creates anew: what a file of that name held
/// before is gone.
pub fn recode_gzip_to_zstd(ws: &mut Workspace, input_path: &str, output_path: &str) -> (r: Result<
    (),
    FqcatError,
>)
    ensures
        final(ws)@ == recoded(old(ws)@, input_path@, output_path@).files,
        r == recoded(old(ws)@, input_path@, output_path@).result,
        recode_faithful(old(ws)@, input_path@),
        r is Ok ==> recodes_lines(old(ws)@, final(ws)@, input_path@, output_path@),
{
    let stream = match ws.read(input_path) {
        None => {
            return Err(FqcatError::Io);
        },
        Some(bytes) => gzip_decode(bytes.as_slice()),
    };
    let r = recode_stream(ws, output_path, stream.0.as_slice(), stream.1);
    proof {
        if r is Ok {
            lemma_recode_stores_lines(old(ws)@, input_path@, output_path@);
        }
    }
    r
}

/// The first pass over the inputs. The input at every even position is
/// recompressed into a new accumulator in `search_dir`, which takes its
/// place in the list; the inputs at odd positions stay as they are.
pub fn prepare_for_merges(ws: &mut Workspace, file_list: Vec<String>, search_dir: &String) -> (r:
    Result<Vec<String>, FqcatError>)
    ensures
        final(ws)@ == prepared(old(ws)@, names_of(file_list@), search_dir@).files,
        match r {
            Ok(new_files) => {
                &&& prepared(old(ws)@, names_of(file_list@), search_dir@).result is Ok
                &&& names_of(new_files@) == prepared_names(names_of(file_list@), search_dir@)
            },
            Err(e) => prepared(old(ws)@, names_of(file_list@), search_dir@).result == Err::<
                (),
                FqcatError,
            >(e),
        },
        first_pass_faithful(old(ws)@, names_of(file_list@), search_dir@),
{
    let ghost names = names_of(file_list@);
    let ghost dir = search_dir@;
    let mut new_files: Vec<String> = Vec::new();
    let mut i: usize = 0;
    while i < file_list.len()
        invariant
            i <= file_list.len(),
            names == names_of(file_list@),
            dir == search_dir@,
            ws@ == prepared(old(ws)@, names.take(i as int), dir).files,
            prepared(old(ws)@, names.take(i as int), dir).result is Ok,
            new_files@.len() == i,
            forall|k: int|
                0 <= k < i ==> #[trigger] new_files@[k]@ == prepared_names(names, dir)[k],
            forall|k: int|
                0 <= k < i && k % 2 == 0 ==> recode_faithful(
                    (#[trigger] before_input(old(ws)@, names, dir, k)).files,
                    names[k],
                ),
        decreases file_list.len() - i,
    {
        proof {
            assert(names.take(i + 1).drop_last() == names.take(i as int));
            assert(names.take(i + 1).last() == file_list@[i as int]@);
        }
        if i % 2 != 0 {
            new_files.push(file_list[i].clone());
        } else {
            let new_file_name = accumulator_name(search_dir.as_str(), i);
            match recode_gzip_to_zstd(ws, file_list[i].as_str(), new_file_name.as_str()) {
                Ok(()) => {},
                Err(e) => {
                    proof {
                        lemma_failure_ends_the_pass(old(ws)@, names, dir, i + 1);
                        assert forall|k: int|
                            0 <= k < names.len() && k % 2 == 0 && (#[trigger] before_input(
                                old(ws)@,
                                names,
                                dir,
                                k,
                            )).result is Ok implies recode_faithful(
                            before_input(old(ws)@, names, dir, k).files,
                            names[k],
                        ) by {
                            if k > i {
                                assert(names.take(k).take(i + 1) == names.take(i + 1));
                                lemma_failure_ends_the_pass(old(ws)@, names.take(k), dir, i + 1);
                            }
                        }
                    }
                    return Err(e);
                },
            }
            new_files.push(new_file_name);
        }
        i += 1;
    }
    assert(names.take(file_list.len() as int) == names);
    assert(names_of(new_files@) =~= prepared_names(names, dir));
    Ok(new_files)
}

/// Once the pass has failed on the first `upto` inputs, the rest of the
/// list changes nothing.
pub proof fn lemma_failure_ends_the_pass(files: Files, names: Seq<Seq<char>>, dir: Seq<char>, upto: int)
    requires
        0 <= upto <= names.len(),
        prepared(files, names.take(upto), dir).result is Err,
    ensures
        prepared(files, names, dir) == prepared(files, names.take(upto), dir),
    decreases names.len(),
{
    if upto < names.len() {
        assert(names.drop_last().take(upto) == names.take(upto));
        lemma_failure_ends_the_pass(files, names.drop_last(), dir, upto);
    } else {
        assert(names.take(upto) == names);
    }
}

} // verus!
