//! The last step: the one accumulator that is left becomes the gzip output.

use vstd::prelude::*;
use crate::codec::{
    gzip_decoded, gzip_encode, gzip_encoded, member_faithful, zstd_decode, zstd_decoded,
};
use crate::error::{FqcatError, LineError};
use crate::lines::{
    batch_lines, lemma_read_end, lemma_read_lines_are_stable, lemma_written_lines_read_back,
    no_trailing_return, payload_of, read_end, read_lines, render, LineRun,
};
use crate::merge::{frame_bytes, Step};
use crate::names::{accumulator_name, accumulator_path};
use crate::workspace::{Files, Workspace};

verus! {

/// The name of the accumulator that is left when all merges are done: the
/// one with index 0.
pub open spec fn final_accumulator(readdir: Seq<char>) -> Seq<char> {
    accumulator_path(readdir, 0)
}

/// What publishing does once the encoder has returned `member`, where
/// the reading of the accumulator ended as `read` says. The output is
/// created, or emptied where it exists. A member that was returned becomes
/// its content; without one it stays empty. If the accumulator was read
/// to its end and the member was returned, the accumulator is removed and
/// publishing succeeds. Else it fails: with the error of the line at which
/// the reading stopped, or else with that of the encoder.
pub open spec fn released(
    files: Files,
    input: Seq<char>,
    output: Seq<char>,
    member: Option<Seq<u8>>,
    read: Option<LineError>,
) -> Step {
    let written = files.insert(
        output,
        match member {
            Some(bytes) => bytes,
            None => Seq::empty(),
        },
    );
    match read {
        Some(error) => Step { files: written, result: Err(FqcatError::Transcode(error)) },
        None => {
            if member is None {
                Step { files: written, result: Err(FqcatError::Transcode(LineError::Encode)) }
            } else if written.dom().contains(input) {
                Step { files: written.remove(input), result: Ok(()) }
            } else {
                Step { files: written, result: Err(FqcatError::Io) }
            }
        },
    }
}

/// What publishing does with the decoded bytes of the accumulator: the
/// lines, written one by one, become one gzip member, the content of the
/// output.
pub open spec fn published_stream(
    files: Files,
    input: Seq<char>,
    output: Seq<char>,
    data: Seq<u8>,
    clean: bool,
) -> Step {
    released(
        files,
        input,
        output,
        gzip_encoded(payload_of(data, clean, 1)),
        read_end(data, clean),
    )
}

/// What publishing does. It fails, and changes nothing, where the final
/// accumulator does not exist.
pub open spec fn published(files: Files, readdir: Seq<char>, output: Seq<char>) -> Step {
    let input = final_accumulator(readdir);
    if !files.dom().contains(input) {
        Step { files, result: Err(FqcatError::Io) }
    } else {
        let stream = zstd_decoded(files[input]);
        published_stream(files, input, output, stream.0, stream.1)
    }
}

/// What publishing reads from the final accumulator of `readdir`.
pub open spec fn accumulator_run(files: Files, readdir: Seq<char>) -> LineRun {
    let stream = zstd_decoded(files[final_accumulator(readdir)]);
    read_lines(stream.0, stream.1)
}

/// The bytes that publishing hands to the encoder.
pub open spec fn payload_of_publish(files: Files, readdir: Seq<char>) -> Seq<u8> {
    let stream = zstd_decoded(files[final_accumulator(readdir)]);
    payload_of(stream.0, stream.1, 1)
}

/// The member that publishing gets from the encoder holds what was handed
/// to it.
pub open spec fn publish_faithful(files: Files, readdir: Seq<char>) -> bool {
    files.dom().contains(final_accumulator(readdir)) ==> member_faithful(
        payload_of_publish(files, readdir),
    )
}

/// What a publishing that succeeds means for the output, where the output
/// is not the accumulator itself: the output exists, the gzip decoder
/// reads it to a clean end as the lines of the accumulator, each with a
/// line end, and, where none of them ends in a carriage return, it is read
/// back as exactly those lines.
pub open spec fn publishes_lines(
    before: Files,
    after: Files,
    readdir: Seq<char>,
    output: Seq<char>,
) -> bool {
    let lines = accumulator_run(before, readdir).lines;
    let now = gzip_decoded(after[output]);
    output != final_accumulator(readdir) ==> {
        &&& after.dom().contains(output)
        &&& now == (render(lines), true)
        &&& no_trailing_return(lines) ==> read_lines(now.0, now.1) == (LineRun {
            lines,
            complete: true,
        })
    }
}

/// A publishing that succeeds, and whose member holds its payload, leaves
/// the lines of the accumulator, and nothing else, in the output.
pub proof fn lemma_publish_writes_lines(files: Files, readdir: Seq<char>, output: Seq<char>)
    requires
        published(files, readdir, output).result is Ok,
        member_faithful(payload_of_publish(files, readdir)),
    ensures
        publishes_lines(files, published(files, readdir, output).files, readdir, output),
{
    let stream = zstd_decoded(files[final_accumulator(readdir)]);
    let run = accumulator_run(files, readdir);
    lemma_read_end(stream.0, stream.1);
    assert(run.lines.take(run.lines.len() as int) == run.lines);
    if no_trailing_return(run.lines) {
        lemma_read_lines_are_stable(stream.0, stream.1);
        lemma_written_lines_read_back(run.lines, true);
    }
}

/// Ends publishing with what the encoder returned, `read` saying how the
/// reading of the accumulator ended.
pub fn release_member(
    ws: &mut Workspace,
    input_path: &str,
    output_name: &str,
    member: Option<Vec<u8>>,
    read: Option<LineError>,
) -> (r: Result<(), FqcatError>)
    ensures
        final(ws)@ == released(old(ws)@, input_path@, output_name@, frame_bytes(member), read).files,
        r == released(old(ws)@, input_path@, output_name@, frame_bytes(member), read).result,
{
    let encoded = member.is_some();
    match member {
        Some(bytes) => ws.write(output_name, bytes),
        None => ws.write(output_name, Vec::new()),
    }
    match read {
        Some(error) => Err(FqcatError::Transcode(error)),
        None => {
            if !encoded {
                Err(FqcatError::Transcode(LineError::Encode))
            } else if ws.remove(input_path) {
                Ok(())
            } else {
                assert(final(ws)@ =~= old(ws)@.insert(output_name@, frame_bytes(member)->0));
                Err(FqcatError::Io)
            }
        },
    }
}

/// Writes the lines of a decoded accumulator to the output as gzip.
pub fn publish_stream(
    ws: &mut Workspace,
    input_path: &str,
    output_name: &str,
    data: &[u8],
    clean: bool,
) -> (r: Result<(), FqcatError>)
    ensures
        final(ws)@ == published_stream(old(ws)@, input_path@, output_name@, data@, clean).files,
        r == published_stream(old(ws)@, input_path@, output_name@, data@, clean).result,
        member_faithful(payload_of(data@, clean, 1)),
{
    let transcript = batch_lines(data, clean, 1);
    let member = gzip_encode(transcript.payload.as_slice());
    release_member(ws, input_path, output_name, member, transcript.failure)
}

/// Publishes the final accumulator of `readdir` as the gzip file
/// `output_name`, and removes the accumulator.
pub fn publish_final_fastq(ws: &mut Workspace, readdir: &str, output_name: &str) -> (r: Result<
    (),
    FqcatError,
>)
    ensures
        final(ws)@ == published(old(ws)@, readdir@, output_name@).files,
        r == published(old(ws)@, readdir@, output_name@).result,
        publish_faithful(old(ws)@, readdir@),
        r is Ok ==> publishes_lines(old(ws)@, final(ws)@, readdir@, output_name@),
{
    let input_path = accumulator_name(readdir, 0);
    let stream = match ws.read(input_path.as_str()) {
        None => {
            return Err(FqcatError::Io);
        },
        Some(bytes) => zstd_decode(bytes.as_slice()),
    };
    let r = publish_stream(ws, input_path.as_str(), output_name, stream.0.as_slice(), stream.1);
    proof {
        if r is Ok {
            lemma_publish_writes_lines(old(ws)@, readdir@, output_name@);
        }
    }
    r
}

} // verus!
