//! The level executor: appends one file of a pair onto the other, for every
//! pair of a level, level after level.

use vstd::prelude::*;
use crate::codec::{decode, decoded, faithful, zstd_decoded, zstd_encode, zstd_encoded, ZSTD_LEVEL};
use crate::error::{FqcatError, LineError};
use crate::lines::{
    batch_lines, lemma_lines_append, lemma_read_end, lemma_read_lines_are_stable,
    no_trailing_return, payload_of, read_end, read_lines, render, LineRun, NEWLINE,
};
use crate::names::{carries_marker, codec_of, is_accumulator, select_codec};
use crate::tree::{pair_plans, pairs_of, LevelPlan, MergePair, MergeTree, PairPlan};
use crate::workspace::{appended, content, Files, Workspace};

verus! {

/// The number of lines that the batch buffer of a merge holds.
pub const BATCH_LINES: usize = 1000;

/// The two roles in a merge.
pub ghost struct Roles {
    /// The file that is appended to.
    pub destination: Seq<char>,
    /// The file whose lines are appended.
    pub donor: Seq<char>,
}

/// The files after an operation, and how the operation ended.
pub ghost struct Step {
    pub files: Files,
    pub result: Result<(), FqcatError>,
}

/// The roles of the two files of a pair. The left file is the destination
/// where it is an accumulator; in every other case the right file is.
pub open spec fn roles_of(pair: PairPlan) -> Roles {
    if is_accumulator(pair.left) {
        Roles { destination: pair.left, donor: pair.right }
    } else {
        Roles { destination: pair.right, donor: pair.left }
    }
}

/// What a merge does once the encoder has returned `frame`, where the
/// reading of the donor ended as `read` says. A frame that was returned is
/// appended to the destination. If the donor was read to its end and the
/// frame was returned, the merge succeeds, and a donor that is an
/// accumulator is removed. If the reading stopped at a line, the frame
/// holds the lines of the full batches only, it stays appended, and the
/// merge fails with the error of that line. If only the encoder failed,
/// nothing is written and the merge fails with that.
pub open spec fn committed(
    files: Files,
    roles: Roles,
    frame: Option<Seq<u8>>,
    read: Option<LineError>,
) -> Step {
    let written = match frame {
        Some(bytes) => appended(files, roles.destination, bytes),
        None => files,
    };
    match read {
        Some(error) => Step { files: written, result: Err(FqcatError::Transcode(error)) },
        None => {
            if frame is None {
                Step { files, result: Err(FqcatError::Transcode(LineError::Encode)) }
            } else if !is_accumulator(roles.donor) {
                Step { files: written, result: Ok(()) }
            } else if written.dom().contains(roles.donor) {
                Step { files: written.remove(roles.donor), result: Ok(()) }
            } else {
                Step { files: written, result: Err(FqcatError::Io) }
            }
        },
    }
}

/// What a merge does with the decoded bytes of the donor: the destination
/// is created where it does not exist, the lines are read and written in
/// batches into one Zstandard frame, and the frame is committed.
pub open spec fn transcribed(files: Files, roles: Roles, data: Seq<u8>, clean: bool) -> Step {
    committed(
        appended(files, roles.destination, Seq::empty()),
        roles,
        zstd_encoded(payload_of(data, clean, BATCH_LINES as nat), ZSTD_LEVEL),
        read_end(data, clean),
    )
}

/// What the merge of a pair does. It fails, and changes nothing, where the
/// donor does not exist or its name has no suffix. Else the donor is
/// decoded as its suffix says, and its lines are appended to the
/// destination.
pub open spec fn merged(files: Files, pair: PairPlan) -> Step {
    let roles = roles_of(pair);
    if !files.dom().contains(roles.donor) {
        Step { files, result: Err(FqcatError::Io) }
    } else {
        match codec_of(roles.donor) {
            None => Step { files, result: Err(FqcatError::Naming) },
            Some(codec) => {
                let stream = decoded(codec, files[roles.donor]);
                transcribed(files, roles, stream.0, stream.1)
            },
        }
    }
}

/// What is read from the file `name` when it is the donor of a merge: it
/// is decoded as its suffix says and read line by line.
pub open spec fn donor_run(files: Files, name: Seq<char>) -> LineRun {
    match codec_of(name) {
        Some(codec) => {
            let stream = decoded(codec, files[name]);
            read_lines(stream.0, stream.1)
        },
        None => LineRun { lines: Seq::empty(), complete: false },
    }
}

/// The bytes that the merge of a pair hands to the encoder.
pub open spec fn payload_of_merge(files: Files, pair: PairPlan) -> Seq<u8> {
    let donor = roles_of(pair).donor;
    match codec_of(donor) {
        Some(codec) => {
            let stream = decoded(codec, files[donor]);
            payload_of(stream.0, stream.1, BATCH_LINES as nat)
        },
        None => Seq::empty(),
    }
}

/// The text that a destination holds: what the Zstandard decoder reads
/// from it, and whether it reads it to a clean end. A file without bytes,
/// and one that does not exist, holds no text.
pub open spec fn held_text(files: Files, name: Seq<char>) -> (Seq<u8>, bool) {
    if content(files, name).len() == 0 {
        (Seq::empty(), true)
    } else {
        zstd_decoded(files[name])
    }
}

/// The file `name` holds the lines `text`: it exists, and the Zstandard
/// decoder reads it to a clean end as those lines, each with a line end.
pub open spec fn holds_text(files: Files, name: Seq<char>, text: Seq<Seq<u8>>) -> bool {
    files.dom().contains(name) && zstd_decoded(files[name]) == (render(text), true)
}

/// What a merge that succeeds means for the text of the destination, where
/// the destination held a text that the decoder reads to a clean end and
/// is not its own donor: it holds that text, followed by the lines of the
/// donor, each with a line end.
pub open spec fn appends_text(before: Files, after: Files, pair: PairPlan) -> bool {
    let roles = roles_of(pair);
    let was = held_text(before, roles.destination);
    roles.donor != roles.destination && was.1 ==> {
        &&& after.dom().contains(roles.destination)
        &&& zstd_decoded(after[roles.destination]) == (
            was.0 + render(donor_run(before, roles.donor).lines),
            true,
        )
    }
}

/// What a merge that succeeds means for the lines of the destination.
/// Where the destination held a text that is read to its end and does not
/// stop in the middle of a line, and no line of the donor ends in a
/// carriage return, the destination is read as the lines that it held, in
/// their order, followed by the lines of the donor, in theirs.
pub open spec fn appends_lines(before: Files, after: Files, pair: PairPlan) -> bool {
    let roles = roles_of(pair);
    let was = held_text(before, roles.destination);
    let more = donor_run(before, roles.donor).lines;
    let now = zstd_decoded(after[roles.destination]);
    (roles.donor != roles.destination && was.1 && read_lines(was.0, true).complete && (was.0.len()
        == 0 || was.0.last() == NEWLINE) && no_trailing_return(more)) ==> {
        &&& after.dom().contains(roles.destination)
        &&& read_lines(now.0, now.1) == (LineRun {
            lines: read_lines(was.0, true).lines + more,
            complete: true,
        })
    }
}

/// The merge of a pair gets as far as the encoder: its donor exists and
/// has a suffix.
pub open spec fn merge_encodes(files: Files, pair: PairPlan) -> bool {
    files.dom().contains(roles_of(pair).donor) && codec_of(roles_of(pair).donor) is Some
}

/// The frame that the merge of a pair gets from the encoder holds what the
/// merge handed to it.
#[verifier::opaque]
pub open spec fn merge_faithful(files: Files, pair: PairPlan) -> bool {
    merge_encodes(files, pair) ==> faithful(payload_of_merge(files, pair))
}

/// A merge that succeeds, and whose frame holds its payload, appends the
/// text and the lines of the donor to those of the destination.
pub proof fn lemma_merge_appends(files: Files, pair: PairPlan)
    requires
        merged(files, pair).result is Ok,
        faithful(payload_of_merge(files, pair)),
    ensures
        appends_text(files, merged(files, pair).files, pair),
        appends_lines(files, merged(files, pair).files, pair),
{
    let roles = roles_of(pair);
    let after = merged(files, pair).files;
    let codec = codec_of(roles.donor)->0;
    let stream = decoded(codec, files[roles.donor]);
    let run = read_lines(stream.0, stream.1);
    let payload = payload_of_merge(files, pair);
    lemma_read_end(stream.0, stream.1);
    assert(run.lines.take(run.lines.len() as int) == run.lines);
    assert(payload == render(run.lines));
    let frame = zstd_encoded(payload, ZSTD_LEVEL)->0;
    let opened = appended(files, roles.destination, Seq::empty());
    let old_bytes = content(files, roles.destination);
    assert(content(opened, roles.destination) == old_bytes) by {
        assert(old_bytes + Seq::<u8>::empty() == old_bytes);
    }
    let was = held_text(files, roles.destination);
    if roles.donor != roles.destination && was.1 {
        assert(after[roles.destination] == old_bytes + frame);
        if old_bytes.len() == 0 {
            assert(old_bytes + frame == frame);
            assert(was.0 + payload == payload);
        } else {
            assert(zstd_decoded(old_bytes + frame) == (zstd_decoded(old_bytes).0 + payload, true));
        }
        if read_lines(was.0, true).complete && (was.0.len() == 0 || was.0.last() == NEWLINE)
            && no_trailing_return(run.lines) {
            lemma_read_lines_are_stable(stream.0, stream.1);
            lemma_lines_append(was.0, run.lines);
        }
    }
}

/// The two roles in a merge, by file name.
pub struct MergeRoles {
    /// The file that is appended to.
    pub destination: String,
    /// The file whose lines are appended.
    pub donor: String,
}

impl View for MergeRoles {
    type V = Roles;

    open spec fn view(&self) -> Roles {
        Roles { destination: self.destination@, donor: self.donor@ }
    }
}

/// The bytes of a frame, if there is one.
pub open spec fn frame_bytes(frame: Option<Vec<u8>>) -> Option<Seq<u8>> {
    match frame {
        Some(bytes) => Some(bytes@),
        None => None,
    }
}

/// Decides which file of a pair is appended to.
pub fn resolve_roles(pair: &MergePair) -> (roles: MergeRoles)
    ensures
        roles@ == roles_of(pair@),
{
    if carries_marker(pair.left_file().as_str()) {
        MergeRoles { destination: pair.left_file().clone(), donor: pair.right_file().clone() }
    } else {
        MergeRoles { destination: pair.right_file().clone(), donor: pair.left_file().clone() }
    }
}

/// Ends a merge with what the encoder returned, `read` saying how the
/// reading of the donor ended.
pub fn commit_frame(
    ws: &mut Workspace,
    roles: &MergeRoles,
    frame: Option<Vec<u8>>,
    read: Option<LineError>,
) -> (r: Result<(), FqcatError>)
    ensures
        final(ws)@ == committed(old(ws)@, roles@, frame_bytes(frame), read).files,
        r == committed(old(ws)@, roles@, frame_bytes(frame), read).result,
{
    let framed = frame.is_some();
    if let Some(bytes) = frame {
        ws.append(roles.destination.as_str(), bytes.as_slice());
    }
    match read {
        Some(error) => Err(FqcatError::Transcode(error)),
        None => {
            if !framed {
                Err(FqcatError::Transcode(LineError::Encode))
            } else if !carries_marker(roles.donor.as_str()) {
                Ok(())
            } else if ws.remove(roles.donor.as_str()) {
                Ok(())
            } else {
                assert(final(ws)@ =~= appended(old(ws)@, roles@.destination, frame_bytes(frame)->0));
                Err(FqcatError::Io)
            }
        },
    }
}

/// Appends the lines of a decoded donor to the destination.
pub fn transcribe(ws: &mut Workspace, roles: &MergeRoles, data: &[u8], clean: bool) -> (r: Result<
    (),
    FqcatError,
>)
    ensures
        final(ws)@ == transcribed(old(ws)@, roles@, data@, clean).files,
        r == transcribed(old(ws)@, roles@, data@, clean).result,
        faithful(payload_of(data@, clean, BATCH_LINES as nat)),
{
    let nothing: Vec<u8> = Vec::new();
    ws.append(roles.destination.as_str(), nothing.as_slice());
    let transcript = batch_lines(data, clean, BATCH_LINES);
    let frame = zstd_encode(transcript.payload.as_slice(), ZSTD_LEVEL);
    commit_frame(ws, roles, frame, transcript.failure)
}

/// Merges a pair: appends the lines of its donor to its destination.
pub fn merge_pair(ws: &mut Workspace, pair: &MergePair) -> (r: Result<(), FqcatError>)
    ensures
        final(ws)@ == merged(old(ws)@, pair@).files,
        r == merged(old(ws)@, pair@).result,
        merge_faithful(old(ws)@, pair@),
        r is Ok ==> appends_text(old(ws)@, final(ws)@, pair@),
        r is Ok ==> appends_lines(old(ws)@, final(ws)@, pair@),
{
    let roles = resolve_roles(pair);
    proof {
        reveal(merge_faithful);
    }
    let stream = match ws.read(roles.donor.as_str()) {
        None => {
            return Err(FqcatError::Io);
        },
        Some(bytes) => match select_codec(roles.donor.as_str()) {
            Err(e) => {
                return Err(e);
            },
            Ok(codec) => decode(codec, bytes.as_slice()),
        },
    };
    let r = transcribe(ws, &roles, stream.bytes.as_slice(), stream.clean);
    proof {
        reveal(merge_faithful);
        if r is Ok {
            lemma_merge_appends(old(ws)@, pair@);
        }
    }
    r
}

/// What the merges of a level do, one after the other in the order of the
/// pairs: the files after the last merge, and how each merge ended. A merge
/// that fails does not stop those after it.
pub open spec fn level_merged(files: Files, pairs: Seq<PairPlan>) -> (Files, Seq<Result<(), FqcatError>>)
    decreases pairs.len(),
{
    if pairs.len() == 0 {
        (files, Seq::empty())
    } else {
        let before = level_merged(files, pairs.drop_last());
        let step = merged(before.0, pairs.last());
        (step.files, before.1.push(step.result))
    }
}

/// What the traversal of a plan does: the merges of its first level, then
/// those of the next, down to the last. Returns the files after the last
/// level and, for every level, how each of its merges ended.
pub open spec fn traversed(files: Files, chain: Seq<LevelPlan>) -> (Files, Seq<Seq<Result<(), FqcatError>>>)
    decreases chain.len(),
{
    if chain.len() == 0 {
        (files, Seq::empty())
    } else {
        let before = traversed(files, chain.drop_last());
        let level = level_merged(before.0, chain.last().pairs);
        (level.0, before.1.push(level.1))
    }
}

/// Two pairs share no file.
pub open spec fn disjoint(p: PairPlan, q: PairPlan) -> bool {
    p.left != q.left && p.left != q.right && p.right != q.left && p.right != q.right
}

/// The pairs of a list in which no name stands twice share no file.
pub proof fn lemma_pairs_are_disjoint(names: Seq<Seq<char>>, i: int, j: int)
    requires
        forall|a: int, b: int| 0 <= a < b < names.len() ==> names[a] != names[b],
        0 <= i < j < pairs_of(names).len(),
    ensures
        disjoint(pairs_of(names)[i], pairs_of(names)[j]),
{
    assert(names[2 * i] != names[2 * j]);
    assert(names[2 * i] != names[2 * j + 1]);
    assert(names[2 * i + 1] != names[2 * j]);
    assert(names[2 * i + 1] != names[2 * j + 1]);
}

/// A merge reads and changes the two files of its pair and no other: what
/// it does to them is the same in any working directory that holds them
/// with the same bytes, and every other file stays as it is.
pub proof fn lemma_merge_is_local(files: Files, other: Files, pair: PairPlan)
    requires
        files.dom().contains(pair.left) == other.dom().contains(pair.left),
        files.dom().contains(pair.right) == other.dom().contains(pair.right),
        files.dom().contains(pair.left) ==> files[pair.left] == other[pair.left],
        files.dom().contains(pair.right) ==> files[pair.right] == other[pair.right],
    ensures
        merged(files, pair).result == merged(other, pair).result,
        merged(files, pair).files.dom().contains(pair.left) == merged(other, pair).files.dom().contains(
            pair.left,
        ),
        merged(files, pair).files.dom().contains(pair.right) == merged(
            other,
            pair,
        ).files.dom().contains(pair.right),
        merged(files, pair).files.dom().contains(pair.left) ==> merged(files, pair).files[pair.left]
            == merged(other, pair).files[pair.left],
        merged(files, pair).files.dom().contains(pair.right) ==> merged(files, pair).files[pair.right]
            == merged(other, pair).files[pair.right],
        forall|name: Seq<char>|
            name != pair.left && name != pair.right ==> {
                &&& #[trigger] merged(files, pair).files.dom().contains(name) == files.dom().contains(
                    name,
                )
                &&& merged(files, pair).files[name] == files[name]
            },
{
}

/// Merges of pairs that share no file can run in either order: the files
/// are the same afterwards, and each merge ends as it would have ended
/// alone.
pub proof fn lemma_disjoint_merges_commute(files: Files, p: PairPlan, q: PairPlan)
    requires
        disjoint(p, q),
    ensures
        merged(merged(files, p).files, q).files == merged(merged(files, q).files, p).files,
        merged(merged(files, p).files, q).result == merged(files, q).result,
        merged(merged(files, q).files, p).result == merged(files, p).result,
{
    let after_p = merged(files, p).files;
    let after_q = merged(files, q).files;
    lemma_merge_is_local(files, files, p);
    lemma_merge_is_local(files, files, q);
    lemma_merge_is_local(after_p, files, q);
    lemma_merge_is_local(after_q, files, p);
    let one = merged(after_p, q).files;
    let two = merged(after_q, p).files;
    assert forall|name: Seq<char>| one.dom().contains(name) == two.dom().contains(name) && (
    one.dom().contains(name) ==> one[name] == two[name]) by {
        if name == p.left || name == p.right {
            assert(one.dom().contains(name) == after_p.dom().contains(name));
            assert(one[name] == after_p[name]);
        } else if name == q.left || name == q.right {
            assert(two.dom().contains(name) == after_q.dom().contains(name));
            assert(two[name] == after_q[name]);
        } else {
            assert(one.dom().contains(name) == after_p.dom().contains(name));
            assert(two.dom().contains(name) == after_q.dom().contains(name));
            assert(after_p.dom().contains(name) == files.dom().contains(name));
            assert(after_q.dom().contains(name) == files.dom().contains(name));
        }
    }
    assert(one =~= two);
}

/// The files before the merge of the pair at position `i` of a level.
pub open spec fn before_pair(files: Files, pairs: Seq<PairPlan>, i: int) -> Files {
    level_merged(files, pairs.take(i)).0
}

/// The files before the level at position `k` of a plan.
pub open spec fn before_level(files: Files, chain: Seq<LevelPlan>, k: int) -> Files {
    traversed(files, chain.take(k)).0
}

/// Every frame that the merges of a level get from the encoder holds what
/// was handed to it.
pub open spec fn level_faithful(files: Files, pairs: Seq<PairPlan>) -> bool {
    forall|i: int|
        0 <= i < pairs.len() ==> merge_faithful(#[trigger] before_pair(files, pairs, i), pairs[i])
}

/// Every frame that the merges of a plan get from the encoder holds what
/// was handed to it.
pub open spec fn tree_faithful(files: Files, chain: Seq<LevelPlan>) -> bool {
    forall|k: int|
        0 <= k < chain.len() ==> level_faithful(
            #[trigger] before_level(files, chain, k),
            chain[k].pairs,
        )
}

/// How the merges of one level ended.
pub struct LevelReport {
    /// The number of the level.
    pub level: usize,
    /// The result of each merge, in the order of the pairs.
    pub outcomes: Vec<Result<(), FqcatError>>,
}

/// The outcomes held by a list of reports.
pub open spec fn outcomes_of(reports: Seq<LevelReport>) -> Seq<Seq<Result<(), FqcatError>>> {
    Seq::new(reports.len(), |i: int| reports[i].outcomes@)
}

/// Runs every merge of a level, in the order of the pairs. A merge that
/// fails is reported and does not stop the others.
pub fn process_mergepairs(ws: &mut Workspace, pairs: &Vec<MergePair>, level: usize) -> (report:
    LevelReport)
    ensures
        final(ws)@ == level_merged(old(ws)@, pair_plans(pairs@)).0,
        report.outcomes@ == level_merged(old(ws)@, pair_plans(pairs@)).1,
        report.level == level,
        level_faithful(old(ws)@, pair_plans(pairs@)),
{
    let ghost plans = pair_plans(pairs@);
    let mut outcomes: Vec<Result<(), FqcatError>> = Vec::new();
    let mut i: usize = 0;
    while i < pairs.len()
        invariant
            i <= pairs.len(),
            plans == pair_plans(pairs@),
            ws@ == level_merged(old(ws)@, plans.take(i as int)).0,
            outcomes@ == level_merged(old(ws)@, plans.take(i as int)).1,
            forall|j: int|
                0 <= j < i ==> merge_faithful(#[trigger] before_pair(old(ws)@, plans, j), plans[j]),
        decreases pairs.len() - i,
    {
        let outcome = merge_pair(ws, &pairs[i]);
        outcomes.push(outcome);
        proof {
            assert(plans.take(i + 1).drop_last() == plans.take(i as int));
            assert(plans.take(i + 1).last() == pairs@[i as int]@);
            assert(plans[i as int] == pairs@[i as int]@);
        }
        i += 1;
    }
    assert(plans.take(pairs.len() as int) == plans);
    LevelReport { level, outcomes }
}

/// Runs the plan: every merge of the first level, then every merge of the
/// next, down to the last level. A level starts only when the level before
/// it has ended.
pub fn traverse_tree(ws: &mut Workspace, tree: &MergeTree) -> (reports: Vec<LevelReport>)
    ensures
        final(ws)@ == traversed(old(ws)@, tree@).0,
        outcomes_of(reports@) == traversed(old(ws)@, tree@).1,
        reports@.len() == tree@.len(),
        forall|k: int| 0 <= k < reports@.len() ==> #[trigger] reports@[k].level == tree@[k].level,
        tree_faithful(old(ws)@, tree@),
{
    let ghost chain = tree@;
    let mut reports: Vec<LevelReport> = Vec::new();
    let mut node: &MergeTree = tree;
    let mut done: bool = false;
    while !done
        invariant
            reports@.len() + node@.len() == chain.len() + if done { 1int } else { 0int },
            !done ==> node@ == chain.skip(reports@.len() as int),
            done ==> reports@.len() == chain.len(),
            reports@.len() <= chain.len(),
            ws@ == traversed(old(ws)@, chain.take(reports@.len() as int)).0,
            outcomes_of(reports@) == traversed(old(ws)@, chain.take(reports@.len() as int)).1,
            forall|k: int| 0 <= k < reports@.len() ==> #[trigger] reports@[k].level == chain[k].level,
            forall|k: int|
                0 <= k < reports@.len() ==> level_faithful(
                    #[trigger] before_level(old(ws)@, chain, k),
                    chain[k].pairs,
                ),
        decreases chain.len() - reports@.len(), if done { 0int } else { 1int },
    {
        let ghost at = reports@.len() as int;
        let ghost shown = outcomes_of(reports@);
        let level = node.level();
        let report = process_mergepairs(ws, node.merge_pairs(), level);
        reports.push(report);
        proof {
            assert(node@[0] == chain[at]);
            assert(chain.take(at + 1).drop_last() == chain.take(at));
            assert(chain.take(at + 1).last() == chain[at]);
            assert(outcomes_of(reports@) == shown.push(report.outcomes@));
        }
        match node.subtree() {
            Some(child) => {
                assert(child@ == chain.skip(at + 1)) by {
                    assert(chain.skip(at).skip(1) == chain.skip(at + 1));
                }
                node = child;
            },
            None => {
                done = true;
            },
        }
    }
    assert(chain.take(chain.len() as int) == chain);
    reports
}

} // verus!
