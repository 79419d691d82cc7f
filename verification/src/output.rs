//! What a run writes: the lines of every source, in the order of the
//! sources.

use vstd::prelude::*;
use crate::codec::{decoded, gzip_decoded, gzip_encoded, zstd_decoded, zstd_encoded, ZSTD_LEVEL};
use crate::lines::{
    lemma_read_end, lemma_read_lines_are_stable, lemma_render_concat,
    lemma_written_lines_read_back,
    no_trailing_return, read_lines, render, stable_line, stable_lines, LineRun,
};
use crate::merge::{
    before_level, before_pair, donor_run, holds_text, level_faithful, level_merged, merge_faithful,
    merged, payload_of_merge, traversed, tree_faithful,
};
use crate::names::{
    accumulator_path, codec_of, is_accumulator, lemma_accumulator_is_marked,
    lemma_accumulator_is_zstd, lemma_accumulator_paths_differ, Codec,
};
use crate::prepare::{
    before_input, first_pass_faithful, prepared, prepared_names, recode_faithful, recode_run,
    recoded,
};
use crate::publish::{final_accumulator, publish_faithful};
use crate::run::{
    all_ok, clean, keeps, lemma_first_pass_keeps_base, lemma_first_pass_stages,
    lemma_level_keeps_base, lemma_level_leaves_survivors, lemma_merge_touches_its_pair,
    lemma_run_needs_a_source, lemma_traversal_keeps_base, lemma_traversed_first, levels_ok, live,
    only_adds, run_files, run_merged, run_prepared, run_succeeds, staged, unmarked,
};
use crate::tree::{level_plan, pairs_of, plan, survivors_of, LevelPlan, PairPlan};
use crate::workspace::Files;

verus! {

/// The lines that a run reads from the source at position `i`. A source at
/// an even position is recompressed in the first pass, and read as gzip;
/// one at an odd position is the donor of a merge.
pub open spec fn source_run(files: Files, sources: Seq<Seq<char>>, i: int) -> LineRun {
    if i % 2 == 0 {
        recode_run(files, sources[i])
    } else {
        donor_run(files, sources[i])
    }
}

/// The lines of every source, source by source.
pub open spec fn source_texts(files: Files, sources: Seq<Seq<char>>) -> Seq<Seq<Seq<u8>>> {
    Seq::new(sources.len(), |i: int| source_run(files, sources, i).lines)
}

/// The lines of the texts, one text after the other.
pub open spec fn joined(texts: Seq<Seq<Seq<u8>>>) -> Seq<Seq<u8>>
    decreases texts.len(),
{
    if texts.len() == 0 {
        Seq::empty()
    } else {
        joined(texts.drop_last()) + texts.last()
    }
}

/// No line of any source ends in a carriage return.
pub open spec fn steady(files: Files, sources: Seq<Seq<char>>) -> bool {
    forall|i: int|
        0 <= i < sources.len() ==> no_trailing_return(#[trigger] source_run(files, sources, i).lines)
}

/// The output of the run is the gzip member of the lines of all the
/// sources, in the order of the sources, each line with a line end: the
/// gzip decoder reads it to a clean end as that text, and it is read back
/// as exactly those lines.
pub open spec fn wrote_sources(
    before: Files,
    after: Files,
    sources: Seq<Seq<char>>,
    output: Seq<char>,
) -> bool {
    let lines = joined(source_texts(before, sources));
    let now = gzip_decoded(after[output]);
    &&& after.dom().contains(output)
    &&& gzip_encoded(render(lines)) == Some(after[output])
    &&& now == (render(lines), true)
    &&& read_lines(now.0, now.1) == (LineRun { lines, complete: true })
}

/// The texts after a level: every text at an even position, followed by
/// the text after it where there is one.
pub open spec fn paired_texts(texts: Seq<Seq<Seq<u8>>>) -> Seq<Seq<Seq<u8>>> {
    Seq::new(
        (texts.len() + 1) / 2,
        |j: int|
            if 2 * j + 1 < texts.len() {
                texts[2 * j] + texts[2 * j + 1]
            } else {
                texts[2 * j]
            },
    )
}

/// The files carry the texts of a level: every accumulator of the level
/// is read as Zstandard and holds the text at its position, and the text
/// at the position of any other name is what is read from it as a donor.
pub open spec fn carries(
    files: Files,
    base: Files,
    names: Seq<Seq<char>>,
    texts: Seq<Seq<Seq<u8>>>,
) -> bool {
    &&& texts.len() == names.len()
    &&& forall|i: int|
        0 <= i < names.len() ==> {
            &&& stable_lines(#[trigger] texts[i])
            &&& is_accumulator(names[i]) ==> codec_of(names[i]) == Some(Codec::Zstd) && holds_text(
                files,
                names[i],
                texts[i],
            )
            &&& !is_accumulator(names[i]) ==> texts[i] == donor_run(base, names[i]).lines
        }
}

/// What the accumulators of a level hold after its first `done` merges:
/// the destination of a merge that is done holds its text followed by
/// that of its donor; an accumulator that no merge has touched holds its
/// text.
pub open spec fn carries_partly(
    files: Files,
    names: Seq<Seq<char>>,
    texts: Seq<Seq<Seq<u8>>>,
    done: int,
) -> bool {
    forall|i: int|
        0 <= i < names.len() && is_accumulator(#[trigger] names[i]) ==> if i < 2 * done {
            i % 2 == 0 ==> holds_text(files, names[i], texts[i] + texts[i + 1])
        } else {
            holds_text(files, names[i], texts[i])
        }
}

/// Pairing the texts keeps their lines and the order of the lines.
pub proof fn lemma_paired_texts_join(texts: Seq<Seq<Seq<u8>>>)
    ensures
        joined(paired_texts(texts)) == joined(texts),
    decreases texts.len(),
{
    let paired = paired_texts(texts);
    if texts.len() == 0 {
        assert(paired == Seq::<Seq<Seq<u8>>>::empty());
    } else if texts.len() % 2 == 1 {
        let front = texts.drop_last();
        lemma_paired_texts_join(front);
        assert(paired.drop_last() == paired_texts(front));
        assert(paired.last() == texts.last());
    } else {
        let front = texts.drop_last();
        let head = front.drop_last();
        let one = front.last();
        let two = texts.last();
        lemma_paired_texts_join(head);
        assert(paired.drop_last() == paired_texts(head));
        assert(paired.last() == one + two);
        assert(joined(front) == joined(head) + one);
        assert(joined(texts) == joined(front) + two);
        assert((joined(head) + one) + two == joined(head) + (one + two));
    }
}

/// What is read from a donor of a level. An accumulator hands out the
/// text that it holds; any other donor hands out what is read from the
/// file of that name in `base`.
proof fn lemma_donor_hands_out_its_text(
    base: Files,
    files: Files,
    names: Seq<Seq<char>>,
    texts: Seq<Seq<Seq<u8>>>,
    done: int,
    at: int,
)
    requires
        keeps(files, base),
        only_adds(files, base, names, done),
        texts.len() == names.len(),
        0 <= at < names.len(),
        stable_lines(texts[at]),
        is_accumulator(names[at]) ==> codec_of(names[at]) == Some(Codec::Zstd) && holds_text(
            files,
            names[at],
            texts[at],
        ),
        !is_accumulator(names[at]) ==> texts[at] == donor_run(base, names[at]).lines,
        files.dom().contains(names[at]),
    ensures
        donor_run(files, names[at]).lines == texts[at],
{
    let name = names[at];
    if is_accumulator(name) {
        lemma_written_lines_read_back(texts[at], true);
    } else {
        if !base.dom().contains(name) {
            assert(live(names, done, name));
        }
        assert(files[name] == base[name]);
    }
}

/// After the first `k` merges of a level, all of which succeeded and got
/// frames that hold their payloads, the destination of every merge holds
/// its text followed by that of its donor, and the accumulators that no
/// merge has touched hold their texts.
pub proof fn lemma_level_carries(
    base: Files,
    files: Files,
    names: Seq<Seq<char>>,
    texts: Seq<Seq<Seq<u8>>>,
    k: int,
)
    requires
        clean(base),
        staged(names),
        keeps(files, base),
        only_adds(files, base, names, 0),
        carries(files, base, names, texts),
        0 <= k <= pairs_of(names).len(),
        all_ok(level_merged(files, pairs_of(names).take(k)).1),
        level_faithful(files, pairs_of(names)),
    ensures
        carries_partly(level_merged(files, pairs_of(names).take(k)).0, names, texts, k),
    decreases k,
{
    let pairs = pairs_of(names);
    if k == 0 {
        assert(pairs.take(0) == Seq::<PairPlan>::empty());
    } else {
        let head = pairs.take(k - 1);
        assert(pairs.take(k).drop_last() == head);
        let mid = level_merged(files, head);
        let pair = pairs[k - 1];
        assert(pairs.take(k).last() == pair);
        let step = merged(mid.0, pair);
        assert(level_merged(files, pairs.take(k)).1 == mid.1.push(step.result));
        assert(all_ok(mid.1)) by {
            assert forall|i: int| 0 <= i < mid.1.len() implies (#[trigger] mid.1[i]) is Ok by {
                assert(mid.1.push(step.result)[i] == mid.1[i]);
            }
        }
        assert(step.result is Ok) by {
            assert(mid.1.push(step.result)[mid.1.len() as int] == step.result);
        }
        lemma_level_carries(base, files, names, texts, k - 1);
        lemma_level_keeps_base(base, files, names, k - 1);
        let l = 2 * (k - 1);
        let r = l + 1;
        let left = names[l];
        let right = names[r];
        assert(pair.left == left && pair.right == right);
        assert(is_accumulator(left));
        lemma_merge_touches_its_pair(mid.0, pair);
        assert(before_pair(files, pairs, k - 1) == mid.0);
        assert(merge_faithful(mid.0, pair));
        reveal(merge_faithful);
        let payload = payload_of_merge(mid.0, pair);
        let frame = zstd_encoded(payload, ZSTD_LEVEL)->0;
        let run = donor_run(mid.0, right);
        assert(stable_lines(texts[r]));
        assert(stable_lines(texts[l]));
        lemma_donor_hands_out_its_text(base, mid.0, names, texts, k - 1, r);
        assert(run.lines == texts[r]);
        let stream = decoded(codec_of(right)->0, mid.0[right]);
        lemma_read_end(stream.0, stream.1);
        assert(run.lines.take(run.lines.len() as int) == run.lines);
        assert(payload == render(texts[r]));
        assert(holds_text(mid.0, left, texts[l]));
        assert(left != right);
        let after = step.files;
        assert(level_merged(files, pairs.take(k)).0 == after);
        assert(after[left] == mid.0[left] + frame) by {
            assert(mid.0[left] + Seq::<u8>::empty() == mid.0[left]);
        }
        assert(zstd_decoded(mid.0[left] + frame) == (render(texts[l]) + payload, true));
        lemma_render_concat(texts[l], texts[r]);
        assert(holds_text(after, left, texts[l] + texts[r]));
        assert forall|i: int| 0 <= i < names.len() && is_accumulator(#[trigger] names[i]) implies if i
            < 2 * k {
            i % 2 == 0 ==> holds_text(after, names[i], texts[i] + texts[i + 1])
        } else {
            holds_text(after, names[i], texts[i])
        } by {
            if i != l && i != r {
                assert(names[i] != left);
                assert(names[i] != right);
            }
        }
    }
}

/// After a level whose merges all succeeded and got frames that hold
/// their payloads, the files carry the paired texts of the level.
pub proof fn lemma_level_carries_paired(
    base: Files,
    files: Files,
    names: Seq<Seq<char>>,
    texts: Seq<Seq<Seq<u8>>>,
)
    requires
        clean(base),
        staged(names),
        keeps(files, base),
        only_adds(files, base, names, 0),
        carries(files, base, names, texts),
        all_ok(level_merged(files, pairs_of(names)).1),
        level_faithful(files, pairs_of(names)),
    ensures
        carries(level_merged(files, pairs_of(names)).0, base, survivors_of(names), paired_texts(texts)),
{
    let pairs = pairs_of(names);
    let left = survivors_of(names);
    let paired = paired_texts(texts);
    let after = level_merged(files, pairs).0;
    assert(pairs.take(pairs.len() as int) == pairs);
    lemma_level_carries(base, files, names, texts, pairs.len() as int);
    assert forall|j: int| 0 <= j < left.len() implies {
        &&& stable_lines(#[trigger] paired[j])
        &&& is_accumulator(left[j]) ==> codec_of(left[j]) == Some(Codec::Zstd) && holds_text(
            after,
            left[j],
            paired[j],
        )
        &&& !is_accumulator(left[j]) ==> paired[j] == donor_run(base, left[j]).lines
    } by {
        assert(left[j] == names[2 * j]);
        assert(is_accumulator(names[2 * j]));
        assert(stable_lines(texts[2 * j]));
        if 2 * j + 1 < texts.len() {
            assert(stable_lines(texts[2 * j + 1]));
            let both = texts[2 * j] + texts[2 * j + 1];
            assert forall|i: int| 0 <= i < both.len() implies stable_line(
                #[trigger] both[i],
            ) by {
                if i < texts[2 * j].len() {
                    assert(both[i] == texts[2 * j][i]);
                } else {
                    assert(both[i] == texts[2 * j + 1][i - texts[2 * j].len()]);
                }
            }
        }
    }
}

/// The frames of the levels after the first hold their payloads where
/// those of the whole plan do.
pub proof fn lemma_tree_faithful_rest(files: Files, chain: Seq<LevelPlan>)
    requires
        chain.len() >= 1,
        tree_faithful(files, chain),
    ensures
        level_faithful(files, chain[0].pairs),
        tree_faithful(level_merged(files, chain[0].pairs).0, chain.drop_first()),
{
    let first = level_merged(files, chain[0].pairs).0;
    let rest = chain.drop_first();
    assert(chain.take(0) == Seq::<LevelPlan>::empty());
    assert(before_level(files, chain, 0) == files);
    assert forall|k: int| 0 <= k < rest.len() implies level_faithful(
        #[trigger] before_level(first, rest, k),
        rest[k].pairs,
    ) by {
        let upto = chain.take(k + 1);
        lemma_traversed_first(files, upto);
        assert(upto[0] == chain[0]);
        assert(upto.drop_first() == rest.take(k));
        assert(before_level(files, chain, k + 1) == before_level(first, rest, k));
        assert(chain[k + 1] == rest[k]);
    }
}

/// After the merges of a whole plan, all of which succeeded and got
/// frames that hold their payloads, the first of the names holds the
/// lines of all the texts, in the order of the names.
pub proof fn lemma_traversal_carries(
    base: Files,
    files: Files,
    names: Seq<Seq<char>>,
    texts: Seq<Seq<Seq<u8>>>,
    previous: nat,
)
    requires
        clean(base),
        staged(names),
        names.len() >= 1,
        keeps(files, base),
        only_adds(files, base, names, 0),
        carries(files, base, names, texts),
        levels_ok(traversed(files, plan(names, previous)).1),
        tree_faithful(files, plan(names, previous)),
    ensures
        holds_text(traversed(files, plan(names, previous)).0, names[0], joined(texts)),
        stable_lines(joined(texts)),
    decreases names.len(),
{
    let chain = plan(names, previous);
    let left = survivors_of(names);
    let first = level_merged(files, pairs_of(names));
    assert(chain[0] == level_plan(names, previous + 1));
    lemma_traversed_first(files, chain);
    lemma_tree_faithful_rest(files, chain);
    let rest = traversed(first.0, chain.drop_first());
    let outcomes = traversed(files, chain).1;
    assert(outcomes[0] == first.1);
    assert(all_ok(first.1));
    lemma_level_leaves_survivors(base, files, names);
    lemma_level_carries_paired(base, files, names, texts);
    lemma_paired_texts_join(texts);
    let paired = paired_texts(texts);
    if left.len() > 1 {
        assert(chain.drop_first() == plan(left, previous + 1));
        assert(levels_ok(rest.1)) by {
            assert forall|k: int| 0 <= k < rest.1.len() implies all_ok(#[trigger] rest.1[k]) by {
                assert(outcomes[k + 1] == rest.1[k]);
            }
        }
        lemma_traversal_carries(base, first.0, left, paired, previous + 1);
        assert(left[0] == names[0]);
    } else {
        assert(chain.drop_first() == Seq::<LevelPlan>::empty());
        assert(traversed(first.0, Seq::<LevelPlan>::empty()).0 == first.0);
        assert(left[0] == names[0]);
        assert(is_accumulator(left[0]));
        assert(stable_lines(paired[0]));
        assert(paired.drop_last() == Seq::<Seq<Seq<u8>>>::empty());
        assert(joined(paired.drop_last()) == Seq::<Seq<u8>>::empty());
        assert(joined(paired) == Seq::<Seq<u8>>::empty() + paired[0]);
        assert(Seq::<Seq<u8>>::empty() + paired[0] == paired[0]);
    }
}

/// After the first pass over the first `k` sources, where it succeeded and
/// got frames that hold their payloads, the accumulator of every even
/// position below `k` holds the lines of the source at that position.
pub proof fn lemma_first_pass_carries(base: Files, sources: Seq<Seq<char>>, dir: Seq<char>, k: int)
    requires
        clean(base),
        unmarked(sources),
        0 <= k <= sources.len(),
        prepared(base, sources.take(k), dir).result is Ok,
        first_pass_faithful(base, sources, dir),
    ensures
        forall|i: int|
            0 <= i < k && i % 2 == 0 ==> {
                &&& holds_text(
                    prepared(base, sources.take(k), dir).files,
                    #[trigger] accumulator_path(dir, i as nat),
                    source_run(base, sources, i).lines,
                )
                &&& source_run(base, sources, i).complete
            },
    decreases k,
{
    if k > 0 {
        let head = sources.take(k - 1);
        assert(sources.take(k).drop_last() == head);
        let before = prepared(base, head, dir);
        lemma_first_pass_carries(base, sources, dir, k - 1);
        lemma_first_pass_keeps_base(base, sources, dir, k - 1);
        let after = prepared(base, sources.take(k), dir).files;
        if (k - 1) % 2 == 0 {
            let input = sources[k - 1];
            let output = accumulator_path(dir, (k - 1) as nat);
            assert(sources.take(k).last() == input);
            lemma_accumulator_is_marked(dir, (k - 1) as nat);
            assert(after == recoded(before.files, input, output).files);
            assert(!is_accumulator(input));
            assert(before.files.dom().contains(input));
            if !base.dom().contains(input) {
                let i = choose|i: int|
                    0 <= i < k - 1 && i % 2 == 0 && input == #[trigger] accumulator_path(
                        dir,
                        i as nat,
                    );
                lemma_accumulator_is_marked(dir, i as nat);
            }
            assert(before.files[input] == base[input]);
            assert(before_input(base, sources, dir, k - 1) == before);
            assert(recode_faithful(before.files, input));
            let run = source_run(base, sources, k - 1);
            let stream = gzip_decoded(base[input]);
            lemma_read_end(stream.0, stream.1);
            assert(run.lines.take(run.lines.len() as int) == run.lines);
            let payload = render(run.lines);
            let frame = zstd_encoded(payload, ZSTD_LEVEL)->0;
            assert(after[output] == frame) by {
                assert(Seq::<u8>::empty() + frame == frame);
            }
            assert forall|i: int| 0 <= i < k && i % 2 == 0 implies {
                &&& holds_text(after, #[trigger] accumulator_path(dir, i as nat), source_run(
                    base,
                    sources,
                    i,
                ).lines)
                &&& source_run(base, sources, i).complete
            } by {
                if i < k - 1 {
                    lemma_accumulator_paths_differ(dir, i as nat, (k - 1) as nat);
                    let name = accumulator_path(dir, i as nat);
                    assert(holds_text(before.files, name, source_run(base, sources, i).lines));
                    assert(after[name] == before.files[name]);
                } else {
                    assert(zstd_decoded(frame) == (payload, true));
                }
            }
        } else {
            assert(after == before.files);
            assert forall|i: int| 0 <= i < k && i % 2 == 0 implies {
                &&& holds_text(after, #[trigger] accumulator_path(dir, i as nat), source_run(
                    base,
                    sources,
                    i,
                ).lines)
                &&& source_run(base, sources, i).complete
            } by {
                assert(i < k - 1);
            }
        }
    }
}

/// A run that succeeds writes the lines of its sources. Where no file of
/// the working directory, no source and not the output is an accumulator,
/// where every frame and the member that the run got from the encoders
/// hold their payloads,
/// and where no line of a source ends in a carriage return, a run that
/// succeeds leaves as the output the gzip member of the lines of all the
/// sources, in the order of the sources, each line with a line end.
pub proof fn lemma_successful_run_output(
    files: Files,
    sources: Seq<Seq<char>>,
    dir: Seq<char>,
    output: Seq<char>,
)
    requires
        clean(files),
        unmarked(sources),
        !is_accumulator(output),
        run_succeeds(files, sources, dir, output),
        first_pass_faithful(files, sources, dir),
        tree_faithful(run_prepared(files, sources, dir), plan(prepared_names(sources, dir), 0)),
        publish_faithful(run_merged(files, sources, dir), dir),
        steady(files, sources),
    ensures
        wrote_sources(files, run_files(files, sources, dir, output), sources, output),
{
    let names = prepared_names(sources, dir);
    let texts = source_texts(files, sources);
    let first = run_prepared(files, sources, dir);
    let last = final_accumulator(dir);
    lemma_accumulator_is_marked(dir, 0);
    lemma_run_needs_a_source(files, sources, dir, output);
    lemma_first_pass_stages(files, sources, dir);
    assert(sources.take(sources.len() as int) == sources);
    lemma_first_pass_carries(files, sources, dir, sources.len() as int);
    assert forall|i: int| 0 <= i < names.len() implies {
        &&& stable_lines(#[trigger] texts[i])
        &&& is_accumulator(names[i]) ==> codec_of(names[i]) == Some(Codec::Zstd) && holds_text(
            first,
            names[i],
            texts[i],
        )
        &&& !is_accumulator(names[i]) ==> texts[i] == donor_run(files, names[i]).lines
    } by {
        assert(no_trailing_return(source_run(files, sources, i).lines));
        if i % 2 == 0 {
            let stream = gzip_decoded(files[sources[i]]);
            lemma_read_lines_are_stable(stream.0, stream.1);
            lemma_accumulator_is_marked(dir, i as nat);
            lemma_accumulator_is_zstd(dir, i as nat);
            assert(names[i] == accumulator_path(dir, i as nat));
        } else {
            assert(names[i] == sources[i]);
            match codec_of(sources[i]) {
                Some(codec) => {
                    let stream = decoded(codec, files[sources[i]]);
                    lemma_read_lines_are_stable(stream.0, stream.1);
                },
                None => {},
            }
        }
    }
    lemma_traversal_keeps_base(files, first, names, 0);
    lemma_traversal_carries(files, first, names, texts, 0);
    assert(names[0] == last);
    lemma_written_lines_read_back(joined(texts), true);
    let all = joined(texts);
    assert(all.take(all.len() as int) == all);
}

} // verus!
