use flate2::read::MultiGzDecoder;
use flate2::write::GzEncoder;
use flate2::Compression;
use libfqcat::error::{FqcatError, LineError};
use libfqcat::merge::traverse_tree;
use libfqcat::prepare::{prepare_for_merges, recode_gzip_to_zstd, recode_stream, store_frame};
use libfqcat::publish::{publish_final_fastq, publish_stream, release_member};
use libfqcat::tree::build_merge_tree;
use libfqcat::workspace::Workspace;
use std::io::{Read, Write};

fn gz(text: &[u8]) -> Vec<u8> {
    let mut encoder = GzEncoder::new(Vec::new(), Compression::default());
    encoder.write_all(text).unwrap();
    encoder.finish().unwrap()
}

fn gunzip(bytes: &[u8]) -> Vec<u8> {
    let mut out = Vec::new();
    MultiGzDecoder::new(bytes).read_to_end(&mut out).unwrap();
    out
}

fn zst(text: &[u8]) -> Vec<u8> {
    zstd::stream::encode_all(text, 3).unwrap()
}

fn unzst(bytes: &[u8]) -> Vec<u8> {
    zstd::stream::decode_all(bytes).unwrap()
}

fn run(ws: &mut Workspace, inputs: Vec<String>, dir: &str, output: &str) -> Result<(), FqcatError> {
    let prepped = prepare_for_merges(ws, inputs, &dir.to_string())?;
    let tree = build_merge_tree(&prepped, None)?;
    for report in traverse_tree(ws, &tree) {
        for outcome in report.outcomes {
            outcome?;
        }
    }
    publish_final_fastq(ws, dir, output)
}

#[test]
fn recoding_turns_gzip_into_one_zstd_frame() {
    let mut ws = Workspace::new();
    ws.write("d/a.fastq.gz", gz(b"@a\r\nAC\n"));
    assert_eq!(recode_gzip_to_zstd(&mut ws, "d/a.fastq.gz", "d/tmp0.fastq.zst"), Ok(()));
    assert_eq!(ws.read("d/tmp0.fastq.zst"), Some(&zst(b"@a\nAC\n")));
    assert_eq!(ws.read("d/a.fastq.gz"), Some(&gz(b"@a\r\nAC\n")));
}

#[test]
fn recoding_replaces_an_output_that_exists() {
    let mut ws = Workspace::new();
    ws.write("d/a.fastq.gz", gz(b"new\n"));
    ws.write("d/tmp0.fastq.zst", zst(b"old\n"));
    assert_eq!(recode_gzip_to_zstd(&mut ws, "d/a.fastq.gz", "d/tmp0.fastq.zst"), Ok(()));
    assert_eq!(ws.read("d/tmp0.fastq.zst"), Some(&zst(b"new\n")));
    assert_eq!(unzst(ws.read("d/tmp0.fastq.zst").unwrap()), b"new\n".to_vec());
}

#[test]
fn recoding_that_fails_still_replaces_the_output() {
    let mut ws = Workspace::new();
    ws.write("d/a.fastq.gz", gz(b"one\n\xff\n"));
    ws.write("d/tmp0.fastq.zst", zst(b"old\n"));
    assert_eq!(
        recode_gzip_to_zstd(&mut ws, "d/a.fastq.gz", "d/tmp0.fastq.zst"),
        Err(FqcatError::Transcode(LineError::NotUtf8))
    );
    assert_eq!(unzst(ws.read("d/tmp0.fastq.zst").unwrap()), b"one\n".to_vec());
}

#[test]
fn a_first_pass_over_a_stale_accumulator_starts_it_anew() {
    let mut ws = Workspace::new();
    ws.write("d/a.fastq.gz", gz(b"@a\n"));
    ws.write("d/tmp0.fastq.zst", zst(b"stale\n"));
    let prepped = prepare_for_merges(&mut ws, vec!["d/a.fastq.gz".to_string()], &"d".to_string()).unwrap();
    assert_eq!(prepped, vec!["d/tmp0.fastq.zst".to_string()]);
    assert_eq!(unzst(ws.read("d/tmp0.fastq.zst").unwrap()), b"@a\n".to_vec());
}

#[test]
fn recoding_a_missing_input_is_an_io_failure() {
    let mut ws = Workspace::new();
    assert_eq!(recode_gzip_to_zstd(&mut ws, "d/a.fastq.gz", "d/tmp0.fastq.zst"), Err(FqcatError::Io));
    assert_eq!(ws.len(), 0);
}

#[test]
fn recoding_reads_gzip_whatever_the_name_says() {
    let mut ws = Workspace::new();
    ws.write("d/a.txt", gz(b"@a\n"));
    assert_eq!(recode_gzip_to_zstd(&mut ws, "d/a.txt", "d/out.zst"), Ok(()));
    assert_eq!(unzst(ws.read("d/out.zst").unwrap()), b"@a\n".to_vec());
}

#[test]
fn recoding_keeps_every_line_before_a_failure() {
    let mut ws = Workspace::new();
    ws.write("d/a.fastq.gz", gz(b"one\ntwo\n\xff\nthree\n"));
    assert_eq!(
        recode_gzip_to_zstd(&mut ws, "d/a.fastq.gz", "d/tmp0.fastq.zst"),
        Err(FqcatError::Transcode(LineError::NotUtf8))
    );
    assert_eq!(unzst(ws.read("d/tmp0.fastq.zst").unwrap()), b"one\ntwo\n".to_vec());
}

#[test]
fn recoding_what_is_no_gzip_is_a_transcode_failure() {
    let mut ws = Workspace::new();
    ws.write("d/a.fastq.gz", b"plain\n".to_vec());
    assert_eq!(
        recode_gzip_to_zstd(&mut ws, "d/a.fastq.gz", "d/tmp0.fastq.zst"),
        Err(FqcatError::Transcode(LineError::Decode))
    );
    assert_eq!(ws.read("d/tmp0.fastq.zst"), Some(&zst(b"")));
}

#[test]
fn recoding_a_stream_writes_its_lines() {
    let mut ws = Workspace::new();
    assert_eq!(recode_stream(&mut ws, "out.zst", b"a\nb", true), Ok(()));
    assert_eq!(ws.read("out.zst"), Some(&zst(b"a\nb\n")));
}

#[test]
fn storing_without_a_frame_fails() {
    let mut ws = Workspace::new();
    assert_eq!(
        store_frame(&mut ws, "out.zst", None, None),
        Err(FqcatError::Transcode(LineError::Encode))
    );
    assert!(!ws.contains("out.zst"));
}

#[test]
fn storing_a_frame_appends_it() {
    let mut ws = Workspace::new();
    ws.write("out.zst", vec![1]);
    assert_eq!(store_frame(&mut ws, "out.zst", Some(vec![2, 3]), None), Ok(()));
    assert_eq!(
        store_frame(&mut ws, "out.zst", Some(vec![4]), Some(LineError::Decode)),
        Err(FqcatError::Transcode(LineError::Decode))
    );
    assert_eq!(ws.read("out.zst"), Some(&vec![1, 2, 3, 4]));
}

#[test]
fn the_first_pass_recodes_every_other_input() {
    let mut ws = Workspace::new();
    let inputs: Vec<String> = ["d/a.fastq.gz", "d/b.fastq.gz", "d/c.fastq.gz"].iter().map(|s| s.to_string()).collect();
    ws.write("d/a.fastq.gz", gz(b"@a\n"));
    ws.write("d/b.fastq.gz", gz(b"@b\n"));
    ws.write("d/c.fastq.gz", gz(b"@c\n"));
    let prepped = prepare_for_merges(&mut ws, inputs, &"d".to_string()).unwrap();
    assert_eq!(
        prepped,
        vec!["d/tmp0.fastq.zst".to_string(), "d/b.fastq.gz".to_string(), "d/tmp2.fastq.zst".to_string()]
    );
    assert_eq!(unzst(ws.read("d/tmp0.fastq.zst").unwrap()), b"@a\n".to_vec());
    assert_eq!(unzst(ws.read("d/tmp2.fastq.zst").unwrap()), b"@c\n".to_vec());
    assert_eq!(ws.len(), 5);
}

#[test]
fn the_first_pass_accepts_a_directory_that_ends_in_a_separator() {
    let mut ws = Workspace::new();
    ws.write("d/a.fastq.gz", gz(b"@a\n"));
    let prepped = prepare_for_merges(&mut ws, vec!["d/a.fastq.gz".to_string()], &"d/".to_string()).unwrap();
    assert_eq!(prepped, vec!["d/tmp0.fastq.zst".to_string()]);
}

#[test]
fn the_first_pass_of_nothing_does_nothing() {
    let mut ws = Workspace::new();
    assert_eq!(prepare_for_merges(&mut ws, Vec::new(), &"d".to_string()), Ok(Vec::new()));
    assert_eq!(ws.len(), 0);
}

#[test]
fn the_first_pass_stops_at_the_first_failure() {
    let mut ws = Workspace::new();
    let inputs: Vec<String> = ["d/a.fastq.gz", "d/b.fastq.gz", "d/c.fastq.gz", "d/d.fastq.gz", "d/e.fastq.gz"]
        .iter()
        .map(|s| s.to_string())
        .collect();
    ws.write("d/a.fastq.gz", gz(b"@a\n"));
    ws.write("d/e.fastq.gz", gz(b"@e\n"));
    assert_eq!(prepare_for_merges(&mut ws, inputs, &"d".to_string()), Err(FqcatError::Io));
    assert!(ws.contains("d/tmp0.fastq.zst"));
    assert!(!ws.contains("d/tmp2.fastq.zst"));
    assert!(!ws.contains("d/tmp4.fastq.zst"));
}

#[test]
fn the_first_pass_does_not_read_the_inputs_at_odd_positions() {
    let mut ws = Workspace::new();
    ws.write("d/a.fastq.gz", gz(b"@a\n"));
    let inputs = vec!["d/a.fastq.gz".to_string(), "d/missing.fastq.gz".to_string()];
    assert_eq!(
        prepare_for_merges(&mut ws, inputs, &"d".to_string()),
        Ok(vec!["d/tmp0.fastq.zst".to_string(), "d/missing.fastq.gz".to_string()])
    );
}

#[test]
fn publishing_turns_the_accumulator_into_gzip_and_removes_it() {
    let mut ws = Workspace::new();
    let mut accumulator = zst(b"@a\nAC\n");
    accumulator.extend_from_slice(&zst(b"@b\nGT\n"));
    ws.write("d/tmp0.fastq.zst", accumulator);
    assert_eq!(publish_final_fastq(&mut ws, "d", "out/all.fastq.gz"), Ok(()));
    assert!(!ws.contains("d/tmp0.fastq.zst"));
    assert_eq!(ws.read("out/all.fastq.gz"), Some(&gz(b"@a\nAC\n@b\nGT\n")));
    assert_eq!(gunzip(ws.read("out/all.fastq.gz").unwrap()), b"@a\nAC\n@b\nGT\n".to_vec());
    assert_eq!(ws.len(), 1);
}

#[test]
fn publishing_finds_the_accumulator_in_a_directory_that_ends_in_a_separator() {
    let mut ws = Workspace::new();
    ws.write("d/tmp0.fastq.zst", zst(b"@a\n"));
    assert_eq!(publish_final_fastq(&mut ws, "d/", "all.gz"), Ok(()));
    assert_eq!(gunzip(ws.read("all.gz").unwrap()), b"@a\n".to_vec());
}

#[test]
fn publishing_replaces_an_output_that_exists() {
    let mut ws = Workspace::new();
    ws.write("d/tmp0.fastq.zst", zst(b"@a\n"));
    ws.write("all.gz", b"stale".to_vec());
    assert_eq!(publish_final_fastq(&mut ws, "d", "all.gz"), Ok(()));
    assert_eq!(gunzip(ws.read("all.gz").unwrap()), b"@a\n".to_vec());
}

#[test]
fn publishing_without_the_accumulator_is_an_io_failure() {
    let mut ws = Workspace::new();
    ws.write("d/tmp2.fastq.zst", zst(b"@a\n"));
    assert_eq!(publish_final_fastq(&mut ws, "d", "all.gz"), Err(FqcatError::Io));
    assert!(!ws.contains("all.gz"));
    assert!(ws.contains("d/tmp2.fastq.zst"));
}

#[test]
fn publishing_a_broken_accumulator_fails_and_keeps_it() {
    let mut ws = Workspace::new();
    let mut accumulator = zst(b"@a\n@b\n");
    accumulator.extend_from_slice(b"garbage");
    ws.write("d/tmp0.fastq.zst", accumulator);
    assert_eq!(publish_final_fastq(&mut ws, "d", "all.gz"), Err(FqcatError::Transcode(LineError::Decode)));
    assert!(ws.contains("d/tmp0.fastq.zst"));
    assert_eq!(gunzip(ws.read("all.gz").unwrap()), b"@a\n@b\n".to_vec());
}

#[test]
fn publishing_an_empty_accumulator_fails() {
    let mut ws = Workspace::new();
    ws.write("d/tmp0.fastq.zst", Vec::new());
    assert_eq!(publish_final_fastq(&mut ws, "d", "all.gz"), Err(FqcatError::Transcode(LineError::Decode)));
    assert!(ws.contains("d/tmp0.fastq.zst"));
}

#[test]
fn publishing_a_stream_writes_one_member() {
    let mut ws = Workspace::new();
    ws.write("acc", vec![1]);
    assert_eq!(publish_stream(&mut ws, "acc", "out.gz", b"x\r\ny", true), Ok(()));
    assert_eq!(ws.read("out.gz"), Some(&gz(b"x\ny\n")));
    assert!(!ws.contains("acc"));
}

#[test]
fn releasing_without_a_member_leaves_an_empty_output() {
    let mut ws = Workspace::new();
    ws.write("acc", vec![1]);
    ws.write("out.gz", vec![5, 5]);
    assert_eq!(
        release_member(&mut ws, "acc", "out.gz", None, None),
        Err(FqcatError::Transcode(LineError::Encode))
    );
    assert_eq!(ws.read("out.gz"), Some(&Vec::new()));
    assert!(ws.contains("acc"));
}

#[test]
fn releasing_a_member_writes_it_and_removes_the_accumulator() {
    let mut ws = Workspace::new();
    ws.write("acc", vec![1]);
    assert_eq!(release_member(&mut ws, "acc", "out.gz", Some(vec![9, 9]), None), Ok(()));
    assert_eq!(ws.read("out.gz"), Some(&vec![9, 9]));
    assert!(!ws.contains("acc"));
}

#[test]
fn releasing_after_a_failed_read_keeps_the_accumulator() {
    let mut ws = Workspace::new();
    ws.write("acc", vec![1]);
    assert_eq!(
        release_member(&mut ws, "acc", "out.gz", Some(vec![9]), Some(LineError::NotUtf8)),
        Err(FqcatError::Transcode(LineError::NotUtf8))
    );
    assert_eq!(ws.read("out.gz"), Some(&vec![9]));
    assert!(ws.contains("acc"));
}

#[test]
fn releasing_when_the_accumulator_is_gone_is_an_io_failure() {
    let mut ws = Workspace::new();
    assert_eq!(release_member(&mut ws, "acc", "out.gz", Some(vec![9]), None), Err(FqcatError::Io));
    assert_eq!(ws.read("out.gz"), Some(&vec![9]));
}

#[test]
fn three_inputs_become_one_output_in_their_order() {
    let mut ws = Workspace::new();
    let a = b"@a1\nAAAA\n+\nIIII\n".to_vec();
    let b = b"@b1\nCCCC\n+\nIIII\n@b2\nCC\n+\nII\n".to_vec();
    let c = b"@c1\nGGGG\n+\nIIII\n".to_vec();
    ws.write("d/a.fastq.gz", gz(&a));
    ws.write("d/b.fastq.gz", gz(&b));
    ws.write("d/c.fastq.gz", gz(&c));
    let inputs: Vec<String> = ["d/a.fastq.gz", "d/b.fastq.gz", "d/c.fastq.gz"].iter().map(|s| s.to_string()).collect();

    let prepped = prepare_for_merges(&mut ws, inputs, &"d".to_string()).unwrap();
    let tree = build_merge_tree(&prepped, None).unwrap();
    assert_eq!(tree.merge_pairs().len(), 1);
    assert_eq!(tree.merge_pairs()[0].left_file(), "d/tmp0.fastq.zst");
    assert_eq!(tree.merge_pairs()[0].right_file(), "d/b.fastq.gz");
    assert_eq!(tree.post_merge_files(), &vec!["d/tmp0.fastq.zst".to_string(), "d/tmp2.fastq.zst".to_string()]);
    let second = tree.subtree().unwrap();
    assert_eq!(second.merge_pairs().len(), 1);
    assert_eq!(second.post_merge_files(), &vec!["d/tmp0.fastq.zst".to_string()]);
    assert!(second.subtree().is_none());

    let reports = traverse_tree(&mut ws, &tree);
    assert_eq!(reports.len(), 2);
    assert_eq!(reports[0].outcomes, vec![Ok(())]);
    assert_eq!(reports[1].outcomes, vec![Ok(())]);
    assert_eq!(publish_final_fastq(&mut ws, "d", "d/all.fastq.gz"), Ok(()));

    let mut expected = a.clone();
    expected.extend_from_slice(&b);
    expected.extend_from_slice(&c);
    assert_eq!(gunzip(ws.read("d/all.fastq.gz").unwrap()), expected);
}

#[test]
fn a_run_leaves_the_sources_and_the_output_and_nothing_else() {
    for count in 1..10usize {
        let mut ws = Workspace::new();
        let mut inputs = Vec::new();
        let mut expected = Vec::new();
        for i in 0..count {
            let name = format!("reads/s{}.fastq.gz", i);
            let text = format!("@s{}\nACGT\n+\nIIII\n", i).into_bytes();
            ws.write(&name, gz(&text));
            expected.extend_from_slice(&text);
            inputs.push(name);
        }
        assert_eq!(run(&mut ws, inputs.clone(), "reads", "merged.fastq.gz"), Ok(()));
        let mut left = ws.names();
        left.sort();
        let mut wanted = inputs.clone();
        wanted.push("merged.fastq.gz".to_string());
        wanted.sort();
        assert_eq!(left, wanted);
        for (i, name) in inputs.iter().enumerate() {
            let text = format!("@s{}\nACGT\n+\nIIII\n", i).into_bytes();
            assert_eq!(ws.read(name), Some(&gz(&text)));
        }
        assert_eq!(gunzip(ws.read("merged.fastq.gz").unwrap()), expected);
    }
}

#[test]
fn plain_text_survives_the_way_to_zstd_and_back() {
    let text = b"@r1\nACGT\n+\nIIII\n@r2\nTTTT\n+\nJJJJ\n".to_vec();
    let mut ws = Workspace::new();
    ws.write("d/reads.fastq", text.clone());
    let pair = libfqcat::tree::MergePair::new("d/tmp0.fastq.zst".to_string(), "d/reads.fastq".to_string());
    assert_eq!(libfqcat::merge::merge_pair(&mut ws, &pair), Ok(()));
    assert_ne!(ws.read("d/tmp0.fastq.zst"), Some(&text));
    let back = libfqcat::codec::decode(libfqcat::names::Codec::Zstd, ws.read("d/tmp0.fastq.zst").unwrap());
    assert!(back.clean);
    assert_eq!(back.bytes, text);
}

#[test]
fn the_output_is_read_back_by_the_gzip_decoder_as_the_lines() {
    for text in [&b"@a\nAC\n+\nII\n"[..], b"", b"one line without an end"] {
        let mut ws = Workspace::new();
        ws.write("d/tmp0.fastq.zst", zst(text));
        assert_eq!(publish_final_fastq(&mut ws, "d", "all.gz"), Ok(()));
        let back = libfqcat::codec::decode(libfqcat::names::Codec::Gzip, ws.read("all.gz").unwrap());
        assert!(back.clean);
        let mut expected = text.to_vec();
        if !expected.is_empty() && !expected.ends_with(b"\n") {
            expected.push(b'\n');
        }
        assert_eq!(back.bytes, expected);
    }
}

#[test]
fn the_accumulator_of_the_first_pass_is_read_back_as_the_lines_of_its_input() {
    let mut ws = Workspace::new();
    ws.write("d/a.fastq.gz", gz(b"@a\nAC\n"));
    ws.write("d/tmp0.fastq.zst", zst(b"left by an earlier run\n"));
    assert_eq!(recode_gzip_to_zstd(&mut ws, "d/a.fastq.gz", "d/tmp0.fastq.zst"), Ok(()));
    let back = libfqcat::codec::decode(libfqcat::names::Codec::Zstd, ws.read("d/tmp0.fastq.zst").unwrap());
    assert!(back.clean);
    assert_eq!(back.bytes, b"@a\nAC\n".to_vec());
}
