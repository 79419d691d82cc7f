use flate2::read::MultiGzDecoder;
use flate2::write::GzEncoder;
use flate2::Compression;
use libfqcat::error::FqcatError;
use libfqcat::pipeline::concatenate;
use libfqcat::workspace::Workspace;
use std::io::{Read, Write};

fn packed(text: &[u8]) -> Vec<u8> {
    let mut encoder = GzEncoder::new(Vec::new(), Compression::default());
    encoder.write_all(text).unwrap();
    encoder.finish().unwrap()
}

fn unpacked(bytes: &[u8]) -> Vec<u8> {
    let mut out = Vec::new();
    MultiGzDecoder::new(bytes).read_to_end(&mut out).unwrap();
    out
}

fn record(source: usize, read: usize) -> Vec<u8> {
    format!("@s{}.{}\nACGTACGT\n+\nIIIIIIII\n", source, read).into_bytes()
}

fn source_text(source: usize, reads: usize) -> Vec<u8> {
    let mut text = Vec::new();
    for read in 0..reads {
        text.extend_from_slice(&record(source, read));
    }
    text
}

fn workspace_with(count: usize, reads: usize) -> (Workspace, Vec<String>, Vec<u8>) {
    let mut ws = Workspace::new();
    let mut names = Vec::new();
    let mut all = Vec::new();
    for source in 0..count {
        let name = format!("reads/s{:02}.fastq.gz", source);
        let text = source_text(source, reads);
        ws.write(&name, packed(&text));
        all.extend_from_slice(&text);
        names.push(name);
    }
    (ws, names, all)
}

#[test]
fn a_run_writes_the_sources_in_their_order() {
    for count in 1..18usize {
        let (mut ws, names, all) = workspace_with(count, 3);
        let report = concatenate(&mut ws, names.clone(), &"reads".to_string(), "all.fastq.gz").unwrap();
        assert!(report.is_complete());
        assert_eq!(report.published, Ok(()));
        assert_eq!(unpacked(ws.read("all.fastq.gz").unwrap()), all);
        assert_eq!(ws.read("all.fastq.gz"), Some(&packed(&all)));
    }
}

#[test]
fn a_run_cleans_up_after_itself() {
    let (mut ws, names, _) = workspace_with(7, 2);
    ws.write("reads/notes.txt", b"keep me".to_vec());
    let before: Vec<(String, Vec<u8>)> =
        ws.names().into_iter().map(|n| (n.clone(), ws.read(&n).unwrap().clone())).collect();
    let report = concatenate(&mut ws, names, &"reads".to_string(), "reads/all.fastq.gz").unwrap();
    assert!(report.is_complete());
    assert_eq!(ws.len(), before.len() + 1);
    for (name, bytes) in &before {
        assert_eq!(ws.read(name), Some(bytes));
    }
    for name in ws.names() {
        assert!(!libfqcat::names::carries_marker(&name));
    }
    assert!(ws.contains("reads/all.fastq.gz"));
}

#[test]
fn a_run_reports_its_plan_and_its_levels() {
    let (mut ws, names, _) = workspace_with(5, 1);
    let report = concatenate(&mut ws, names, &"reads".to_string(), "all.fastq.gz").unwrap();
    assert_eq!(report.tree.level(), 1);
    assert_eq!(report.tree.merge_pairs().len(), 2);
    let levels: Vec<usize> = report.levels.iter().map(|l| l.level).collect();
    assert_eq!(levels, vec![1, 2, 3]);
    let merges: Vec<usize> = report.levels.iter().map(|l| l.outcomes.len()).collect();
    assert_eq!(merges, vec![2, 1, 1]);
}

#[test]
fn a_run_with_many_lines_keeps_them_all() {
    let (mut ws, names, all) = workspace_with(4, 700);
    let report = concatenate(&mut ws, names, &"reads".to_string(), "all.fastq.gz").unwrap();
    assert!(report.is_complete());
    assert_eq!(unpacked(ws.read("all.fastq.gz").unwrap()), all);
}

#[test]
fn a_run_normalises_line_ends() {
    let mut ws = Workspace::new();
    ws.write("d/a.fastq.gz", packed(b"@a\r\nAC\r\n"));
    ws.write("d/b.fastq.gz", packed(b"@b\nGT"));
    let names = vec!["d/a.fastq.gz".to_string(), "d/b.fastq.gz".to_string()];
    let report = concatenate(&mut ws, names, &"d".to_string(), "all.gz").unwrap();
    assert!(report.is_complete());
    assert_eq!(unpacked(ws.read("all.gz").unwrap()), b"@a\nAC\n@b\nGT\n".to_vec());
}

#[test]
fn a_run_fails_when_the_first_pass_fails() {
    let (mut ws, mut names, _) = workspace_with(3, 1);
    names[2] = "reads/missing.fastq.gz".to_string();
    let result = concatenate(&mut ws, names, &"reads".to_string(), "all.fastq.gz");
    assert!(matches!(result, Err(FqcatError::Io)));
    assert!(ws.contains("reads/tmp0.fastq.zst"));
    assert!(!ws.contains("all.fastq.gz"));
}

#[test]
fn a_run_goes_on_after_a_merge_that_fails() {
    let (mut ws, mut names, _) = workspace_with(4, 1);
    ws.write("reads/odd", b"@x\n".to_vec());
    names[1] = "reads/odd".to_string();
    let report = concatenate(&mut ws, names, &"reads".to_string(), "all.fastq.gz").unwrap();
    assert!(!report.is_complete());
    assert_eq!(report.levels[0].outcomes, vec![Err(FqcatError::Naming), Ok(())]);
    assert_eq!(report.levels[1].outcomes, vec![Ok(())]);
    assert_eq!(report.published, Ok(()));
    let mut expected = source_text(0, 1);
    expected.extend_from_slice(&source_text(2, 1));
    expected.extend_from_slice(&source_text(3, 1));
    assert_eq!(unpacked(ws.read("all.fastq.gz").unwrap()), expected);
}

#[test]
fn a_run_without_sources_cannot_publish() {
    let mut ws = Workspace::new();
    let report = concatenate(&mut ws, Vec::new(), &"reads".to_string(), "all.fastq.gz").unwrap();
    assert_eq!(report.published, Err(FqcatError::Io));
    assert!(!report.is_complete());
    assert_eq!(ws.len(), 0);
}

#[test]
fn a_source_that_carries_the_marker_is_merged_away() {
    let mut ws = Workspace::new();
    ws.write("d/a.fastq.gz", packed(b"@a\n"));
    ws.write("d/tmpl.fastq.gz", packed(b"@t\n"));
    let names = vec!["d/a.fastq.gz".to_string(), "d/tmpl.fastq.gz".to_string()];
    let report = concatenate(&mut ws, names, &"d".to_string(), "all.gz").unwrap();
    assert!(report.is_complete());
    assert!(!ws.contains("d/tmpl.fastq.gz"));
    assert_eq!(unpacked(ws.read("all.gz").unwrap()), b"@a\n@t\n".to_vec());
}

#[test]
fn a_line_with_two_carriage_returns_loses_one_at_every_reading() {
    let mut ws = Workspace::new();
    ws.write("d/a.fastq.gz", packed(b"@a\n"));
    ws.write("d/b.fastq.gz", packed(b"@b\n"));
    ws.write("d/c.fastq.gz", packed(b"x\r\r\r\r\n"));
    let names = vec!["d/a.fastq.gz".to_string(), "d/b.fastq.gz".to_string(), "d/c.fastq.gz".to_string()];
    let report = concatenate(&mut ws, names, &"d".to_string(), "all.gz").unwrap();
    assert!(report.is_complete());
    assert_eq!(unpacked(ws.read("all.gz").unwrap()), b"@a\n@b\nx\r\n".to_vec());
}

#[test]
fn a_run_in_a_directory_that_holds_the_marker_keeps_its_sources() {
    for dir in ["/tmp/run", "/var/tmp", "tmp", "/data/tmp0.fastq.zst"] {
        for count in 1..9usize {
            let mut ws = Workspace::new();
            let mut names = Vec::new();
            let mut all = Vec::new();
            for source in 0..count {
                let name = format!("{}/s{}.fastq.gz", dir, source);
                let text = source_text(source, 2);
                ws.write(&name, packed(&text));
                all.extend_from_slice(&text);
                names.push(name);
            }
            let output = format!("{}/all.fastq.gz", dir);
            let report = concatenate(&mut ws, names.clone(), &dir.to_string(), &output).unwrap();
            assert!(report.is_complete());
            assert_eq!(ws.len(), count + 1);
            for (source, name) in names.iter().enumerate() {
                assert_eq!(ws.read(name), Some(&packed(&source_text(source, 2))));
            }
            for name in ws.names() {
                assert!(!libfqcat::names::carries_marker(&name));
            }
            assert_eq!(unpacked(ws.read(&output).unwrap()), all);
        }
    }
}

#[test]
fn the_reports_of_a_run_are_numbered_as_the_levels_of_its_plan() {
    let (mut ws, names, _) = workspace_with(9, 1);
    let report = concatenate(&mut ws, names, &"reads".to_string(), "all.fastq.gz").unwrap();
    let mut node = Some(&report.tree);
    let mut numbers = Vec::new();
    while let Some(tree) = node {
        numbers.push(tree.level());
        node = tree.subtree();
    }
    let reported: Vec<usize> = report.levels.iter().map(|l| l.level).collect();
    assert_eq!(reported, numbers);
    assert_eq!(reported, vec![1, 2, 3, 4]);
}
