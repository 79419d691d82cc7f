use libfqcat::error::FqcatError;
use libfqcat::names::{accumulator_name, carries_marker, join_directory, select_codec, Codec};

#[test]
fn the_marker_is_found_anywhere_in_the_file_name() {
    assert!(carries_marker("tmp0.fastq.zst"));
    assert!(carries_marker("reads/tmp12.fastq.zst"));
    assert!(carries_marker("/tmp/run/tmp2.fastq.zst"));
    assert!(carries_marker("reads/xtmp"));
    assert!(carries_marker("xtmp"));
    assert!(carries_marker("tmp"));
    assert!(carries_marker("reads/a.tmp.gz"));
}

#[test]
fn the_marker_in_a_directory_does_not_count() {
    assert!(!carries_marker("/tmp/reads/a.fastq.gz"));
    assert!(!carries_marker("/tmp/run/input3.fastq.zst"));
    assert!(!carries_marker("tmp/b.fastq.gz"));
    assert!(!carries_marker("a/tmp0.fastq.zst/b.fastq.gz"));
    assert!(!carries_marker("tmp/"));
    assert!(!carries_marker("/var/tmp/x/"));
}

#[test]
fn names_without_the_marker_are_sources() {
    assert!(!carries_marker("input3.fastq.zst"));
    assert!(!carries_marker(""));
    assert!(!carries_marker("tm"));
    assert!(!carries_marker("t.m.p"));
    assert!(!carries_marker("TMP0.fastq.zst"));
    assert!(!carries_marker("tpm"));
    assert!(!carries_marker("tm/p"));
}

#[test]
fn suffix_selects_the_decoder() {
    assert_eq!(select_codec("a.fastq.zst"), Ok(Codec::Zstd));
    assert_eq!(select_codec("reads/a.fastq.gz"), Ok(Codec::Gzip));
    assert_eq!(select_codec("reads/a.fastq"), Ok(Codec::Plain));
    assert_eq!(select_codec("a.txt"), Ok(Codec::Plain));
    assert_eq!(select_codec("a."), Ok(Codec::Plain));
    assert_eq!(select_codec("a.zst.gz"), Ok(Codec::Gzip));
    assert_eq!(select_codec("a.GZ"), Ok(Codec::Plain));
}

#[test]
fn a_name_without_a_suffix_is_refused() {
    assert_eq!(select_codec("reads"), Err(FqcatError::Naming));
    assert_eq!(select_codec(""), Err(FqcatError::Naming));
    assert_eq!(select_codec("dir.d/reads"), Err(FqcatError::Naming));
    assert_eq!(select_codec(".hidden"), Err(FqcatError::Naming));
    assert_eq!(select_codec("dir/.zst"), Err(FqcatError::Naming));
    assert_eq!(select_codec("dir/.."), Err(FqcatError::Naming));
    assert_eq!(select_codec("a.zst/"), Err(FqcatError::Naming));
}

#[test]
fn a_hidden_file_with_a_second_dot_has_a_suffix() {
    assert_eq!(select_codec(".hidden.gz"), Ok(Codec::Gzip));
    assert_eq!(select_codec("dir/..zst"), Ok(Codec::Zstd));
}

#[test]
fn accumulator_names_hold_marker_index_and_suffix() {
    assert_eq!(accumulator_name("reads", 0), "reads/tmp0.fastq.zst");
    assert_eq!(accumulator_name("reads/", 0), "reads/tmp0.fastq.zst");
    assert_eq!(accumulator_name("reads", 2), "reads/tmp2.fastq.zst");
    assert_eq!(accumulator_name("reads", 10), "reads/tmp10.fastq.zst");
    assert_eq!(accumulator_name("reads", 12), "reads/tmp12.fastq.zst");
    assert_eq!(accumulator_name("reads", 1000), "reads/tmp1000.fastq.zst");
    assert_eq!(accumulator_name("a/b", 907), "a/b/tmp907.fastq.zst");
    assert_eq!(accumulator_name("", 4), "/tmp4.fastq.zst");
}

#[test]
fn accumulator_index_is_written_as_format_writes_it() {
    for index in [0usize, 1, 9, 10, 11, 99, 100, 101, 65535, 4294967295, usize::MAX] {
        assert_eq!(accumulator_name("d", index), format!("d/tmp{}.fastq.zst", index));
    }
}

#[test]
fn accumulator_names_carry_the_marker_and_select_zstd() {
    for dir in ["reads", "reads/", "/tmp/run", "", "a.b/c"] {
        let name = accumulator_name(dir, 6);
        assert!(carries_marker(&name));
        assert_eq!(select_codec(&name), Ok(Codec::Zstd));
    }
}

#[test]
fn join_adds_one_separator() {
    assert_eq!(join_directory("reads", "a.gz"), "reads/a.gz");
    assert_eq!(join_directory("reads/", "a.gz"), "reads/a.gz");
    assert_eq!(join_directory("reads//", "a.gz"), "reads//a.gz");
    assert_eq!(join_directory("", "a.gz"), "/a.gz");
    assert_eq!(join_directory("/", "a.gz"), "/a.gz");
}
