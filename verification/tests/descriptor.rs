use chunker::path::chunk_path;
use chunker::text::{byte_is_whitespace, find_cut};
use chunker::lines::{count_lines, scan_line};
use chunker::{build_chunker_context, Chunker, FileChunk, LineChunker};

#[test]
fn chunk_path_joins_directory_and_index() {
    assert_eq!(chunk_path("/tmp/big-file.chunks", 0), "/tmp/big-file.chunks/0");
    assert_eq!(chunk_path("/tmp/big-file.chunks/", 0), "/tmp/big-file.chunks/0");
    assert_eq!(chunk_path("out", 7), "out/7");
    assert_eq!(chunk_path("out/", 10), "out/10");
    assert_eq!(chunk_path("out", 12345), "out/12345");
}

#[test]
fn chunk_path_strips_one_trailing_slash_only() {
    assert_eq!(chunk_path("out//", 3), "out//3");
    assert_eq!(chunk_path("/", 3), "/3");
    assert_eq!(chunk_path("", 3), "/3");
}

#[test]
fn chunk_path_keeps_directories_that_are_not_ascii() {
    assert_eq!(chunk_path("d\u{e9}p\u{f4}t/", 42), "d\u{e9}p\u{f4}t/42");
}

#[test]
fn chunk_path_writes_the_index_in_decimal() {
    for index in [0usize, 1, 9, 10, 11, 99, 100, 101, 1000, 65535, 4294967295] {
        assert_eq!(chunk_path("d", index), format!("d/{}", index));
    }
    assert_eq!(chunk_path("d", usize::MAX), format!("d/{}", usize::MAX));
}

#[test]
fn new_context_starts_with_zero_counters() {
    let ctx = build_chunker_context("/home/big-file.txt", "/tmp/big-file.chunks/", 4);
    assert_eq!(ctx.source(), "/home/big-file.txt");
    assert_eq!(ctx.path(), "/tmp/big-file.chunks/4");
    assert_eq!(ctx.chunk_idx(), 4);
    assert_eq!(ctx.line_i(), 0);
    assert_eq!(ctx.byte_i(), 0);
}

#[test]
fn record_line_counts_line_and_terminator() {
    let mut ctx = build_chunker_context("s", "o", 0);
    ctx.record_line(5);
    assert_eq!(ctx.line_i(), 1);
    assert_eq!(ctx.byte_i(), 6);
    ctx.record_line(0);
    assert_eq!(ctx.line_i(), 2);
    assert_eq!(ctx.byte_i(), 7);
}

#[test]
fn build_chunk_describes_the_context() {
    let ctx = build_chunker_context("source.txt", "dir", 2);
    let chunk = ctx.build_chunk();
    assert_eq!(chunk.source(), "source.txt");
    assert_eq!(chunk.path(), "dir/2");
    assert_eq!(chunk.index(), 2);
    assert_eq!(chunk.line_count(), None);
}

#[test]
fn build_line_chunk_ends_its_range_after_the_lines_written() {
    let mut ctx = build_chunker_context("source.txt", "dir", 2);
    ctx.record_line(1);
    ctx.record_line(1);
    ctx.record_line(1);
    let chunk = ctx.build_line_chunk(20);
    assert_eq!(chunk.index(), 2);
    assert_eq!(chunk.line_start(), Some(20));
    assert_eq!(chunk.line_end(), Some(23));
    assert_eq!(chunk.line_count(), Some(3));
}

#[test]
fn true_line_count_counts_terminated_records() {
    let mut chunks: Vec<FileChunk> = Vec::new();
    LineChunker { max_lines: 1 }.chunk(b"x\n", "s", "o", &mut chunks).unwrap();
    let chunk = &chunks[0];
    assert_eq!(chunk.true_line_count(b""), 0);
    assert_eq!(chunk.true_line_count(b"a"), 1);
    assert_eq!(chunk.true_line_count(b"a\n"), 1);
    assert_eq!(chunk.true_line_count(b"\n"), 1);
    assert_eq!(chunk.true_line_count(b"a\n\n"), 2);
    assert_eq!(chunk.true_line_count(b"a\nb"), 2);
    assert_eq!(chunk.true_line_count(b"a\r\nb\r\n"), 2);
    assert_eq!(chunk.true_line_count(b"\n\n\n"), 3);
}

#[test]
fn count_lines_agrees_with_the_standard_line_iterator() {
    let samples: [&[u8]; 7] = [b"", b"one", b"one\n", b"one\ntwo", b"\n\nthree\n", b"a\r\nb\rc\n", b"\r\n\r\n"];
    for sample in samples {
        let expected = std::str::from_utf8(sample).unwrap().lines().count();
        assert_eq!(count_lines(sample), expected);
    }
}

#[test]
fn scan_line_finds_content_end_and_next_line() {
    assert_eq!(scan_line(b"ab\ncd", 0), (2, 3));
    assert_eq!(scan_line(b"ab\ncd", 3), (5, 5));
    assert_eq!(scan_line(b"ab\r\ncd", 0), (2, 4));
    assert_eq!(scan_line(b"\ncd", 0), (0, 1));
    assert_eq!(scan_line(b"ab\r", 0), (3, 3));
}

#[test]
fn find_cut_points_behind_the_last_whitespace() {
    assert_eq!(find_cut(b""), 0);
    assert_eq!(find_cut(b"abc"), 0);
    assert_eq!(find_cut(b"ab cd"), 3);
    assert_eq!(find_cut(b"ab cd\n"), 6);
    assert_eq!(find_cut(b" abcd"), 1);
}

#[test]
fn whitespace_bytes_are_those_of_ascii() {
    for b in 0..=255u8 {
        assert_eq!(byte_is_whitespace(b), b.is_ascii_whitespace());
    }
}
