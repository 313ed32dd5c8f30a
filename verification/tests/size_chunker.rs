use chunker::{CarryBuffer, Chunker, ChunkError, Cut, FileChunk, SizeBySpaceChunker};

fn many_byte_source(bytes: usize) -> Vec<u8> {
    let mut source = Vec::new();
    for i in 0..(bytes / 2) {
        source.extend_from_slice(format!("{}\n", i % 9).as_bytes());
    }
    source
}

#[test]
fn test_chunk_by_size_whitespace_count_even_split() {
    const MULT_2: usize = 32;
    const BYTES_IN_TEST_FILE: usize = MULT_2 * 2;
    let source = many_byte_source(BYTES_IN_TEST_FILE);
    assert_eq!(source.len(), BYTES_IN_TEST_FILE);
    let mut chunks: Vec<FileChunk> = Vec::new();
    let chunker = SizeBySpaceChunker { max_bytes: MULT_2 };
    let files = chunker.chunk(&source, "digits.txt", "/tmp/chunks", &mut chunks).unwrap();
    assert!(chunks.len() == 2);
    let mut total: usize = 0;
    for content in files.iter() {
        let u = content.len();
        total += u;
        assert!(u == MULT_2);
    }
    assert!(total == BYTES_IN_TEST_FILE);
    assert_eq!(files.concat(), source);
}

#[test]
fn test_chunk_by_size_whitespace_count_with_remainder() {
    const MULT_2: usize = 32;
    const BYTES_IN_TEST_FILE: usize = MULT_2 * 2 + 4;
    let source = many_byte_source(BYTES_IN_TEST_FILE);
    assert_eq!(source.len(), BYTES_IN_TEST_FILE);
    let mut chunks: Vec<FileChunk> = Vec::new();
    let chunker = SizeBySpaceChunker { max_bytes: MULT_2 };
    let files = chunker.chunk(&source, "digits.txt", "/tmp/chunks", &mut chunks).unwrap();
    assert_eq!(chunks.len(), 3);
    let mut total: usize = 0;
    for (i, content) in files.iter().enumerate() {
        let u = content.len();
        total += u;
        if i == 2 {
            assert_eq!(u, 4);
        } else {
            assert_eq!(u, MULT_2);
        }
    }
    assert!(total == BYTES_IN_TEST_FILE);
    assert_eq!(files.concat(), source);
}

#[test]
fn cut_walks_back_to_the_last_whitespace() {
    let mut chunks: Vec<FileChunk> = Vec::new();
    let files = SizeBySpaceChunker { max_bytes: 6 }.chunk(b"aaa bbb cc d\n", "s", "o", &mut chunks).unwrap();
    assert_eq!(files, vec![b"aaa ".to_vec(), b"bbb ".to_vec(), b"cc d\n".to_vec()]);
}

#[test]
fn byte_descriptors_name_source_file_and_index() {
    let mut chunks: Vec<FileChunk> = Vec::new();
    SizeBySpaceChunker { max_bytes: 4 }.chunk(b"aaa bbb ccc ", "words.txt", "out/", &mut chunks).unwrap();
    assert_eq!(chunks.len(), 3);
    for (i, chunk) in chunks.iter().enumerate() {
        assert_eq!(chunk.source(), "words.txt");
        assert_eq!(chunk.path(), format!("out/{}", i));
        assert_eq!(chunk.index(), i);
        assert_eq!(chunk.line_start(), None);
        assert_eq!(chunk.line_end(), None);
        assert_eq!(chunk.line_count(), None);
    }
}

#[test]
fn round_trip_for_sources_that_end_with_whitespace() {
    let source = b"the quick  brown\tfox\r\njumps over\x0cthe lazy dog \n";
    for max_bytes in 6..60 {
        let mut chunks: Vec<FileChunk> = Vec::new();
        let files = SizeBySpaceChunker { max_bytes }.chunk(source, "s", "o", &mut chunks).unwrap();
        assert_eq!(files.concat(), source.to_vec());
        assert_eq!(files.len(), chunks.len());
    }
}

#[test]
fn every_byte_chunk_ends_with_whitespace_and_fits_the_budget() {
    let source = b"the quick  brown\tfox\r\njumps over\x0cthe lazy dog \n and more";
    let mut runs = 0;
    for max_bytes in 6..60 {
        let mut chunks: Vec<FileChunk> = Vec::new();
        let files = match (SizeBySpaceChunker { max_bytes }).chunk(source, "s", "o", &mut chunks) {
            Ok(files) => files,
            Err(e) => {
                assert_eq!(e, ChunkError::TokenExceedsMaxBytes);
                assert!(chunks.is_empty());
                continue;
            },
        };
        runs += 1;
        let mut start = 0;
        for content in files.iter() {
            assert!(!content.is_empty());
            assert!(content.len() <= max_bytes);
            assert!(content.last().unwrap().is_ascii_whitespace());
            assert_eq!(&source[start..start + content.len()], &content[..]);
            start += content.len();
        }
        assert_eq!(start, source.len() - "more".len());
    }
    assert!(runs > 0);
}

#[test]
fn each_kind_of_whitespace_ends_a_chunk() {
    for ws in [b' ', b'\t', b'\n', b'\x0c', b'\r'] {
        let source = [b'a', ws, b'b', ws];
        let mut chunks: Vec<FileChunk> = Vec::new();
        let files = SizeBySpaceChunker { max_bytes: 3 }.chunk(&source, "s", "o", &mut chunks).unwrap();
        assert_eq!(files, vec![vec![b'a', ws], vec![b'b', ws]]);
    }
}

#[test]
fn vertical_tab_is_no_whitespace() {
    let mut chunks: Vec<FileChunk> = Vec::new();
    let result = SizeBySpaceChunker { max_bytes: 3 }.chunk(b"a\x0bb\x0b", "s", "o", &mut chunks);
    assert_eq!(result, Err(ChunkError::TokenExceedsMaxBytes));
}

#[test]
fn empty_source_gives_no_byte_chunk() {
    let mut chunks: Vec<FileChunk> = Vec::new();
    let files = SizeBySpaceChunker { max_bytes: 8 }.chunk(b"", "s", "o", &mut chunks).unwrap();
    assert!(files.is_empty());
    assert!(chunks.is_empty());
}

#[test]
fn zero_max_bytes_is_invalid_configuration() {
    let mut chunks: Vec<FileChunk> = Vec::new();
    let result = SizeBySpaceChunker { max_bytes: 0 }.chunk(b"a b ", "s", "o", &mut chunks);
    assert_eq!(result, Err(ChunkError::InvalidConfiguration));
    assert!(chunks.is_empty());
}

#[test]
fn window_without_whitespace_is_refused() {
    let mut chunks: Vec<FileChunk> = Vec::new();
    SizeBySpaceChunker { max_bytes: 8 }.chunk(b"kept ", "s", "o", &mut chunks).unwrap();
    let result = SizeBySpaceChunker { max_bytes: 4 }.chunk(b"ab cdefghij kl ", "s", "o", &mut chunks);
    assert_eq!(result, Err(ChunkError::TokenExceedsMaxBytes));
    assert_eq!(chunks.len(), 1);
}

#[test]
fn token_as_long_as_the_budget_is_refused() {
    let mut chunks: Vec<FileChunk> = Vec::new();
    let result = SizeBySpaceChunker { max_bytes: 4 }.chunk(b"abcd efg ", "s", "o", &mut chunks);
    assert_eq!(result, Err(ChunkError::TokenExceedsMaxBytes));
    let files = SizeBySpaceChunker { max_bytes: 5 }.chunk(b"abcd efg ", "s", "o", &mut chunks).unwrap();
    assert_eq!(files, vec![b"abcd ".to_vec(), b"efg ".to_vec()]);
}

#[test]
fn source_without_whitespace_is_refused() {
    let mut chunks: Vec<FileChunk> = Vec::new();
    let result = SizeBySpaceChunker { max_bytes: 32 }.chunk(b"abc", "s", "o", &mut chunks);
    assert_eq!(result, Err(ChunkError::TokenExceedsMaxBytes));
}

#[test]
fn unfinished_last_word_in_a_short_window_belongs_to_no_chunk() {
    let mut chunks: Vec<FileChunk> = Vec::new();
    let files = SizeBySpaceChunker { max_bytes: 32 }.chunk(b"ab cd", "s", "o", &mut chunks).unwrap();
    assert_eq!(files, vec![b"ab ".to_vec()]);
    assert_eq!(chunks.len(), 1);
}

#[test]
fn unfinished_last_word_in_a_window_of_its_own_is_refused() {
    let mut chunks: Vec<FileChunk> = Vec::new();
    let result = SizeBySpaceChunker { max_bytes: 8 }.chunk(b"aaaa bbb", "s", "o", &mut chunks);
    assert_eq!(result, Err(ChunkError::TokenExceedsMaxBytes));
}

#[test]
fn budget_of_one_takes_whitespace_byte_by_byte() {
    let mut chunks: Vec<FileChunk> = Vec::new();
    let files = SizeBySpaceChunker { max_bytes: 1 }.chunk(b" \n\t", "s", "o", &mut chunks).unwrap();
    assert_eq!(files, vec![b" ".to_vec(), b"\n".to_vec(), b"\t".to_vec()]);
}

#[test]
fn carry_buffer_refuses_a_budget_of_zero() {
    assert!(matches!(CarryBuffer::new(0), Err(ChunkError::InvalidConfiguration)));
}

#[test]
fn carry_buffer_keeps_the_bytes_behind_the_cut() {
    let mut buffer = CarryBuffer::new(8).unwrap();
    assert_eq!(buffer.room(), 8);
    assert_eq!(buffer.len(), 0);
    buffer.fill(b"ab cd ef");
    assert_eq!(buffer.room(), 0);
    match buffer.take_chunk() {
        Ok(Cut::Chunk { bytes, last }) => {
            assert_eq!(bytes, b"ab cd ".to_vec());
            assert!(!last);
        },
        _ => panic!("expected a chunk"),
    }
    assert_eq!(buffer.len(), 2);
    assert_eq!(buffer.room(), 6);
    buffer.fill(b"g\n");
    match buffer.take_chunk() {
        Ok(Cut::Chunk { bytes, last }) => {
            assert_eq!(bytes, b"efg\n".to_vec());
            assert!(last);
        },
        _ => panic!("expected a chunk"),
    }
    assert_eq!(buffer.len(), 0);
    assert!(matches!(buffer.take_chunk(), Ok(Cut::Exhausted)));
}

#[test]
fn carry_buffer_without_whitespace_stays_as_it_is() {
    let mut buffer = CarryBuffer::new(4).unwrap();
    buffer.fill(b"abc");
    assert!(matches!(buffer.take_chunk(), Err(ChunkError::TokenExceedsMaxBytes)));
    assert_eq!(buffer.len(), 3);
    assert_eq!(buffer.room(), 1);
}
