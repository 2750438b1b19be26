use ironscribe::chunker::{chunk_bytes, concat_blocks, ChunkError, FileChunker};

#[test]
fn test_iterator() {
    // Content with serial bytes, read back in blocks of two
    let write_buffer = "Hello, world!".as_bytes().to_vec();

    let mut chunker = FileChunker::new(write_buffer.clone(), 2).unwrap();
    let mut read_buffer: Vec<u8> = Vec::new();
    while let Some(block) = chunker.next() {
        read_buffer.extend_from_slice(&block);
    }

    // Check that written and read buffers match
    assert_eq!(write_buffer, read_buffer);
}

#[test]
fn chunker_rejects_zero_block_size() {
    let err = FileChunker::new(vec![1, 2, 3], 0).unwrap_err();
    assert_eq!(err, ChunkError::ZeroBlockSize);
    let err = chunk_bytes(&vec![1, 2, 3], 0).unwrap_err();
    assert_eq!(err, ChunkError::ZeroBlockSize);
}

#[test]
fn chunk_bytes_exact_blocks() {
    let data = vec![1u8, 2, 3, 4, 5, 6, 7];
    let blocks = chunk_bytes(&data, 3).unwrap();
    assert_eq!(blocks, vec![vec![1u8, 2, 3], vec![4, 5, 6], vec![7]]);
}

#[test]
fn chunk_bytes_round_trip() {
    let data = vec![9u8, 8, 7, 6, 5, 4, 3, 2, 1, 0];
    for bs in 1..=11usize {
        let blocks = chunk_bytes(&data, bs).unwrap();
        assert_eq!(concat_blocks(&blocks), data);
        for (i, b) in blocks.iter().enumerate() {
            if i + 1 < blocks.len() {
                assert_eq!(b.len(), bs);
            } else {
                assert!(b.len() >= 1 && b.len() <= bs);
            }
        }
    }
}

#[test]
fn chunk_bytes_empty_input_gives_no_blocks() {
    let blocks = chunk_bytes(&Vec::new(), 4).unwrap();
    assert!(blocks.is_empty());
}

#[test]
fn chunker_block_larger_than_input() {
    let data = vec![1u8, 2, 3];
    let mut chunker = FileChunker::new(data.clone(), 10).unwrap();
    assert_eq!(chunker.next(), Some(vec![1u8, 2, 3]));
    assert_eq!(chunker.next(), None);
}
