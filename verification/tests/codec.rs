use schungus::{Chunk, Error};

#[test]
fn test_chunk_from_to_buf() {
    let ch = Chunk {
        total_chunks: 100,
        index: 10,
        key: vec![0, 1, 2, 3, 4, 5, 6, 7, 8, 9, 10, 11, 12, 13, 14, 15],
        data: vec![],
    };

    let buf = ch.to_buf();
    let ch2 = Chunk::from_buf(&buf).unwrap();

    assert_eq!(ch, ch2);
}

#[test]
fn test_to_buf_layout() {
    let ch = Chunk {
        total_chunks: 2,
        index: 1,
        key: vec![9u8; 16],
        data: vec![0xAA, 0xBB],
    };
    let buf = ch.to_buf();
    let mut expected = vec![0, 0, 0, 0, 0, 0, 0, 2, 0, 0, 0, 0, 0, 0, 0, 1];
    expected.extend(vec![9u8; 16]);
    expected.extend(vec![0xAA, 0xBB]);
    assert_eq!(buf, expected);
}

#[test]
fn test_from_buf_reads_fields_by_position() {
    let mut buf = vec![0, 0, 0, 0, 0, 0, 0, 44];
    buf.extend(vec![0, 0, 0, 0, 0, 1, 2, 3]);
    for k in 0..16 {
        buf.push(k as u8);
    }
    buf.push(0xFE);
    let ch = Chunk::from_buf(&buf).unwrap();
    assert_eq!(ch.total_chunks, 44);
    assert_eq!(ch.index, 0x010203);
    assert_eq!(ch.key, (0..16).collect::<Vec<u8>>());
    assert_eq!(ch.data, vec![0xFE]);
}

#[test]
fn test_from_buf_short_buffers_fail() {
    for len in 0..32usize {
        let buf = vec![7u8; len];
        match Chunk::from_buf(&buf) {
            Err(Error::ChunkParseError) => {}
            other => panic!("expected a parse failure for length {}, got {:?}", len, other),
        }
    }
    let buf = vec![7u8; 32];
    let ch = Chunk::from_buf(&buf).unwrap();
    assert!(ch.data.is_empty());
}
