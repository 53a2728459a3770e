use openssl::symm::{encrypt, Cipher};
use schungus::{
    combine_chunks, generate_chunks, generate_keys, split_file, split_then_combine, Chunk, Error,
};

#[test]
fn test_encryption() {
    let key = generate_keys(1).unwrap().remove(0);
    let orig_data = vec![12, 3, 5, 6, 78, 122, 34, 5, 6, 124, 34, 6, 7, 7];

    let mut ch = Chunk {
        total_chunks: 0,
        index: 0,
        key: key.to_owned(),
        data: orig_data.to_owned(),
    };

    ch.encrypt(&key).unwrap();
    ch.decrypt(&key).unwrap();

    assert_eq!(ch.data, orig_data);
}

#[test]
fn test_encryption_transforms_payload() {
    let key = generate_keys(1).unwrap().remove(0);
    let orig_data = vec![5u8; 20];
    let mut ch = Chunk {
        total_chunks: 1,
        index: 0,
        key: key.to_owned(),
        data: orig_data.to_owned(),
    };
    ch.encrypt(&key).unwrap();
    // padded to the next multiple of the 16-byte block size
    assert_eq!(ch.data.len(), 32);
    assert_ne!(&ch.data[..20], &orig_data[..]);
}

#[test]
fn test_openssl_aes() {
    let cipher = Cipher::aes_128_cbc();
    let data = b"Some Crypto Text";
    let key = b"\x00\x01\x02\x03\x04\x05\x06\x07\x08\x09\x0A\x0B\x0C\x0D\x0E\x0F";
    let iv = b"\x00\x01\x02\x03\x04\x05\x06\x07\x00\x01\x02\x03\x04\x05\x06\x07";
    let ciphertext = encrypt(cipher, key, Some(iv), data).unwrap();

    assert_eq!(
        b"\xB4\xB9\xE7\x30\xD6\xD6\xF7\xDE\x77\x3F\x1C\xFF\xB3\x3E\x44\x5A\x91\xD7\x27\x62\x87\x4D\
          \xFB\x3C\x5E\xC4\x59\x72\x4A\xF4\x7C\xA1",
        &ciphertext[..]
    );
}

#[test]
fn test_chunking() {
    let buffer = b"asdfkjasdlufis14o\n2630\t123askdj\x10124\xAA";
    let chunks = generate_chunks(4, buffer).unwrap();
    let orig = combine_chunks(chunks).unwrap();
    assert_eq!(orig, buffer);
}

#[test]
fn test_partition_lengths_and_coverage() {
    let buffer = b"a 34-byte input, split four ways..";
    assert_eq!(buffer.len(), 34);
    let pieces = split_file(4, buffer).unwrap();
    assert_eq!(pieces.len(), 4);
    assert_eq!(pieces[0].len(), 8);
    assert_eq!(pieces[1].len(), 8);
    assert_eq!(pieces[2].len(), 8);
    assert_eq!(pieces[3].len(), 10);
    let glued: Vec<u8> = pieces.into_iter().flatten().collect();
    assert_eq!(glued, buffer.to_vec());

    let buffer = b"asdfkjasdlufis14o\n2630\t123askdj\x10124\xAA";
    assert_eq!(buffer.len(), 36);
    let pieces = split_file(4, buffer).unwrap();
    assert_eq!(
        pieces.iter().map(|p| p.len()).collect::<Vec<usize>>(),
        vec![9, 9, 9, 9]
    );
    let glued: Vec<u8> = pieces.into_iter().flatten().collect();
    assert_eq!(glued, buffer.to_vec());
}

#[test]
fn test_combine_ignores_input_order() {
    let buffer = b"order should not matter for reassembly";
    let mut chunks = generate_chunks(5, buffer).unwrap();
    chunks.reverse();
    let from_reversed = combine_chunks(chunks).unwrap();
    assert_eq!(from_reversed, buffer.to_vec());

    let mut chunks = generate_chunks(5, buffer).unwrap();
    chunks.swap(0, 3);
    chunks.swap(1, 4);
    let from_shuffled = combine_chunks(chunks).unwrap();
    assert_eq!(from_shuffled, buffer.to_vec());
}

#[test]
fn test_single_fragment_round_trip() {
    let buffer = b"x";
    let chunks = generate_chunks(1, buffer).unwrap();
    assert_eq!(chunks.len(), 1);
    let orig = combine_chunks(chunks).unwrap();
    assert_eq!(orig, buffer.to_vec());

    let buffer = b"a somewhat longer single-fragment input";
    let chunks = generate_chunks(1, buffer).unwrap();
    let orig = combine_chunks(chunks).unwrap();
    assert_eq!(orig, buffer.to_vec());
}

#[test]
fn test_round_trip_through_serialization() {
    let buffer = b"serialize every chunk, shuffle, parse, and reassemble";
    let chunks = generate_chunks(3, buffer).unwrap();
    let mut bufs: Vec<Vec<u8>> = chunks.iter().map(|c| c.to_buf()).collect();
    bufs.rotate_left(2);
    let parsed: Vec<Chunk> = bufs.iter().map(|b| Chunk::from_buf(b).unwrap()).collect();
    let orig = combine_chunks(parsed).unwrap();
    assert_eq!(orig, buffer.to_vec());
}

#[test]
fn test_chunk_count_mismatch_detected() {
    let buffer = b"three chunks declared, two supplied";
    let mut chunks = generate_chunks(3, buffer).unwrap();
    chunks.pop();
    assert_eq!(combine_chunks(chunks), Err(Error::WrongNumberOfChunks));

    let mut chunks = generate_chunks(3, buffer).unwrap();
    let extra = chunks[0].clone();
    chunks.push(extra);
    assert_eq!(combine_chunks(chunks), Err(Error::WrongNumberOfChunks));
}

#[test]
fn test_input_smaller_than_chunk_count() {
    assert_eq!(
        split_file(5, b"abc"),
        Err(Error::InputSmallerThanNumberOfChunks)
    );
    assert_eq!(
        generate_chunks(5, b"abc"),
        Err(Error::InputSmallerThanNumberOfChunks)
    );
    // a fragment per byte is still allowed
    let chunks = generate_chunks(3, b"abc").unwrap();
    assert_eq!(combine_chunks(chunks).unwrap(), b"abc".to_vec());
}

#[test]
fn test_generated_chunk_headers() {
    let buffer = b"check the headers of generated chunks";
    let chunks = generate_chunks(4, buffer).unwrap();
    assert_eq!(chunks.len(), 4);
    for (i, c) in chunks.iter().enumerate() {
        assert_eq!(c.total_chunks, 4);
        assert_eq!(c.index, i as u64);
        assert_eq!(c.key.len(), 16);
    }
}

#[test]
fn test_round_trip_for_many_counts() {
    let buffer = b"every admissible fragment count must round-trip";
    for n in 1..=buffer.len() as u64 {
        let out = split_then_combine(n, buffer).unwrap();
        assert_eq!(out, buffer.to_vec());
    }
    assert_eq!(
        split_then_combine(buffer.len() as u64 + 1, buffer),
        Err(Error::InputSmallerThanNumberOfChunks)
    );
}

#[test]
fn test_combine_accepts_any_cascade_collection() {
    // payload lengths 1 and 20 are not a partition profile of any input,
    // yet a coherent cascade must still be undone
    let keys = generate_keys(2).unwrap();
    let payloads: Vec<Vec<u8>> = vec![vec![0x41], (0u8..20).collect()];
    let mut chunks: Vec<Chunk> = payloads
        .iter()
        .enumerate()
        .map(|(i, d)| Chunk {
            total_chunks: 2,
            index: i as u64,
            key: keys[i].clone(),
            data: d.clone(),
        })
        .collect();
    for key in &keys {
        for ch in chunks.iter_mut() {
            ch.encrypt(key).unwrap();
        }
    }
    chunks.reverse();
    let out = combine_chunks(chunks).unwrap();
    let expected: Vec<u8> = payloads.into_iter().flatten().collect();
    assert_eq!(out, expected);
}

#[test]
fn test_generate_keys_shape() {
    let keys = generate_keys(6).unwrap();
    assert_eq!(keys.len(), 6);
    for k in &keys {
        assert_eq!(k.len(), 16);
    }
}
