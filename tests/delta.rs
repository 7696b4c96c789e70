use bk_over_ssh::delta::{delta, restore, signature, Chunk, Delta, RestoreError};
use bk_over_ssh::wire::{encode_delta, encode_signature, parse_delta, parse_signature, WireError};

fn pseudo_random(n: usize, seed: u32) -> Vec<u8> {
    let mut x = seed;
    (0..n)
        .map(|_| {
            x = x.wrapping_mul(1664525).wrapping_add(1013904223);
            (x >> 24) as u8
        })
        .collect()
}

fn literal_bytes(d: &Delta) -> usize {
    d.chunks
        .iter()
        .map(|c| match c {
            Chunk::Literal(b) => b.len(),
            Chunk::Copy { .. } => 0,
        })
        .sum()
}

#[test]
fn round_trip_restores_stream() {
    for &(n, b) in &[(0usize, 512u32), (100, 512), (512, 512), (5000, 512), (70000, 4096), (3000, 1024)] {
        let s = pseudo_random(n, 7);
        let sig = signature(&s, b);
        let d = delta(&sig, &s);
        assert_eq!(d.new_len, n as u64);
        assert_eq!(restore(&d, b, &s), Ok(s.clone()));
    }
}

#[test]
fn identical_stream_needs_no_literals() {
    for &(n, b) in &[(0usize, 512u32), (512, 512), (1500, 512), (70000, 4096)] {
        let s = pseudo_random(n, 11);
        let sig = signature(&s, b);
        let d = delta(&sig, &s);
        assert_eq!(literal_bytes(&d), 0);
    }
}

#[test]
fn identical_blocks_coalesce_into_one_copy() {
    let s = pseudo_random(8192, 3);
    let sig = signature(&s, 1024);
    let d = delta(&sig, &s);
    assert_eq!(d.chunks.len(), 1);
    assert!(matches!(d.chunks[0], Chunk::Copy { block_index: 0, count: 8 }));
}

#[test]
fn short_baseline_forces_literals() {
    let s = pseudo_random(100, 5);
    let sig = signature(&s, 512);
    assert_eq!(sig.blocks.len(), 0);
    let d = delta(&sig, &s);
    assert_eq!(literal_bytes(&d), 100);
}

#[test]
fn empty_new_stream_has_no_chunks() {
    let base = pseudo_random(2048, 9);
    let sig = signature(&base, 512);
    let d = delta(&sig, &[]);
    assert_eq!(d.new_len, 0);
    assert!(d.chunks.is_empty());
}

#[test]
fn tail_change_sends_little() {
    let base = pseudo_random(10 << 20, 21);
    let mut new = base.clone();
    let tail = pseudo_random(4096, 99);
    let n = new.len();
    new[n - 4096..].copy_from_slice(&tail);
    let sig = signature(&base, 4096);
    let d = delta(&sig, &new);
    let payload = encode_delta(&d);
    assert!(payload.len() < 32 * 1024);
    assert!(literal_bytes(&d) <= 4096 + 4096);
    assert_eq!(restore(&d, 4096, &base), Ok(new));
}

#[test]
fn grown_file_is_restored() {
    let base = pseudo_random(20000, 1);
    let mut new = pseudo_random(300, 2);
    new.extend_from_slice(&base);
    new.extend_from_slice(&pseudo_random(777, 3));
    let sig = signature(&base, 512);
    let d = delta(&sig, &new);
    assert!(literal_bytes(&d) < 300 + 777 + 2 * 512);
    assert_eq!(restore(&d, 512, &base), Ok(new));
}

#[test]
fn weak_checksum_of_known_block() {
    let s = vec![1u8; 512];
    let sig = signature(&s, 512);
    assert_eq!(sig.blocks.len(), 1);
    // a = 512, b = 512 * 513 / 2 = 131328 = 2 * 65536 + 256
    assert_eq!(sig.blocks[0].weak, 512 + 65536 * 256);
    assert_eq!(sig.blocks[0].strong.len(), 20);
}

#[test]
fn restore_rejects_bad_copies_and_lengths() {
    let base = pseudo_random(1024, 4);
    let bad = Delta { new_len: 512, chunks: vec![Chunk::Copy { block_index: 1, count: 2 }] };
    assert_eq!(restore(&bad, 512, &base), Err(RestoreError::CopyOutOfRange));
    let short = Delta { new_len: 10, chunks: vec![Chunk::Literal(vec![1, 2, 3])] };
    assert_eq!(restore(&short, 512, &base), Err(RestoreError::RestoreLengthMismatch));
    let ok = Delta { new_len: 515, chunks: vec![Chunk::Copy { block_index: 1, count: 1 }, Chunk::Literal(vec![1, 2, 3])] };
    let mut expect = base[512..].to_vec();
    expect.extend_from_slice(&[1, 2, 3]);
    assert_eq!(restore(&ok, 512, &base), Ok(expect));
}

#[test]
fn signature_file_round_trip() {
    let s = pseudo_random(3000, 8);
    let sig = signature(&s, 1024);
    let bytes = encode_signature(&sig);
    assert_eq!(&bytes[..4], b"SIG1");
    assert_eq!(bytes.len(), 24 + 3 * 24);
    assert_eq!(&bytes[4..8], &1024u32.to_le_bytes());
    assert_eq!(&bytes[8..16], &3000u64.to_le_bytes());
    let back = parse_signature(&bytes).unwrap();
    assert_eq!(back.block_size, 1024);
    assert_eq!(back.baseline_len, 3000);
    assert_eq!(back.blocks.len(), 3);
    for (a, b) in back.blocks.iter().zip(sig.blocks.iter()) {
        assert_eq!(a.weak, b.weak);
        assert_eq!(a.strong, b.strong);
    }
}

#[test]
fn signature_file_errors() {
    assert_eq!(parse_signature(b"SIG1").err(), Some(WireError::Truncated));
    let mut bytes = encode_signature(&signature(&pseudo_random(600, 1), 512));
    bytes[0] = b'X';
    assert_eq!(parse_signature(&bytes).err(), Some(WireError::BadMagic));
    let mut bytes = encode_signature(&signature(&pseudo_random(600, 1), 512));
    bytes[4..8].copy_from_slice(&256u32.to_le_bytes());
    assert_eq!(parse_signature(&bytes).err(), Some(WireError::BlockSizeOutOfRange));
    let mut bytes = encode_signature(&signature(&pseudo_random(600, 1), 512));
    bytes[16..24].copy_from_slice(&5u64.to_le_bytes());
    assert_eq!(parse_signature(&bytes).err(), Some(WireError::BlockCountMismatch));
    let mut bytes = encode_signature(&signature(&pseudo_random(600, 1), 512));
    bytes.pop();
    assert_eq!(parse_signature(&bytes).err(), Some(WireError::Truncated));
}

#[test]
fn delta_file_round_trip_and_unknown_tag() {
    let d = Delta { new_len: 7, chunks: vec![Chunk::Copy { block_index: 2, count: 3 }, Chunk::Literal(vec![9, 8])] };
    let bytes = encode_delta(&d);
    let mut expect = b"DLT1".to_vec();
    expect.extend_from_slice(&7u64.to_le_bytes());
    expect.push(1);
    expect.extend_from_slice(&2u64.to_le_bytes());
    expect.extend_from_slice(&3u64.to_le_bytes());
    expect.push(2);
    expect.extend_from_slice(&2u32.to_le_bytes());
    expect.extend_from_slice(&[9, 8]);
    assert_eq!(bytes, expect);
    let back = parse_delta(&bytes).unwrap();
    assert_eq!(back.new_len, 7);
    assert!(matches!(back.chunks[0], Chunk::Copy { block_index: 2, count: 3 }));
    assert!(matches!(&back.chunks[1], Chunk::Literal(b) if b == &vec![9u8, 8]));
    let mut bad = bytes.clone();
    bad[12] = 3;
    assert_eq!(parse_delta(&bad).err(), Some(WireError::UnknownChunkTag));
    assert_eq!(parse_delta(b"DLT1").err(), Some(WireError::Truncated));
    assert_eq!(parse_delta(b"XLT1\0\0\0\0\0\0\0\0").err(), Some(WireError::BadMagic));
}

#[test]
fn equal_blocks_resolve_to_lowest_index() {
    let x = pseudo_random(512, 42);
    let mut base = x.clone();
    base.extend_from_slice(&pseudo_random(512, 43));
    base.extend_from_slice(&x);
    let sig = signature(&base, 512);
    let d = delta(&sig, &x);
    assert_eq!(d.chunks.len(), 1);
    assert!(matches!(d.chunks[0], Chunk::Copy { block_index: 0, count: 1 }));
}
