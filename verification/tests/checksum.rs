use page_db::checksum::Crc32c;
use page_db::crc32c;

#[test]
fn test_crc32c_empty_is_zero() {
    assert_eq!(crc32c(b""), 0);
}

#[test]
fn test_crc32c_check_vector_matches_standard() {
    // The canonical CRC-32C/iSCSI check value.
    assert_eq!(crc32c(b"123456789"), 0xE306_9283);
}

#[test]
fn test_crc32c_streaming_equals_one_shot() {
    let data = b"the quick brown fox jumps over the lazy dog";
    for split in 0..=data.len() {
        let (a, b) = data.split_at(split);
        let mut h = Crc32c::new();
        h.update(a);
        h.update(b);
        assert_eq!(h.finalize(), crc32c(data), "split at {split}");
    }
}

#[test]
fn test_crc32c_single_bit_flip_changes_value() {
    let mut data = vec![0u8; 4096];
    for (i, b) in data.iter_mut().enumerate() {
        *b = i as u8;
    }
    let base = crc32c(&data);
    let mut flipped = data.clone();
    flipped[2048] ^= 0x01;
    assert_ne!(crc32c(&flipped), base);
}

/// The documented streaming example.
#[test]
fn crc32c_streaming_doc_example() {
    let mut h = Crc32c::new();
    h.update(b"123");
    h.update(b"456789");
    assert_eq!(h.finalize(), crc32c(b"123456789"));
}

/// Known CRC-32C values of other standard vectors (RFC 3720, B.4).
#[test]
fn crc32c_known_vectors() {
    assert_eq!(crc32c(&[0u8; 32]), 0x8A91_36AA);
    assert_eq!(crc32c(&[0xFFu8; 32]), 0x62A8_AB43);
    let ascending: Vec<u8> = (0u8..32).collect();
    assert_eq!(crc32c(&ascending), 0x46DD_794E);
    let descending: Vec<u8> = (0u8..32).rev().collect();
    assert_eq!(crc32c(&descending), 0x113F_DB5C);
    assert_eq!(crc32c(b"a"), 0xC1D0_4330);
}

/// Inputs of every length up to three chunks agree between one-shot and
/// byte-at-a-time streaming, covering the eight-byte path and the tail path.
#[test]
fn crc32c_chunked_and_tail_paths_agree() {
    let data: Vec<u8> = (0..40u32).map(|i| (i * 37 + 11) as u8).collect();
    for len in 0..=data.len() {
        let mut h = Crc32c::new();
        for b in &data[..len] {
            h.update(std::slice::from_ref(b));
        }
        assert_eq!(h.finalize(), crc32c(&data[..len]), "len {len}");
    }
}

/// Every single-byte change of a buffer changes its checksum.
#[test]
fn crc32c_detects_every_single_byte_change() {
    let data: Vec<u8> = (0..64u32).map(|i| (i * 13 + 5) as u8).collect();
    let base = crc32c(&data);
    for pos in 0..data.len() {
        for x in [0x01u8, 0x80, 0xFF, 0x5A] {
            let mut changed = data.clone();
            changed[pos] ^= x;
            assert_ne!(crc32c(&changed), base, "pos {pos} xor {x:#x}");
        }
    }
}

#[test]
fn crc32c_default_starts_fresh() {
    let mut h = Crc32c::default();
    h.update(b"123456789");
    assert_eq!(h.finalize(), 0xE306_9283);
}
