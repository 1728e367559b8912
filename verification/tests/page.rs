use page_db::page::{FORMAT_VERSION, MAGIC};
use page_db::{Lsn, Page, PageError, PageId, PageSize, MAX_PAGE_SIZE, PAGE_HEADER_SIZE};

fn default_size() -> PageSize {
    PageSize::default()
}

#[test]
fn test_page_size_rejects_non_power_of_two() {
    assert!(matches!(
        PageSize::new(5000),
        Err(PageError::InvalidPageSize { size: 5000 })
    ));
}

#[test]
fn test_page_size_rejects_out_of_range() {
    assert!(PageSize::new(2048).is_err());
    assert!(PageSize::new(MAX_PAGE_SIZE * 2).is_err());
}

#[test]
fn test_page_size_payload_len() {
    let ps = PageSize::new(4096).expect("valid");
    assert_eq!(ps.payload_len(), 4096 - PAGE_HEADER_SIZE);
}

#[test]
fn test_new_page_has_valid_header() {
    let page = Page::new(default_size());
    assert_eq!(page.id(), PageId::new(0));
    assert_eq!(page.lsn(), Lsn::zero());
    assert_eq!(page.page_size(), 4096);
}

#[test]
fn test_stamp_then_verify_roundtrips() {
    let mut page = Page::new(default_size());
    page.set_lsn(Lsn::new(7));
    page.payload_mut()[..4].copy_from_slice(b"data");
    page.stamp(PageId::new(3));

    assert_eq!(page.id(), PageId::new(3));
    page.verify(Some(PageId::new(3))).expect("verifies");
    assert_eq!(page.lsn(), Lsn::new(7));
}

#[test]
fn test_verify_detects_corruption() {
    let mut page = Page::new(default_size());
    page.stamp(PageId::new(1));
    page.payload_mut()[10] ^= 0xFF;
    assert!(matches!(
        page.verify(Some(PageId::new(1))),
        Err(PageError::ChecksumMismatch { .. })
    ));
}

#[test]
fn test_verify_detects_misdirected_page() {
    let mut page = Page::new(default_size());
    page.stamp(PageId::new(5));
    assert!(matches!(
        page.verify(Some(PageId::new(6))),
        Err(PageError::MisdirectedPage {
            requested: 6,
            found: 5
        })
    ));
}

#[test]
fn test_from_bytes_rejects_wrong_length() {
    let bytes = vec![0u8; 100];
    assert!(matches!(
        Page::from_bytes(default_size(), &bytes),
        Err(PageError::ShortRead { .. })
    ));
}

#[test]
fn test_from_bytes_rejects_bad_magic() {
    let bytes = vec![0u8; 4096];
    assert!(matches!(
        Page::from_bytes(default_size(), &bytes),
        Err(PageError::BadMagic { .. })
    ));
}

#[test]
fn test_to_bytes_from_bytes_roundtrips() {
    let mut page = Page::new(default_size());
    page.set_lsn(Lsn::new(99));
    page.payload_mut()[..5].copy_from_slice(b"hello");
    let bytes = page.to_checksummed_bytes();

    let loaded = Page::from_bytes(default_size(), &bytes).expect("verifies");
    assert_eq!(loaded.lsn(), Lsn::new(99));
    assert_eq!(&loaded.payload()[..5], b"hello");
}

/// Any single-byte corruption of a stamped page is detected, whichever byte
/// it hits and whatever it changes the byte to.
#[test]
fn single_byte_corruption_of_a_stamped_page_is_always_caught() {
    let mut page = Page::new(default_size());
    page.set_lsn(Lsn::new(0xDEAD_BEEF));
    page.payload_mut()[0] = 0xA5;
    page.stamp(PageId::new(9));
    let good = page.as_bytes().to_vec();
    assert!(Page::from_bytes(default_size(), &good).is_ok());
    for offset in 0..good.len() {
        let xor = (offset % 255) as u8 + 1;
        let mut bad = good.clone();
        bad[offset] ^= xor;
        let loaded = Page::from_bytes(default_size(), &bad);
        let slot_checked = loaded.and_then(|p| p.verify(Some(PageId::new(9))).map(|()| p));
        assert!(slot_checked.is_err(), "offset {offset} went undetected");
    }
}

/// The header bytes of a fresh page are the documented magic and version.
#[test]
fn new_page_header_bytes_are_documented_constants() {
    let page = Page::new(default_size());
    let bytes = page.as_bytes();
    assert_eq!(&bytes[0..4], b"PGDB");
    assert_eq!(u32::from_le_bytes([bytes[0], bytes[1], bytes[2], bytes[3]]), MAGIC);
    assert_eq!(u16::from_le_bytes([bytes[4], bytes[5]]), FORMAT_VERSION);
    assert!(bytes[6..].iter().all(|&b| b == 0));
}

/// Stamping writes the id little-endian at offset 8 and the checksum over
/// the page without its checksum field at offset 24.
#[test]
fn stamp_writes_id_and_checksum_fields() {
    let mut page = Page::new(default_size());
    page.payload_mut()[7] = 3;
    page.stamp(PageId::new(0x0102_0304_0506_0708));
    let b = page.as_bytes();
    assert_eq!(&b[8..16], &[8, 7, 6, 5, 4, 3, 2, 1]);
    let mut region = b[..24].to_vec();
    region.extend_from_slice(&b[28..]);
    let crc = page_db::crc32c(&region);
    assert_eq!(&b[24..28], &crc.to_le_bytes());
}

#[test]
fn verify_rejects_unsupported_version() {
    let page = Page::new(default_size());
    let mut bytes = page.to_checksummed_bytes();
    bytes[4] = 2;
    assert!(matches!(
        Page::from_bytes(default_size(), &bytes),
        Err(PageError::UnsupportedVersion { found: 2, supported: 1 })
    ));
}

#[test]
fn bad_magic_reports_found_and_expected() {
    let mut bytes = Page::new(default_size()).to_checksummed_bytes();
    bytes[0] = b'X';
    match Page::from_bytes(default_size(), &bytes) {
        Err(PageError::BadMagic { found, expected }) => {
            assert_eq!(expected, 0x4244_4750);
            assert_eq!(found, u32::from_le_bytes([b'X', b'G', b'D', b'B']));
        }
        other => panic!("unexpected {other:?}"),
    }
}

#[test]
fn checksum_mismatch_reports_both_values() {
    let mut page = Page::new(default_size());
    page.stamp(PageId::new(4));
    let mut bytes = page.as_bytes().to_vec();
    bytes[100] = 1;
    let stored = u32::from_le_bytes([bytes[24], bytes[25], bytes[26], bytes[27]]);
    let mut region = bytes[..24].to_vec();
    region.extend_from_slice(&bytes[28..]);
    let computed = page_db::crc32c(&region);
    match Page::from_bytes(default_size(), &bytes) {
        Err(PageError::ChecksumMismatch { page_id, stored: s, computed: c }) => {
            assert_eq!(page_id, 4);
            assert_eq!(s, stored);
            assert_eq!(c, computed);
        }
        other => panic!("unexpected {other:?}"),
    }
}

#[test]
fn reset_returns_a_blank_page() {
    let mut page = Page::new(default_size());
    page.set_lsn(Lsn::new(5));
    page.payload_mut()[3] = 9;
    page.stamp(PageId::new(12));
    page.reset();
    assert_eq!(page.as_bytes(), Page::new(default_size()).as_bytes());
}

#[test]
fn clone_copies_the_image() {
    let mut page = Page::new(default_size());
    page.payload_mut()[1] = 77;
    let copy = page.clone();
    page.payload_mut()[1] = 78;
    assert_eq!(copy.payload()[1], 77);
    assert_eq!(copy.page_size(), 4096);
}

#[test]
fn payload_is_page_minus_header() {
    let page = Page::new(PageSize::new(8192).expect("valid"));
    assert_eq!(page.payload().len(), 8192 - 32);
}

#[test]
fn page_id_and_lsn_values() {
    assert_eq!(PageId::new(42).get(), 42);
    assert_eq!(Lsn::zero().get(), 0);
    assert!(Lsn::new(200) > Lsn::new(100));
    assert_eq!(PageId::new(3).byte_offset(4096), 3 * 4096);
}

/// Build a page-sized block from `data` (truncated or zero-padded); if it
/// parses, it survives a serialize / parse round trip.
fn parse_round_trip(data: &[u8], size: usize) -> bool {
    let ps = match PageSize::new(size) {
        Ok(ps) => ps,
        Err(_) => return false,
    };
    let mut buf = vec![0u8; size];
    let n = data.len().min(size);
    buf[..n].copy_from_slice(&data[..n]);
    match Page::from_bytes(ps, &buf) {
        Ok(page) => {
            let bytes = page.to_checksummed_bytes();
            let reparsed = Page::from_bytes(ps, &bytes).expect("round-trip must verify");
            assert_eq!(reparsed.id(), page.id());
            assert_eq!(reparsed.lsn(), page.lsn());
            assert_eq!(reparsed.payload(), page.payload());
            true
        }
        Err(_) => false,
    }
}

#[test]
fn parsed_pages_survive_a_serialize_round_trip() {
    for size in [4096usize, 8192] {
        let mut page = Page::new(PageSize::new(size).unwrap());
        page.set_lsn(Lsn::new(17));
        page.payload_mut()[..4].copy_from_slice(b"fuzz");
        page.payload_mut()[300] = 1;
        page.stamp(PageId::new(6));
        let image = page.as_bytes().to_vec();
        assert!(parse_round_trip(&image, size));
        // A valid image truncated and zero-padded no longer verifies.
        assert!(!parse_round_trip(&image[..100], size));
        // Arbitrary bytes do not parse, and nothing panics.
        assert!(!parse_round_trip(&[0xA5; 5000], size));
        assert!(!parse_round_trip(&[], size));
    }
    assert!(!parse_round_trip(b"anything", 5000));
}

#[test]
fn ids_and_lsns_order_by_their_numbers() {
    assert!(PageId::new(1) < PageId::new(2));
    assert!(!(PageId::new(2) <= PageId::new(1)));
    assert!(PageId::new(7) >= PageId::new(7));
    assert!(Lsn::new(3) < Lsn::new(5));
    assert!(Lsn::new(9) > Lsn::new(5));
    assert_eq!(Lsn::zero(), Lsn::new(0));
    assert_eq!(PageId::new(4).cmp(&PageId::new(9)), std::cmp::Ordering::Less);
}
