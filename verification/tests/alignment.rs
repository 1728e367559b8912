use page_db::{Lsn, Page, PageError, PageSize, MAX_PAGE_SIZE, MIN_PAGE_SIZE, PAGE_HEADER_SIZE};

/// Every power of two in `MIN..=MAX` is accepted; everything else is rejected.
#[test]
fn page_size_accepts_exactly_the_valid_set() {
    let mut size = MIN_PAGE_SIZE;
    while size <= MAX_PAGE_SIZE {
        let ps = PageSize::new(size).expect("power of two in range");
        assert_eq!(ps.get(), size);
        assert_eq!(ps.payload_len(), size - PAGE_HEADER_SIZE);
        size *= 2;
    }

    for bad in [
        0,
        1,
        MIN_PAGE_SIZE - 1,
        MIN_PAGE_SIZE + 1,
        2048,
        6144,
        MAX_PAGE_SIZE - 1,
        MAX_PAGE_SIZE + 1,
        MAX_PAGE_SIZE * 2,
    ] {
        assert!(
            matches!(PageSize::new(bad), Err(PageError::InvalidPageSize { size }) if size == bad),
            "size {bad} should be rejected"
        );
    }
}

/// Every valid page size round-trips in memory through the checksummed-bytes
/// framing, with the payload length the size implies.
#[test]
fn every_page_size_round_trips_in_memory() {
    let mut size = MIN_PAGE_SIZE;
    while size <= MAX_PAGE_SIZE {
        let ps = PageSize::new(size).expect("valid");
        let mut page = Page::new(ps);
        let last = page.payload().len() - 1;
        page.set_lsn(Lsn::new(size as u64));
        page.payload_mut()[0] = 0xE1;
        page.payload_mut()[last] = 0x1E;

        let bytes = page.to_checksummed_bytes();
        assert_eq!(bytes.len(), size);

        let loaded = Page::from_bytes(ps, &bytes).expect("verify");
        assert_eq!(loaded.lsn(), Lsn::new(size as u64));
        assert_eq!(loaded.payload()[0], 0xE1);
        assert_eq!(loaded.payload()[last], 0x1E);

        size *= 2;
    }
}

#[test]
fn default_page_size_is_four_kib() {
    assert_eq!(PageSize::default().get(), 4096);
    assert_eq!(MIN_PAGE_SIZE, 4096);
    assert_eq!(MAX_PAGE_SIZE, 1 << 20);
    assert_eq!(PAGE_HEADER_SIZE, 32);
}
