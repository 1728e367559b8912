use page_db::file::{
    check_read, page_count_of, prepare_write, read_step, write_step, TransferAction, TransferOutcome,
};
use page_db::{Lsn, Page, PageError, PageFileOptions, PageId, PageSize};

#[test]
fn options_default_and_builders() {
    let o = PageFileOptions::new();
    assert_eq!(o.configured_page_size().get(), 4096);
    assert!(o.uses_direct_io());
    assert!(o.creates());
    let o = o.page_size(PageSize::new(8192).unwrap()).direct_io(false).create(false);
    assert_eq!(o.configured_page_size().get(), 8192);
    assert!(!o.uses_direct_io());
    assert!(!o.creates());
}

#[test]
fn short_read_is_reported_with_counts() {
    let ps = PageSize::new(4096).unwrap();
    let buf = vec![0u8; 4096];
    assert!(matches!(
        check_read(ps, PageId::new(7), &buf, 100),
        Err(PageError::ShortRead { page_id: 7, got: 100, page_size: 4096 })
    ));
}

#[test]
fn read_of_a_written_slot_verifies_and_checks_the_slot() {
    let ps = PageSize::new(4096).unwrap();
    let mut page = Page::new(ps);
    page.set_lsn(Lsn::new(11));
    page.payload_mut()[..5].copy_from_slice(b"world");
    prepare_write(ps, PageId::new(2), &mut page).unwrap();
    let bytes = page.as_bytes().to_vec();
    let got = check_read(ps, PageId::new(2), &bytes, 4096).unwrap();
    assert_eq!(got.id(), PageId::new(2));
    assert_eq!(got.lsn(), Lsn::new(11));
    assert_eq!(&got.payload()[..5], b"world");
    assert!(matches!(
        check_read(ps, PageId::new(3), &bytes, 4096),
        Err(PageError::MisdirectedPage { requested: 3, found: 2 })
    ));
}

#[test]
fn write_rejects_wrong_page_size() {
    let file_size = PageSize::new(4096).unwrap();
    let mut wrong = Page::new(PageSize::new(8192).unwrap());
    assert!(matches!(
        prepare_write(file_size, PageId::new(0), &mut wrong),
        Err(PageError::InvalidPageSize { size: 8192 })
    ));
}

#[test]
fn page_count_counts_whole_pages() {
    let ps = PageSize::new(4096).unwrap();
    assert_eq!(page_count_of(0, ps), 0);
    assert_eq!(page_count_of(4096 * 5, ps), 5);
    assert_eq!(page_count_of(4096 * 5 + 100, ps), 5);
}

#[test]
fn transfer_steps_retry_advance_and_stop() {
    assert_eq!(write_step(4096, 0, TransferOutcome::Moved(1000)), TransferAction::Continue(1000));
    assert_eq!(write_step(4096, 1000, TransferOutcome::Moved(3096)), TransferAction::Stop(4096));
    assert_eq!(write_step(4096, 1000, TransferOutcome::Moved(0)), TransferAction::WriteZero);
    assert_eq!(write_step(4096, 1000, TransferOutcome::Interrupted), TransferAction::Continue(1000));
    assert_eq!(write_step(4096, 1000, TransferOutcome::Failed), TransferAction::Fail);
    assert_eq!(read_step(4096, 512, TransferOutcome::Moved(0)), TransferAction::Stop(512));
    assert_eq!(read_step(4096, 512, TransferOutcome::Moved(512)), TransferAction::Continue(1024));
    assert_eq!(read_step(4096, 4000, TransferOutcome::Moved(96)), TransferAction::Stop(4096));
    assert_eq!(read_step(4096, 0, TransferOutcome::Interrupted), TransferAction::Continue(0));
    assert_eq!(read_step(4096, 0, TransferOutcome::Failed), TransferAction::Fail);
}
