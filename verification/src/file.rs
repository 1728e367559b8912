//! The computation behind a file of pages: open options, slot offsets, and
//! what a positioned read or write of a slot amounts to. The file handle and
//! the I/O itself live with the caller.
use crate::error::{PageError, PageResult};
use crate::page::{page_check, page_id_of, stamped, Page, PageId, PageSize};
use vstd::prelude::*;

verus! {

/// Options for opening a file of pages: the page size, Direct I/O (cache
/// bypass), and create-if-absent. The defaults are 4 KiB pages, Direct I/O
/// on, and create-if-absent.
#[derive(Debug, Clone, Copy)]
pub struct PageFileOptions {
    page_size: PageSize,
    direct_io: bool,
    create: bool,
}

impl PageFileOptions {
    /// The configured page size.
    pub closed spec fn size_spec(&self) -> usize {
        self.page_size@
    }

    /// Whether Direct I/O is requested.
    pub closed spec fn direct_spec(&self) -> bool {
        self.direct_io
    }

    /// Whether a missing file is created.
    pub closed spec fn create_spec(&self) -> bool {
        self.create
    }

    /// Start from the defaults: 4 KiB pages, Direct I/O on, create-if-absent.
    pub fn new() -> (o: Self)
        ensures
            o.size_spec() == 4096,
            o.direct_spec(),
            o.create_spec(),
    {
        Self::default()
    }

    /// Set the page size.
    pub fn page_size(self, page_size: PageSize) -> (o: Self)
        ensures
            o.size_spec() == page_size@,
            o.direct_spec() == self.direct_spec(),
            o.create_spec() == self.create_spec(),
    {
        PageFileOptions { page_size, ..self }
    }

    /// Enable or disable Direct I/O.
    pub fn direct_io(self, enabled: bool) -> (o: Self)
        ensures
            o.size_spec() == self.size_spec(),
            o.direct_spec() == enabled,
            o.create_spec() == self.create_spec(),
    {
        PageFileOptions { direct_io: enabled, ..self }
    }

    /// Create the file if it does not exist.
    pub fn create(self, create: bool) -> (o: Self)
        ensures
            o.size_spec() == self.size_spec(),
            o.direct_spec() == self.direct_spec(),
            o.create_spec() == create,
    {
        PageFileOptions { create, ..self }
    }

    /// The configured page size.
    pub fn configured_page_size(&self) -> (ps: PageSize)
        ensures
            ps@ == self.size_spec(),
    {
        self.page_size
    }

    /// Whether Direct I/O is requested.
    pub fn uses_direct_io(&self) -> (b: bool)
        ensures
            b == self.direct_spec(),
    {
        self.direct_io
    }

    /// Whether a missing file is created.
    pub fn creates(&self) -> (b: bool)
        ensures
            b == self.create_spec(),
    {
        self.create
    }
}

impl Default for PageFileOptions {
    fn default() -> (o: Self)
        ensures
            o.size_spec() == 4096,
            o.direct_spec(),
            o.create_spec(),
    {
        PageFileOptions { page_size: PageSize::default(), direct_io: true, create: true }
    }
}

/// The number of whole pages in a file of `len` bytes.
pub fn page_count_of(len: u64, page_size: PageSize) -> (n: u64)
    ensures
        n == len / (page_size@ as u64),
{
    let size = page_size.get() as u64;
    len / size
}

/// The outcome of reading slot `id`: `got` bytes of the slot arrived in
/// `bytes`. A short read means the slot is past the end of the file;
/// otherwise the page must verify against its header, checksum and slot id.
pub fn check_read(page_size: PageSize, id: PageId, bytes: &[u8], got: usize) -> (r: PageResult<Page>)
    requires
        bytes@.len() == page_size@,
    ensures
        got != page_size@ ==> r == Err::<Page, PageError>(
            PageError::ShortRead { page_id: id@, got, page_size: page_size@ },
        ),
        got == page_size@ ==> match r {
            Ok(p) => page_check(bytes@, Some(id)) == Ok::<(), PageError>(()) && p@ == bytes@
                && page_id_of(p@) == id@,
            Err(e) => page_check(bytes@, Some(id)) == Err::<(), PageError>(e),
        },
{
    let size = page_size.get();
    if got != size {
        return Err(PageError::ShortRead { page_id: id.get(), got, page_size: size });
    }
    match Page::from_bytes(page_size, bytes) {
        Ok(page) => match page.verify(Some(id)) {
            Ok(()) => Ok(page),
            Err(e) => Err(e),
        },
        Err(e) => Err(e),
    }
}

/// Prepare `page` for writing to slot `id` of a file of `file_page_size`
/// pages: its size must match, and it is stamped with the slot id and a fresh
/// checksum.
pub fn prepare_write(file_page_size: PageSize, id: PageId, page: &mut Page) -> (r: PageResult<()>)
    ensures
        old(page)@.len() != file_page_size@ ==> r == Err::<(), PageError>(
            PageError::InvalidPageSize { size: old(page)@.len() as usize },
        ) && final(page)@ == old(page)@,
        old(page)@.len() == file_page_size@ ==> r == Ok::<(), PageError>(()) && final(page)@
            == stamped(old(page)@, id@ as nat),
{
    let size = page.page_size();
    if size != file_page_size.get() {
        return Err(PageError::InvalidPageSize { size });
    }
    page.stamp(id);
    Ok(())
}

/// What one positioned transfer (a read or a write of the rest of a buffer)
/// came back with.
#[derive(Debug, Clone, Copy, PartialEq, Eq, Structural)]
pub enum TransferOutcome {
    /// `n` bytes moved.
    Moved(usize),
    /// The call was interrupted before moving anything.
    Interrupted,
    /// The call failed.
    Failed,
}

/// What to do after one positioned transfer.
#[derive(Debug, Clone, Copy, PartialEq, Eq, Structural)]
pub enum TransferAction {
    /// Transfer again from this many bytes into the buffer.
    Continue(usize),
    /// Stop: this many bytes of the buffer were transferred.
    Stop(usize),
    /// A write moved nothing: fail with a zero-write error.
    WriteZero,
    /// Hand the call's error back.
    Fail,
}

/// The step of a loop that writes all of a `total`-byte buffer, `done`
/// bytes of it so far: an interrupted call is retried, a write of nothing is
/// an error, and each write moves the position on until the whole buffer is
/// written.
pub fn write_step(total: usize, done: usize, outcome: TransferOutcome) -> (a: TransferAction)
    requires
        done < total,
    ensures
        a == match outcome {
            TransferOutcome::Moved(n) => if n == 0 {
                TransferAction::WriteZero
            } else if n >= total - done {
                TransferAction::Stop(total)
            } else {
                TransferAction::Continue((done + n) as usize)
            },
            TransferOutcome::Interrupted => TransferAction::Continue(done),
            TransferOutcome::Failed => TransferAction::Fail,
        },
{
    match outcome {
        TransferOutcome::Moved(n) => if n == 0 {
            TransferAction::WriteZero
        } else if n >= total - done {
            TransferAction::Stop(total)
        } else {
            TransferAction::Continue(done + n)
        },
        TransferOutcome::Interrupted => TransferAction::Continue(done),
        TransferOutcome::Failed => TransferAction::Fail,
    }
}

/// The step of a loop that reads up to a `total`-byte buffer, `done` bytes
/// of it so far: an interrupted call is retried, a read of nothing is the end
/// of the file, and each read moves the position on until the buffer is full.
pub fn read_step(total: usize, done: usize, outcome: TransferOutcome) -> (a: TransferAction)
    requires
        done < total,
    ensures
        a == match outcome {
            TransferOutcome::Moved(n) => if n == 0 {
                TransferAction::Stop(done)
            } else if n >= total - done {
                TransferAction::Stop(total)
            } else {
                TransferAction::Continue((done + n) as usize)
            },
            TransferOutcome::Interrupted => TransferAction::Continue(done),
            TransferOutcome::Failed => TransferAction::Fail,
        },
{
    match outcome {
        TransferOutcome::Moved(n) => if n == 0 {
            TransferAction::Stop(done)
        } else if n >= total - done {
            TransferAction::Stop(total)
        } else {
            TransferAction::Continue(done + n)
        },
        TransferOutcome::Interrupted => TransferAction::Continue(done),
        TransferOutcome::Failed => TransferAction::Fail,
    }
}

} // verus!
