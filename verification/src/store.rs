//! The [`PageStore`] trait: the storage seam the buffer pool and the allocator
//! sit on.
use crate::error::{PageError, PageResult};
use crate::page::{lsn_of, payload_of, stamped, Page, PageId};
use vstd::prelude::*;

verus! {

/// A backing store of fixed-size pages addressed by [`PageId`].
///
/// A store only has to read a page by id, write a page to an id, allocate a
/// blank page of the right size, and flush to durability; caching, pinning
/// and dirty tracking are the pool's job. Implementations live with their
/// users (a file of pages, an in-memory store in tests).
pub trait PageStore: Send + Sync {
    /// The fixed page size of this store, in bytes.
    fn page_size(&self) -> usize;

    /// Allocate a blank page sized for this store. The page is in memory
    /// only.
    fn allocate_page(&self) -> Page;

    /// Read the page at `id` into `page`, verifying it.
    fn read_into(&self, id: PageId, page: &mut Page) -> PageResult<()>;

    /// Write `page` to slot `id`. On success the page's header has been
    /// stamped (id and checksum) as part of the write; either way its size,
    /// lsn and payload stay as they were.
    fn write_page(&self, id: PageId, page: &mut Page) -> (r: PageResult<()>)
        ensures
            r is Ok ==> final(page)@ == stamped(old(page)@, id@ as nat),
            final(page)@.len() == old(page)@.len(),
            lsn_of(final(page)@) == lsn_of(old(page)@),
            payload_of(final(page)@) == payload_of(old(page)@),
    ;

    /// Flush all written pages to stable storage.
    fn sync(&self) -> PageResult<()>;
}

/// Write `page` to slot `id` of `store`. The answer, and the page before and
/// after, are those of one call of the store's `write_page`.
pub(crate) fn write_to<S: PageStore>(store: &S, id: PageId, page: &mut Page) -> (r: PageResult<()>)
    ensures
        r is Ok ==> final(page)@ == stamped(old(page)@, id@ as nat),
        final(page)@.len() == old(page)@.len(),
        lsn_of(final(page)@) == lsn_of(old(page)@),
        payload_of(final(page)@) == payload_of(old(page)@),
        exists|p: &mut Page|
            mut_ref_current(p)@ == old(page)@ && mut_ref_future(p)@ == final(page)@
                && #[trigger] call_ensures(S::write_page, (store, id, p), r),
{
    store.write_page(id, page)
}

/// Read slot `id` of `store` into `page`. The answer, and the page before
/// and after, are those of one call of the store's `read_into`.
pub(crate) fn read_from<S: PageStore>(store: &S, id: PageId, page: &mut Page) -> (r: PageResult<()>)
    ensures
        exists|p: &mut Page|
            mut_ref_current(p)@ == old(page)@ && mut_ref_future(p)@ == final(page)@
                && #[trigger] call_ensures(S::read_into, (store, id, p), r),
{
    store.read_into(id, page)
}

/// A read from `store` can answer with the error `e`.
pub open spec fn store_read_error<S: PageStore>(store: S, e: PageError) -> bool {
    exists|id: PageId, p: &mut Page|
        #[trigger] call_ensures(S::read_into, (&store, id, p), Err::<(), PageError>(e))
}

/// `store` can answer a write with the error `e`.
pub open spec fn store_write_error<S: PageStore>(store: S, e: PageError) -> bool {
    exists|id: PageId, p: &mut Page|
        #[trigger] call_ensures(S::write_page, (&store, id, p), Err::<(), PageError>(e))
}

/// `store` can answer a sync with the error `e`.
pub open spec fn store_sync_error<S: PageStore>(store: S, e: PageError) -> bool {
    call_ensures(S::sync, (&store,), Err::<(), PageError>(e))
}

/// A shared store: each method answers as the store behind the `Arc` does
/// (its result, and the page it leaves behind, are ones the inner store's
/// method gives for the same arguments).
impl<S: PageStore> PageStore for std::sync::Arc<S> {
    fn page_size(&self) -> (n: usize)
        ensures
            call_ensures(S::page_size, (&**self,), n),
    {
        (**self).page_size()
    }

    fn allocate_page(&self) -> (p: Page)
        ensures
            call_ensures(S::allocate_page, (&**self,), p),
    {
        (**self).allocate_page()
    }

    fn read_into(&self, id: PageId, page: &mut Page) -> (r: PageResult<()>)
        ensures
            exists|p: &mut Page|
                #[trigger] call_ensures(S::read_into, (&**self, id, p), r) && mut_ref_current(p)
                    == *old(page) && mut_ref_future(p) == *final(page),
    {
        (**self).read_into(id, page)
    }

    fn write_page(&self, id: PageId, page: &mut Page) -> (r: PageResult<()>)
        ensures
            exists|p: &mut Page|
                #[trigger] call_ensures(S::write_page, (&**self, id, p), r) && mut_ref_current(p)
                    == *old(page) && mut_ref_future(p) == *final(page),
    {
        (**self).write_page(id, page)
    }

    fn sync(&self) -> (r: PageResult<()>)
        ensures
            call_ensures(S::sync, (&**self,), r),
    {
        (**self).sync()
    }
}

} // verus!
