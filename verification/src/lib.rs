//! # page-db
//!
//! The paging substrate beneath B-tree and heap storage engines: fixed-size
//! pages, each carrying a versioned header with a CRC32C integrity check and
//! an LSN slot for write-ahead-log coordination; a bounded buffer pool with
//! pinning and dirty tracking over any [`PageStore`]; and a page allocator
//! that hands out and reclaims page ids through an on-disk free-list.
pub mod allocator;
pub mod checksum;
pub mod error;
pub mod file;
pub mod le;
pub mod page;
pub mod pool;
pub mod store;

pub use crate::allocator::PageAllocator;
pub use crate::checksum::{crc32c, Crc32c};
pub use crate::error::{PageError, PageResult};
pub use crate::file::PageFileOptions;
pub use crate::page::{
    Lsn, Page, PageId, PageSize, MAX_PAGE_SIZE, MIN_PAGE_SIZE, PAGE_HEADER_SIZE,
};
pub use crate::pool::{BufferPool, PageGuard, PageRef};
pub use crate::store::PageStore;
