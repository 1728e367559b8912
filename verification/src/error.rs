//! The crate error type.
use vstd::prelude::*;

verus! {

/// `std::io::Error`, carried opaquely inside [`PageError::Io`].
#[verifier::external_type_specification]
#[verifier::external_body]
pub struct ExIoError(std::io::Error);

/// Everything that can go wrong reading, writing, or framing a page.
///
/// The variants split into two families: I/O failures from the underlying
/// store ([`PageError::Io`]) and integrity failures detected while validating
/// a page against its header. The type is non-exhaustive: match with a
/// wildcard arm.
#[derive(Debug)]
#[non_exhaustive]
#[allow(inconsistent_fields)]
pub enum PageError {
    /// An I/O operation on the underlying store failed.
    Io(std::io::Error),
    /// A page size is not a power of two within `MIN_PAGE_SIZE..=MAX_PAGE_SIZE`,
    /// or a page's size does not match its file's.
    InvalidPageSize {
        /// The rejected size, in bytes.
        size: usize,
    },
    /// The page's leading magic bytes did not match.
    BadMagic {
        /// The magic value read.
        found: u32,
        /// The magic value this build writes.
        expected: u32,
    },
    /// The page's format version is not one this build understands.
    UnsupportedVersion {
        /// The version read.
        found: u16,
        /// The version this build writes and can read.
        supported: u16,
    },
    /// The page's stored CRC32C did not match the checksum recomputed over
    /// its bytes.
    ChecksumMismatch {
        /// The id stamped in the page header.
        page_id: u64,
        /// The checksum stored in the page header.
        stored: u32,
        /// The checksum recomputed over the page.
        computed: u32,
    },
    /// The page read back from a slot carries a different id than the one
    /// requested.
    MisdirectedPage {
        /// The slot id that was read.
        requested: u64,
        /// The id stamped in the page header found there.
        found: u64,
    },
    /// A read returned fewer bytes than a whole page.
    ShortRead {
        /// The slot id that was read.
        page_id: u64,
        /// The number of bytes actually read.
        got: usize,
        /// The configured page size.
        page_size: usize,
    },
    /// A buffer pool could not admit another page because every frame is
    /// pinned.
    BufferPoolExhausted {
        /// The pool's frame capacity.
        capacity: usize,
    },
    /// An id handed to the allocator's `free` is the reserved superblock
    /// (page 0) or beyond the high-water mark; also returned when the id space
    /// is exhausted.
    InvalidPageId {
        /// The rejected id.
        page_id: u64,
    },
    /// Page 0 is not a valid allocator superblock, or the free-list chain it
    /// describes is malformed.
    InvalidSuperblock,
}

/// A convenience alias for results returned by this crate.
pub type PageResult<T> = Result<T, PageError>;

impl From<std::io::Error> for PageError {
    fn from(err: std::io::Error) -> (e: PageError)
        ensures
            e == PageError::Io(err),
    {
        PageError::Io(err)
    }
}

impl vstd::std_specs::convert::FromSpecImpl<std::io::Error> for PageError {
    open spec fn obeys_from_spec() -> bool {
        true
    }

    open spec fn from_spec(err: std::io::Error) -> PageError {
        PageError::Io(err)
    }
}

} // verus!
