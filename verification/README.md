# page_db

The paging substrate beneath B-tree and heap storage engines: fixed-size pages,
each carrying a versioned header with a CRC32C integrity check and an LSN slot
for write-ahead-log coordination; a bounded buffer pool with pinning, dirty
tracking and clock eviction; and a page-id allocator with an on-disk free-list.

The library in `src/` is verified with Verus: public functions state their
behaviour in `requires` / `ensures`, and the laws of the library are public
proof functions. Where a function calls the user's `PageStore`, its contract
says which store calls it made, with which ids and pages, and that its result
is the store's answer; what the store itself keeps is the implementer's
business, since its methods take `&self`.

- `checksum` — CRC32C (Castagnoli), table-driven slice-by-8, proved equal to
  the bitwise definition; streaming and single-byte-change laws.
- `le` — little-endian field reads and writes over byte slices.
- `page` — `PageId`, `Lsn`, `PageSize`, `Page`, the header layout and its
  validation (`page_check`), stamping and the corruption-detection laws.
- `store` — the `PageStore` trait the pool and the allocator sit on.
- `pool` — `BufferPool` and `PageGuard`.
- `allocator` — `PageAllocator`, its superblock and free-list chain.
- `file` — open options and what a positioned read or write of a slot means.
- `error` — `PageError`.

`app/` holds what the verifier does not see: the file handle and platform
layer (Direct I/O, durable flush, positioned I/O with an aligned staging
buffer), `PageStore` for a file, and copies of the error and id types that
carry `thiserror` and `serde` derives. `tests/` exercises the library with
in-memory stores.
