use std::collections::HashMap;
use std::sync::{Arc, Mutex};

use page_db::{
    BufferPool, Lsn, Page, PageError, PageId, PageResult, PageSize, PageStore,
};

const PS: usize = 4096;

/// A `HashMap`-backed store that keeps the checksummed bytes of every page
/// written to it.
struct MemStore {
    page_size: usize,
    pages: Mutex<HashMap<u64, Vec<u8>>>,
}

impl MemStore {
    fn new(page_size: usize) -> Self {
        Self { page_size, pages: Mutex::new(HashMap::new()) }
    }

    fn contains(&self, id: u64) -> bool {
        self.pages.lock().unwrap().contains_key(&id)
    }
}

impl PageStore for MemStore {
    fn page_size(&self) -> usize {
        self.page_size
    }

    fn allocate_page(&self) -> Page {
        Page::new(PageSize::new(self.page_size).unwrap())
    }

    fn read_into(&self, id: PageId, page: &mut Page) -> PageResult<()> {
        let pages = self.pages.lock().unwrap();
        match pages.get(&id.get()) {
            Some(bytes) => {
                *page = Page::from_bytes(PageSize::new(self.page_size).unwrap(), bytes)?;
                page.verify(Some(id))
            }
            None => Err(PageError::ShortRead { page_id: id.get(), got: 0, page_size: self.page_size }),
        }
    }

    fn write_page(&self, id: PageId, page: &mut Page) -> PageResult<()> {
        page.stamp(id);
        let _ = self.pages.lock().unwrap().insert(id.get(), page.as_bytes().to_vec());
        Ok(())
    }

    fn sync(&self) -> PageResult<()> {
        Ok(())
    }
}

fn pool(capacity: usize) -> BufferPool<MemStore> {
    BufferPool::new(MemStore::new(PS), capacity)
}

fn shared_pool(capacity: usize) -> (Arc<MemStore>, BufferPool<Arc<MemStore>>) {
    let store = Arc::new(MemStore::new(PS));
    let pool = BufferPool::new(Arc::clone(&store), capacity);
    (store, pool)
}

#[test]
fn test_new_page_then_fetch_serves_from_cache() {
    let mut pool = pool(8);
    {
        let guard = pool.new_page(PageId::new(0)).unwrap();
        guard.write(&mut pool).payload_mut()[0] = 0x7A;
        pool.unpin(guard);
    }
    assert!(pool.is_resident(PageId::new(0)));
    let guard = pool.fetch(PageId::new(0)).unwrap();
    assert_eq!(guard.read(&pool).payload()[0], 0x7A);
}

#[test]
fn test_capacity_is_clamped_up_to_one() {
    assert_eq!(pool(0).capacity(), 1);
}

#[test]
fn test_pinned_page_is_never_evicted() {
    let mut pool = pool(1);
    let _held = pool.new_page(PageId::new(0)).unwrap();
    // The only frame is pinned, so admitting another page must fail rather
    // than evict the pinned one.
    assert!(matches!(
        pool.new_page(PageId::new(1)),
        Err(PageError::BufferPoolExhausted { capacity: 1 })
    ));
    assert!(pool.is_resident(PageId::new(0)));
}

#[test]
fn test_dirty_page_is_flushed_before_eviction() {
    let (store, mut pool) = shared_pool(1);
    {
        let guard = pool.new_page(PageId::new(0)).unwrap();
        guard.write(&mut pool).set_lsn(Lsn::new(9));
        pool.unpin(guard);
    } // page 0 is dirty and unpinned

    // Force eviction of page 0 by reusing the only frame.
    {
        let guard = pool.new_page(PageId::new(1)).unwrap();
        pool.unpin(guard);
    }
    // Page 0 must have been written to the store on its way out.
    assert!(store.contains(0));
    // And it reads back with the data it held.
    let guard = pool.fetch(PageId::new(0)).unwrap();
    assert_eq!(guard.read(&pool).lsn(), Lsn::new(9));
}

#[test]
fn test_clock_keeps_the_recently_used_page() {
    let mut pool = pool(2);
    let g = pool.new_page(PageId::new(0)).unwrap();
    pool.unpin(g);
    let g = pool.new_page(PageId::new(1)).unwrap();
    pool.unpin(g);
    pool.flush_all().unwrap();

    // Touch 0 so its reference bit is set, then admit 2: the clock should
    // evict 1 (untouched), not 0.
    let g = pool.fetch(PageId::new(0)).unwrap();
    pool.unpin(g);
    let g = pool.new_page(PageId::new(2)).unwrap();
    pool.unpin(g);

    assert!(pool.is_resident(PageId::new(0)));
    assert!(!pool.is_resident(PageId::new(1)));
    assert!(pool.is_resident(PageId::new(2)));
}

#[test]
fn test_flush_clears_dirty() {
    let mut pool = pool(4);
    {
        let guard = pool.new_page(PageId::new(0)).unwrap();
        assert!(guard.is_dirty(&pool));
        pool.unpin(guard);
    }
    pool.flush(PageId::new(0)).unwrap();
    let guard = pool.fetch(PageId::new(0)).unwrap();
    assert!(!guard.is_dirty(&pool));
}

#[test]
fn test_fetch_missing_unwritten_page_errors() {
    let mut pool = pool(4);
    assert!(matches!(
        pool.fetch(PageId::new(99)),
        Err(PageError::ShortRead { .. })
    ));
    // A failed miss must not leak the frame it borrowed.
    assert_eq!(pool.resident_len(), 0);
    assert_eq!(pool.capacity(), 4);
}

/// A small deterministic generator for operation sequences.
fn next_rand(state: &mut u64) -> u64 {
    *state ^= *state << 13;
    *state ^= *state >> 7;
    *state ^= *state << 17;
    *state
}

/// Through a long sequence of fetches and dirtying writes against a pool
/// smaller than the working set, every page always reads back the last value
/// written to it: nothing is lost to eviction, nothing is stale.
#[test]
fn pool_never_loses_data() {
    const N: u64 = 6;
    for seed in 1..=8u64 {
        let mut rng = seed * 0x9E37_79B9_7F4A_7C15;
        let mut pool = pool(2);
        let mut expected: HashMap<u64, u8> = HashMap::new();
        for id in 0..N {
            let guard = pool.new_page(PageId::new(id)).unwrap();
            guard.write(&mut pool).payload_mut()[0] = 0;
            pool.unpin(guard);
            let _ = expected.insert(id, 0);
        }
        pool.flush_all().unwrap();

        for _ in 0..200 {
            let r = next_rand(&mut rng);
            let id = r % N;
            let marker = (r >> 8) as u8;
            let write = (r >> 16) & 1 == 1;
            let guard = pool.fetch(PageId::new(id)).unwrap();
            assert_eq!(guard.read(&pool).payload()[0], expected[&id]);
            if write {
                guard.write(&mut pool).payload_mut()[0] = marker;
                let _ = expected.insert(id, marker);
            }
            pool.unpin(guard);
        }

        pool.flush_all().unwrap();
        for id in 0..N {
            let guard = pool.fetch(PageId::new(id)).unwrap();
            assert_eq!(guard.read(&pool).payload()[0], expected[&id]);
            pool.unpin(guard);
        }
    }
}

/// A resident page fetched again is the same frame with one more pin, and
/// releasing the pins lets it be evicted.
#[test]
fn pins_nest_and_release() {
    let mut pool = pool(1);
    let a = pool.new_page(PageId::new(3)).unwrap();
    let b = pool.fetch(PageId::new(3)).unwrap();
    assert_eq!(a.id(), PageId::new(3));
    assert_eq!(b.id(), PageId::new(3));
    pool.unpin(a);
    assert!(matches!(
        pool.new_page(PageId::new(4)),
        Err(PageError::BufferPoolExhausted { capacity: 1 })
    ));
    pool.unpin(b);
    let c = pool.new_page(PageId::new(4)).unwrap();
    assert!(!pool.is_resident(PageId::new(3)));
    assert!(pool.is_resident(PageId::new(4)));
    pool.unpin(c);
}

/// `new_page` on a resident page resets it to blank and marks it dirty.
#[test]
fn new_page_on_resident_page_resets_it() {
    let mut pool = pool(2);
    let g = pool.new_page(PageId::new(1)).unwrap();
    g.write(&mut pool).payload_mut()[0] = 5;
    pool.unpin(g);
    pool.flush_all().unwrap();
    let g = pool.new_page(PageId::new(1)).unwrap();
    assert_eq!(g.read(&pool).payload()[0], 0);
    assert!(g.is_dirty(&pool));
    pool.unpin(g);
}

/// A checkpoint leaves every page clean and written.
#[test]
fn checkpoint_writes_every_dirty_page() {
    let (store, mut pool) = shared_pool(4);
    for id in 0..3u64 {
        let g = pool.new_page(PageId::new(id)).unwrap();
        g.write(&mut pool).payload_mut()[0] = id as u8 + 1;
        pool.unpin(g);
    }
    pool.checkpoint().unwrap();
    for id in 0..3u64 {
        assert!(store.contains(id));
        let g = pool.fetch(PageId::new(id)).unwrap();
        assert!(!g.is_dirty(&pool));
        pool.unpin(g);
    }
    assert_eq!(pool.resident_len(), 3);
    pool.sync().unwrap();
}

/// While the only frame is pinned, admitting another page fails and the
/// pinned page stays resident.
#[test]
fn loom_pinned_page_never_evicted() {
    let mut pool = pool(1);
    let held = pool.new_page(PageId::new(0)).unwrap();
    let admit_failed = pool.new_page(PageId::new(1)).is_err();
    assert!(pool.is_resident(PageId::new(0)));
    assert!(admit_failed);
    assert_eq!(held.id(), PageId::new(0));
    pool.unpin(held);
}

/// An unpinned dirty page evicted to make room is flushed to the store first.
#[test]
fn loom_dirty_page_flushed_on_eviction() {
    let (store, mut pool) = shared_pool(1);
    {
        let guard = pool.new_page(PageId::new(0)).unwrap();
        guard.write(&mut pool).payload_mut()[0] = 0x5A;
        pool.unpin(guard);
    }
    let guard = pool.new_page(PageId::new(1)).unwrap();
    pool.unpin(guard);
    assert!(store.contains(0), "evicted dirty page 0 was not flushed");
}
