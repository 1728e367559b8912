use std::collections::HashMap;
use std::sync::{Arc, Mutex};

use page_db::{BufferPool, Page, PageAllocator, PageError, PageId, PageResult, PageSize, PageStore};

/// A `HashMap`-backed store standing in for a file of pages.
struct MemStore {
    page_size: usize,
    pages: Mutex<HashMap<u64, Vec<u8>>>,
}

impl MemStore {
    fn new(page_size: usize) -> Self {
        Self { page_size, pages: Mutex::new(HashMap::new()) }
    }
}

impl PageStore for MemStore {
    fn page_size(&self) -> usize {
        self.page_size
    }

    fn allocate_page(&self) -> Page {
        Page::new(PageSize::new(self.page_size).unwrap())
    }

    fn read_into(&self, id: PageId, page: &mut Page) -> PageResult<()> {
        let pages = self.pages.lock().unwrap();
        match pages.get(&id.get()) {
            Some(bytes) => {
                *page = Page::from_bytes(PageSize::new(self.page_size).unwrap(), bytes)?;
                page.verify(Some(id))
            }
            None => Err(PageError::ShortRead { page_id: id.get(), got: 0, page_size: self.page_size }),
        }
    }

    fn write_page(&self, id: PageId, page: &mut Page) -> PageResult<()> {
        page.stamp(id);
        let _ = self.pages.lock().unwrap().insert(id.get(), page.as_bytes().to_vec());
        Ok(())
    }

    fn sync(&self) -> PageResult<()> {
        Ok(())
    }
}

#[test]
fn allocator_and_pool_share_a_file() {
    let store = Arc::new(MemStore::new(4096));

    // First session: allocate ids, write data through the pool, checkpoint.
    let (a, b, freed) = {
        let mut alloc = PageAllocator::new(Arc::clone(&store)).expect("alloc");
        let mut pool = BufferPool::new(Arc::clone(&store), 16);

        let a = alloc.allocate().expect("allocate"); // 1
        let b = alloc.allocate().expect("allocate"); // 2
        let c = alloc.allocate().expect("allocate"); // 3

        for (id, marker) in [(a, 0xA1u8), (b, 0xB2), (c, 0xC3)] {
            let guard = pool.new_page(id).expect("new_page");
            guard.write(&mut pool).payload_mut()[0] = marker;
            pool.unpin(guard);
        }

        // Free c, then reallocate: it comes back as the same id.
        alloc.free(c).expect("free");
        let reused = alloc.allocate().expect("allocate");
        assert_eq!(reused, c);

        pool.flush_all().expect("flush");
        alloc.sync().expect("alloc sync");
        pool.sync().expect("pool sync");

        (a, b, c)
    };

    // Second session over the same store: the allocator state and the page
    // data both survived.
    {
        let alloc = PageAllocator::new(Arc::clone(&store)).expect("reopen alloc");
        assert_eq!(alloc.high_water(), 4);
        assert_eq!(alloc.free_count(), 0);

        let mut pool = BufferPool::new(Arc::clone(&store), 16);
        let ga = pool.fetch(a).expect("fetch a");
        assert_eq!(ga.read(&pool).payload()[0], 0xA1);
        let gb = pool.fetch(b).expect("fetch b");
        assert_eq!(gb.read(&pool).payload()[0], 0xB2);
        let _ = freed;
    }
}

#[test]
fn loom_concurrent_allocate_is_unique() {
    let mut alloc = PageAllocator::new(MemStore::new(4096)).unwrap();
    let first = alloc.allocate().unwrap();
    let second = alloc.allocate().unwrap();
    assert_ne!(first, second);
}
