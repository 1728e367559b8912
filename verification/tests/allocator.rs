use std::collections::{HashMap, HashSet};
use std::sync::{Arc, Mutex};

use page_db::{Page, PageAllocator, PageError, PageId, PageResult, PageSize, PageStore};

const PS: usize = 4096;

/// A `HashMap`-backed store that keeps the checksummed bytes of every page
/// written to it.
struct MemStore {
    page_size: usize,
    pages: Mutex<HashMap<u64, Vec<u8>>>,
}

impl MemStore {
    fn new(page_size: usize) -> Self {
        Self { page_size, pages: Mutex::new(HashMap::new()) }
    }
}

impl PageStore for MemStore {
    fn page_size(&self) -> usize {
        self.page_size
    }

    fn allocate_page(&self) -> Page {
        Page::new(PageSize::new(self.page_size).unwrap())
    }

    fn read_into(&self, id: PageId, page: &mut Page) -> PageResult<()> {
        let pages = self.pages.lock().unwrap();
        match pages.get(&id.get()) {
            Some(bytes) => {
                *page = Page::from_bytes(PageSize::new(self.page_size).unwrap(), bytes)?;
                page.verify(Some(id))
            }
            None => Err(PageError::ShortRead { page_id: id.get(), got: 0, page_size: self.page_size }),
        }
    }

    fn write_page(&self, id: PageId, page: &mut Page) -> PageResult<()> {
        page.stamp(id);
        let _ = self.pages.lock().unwrap().insert(id.get(), page.as_bytes().to_vec());
        Ok(())
    }

    fn sync(&self) -> PageResult<()> {
        Ok(())
    }
}

fn allocator() -> PageAllocator<MemStore> {
    PageAllocator::new(MemStore::new(PS)).unwrap()
}

/// Write a page whose payload starts with `prefix` to slot `id`.
fn put_raw(store: &MemStore, id: u64, prefix: &[u8]) {
    let mut page = store.allocate_page();
    page.payload_mut()[..prefix.len()].copy_from_slice(prefix);
    store.write_page(PageId::new(id), &mut page).unwrap();
}

fn superblock(head: u64, next_new: u64, count: u64) -> Vec<u8> {
    let mut p = Vec::new();
    p.extend_from_slice(b"PGSB");
    p.extend_from_slice(&1u16.to_le_bytes());
    p.extend_from_slice(&0u16.to_le_bytes());
    p.extend_from_slice(&head.to_le_bytes());
    p.extend_from_slice(&next_new.to_le_bytes());
    p.extend_from_slice(&count.to_le_bytes());
    p
}

#[test]
fn test_allocate_starts_at_one_and_increments() {
    let mut alloc = allocator();
    assert_eq!(alloc.allocate().unwrap(), PageId::new(1));
    assert_eq!(alloc.allocate().unwrap(), PageId::new(2));
    assert_eq!(alloc.allocate().unwrap(), PageId::new(3));
    assert_eq!(alloc.high_water(), 4);
}

#[test]
fn test_free_then_allocate_reuses_id() {
    let mut alloc = allocator();
    let a = alloc.allocate().unwrap();
    let b = alloc.allocate().unwrap();
    alloc.free(a).unwrap();
    assert_eq!(alloc.free_count(), 1);
    let c = alloc.allocate().unwrap();
    assert_eq!(c, a);
    assert_ne!(c, b);
    assert_eq!(alloc.free_count(), 0);
}

#[test]
fn test_free_list_is_lifo() {
    let mut alloc = allocator();
    let ids: Vec<_> = (0..4).map(|_| alloc.allocate().unwrap()).collect();
    for &id in &ids {
        alloc.free(id).unwrap();
    }
    // Freed 1,2,3,4; the list pops most-recently-freed first.
    let mut reused = Vec::new();
    for _ in 0..4 {
        reused.push(alloc.allocate().unwrap());
    }
    let expected: Vec<_> = ids.into_iter().rev().collect();
    assert_eq!(reused, expected);
}

#[test]
fn test_free_rejects_superblock_and_unallocated() {
    let mut alloc = allocator();
    let _ = alloc.allocate().unwrap(); // high_water now 2
    assert!(matches!(
        alloc.free(PageId::new(0)),
        Err(PageError::InvalidPageId { page_id: 0 })
    ));
    assert!(matches!(
        alloc.free(PageId::new(5)),
        Err(PageError::InvalidPageId { page_id: 5 })
    ));
}

#[test]
fn test_state_survives_reopen() {
    let store = Arc::new(MemStore::new(PS));
    let mut alloc = PageAllocator::new(Arc::clone(&store)).unwrap();
    let _ = alloc.allocate().unwrap(); // 1
    let b = alloc.allocate().unwrap(); // 2
    let _ = alloc.allocate().unwrap(); // 3
    alloc.free(b).unwrap(); // 2 freed
    alloc.sync().unwrap(); // persist superblock
    let mut alloc2 = PageAllocator::new(Arc::clone(&store)).unwrap();
    assert_eq!(alloc2.high_water(), 4);
    assert_eq!(alloc2.free_count(), 1);
    // Next allocate reuses the freed id 2.
    assert_eq!(alloc2.allocate().unwrap(), PageId::new(2));
}

#[test]
fn test_new_rejects_non_superblock_page_zero() {
    let store = MemStore::new(PS);
    // Write a non-superblock page at slot 0.
    {
        let mut page = store.allocate_page();
        page.payload_mut()[0] = 0xFF;
        store.write_page(PageId::new(0), &mut page).unwrap();
    }
    assert!(matches!(
        PageAllocator::new(store),
        Err(PageError::InvalidSuperblock)
    ));
}

fn next_rand(state: &mut u64) -> u64 {
    *state ^= *state << 13;
    *state ^= *state >> 7;
    *state ^= *state << 17;
    *state
}

/// Allocated ids are unique while live: through long sequences of allocates
/// and frees, two outstanding ids never coincide.
#[test]
fn allocate_free_never_double_allocates() {
    for seed in 1..=16u64 {
        let mut rng = seed.wrapping_mul(0x2545_F491_4F6C_DD1D);
        let mut alloc = allocator();
        let mut live: HashSet<u64> = HashSet::new();
        let mut freed: Vec<u64> = Vec::new();
        for _ in 0..200 {
            let r = next_rand(&mut rng);
            if r % 3 != 0 || live.is_empty() {
                let id = alloc.allocate().unwrap().get();
                assert!(!live.contains(&id), "id {id} double-allocated");
                assert!(id >= 1, "id 0 is reserved");
                let _ = live.insert(id);
                freed.retain(|&f| f != id);
            } else {
                let mut sorted: Vec<u64> = live.iter().copied().collect();
                sorted.sort_unstable();
                let victim = sorted[(r as usize / 3) % sorted.len()];
                let _ = live.remove(&victim);
                alloc.free(PageId::new(victim)).unwrap();
                freed.push(victim);
            }
            assert_eq!(alloc.free_count(), freed.len() as u64);
        }
    }
}

/// A synced free-list of several ids reads back in the same order.
#[test]
fn free_list_order_survives_reopen() {
    let store = Arc::new(MemStore::new(PS));
    let mut alloc = PageAllocator::new(Arc::clone(&store)).unwrap();
    for _ in 0..6 {
        let _ = alloc.allocate().unwrap();
    }
    for id in [4u64, 1, 6, 2] {
        alloc.free(PageId::new(id)).unwrap();
    }
    alloc.sync().unwrap();
    let mut again = PageAllocator::new(Arc::clone(&store)).unwrap();
    assert_eq!(again.high_water(), 7);
    assert_eq!(again.free_count(), 4);
    let order: Vec<u64> = (0..4).map(|_| again.allocate().unwrap().get()).collect();
    assert_eq!(order, vec![2, 6, 1, 4]);
    assert_eq!(again.allocate().unwrap().get(), 7);
}

/// A chain that loops back on itself is rejected, not followed forever.
#[test]
fn walk_rejects_a_cycle() {
    let store = MemStore::new(PS);
    put_raw(&store, 0, &superblock(2, 10, 5));
    put_raw(&store, 2, &3u64.to_le_bytes());
    put_raw(&store, 3, &2u64.to_le_bytes());
    assert!(matches!(PageAllocator::new(store), Err(PageError::InvalidSuperblock)));
}

/// Links must be allocated ids: not 0 and below the high-water mark.
#[test]
fn walk_rejects_out_of_range_links() {
    let store = MemStore::new(PS);
    put_raw(&store, 0, &superblock(2, 5, 2));
    put_raw(&store, 2, &9u64.to_le_bytes());
    assert!(matches!(PageAllocator::new(store), Err(PageError::InvalidSuperblock)));

    let store = MemStore::new(PS);
    put_raw(&store, 0, &superblock(0, 5, 1));
    assert!(matches!(PageAllocator::new(store), Err(PageError::InvalidSuperblock)));
}

/// The chain must end at the sentinel after exactly `free count` links.
#[test]
fn walk_rejects_count_mismatch() {
    let store = MemStore::new(PS);
    put_raw(&store, 0, &superblock(2, 5, 1));
    put_raw(&store, 2, &3u64.to_le_bytes());
    assert!(matches!(PageAllocator::new(store), Err(PageError::InvalidSuperblock)));

    let store = MemStore::new(PS);
    put_raw(&store, 0, &superblock(u64::MAX, 5, 1));
    assert!(matches!(PageAllocator::new(store), Err(PageError::InvalidSuperblock)));
}

/// A superblock with a zero high-water mark is not one the allocator wrote.
#[test]
fn superblock_with_zero_high_water_is_invalid() {
    let store = MemStore::new(PS);
    put_raw(&store, 0, &superblock(u64::MAX, 0, 0));
    assert!(matches!(PageAllocator::new(store), Err(PageError::InvalidSuperblock)));
}

/// A well-formed hand-written superblock and chain open as that state.
#[test]
fn hand_written_chain_opens() {
    let store = MemStore::new(PS);
    put_raw(&store, 0, &superblock(3, 8, 2));
    put_raw(&store, 3, &5u64.to_le_bytes());
    put_raw(&store, 5, &u64::MAX.to_le_bytes());
    let mut alloc = PageAllocator::new(store).unwrap();
    assert_eq!(alloc.high_water(), 8);
    assert_eq!(alloc.free_count(), 2);
    assert_eq!(alloc.allocate().unwrap().get(), 5);
    assert_eq!(alloc.allocate().unwrap().get(), 3);
    assert_eq!(alloc.allocate().unwrap().get(), 8);
}

/// A superblock written by `sync` holds the documented fields.
#[test]
fn sync_writes_documented_superblock() {
    let store = Arc::new(MemStore::new(PS));
    let mut alloc = PageAllocator::new(Arc::clone(&store)).unwrap();
    let _ = alloc.allocate().unwrap();
    let _ = alloc.allocate().unwrap();
    alloc.free(PageId::new(1)).unwrap();
    alloc.sync().unwrap();
    let mut page = store.allocate_page();
    store.read_into(PageId::new(0), &mut page).unwrap();
    let p = page.payload();
    assert_eq!(&p[0..32], &superblock(1, 3, 1)[..]);
    let mut link = store.allocate_page();
    store.read_into(PageId::new(1), &mut link).unwrap();
    assert_eq!(&link.payload()[0..8], &u64::MAX.to_le_bytes());
}
