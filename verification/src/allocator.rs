//! [`PageAllocator`]: hand out and reclaim page ids over a [`PageStore`].
//!
//! [`allocate`](PageAllocator::allocate) returns an unused id and
//! [`free`](PageAllocator::free) returns one for reuse. Reuse goes through a
//! free-list (the most recently freed id is handed out first); a high-water
//! mark counts ids never yet handed out. Both are in-memory operations.
//!
//! On disk the free-list is an intrusive chain: each free page stores the id
//! of the next free page in the first eight bytes of its payload, with the
//! chain head, the high-water mark and the free count in a superblock at page
//! 0, which the allocator reserves; the ids it hands out start at 1.
//! [`sync`](PageAllocator::sync) writes them.
//!
//! The allocator keeps, as ghost state, the payload it last read from or
//! wrote to the store for each page; after opening and after every
//! successful sync its state is exactly the superblock and chain recorded
//! there.
use crate::error::{PageError, PageResult};
use crate::le::{
    byte_bound, field, lemma_byte_bounds, lemma_put_field, lemma_put_field_other, put_field,
    read_u16, read_u32, read_u64, write_u16, write_u32, write_u64,
};
use crate::page::{page_id, payload_of, Page, PageId};
use crate::store::{read_from, store_read_error, store_sync_error, store_write_error, write_to, PageStore};
use std::collections::HashSet;
use vstd::prelude::*;

verus! {

broadcast use vstd::std_specs::hash::group_hash_axioms;

/// Sentinel for "no page": the empty free-list and end-of-chain marker.
pub const NO_PAGE: u64 = 0xFFFF_FFFF_FFFF_FFFF;

/// Superblock magic: the bytes `b"PGSB"` read little-endian.
pub const SB_MAGIC: u32 = 0x4253_4750;

/// Superblock format version.
pub const SB_VERSION: u16 = 1;

const SB_MAGIC_OFF: usize = 0;

const SB_VERSION_OFF: usize = 4;

const SB_HEAD_OFF: usize = 8;

const SB_NEXT_OFF: usize = 16;

const SB_FREECOUNT_OFF: usize = 24;

const LINK_NEXT_OFF: usize = 0;

/// The superblock fields a payload holds, if it is a valid superblock:
/// `(free head, next new id, free count)`. A valid superblock carries the
/// superblock magic and version and a high-water mark of at least 1.
pub open spec fn superblock_of(p: Seq<u8>) -> Option<(u64, u64, u64)> {
    if field(p, 0, 4) == SB_MAGIC as nat && field(p, 4, 2) == SB_VERSION as nat && field(p, 16, 8)
        >= 1 {
        Some((field(p, 8, 8) as u64, field(p, 16, 8) as u64, field(p, 24, 8) as u64))
    } else {
        None
    }
}

/// A read of page 0 from `store` succeeded.
pub open spec fn page_zero_read<S: PageStore>(store: S) -> bool {
    exists|id: PageId, p: &mut Page, r: PageResult<()>|
        id@ == 0 && r is Ok && #[trigger] call_ensures(S::read_into, (&store, id, p), r)
}

/// `store` answered `Ok` to a write to slot `id` of a page whose payload
/// links to `next`.
pub open spec fn wrote_link<S: PageStore>(store: S, id: u64, next: u64) -> bool {
    exists|p: &mut Page, w: PageResult<()>|
        w is Ok && payload_of(mut_ref_current(p)@).len() >= 8 && link_of(
            payload_of(mut_ref_current(p)@),
        ) == next && #[trigger] call_ensures(S::write_page, (&store, page_id(id), p), w)
}

/// `store` answered `Ok` to a write to page 0 of a page whose payload is the
/// superblock `(head, next_new, count)`.
pub open spec fn wrote_superblock<S: PageStore>(store: S, head: u64, next_new: u64, count: u64) -> bool {
    exists|p: &mut Page, w: PageResult<()>|
        w is Ok && payload_of(mut_ref_current(p)@).len() >= 32 && superblock_of(
            payload_of(mut_ref_current(p)@),
        ) == Some((head, next_new, count)) && #[trigger] call_ensures(
            S::write_page,
            (&store, page_id(0), p),
            w,
        )
}

/// What opening an allocator over `store` gives, when its read of page 0
/// answered `r0` and left the page image `page0`: the superblock's state
/// when page 0 holds one, a fresh state written to page 0 when the store has
/// no page 0, and otherwise an error.
pub open spec fn opened_from<S: PageStore>(
    store: S,
    r0: PageResult<()>,
    page0: Seq<u8>,
    r: PageResult<PageAllocator<S>>,
) -> bool {
    match r0 {
        Ok(_) => match superblock_of(payload_of(page0)) {
            None => r matches Err(e) && e == PageError::InvalidSuperblock,
            Some((h, n, c)) => match r {
                Ok(a) => a.next_id() == n && a.free_ids().len() == c && chain_head(a.free_ids()) == h,
                Err(e) => e == PageError::InvalidSuperblock || store_read_error(store, e),
            },
        },
        Err(PageError::ShortRead { .. }) => match r {
            Ok(a) => a.next_id() == 1 && a.free_ids().len() == 0 && wrote_superblock(
                store,
                NO_PAGE,
                1,
                0,
            ),
            Err(e) => exists|q: &mut Page|
                #[trigger] call_ensures(
                    S::write_page,
                    (&store, page_id(0), q),
                    Err::<(), PageError>(e),
                ),
        },
        Err(e0) => r matches Err(e) && e == e0,
    }
}

/// `store` answered `Ok` to a write to slot `id` of a page whose payload is
/// `payload`.
pub open spec fn wrote_payload<S: PageStore>(store: S, id: u64, payload: Seq<u8>) -> bool {
    exists|p: &mut Page, w: PageResult<()>|
        w is Ok && payload_of(mut_ref_current(p)@) == payload && #[trigger] call_ensures(
            S::write_page,
            (&store, page_id(id), p),
            w,
        )
}

/// Persisting `free` to `store` stopped at write `j` with the error `e`:
/// the links of the first `j` free pages were written with `Ok`, and the
/// next write, to the `j`-th free page or (after all of them) to page 0,
/// answered `Err(e)`.
pub open spec fn write_failed_at<S: PageStore>(store: S, free: Seq<u64>, j: int, e: PageError) -> bool {
    &&& 0 <= j <= free.len()
    &&& forall|k: int| 0 <= k < j ==> #[trigger] wrote_link(store, free[k], chain_next(free, k))
    &&& j < free.len() ==> exists|q: &mut Page|
        #[trigger] call_ensures(S::write_page, (&store, page_id(free[j]), q), Err::<(), PageError>(e))
    &&& j == free.len() ==> exists|q: &mut Page|
        #[trigger] call_ensures(S::write_page, (&store, page_id(0), q), Err::<(), PageError>(e))
}

/// The free-list an opening produced, or its error.
pub open spec fn free_result<S: PageStore>(r: PageResult<PageAllocator<S>>) -> PageResult<Seq<u64>> {
    match r {
        Ok(a) => Ok(a.free_ids()),
        Err(e) => Err(e),
    }
}

/// The free-list link a payload holds.
pub open spec fn link_of(p: Seq<u8>) -> nat {
    field(p, 0, 8)
}

/// The id after position `i` of a free-list: the next entry, or the
/// sentinel after the last.
pub open spec fn chain_next(free: Seq<u64>, i: int) -> u64 {
    if i + 1 < free.len() {
        free[i + 1]
    } else {
        NO_PAGE
    }
}

/// The first id of a free-list, or the sentinel if it is empty.
pub open spec fn chain_head(free: Seq<u64>) -> u64 {
    if free.len() > 0 {
        free[0]
    } else {
        NO_PAGE
    }
}

/// `pages` (page id to payload) records exactly the allocator state
/// (`free`, `next_new`): a superblock at page 0 holding the head, high-water
/// mark and count, and a chain through the free pages in list order ending at
/// the sentinel.
pub open spec fn chain_matches(pages: Map<u64, Seq<u8>>, free: Seq<u64>, next_new: u64) -> bool {
    &&& free.len() <= u64::MAX
    &&& pages.contains_key(0)
    &&& pages[0].len() >= 32
    &&& superblock_of(pages[0]) == Some((chain_head(free), next_new, free.len() as u64))
    &&& forall|i: int|
        0 <= i < free.len() ==> #[trigger] pages.contains_key(free[i]) && pages[free[i]].len() >= 8
            && link_of(pages[free[i]]) == chain_next(free, i)
}

/// Reopening restores the state. `written` is a synced allocator's
/// `recorded()` map, each entry the payload a successful write put in its
/// page (`sync`'s contract); `read` is a reopened allocator's, each entry the
/// payload the store's read of its page gave (`new`'s contract). If the store
/// gave back, for every page read, the payload written there, the reopened
/// allocator has the same free-list, in the same order, and the same
/// high-water mark.
pub proof fn lemma_chain_determines_state(
    written: Map<u64, Seq<u8>>,
    free1: Seq<u64>,
    next1: u64,
    read: Map<u64, Seq<u8>>,
    free2: Seq<u64>,
    next2: u64,
)
    requires
        chain_matches(written, free1, next1),
        chain_matches(read, free2, next2),
        forall|x: u64| #[trigger]
            read.contains_key(x) ==> written.contains_key(x) && written[x] == read[x],
    ensures
        free1 == free2,
        next1 == next2,
{
    assert(read.contains_key(0));
    assert(free1.len() == free2.len());
    assert forall|i: int| 0 <= i < free1.len() implies free1[i] == free2[i] by {
        lemma_chain_prefix(written, free1, next1, read, free2, next2, i);
    }
    assert(free1 =~= free2);
}

/// Freeing an id and then allocating hands the same id back and leaves the
/// free-list as it was: reuse is last-in, first-out.
pub proof fn lemma_free_then_allocate(free: Seq<u64>, id: u64)
    ensures
        free.push(id).len() > 0,
        free.push(id).last() == id,
        free.push(id).drop_last() == free,
{
    assert(free.push(id).drop_last() =~= free);
}

proof fn lemma_chain_prefix(
    written: Map<u64, Seq<u8>>,
    free1: Seq<u64>,
    next1: u64,
    read: Map<u64, Seq<u8>>,
    free2: Seq<u64>,
    next2: u64,
    i: int,
)
    requires
        chain_matches(written, free1, next1),
        chain_matches(read, free2, next2),
        forall|x: u64| #[trigger]
            read.contains_key(x) ==> written.contains_key(x) && written[x] == read[x],
        free1.len() == free2.len(),
        0 <= i < free1.len(),
    ensures
        free1[i] == free2[i],
    decreases i,
{
    assert(read.contains_key(0));
    if i == 0 {
        assert(chain_head(free1) == free1[0]);
        assert(chain_head(free2) == free2[0]);
    } else {
        lemma_chain_prefix(written, free1, next1, read, free2, next2, i - 1);
        assert(read.contains_key(free2[i - 1]));
        assert(link_of(written[free1[i - 1]]) == chain_next(free1, i - 1));
        assert(link_of(read[free2[i - 1]]) == chain_next(free2, i - 1));
    }
}

/// Decode the superblock fields of a payload: `(free head, next new id, free
/// count)`.
pub fn parse_superblock(payload: &[u8]) -> (r: PageResult<(u64, u64, u64)>)
    requires
        payload@.len() >= 32,
    ensures
        match superblock_of(payload@) {
            Some(fields) => r == Ok::<(u64, u64, u64), PageError>(fields),
            None => r == Err::<(u64, u64, u64), PageError>(PageError::InvalidSuperblock),
        },
{
    if read_u32(payload, SB_MAGIC_OFF) != SB_MAGIC || read_u16(payload, SB_VERSION_OFF)
        != SB_VERSION {
        return Err(PageError::InvalidSuperblock);
    }
    let head = read_u64(payload, SB_HEAD_OFF);
    let next_new = read_u64(payload, SB_NEXT_OFF);
    let free_count = read_u64(payload, SB_FREECOUNT_OFF);
    if next_new == 0 {
        return Err(PageError::InvalidSuperblock);
    }
    Ok((head, next_new, free_count))
}

/// Write the superblock fields into a blank payload.
pub fn encode_superblock(payload: &mut [u8], head: u64, next_new: u64, free_count: u64)
    requires
        old(payload)@.len() >= 32,
        next_new >= 1,
    ensures
        final(payload)@.len() == old(payload)@.len(),
        superblock_of(final(payload)@) == Some((head, next_new, free_count)),
{
    write_u32(payload, SB_MAGIC_OFF, SB_MAGIC);
    write_u16(payload, SB_VERSION_OFF, SB_VERSION);
    write_u64(payload, SB_HEAD_OFF, head);
    write_u64(payload, SB_NEXT_OFF, next_new);
    write_u64(payload, SB_FREECOUNT_OFF, free_count);
    proof {
        lemma_byte_bounds();
        let p0 = old(payload)@;
        let p1 = put_field(p0, 0, 4, SB_MAGIC as nat);
        let p2 = put_field(p1, 4, 2, SB_VERSION as nat);
        let p3 = put_field(p2, 8, 8, head as nat);
        let p4 = put_field(p3, 16, 8, next_new as nat);
        let p5 = put_field(p4, 24, 8, free_count as nat);
        lemma_put_field(p0, 0, 4, SB_MAGIC as nat);
        lemma_put_field(p1, 4, 2, SB_VERSION as nat);
        lemma_put_field(p2, 8, 8, head as nat);
        lemma_put_field(p3, 16, 8, next_new as nat);
        lemma_put_field(p4, 24, 8, free_count as nat);
        lemma_put_field_other(p1, 4, 2, SB_VERSION as nat, 0, 4);
        lemma_put_field_other(p2, 8, 8, head as nat, 0, 4);
        lemma_put_field_other(p2, 8, 8, head as nat, 4, 2);
        lemma_put_field_other(p3, 16, 8, next_new as nat, 0, 4);
        lemma_put_field_other(p3, 16, 8, next_new as nat, 4, 2);
        lemma_put_field_other(p3, 16, 8, next_new as nat, 8, 8);
        lemma_put_field_other(p4, 24, 8, free_count as nat, 0, 4);
        lemma_put_field_other(p4, 24, 8, free_count as nat, 4, 2);
        lemma_put_field_other(p4, 24, 8, free_count as nat, 8, 8);
        lemma_put_field_other(p4, 24, 8, free_count as nat, 16, 8);
    }
}

/// The allocator state `(free-list, high-water mark)` after an allocation
/// from `(free, next)`, and the id handed out, if any: the last freed id if
/// there is one, else the high-water mark, while a next id exists that is
/// not the sentinel.
pub open spec fn allocate_step(free: Seq<u64>, next: u64) -> (Seq<u64>, u64, Option<u64>) {
    if free.len() > 0 {
        (free.drop_last(), next, Some(free.last()))
    } else if next < NO_PAGE - 1 {
        (free, (next + 1) as u64, Some(next))
    } else {
        (free, next, None)
    }
}

/// The allocator state after freeing `id` from `(free, next)`: an id in
/// `1..next` goes onto the free-list; any other is refused.
pub open spec fn free_step(free: Seq<u64>, next: u64, id: u64) -> (Seq<u64>, u64) {
    if 1 <= id < next {
        (free.push(id), next)
    } else {
        (free, next)
    }
}

/// `id` is handed out and not freed since, in state `(free, next)`.
pub open spec fn live_in(free: Seq<u64>, next: u64, id: u64) -> bool {
    1 <= id < next && !free.contains(id)
}

/// One call on an allocator.
pub enum AllocOp {
    /// `allocate`.
    Allocate,
    /// `free` of this id.
    Free(u64),
}

/// The state after one call.
pub open spec fn op_step(free: Seq<u64>, next: u64, op: AllocOp) -> (Seq<u64>, u64) {
    match op {
        AllocOp::Allocate => {
            let (f, n, _) = allocate_step(free, next);
            (f, n)
        },
        AllocOp::Free(id) => free_step(free, next, id),
    }
}

/// The state after the first `i` calls of `ops`.
pub open spec fn run_ops(free: Seq<u64>, next: u64, ops: Seq<AllocOp>, i: nat) -> (Seq<u64>, u64)
    decreases i,
{
    if i == 0 || i > ops.len() {
        (free, next)
    } else {
        let (f, n) = run_ops(free, next, ops, (i - 1) as nat);
        op_step(f, n, ops[i - 1])
    }
}

/// The well-formed allocator states: a high-water mark of at least 1 and a
/// duplicate-free free-list of ids below it.
pub open spec fn state_ok(free: Seq<u64>, next: u64) -> bool {
    &&& next >= 1
    &&& free.no_duplicates()
    &&& forall|k: int| 0 <= k < free.len() ==> 1 <= #[trigger] free[k] < next
}

/// Over any sequence of calls in which only live ids are freed, every id an
/// allocation hands out is one that was not live, and is live afterwards:
/// no id is ever handed out twice while in use.
pub proof fn lemma_never_double_allocates(free: Seq<u64>, next: u64, ops: Seq<AllocOp>, i: nat)
    requires
        state_ok(free, next),
        forall|j: int|
            #![trigger ops[j]]
            0 <= j < ops.len() ==> (ops[j] matches AllocOp::Free(id) ==> {
                let (f, n) = run_ops(free, next, ops, j as nat);
                live_in(f, n, id)
            }),
        i < ops.len(),
        ops[i as int] is Allocate,
    ensures
        ({
            let (f, n) = run_ops(free, next, ops, i);
            let (f2, n2, got) = allocate_step(f, n);
            got matches Some(id) ==> !live_in(f, n, id) && live_in(f2, n2, id) && id >= 1
        }),
{
    lemma_run_ok(free, next, ops, i);
    let (f, n) = run_ops(free, next, ops, i);
    if f.len() > 0 {
        let id = f.last();
        assert(f.contains(id));
        assert(!f.drop_last().contains(id)) by {
            if f.drop_last().contains(id) {
                let k = choose|k: int| 0 <= k < f.drop_last().len() && f.drop_last()[k] == id;
                assert(f[k] == f[f.len() - 1]);
            }
        }
    }
}

/// Well-formedness holds after every prefix of a sequence of calls that
/// frees only live ids.
proof fn lemma_run_ok(free: Seq<u64>, next: u64, ops: Seq<AllocOp>, i: nat)
    requires
        state_ok(free, next),
        forall|j: int|
            #![trigger ops[j]]
            0 <= j < ops.len() ==> (ops[j] matches AllocOp::Free(id) ==> {
                let (f, n) = run_ops(free, next, ops, j as nat);
                live_in(f, n, id)
            }),
        i <= ops.len(),
    ensures
        ({
            let (f, n) = run_ops(free, next, ops, i);
            state_ok(f, n)
        }),
    decreases i,
{
    if i > 0 {
        lemma_run_ok(free, next, ops, (i - 1) as nat);
        let (f, n) = run_ops(free, next, ops, (i - 1) as nat);
        let op = ops[i - 1];
        match op {
            AllocOp::Allocate => {
                if f.len() > 0 {
                    let g = f.drop_last();
                    assert forall|k: int| 0 <= k < g.len() implies 1 <= #[trigger] g[k] < n by {
                        assert(g[k] == f[k]);
                    }
                    assert(g.no_duplicates()) by {
                        assert forall|a: int, b: int| 0 <= a < g.len() && 0 <= b < g.len() && a != b implies g[a] != g[b] by {
                            assert(g[a] == f[a] && g[b] == f[b]);
                        }
                    }
                } else if n < NO_PAGE - 1 {
                    assert forall|k: int| 0 <= k < f.len() implies 1 <= #[trigger] f[k] < n + 1 by {}
                }
            },
            AllocOp::Free(id) => {
                assert(live_in(f, n, id));
                let g = f.push(id);
                assert forall|k: int| 0 <= k < g.len() implies 1 <= #[trigger] g[k] < n by {
                    if k < f.len() {
                        assert(g[k] == f[k]);
                    }
                }
                assert(g.no_duplicates()) by {
                    assert forall|a: int, b: int| 0 <= a < g.len() && 0 <= b < g.len() && a != b implies g[a] != g[b] by {
                        if a == f.len() {
                            assert(g[b] == f[b]);
                        } else if b == f.len() {
                            assert(g[a] == f[a]);
                        } else {
                            assert(g[a] == f[a] && g[b] == f[b]);
                        }
                    }
                }
            },
        }
    }
}

/// A page-id allocator over a [`PageStore`].
///
/// The allocator owns page 0 (the superblock); the ids it returns are `>= 1`.
pub struct PageAllocator<S> {
    store: S,
    free_list: Vec<u64>,
    next_new: u64,
    scratch: Page,
    pages: Ghost<Map<u64, Seq<u8>>>,
}

impl<S: PageStore> PageAllocator<S> {
    /// The store the allocator sits on.
    pub closed spec fn store(&self) -> S {
        self.store
    }

    /// Ids available for reuse; `allocate` takes the last.
    pub closed spec fn free_ids(&self) -> Seq<u64> {
        self.free_list@
    }

    /// The high-water mark: the next id to hand out when the free-list is
    /// empty.
    pub closed spec fn next_id(&self) -> u64 {
        self.next_new
    }

    /// For each page, the payload the allocator last read from or wrote to
    /// the store.
    pub closed spec fn recorded(&self) -> Map<u64, Seq<u8>> {
        self.pages@
    }

    /// The allocator's invariant: the high-water mark is at least 1 and every
    /// free id is one it handed out.
    pub open spec fn wf(&self) -> bool {
        &&& self.next_id() >= 1
        &&& forall|i: int|
            0 <= i < self.free_ids().len() ==> 1 <= #[trigger] self.free_ids()[i] < self.next_id()
    }

    /// `id` has been handed out and not freed since.
    pub open spec fn is_live(&self, id: u64) -> bool {
        1 <= id < self.next_id() && !self.free_ids().contains(id)
    }

    /// Allocate an unused page id.
    ///
    /// Reuses the most recently freed id if the free-list is non-empty,
    /// otherwise extends the high-water mark. In memory only.
    pub fn allocate(&mut self) -> (r: PageResult<PageId>)
        requires
            old(self).wf(),
        ensures
            final(self).wf(),
            final(self).recorded() == old(self).recorded(),
            old(self).free_ids().len() > 0 ==> {
                &&& r is Ok && r->Ok_0@ == old(self).free_ids().last()
                &&& final(self).free_ids() == old(self).free_ids().drop_last()
                &&& final(self).next_id() == old(self).next_id()
            },
            old(self).free_ids().len() == 0 ==> if old(self).next_id() < NO_PAGE - 1 {
                &&& r is Ok && r->Ok_0@ == old(self).next_id()
                &&& final(self).next_id() == old(self).next_id() + 1
                &&& final(self).free_ids() == old(self).free_ids()
            } else {
                &&& r == Err::<PageId, PageError>(
                    PageError::InvalidPageId { page_id: old(self).next_id() },
                )
                &&& final(self).next_id() == old(self).next_id()
                &&& final(self).free_ids() == old(self).free_ids()
            },
            ({
                let (f, n, got) = allocate_step(old(self).free_ids(), old(self).next_id());
                &&& final(self).free_ids() == f
                &&& final(self).next_id() == n
                &&& match got {
                    Some(id) => r is Ok && r->Ok_0@ == id,
                    None => r is Err,
                }
            }),
            match r {
                Ok(id) => {
                    &&& id@ >= 1
                    &&& !old(self).is_live(id@)
                    &&& old(self).free_ids().no_duplicates() ==> final(self).is_live(id@)
                        && final(self).free_ids().no_duplicates()
                },
                Err(_) => true,
            },
    {
        if let Some(id) = self.free_list.pop() {
            proof {
                let of = old(self).free_ids();
                assert(of.contains(id)) by {
                    assert(of[of.len() - 1] == id);
                }
                if of.no_duplicates() {
                    assert(!self.free_list@.contains(id)) by {
                        if self.free_list@.contains(id) {
                            let k = choose|k: int| 0 <= k < self.free_list@.len() && self.free_list@[k] == id;
                            assert(of[k] == of[of.len() - 1]);
                        }
                    }
                }
                assert forall|i: int| 0 <= i < self.free_ids().len() implies 1 <= #[trigger] self.free_ids()[i] < self.next_id() by {
                    assert(self.free_ids()[i] == of[i]);
                }
            }
            return Ok(PageId::new(id));
        }
        let id = self.next_new;
        // The id after `id` must exist and must not be the sentinel.
        if id < NO_PAGE - 1 {
            self.next_new = id + 1;
            Ok(PageId::new(id))
        } else {
            Err(PageError::InvalidPageId { page_id: id })
        }
    }

    /// Return a page id to the free-list for reuse. In memory only; the
    /// free-list reaches the store at the next [`sync`](PageAllocator::sync).
    /// Freeing an id that is already free is a caller error: the id would be
    /// handed out twice.
    pub fn free(&mut self, id: PageId) -> (r: PageResult<()>)
        requires
            old(self).wf(),
        ensures
            final(self).wf(),
            final(self).recorded() == old(self).recorded(),
            final(self).next_id() == old(self).next_id(),
            id@ == 0 ==> r == Err::<(), PageError>(PageError::InvalidPageId { page_id: 0 })
                && final(self).free_ids() == old(self).free_ids(),
            id@ != 0 && id@ >= old(self).next_id() ==> r == Err::<(), PageError>(
                PageError::InvalidPageId { page_id: id@ },
            ) && final(self).free_ids() == old(self).free_ids(),
            1 <= id@ < old(self).next_id() ==> r == Ok::<(), PageError>(()) && final(self).free_ids()
                == old(self).free_ids().push(id@),
            old(self).is_live(id@) && old(self).free_ids().no_duplicates() ==> final(self).free_ids().no_duplicates() && !final(self).is_live(id@),
            (final(self).free_ids(), final(self).next_id()) == free_step(
                old(self).free_ids(),
                old(self).next_id(),
                id@,
            ),
            r is Ok <==> 1 <= id@ < old(self).next_id(),
    {
        let raw = id.get();
        if raw == 0 {
            return Err(PageError::InvalidPageId { page_id: 0 });
        }
        if raw >= self.next_new {
            return Err(PageError::InvalidPageId { page_id: raw });
        }
        self.free_list.push(raw);
        proof {
            let of = old(self).free_ids();
            let nf = self.free_ids();
            assert forall|i: int| 0 <= i < nf.len() implies 1 <= #[trigger] nf[i] < self.next_id() by {
                if i < of.len() {
                    assert(nf[i] == of[i]);
                }
            }
            if old(self).is_live(id@) && of.no_duplicates() {
                assert forall|a: int, b: int| 0 <= a < nf.len() && 0 <= b < nf.len() && a != b implies nf[a] != nf[b] by {
                    if a == of.len() {
                        assert(!of.contains(nf[b]) ==> nf[a] != nf[b]);
                        assert(of[b] == nf[b]);
                    } else if b == of.len() {
                        assert(of[a] == nf[a]);
                    } else {
                        assert(of[a] == nf[a] && of[b] == nf[b]);
                    }
                }
                assert(nf[nf.len() - 1] == raw);
            }
        }
        Ok(())
    }

    /// One past the highest id ever handed out.
    pub fn high_water(&self) -> (n: u64)
        ensures
            n == self.next_id(),
    {
        self.next_new
    }

    /// The number of ids on the free-list.
    pub fn free_count(&self) -> (n: u64)
        ensures
            n == self.free_ids().len(),
    {
        self.free_list.len() as u64
    }

    /// Build an allocator over `store`, reading its superblock and free-list
    /// chain, or initializing a fresh superblock if the store has no page 0.
    ///
    /// The on-disk state is untrusted: the walk follows at most the recorded
    /// number of links, each link must be an id in `1..next_new` not seen
    /// before, and the chain must end at the sentinel after exactly that many
    /// links; anything else is [`PageError::InvalidSuperblock`].
    pub fn new(store: S) -> (r: PageResult<Self>)
        ensures
            match r {
                Ok(a) => {
                    &&& a.wf()
                    &&& a.free_ids().no_duplicates()
                    &&& chain_matches(a.recorded(), a.free_ids(), a.next_id())
                    &&& a.store() == store
                    &&& forall|k: int|
                        #![trigger a.free_ids()[k]]
                        0 <= k < a.free_ids().len() ==> a.recorded().contains_key(a.free_ids()[k])
                            && exists|q: &mut Page, w: PageResult<()>|
                            w is Ok && payload_of(mut_ref_future(q)@) == a.recorded()[a.free_ids()[k]]
                                && #[trigger] call_ensures(
                                S::read_into,
                                (&store, page_id(a.free_ids()[k]), q),
                                w,
                            )
                },
                Err(e) => {
                    ||| store_read_error(store, e)
                    ||| store_write_error(store, e)
                    ||| e == PageError::InvalidSuperblock && page_zero_read(store)
                },
            },
            exists|p: &mut Page, r0: PageResult<()>|
                #[trigger] call_ensures(S::read_into, (&store, page_id(0), p), r0) && opened_from(
                    store,
                    r0,
                    mut_ref_future(p)@,
                    r,
                ) && (r0 is Ok && r is Ok ==> r->Ok_0.recorded()[0] == payload_of(
                    mut_ref_future(p)@,
                )) && (r0 is Ok && superblock_of(payload_of(mut_ref_future(p)@)) is Some ==> {
                    let sbf = superblock_of(payload_of(mut_ref_future(p)@))->Some_0;
                    exists|pre: Seq<u64>, last: u64|
                        #[trigger] walk_outcome(store, sbf.0, sbf.1, sbf.2, pre, last, free_result(r))
                            && forall|k: int|
                            #![trigger pre[k]]
                            0 <= k < pre.len() ==> 1 <= pre[k] && exists|q: &mut Page, w: PageResult<()>|
                                w is Ok && payload_of(mut_ref_future(q)@).len() >= 8 && link_of(
                                    payload_of(mut_ref_future(q)@),
                                ) == link_after(pre, last, k) && #[trigger] call_ensures(
                                    S::read_into,
                                    (&store, page_id(pre[k]), q),
                                    w,
                                )
                }),
    {
        let mut scratch = store.allocate_page();
        let pid0 = PageId::new(0);
        let first = read_from(&store, pid0, &mut scratch);
        let ghost fg = first;
        let ghost page0 = scratch@;
        proof {
            let q = choose|q: &mut Page|
                mut_ref_future(q)@ == page0 && #[trigger] call_ensures(
                    S::read_into,
                    (&store, pid0, q),
                    fg,
                );
            assert(call_ensures(S::read_into, (&store, page_id(0), q), fg));
            if fg is Ok {
                assert(page_zero_read(store));
            }
        }
        let res: PageResult<Self> = match first {
            Ok(()) => {
                let _ = scratch.page_size();
                match parse_superblock(scratch.payload()) {
                    Err(e) => Err(e),
                    Ok((head, next_new, free_count)) => {
                        let ghost sb = payload_of(scratch@);
                        let (walked, Ghost(links), Ghost(walked_ids), Ghost(last_link)) = walk_free_chain(
                            &store,
                            &mut scratch,
                            head,
                            free_count,
                            next_new,
                        );
                        match walked {
                            Err(e) => Err(e),
                            Ok(free_list) => {
                                let a = PageAllocator {
                                    store,
                                    free_list,
                                    next_new,
                                    scratch,
                                    pages: Ghost(links.insert(0, sb)),
                                };
                                proof {
                                    crate::le::lemma_le_value_bound(sb.subrange(16, 24));
                                    lemma_byte_bounds();
                                    assert(sb.len() >= 32);
                                    assert(superblock_of(sb) == Some((head, next_new, free_count)));
                                    assert(a.recorded()[0] == sb);
                                    assert forall|i: int| 0 <= i < a.free_ids().len() implies #[trigger] a.recorded().contains_key(
                                        a.free_ids()[i],
                                    ) && a.recorded()[a.free_ids()[i]].len() >= 8 && link_of(
                                        a.recorded()[a.free_ids()[i]],
                                    ) == chain_next(a.free_ids(), i) by {
                                        assert(a.free_ids()[i] != 0);
                                        assert(a.free_ids()[i] == walked_ids[i]);
                                        reveal(link_after);
                                    }
                                    assert(a.wf());
                                    assert(a.free_ids().no_duplicates());
                                    assert(a.recorded().contains_key(0));
                                    assert(a.recorded()[0].len() >= 32);
                                    assert(a.free_ids().len() <= u64::MAX);
                                    assert(chain_head(a.free_ids()) == head);
                                    assert(superblock_of(a.recorded()[0]) == Some((chain_head(a.free_ids()), a.next_id(), a.free_ids().len() as u64)));
                                    assert(sb == payload_of(page0));
                                    assert forall|k: int|
                                        #![trigger a.free_ids()[k]]
                                        0 <= k < a.free_ids().len() implies a.recorded().contains_key(a.free_ids()[k])
                                            && exists|q: &mut Page, w: PageResult<()>|
                                            w is Ok && payload_of(mut_ref_future(q)@) == a.recorded()[a.free_ids()[k]]
                                                && #[trigger] call_ensures(
                                                S::read_into,
                                                (&a.store, page_id(a.free_ids()[k]), q),
                                                w,
                                            ) by {
                                        assert(a.free_ids()[k] == walked_ids[k]);
                                        assert(a.free_ids()[k] != 0);
                                        assert(a.store == store);
                                        assert(links.contains_key(walked_ids[k]));
                                        assert(a.recorded()[a.free_ids()[k]] == links[walked_ids[k]]);
                                    }
                                }
                                Ok(a)
                            },
                        }
                    },
                }
            },
            Err(PageError::ShortRead { .. }) => {
                // No page 0 yet: a fresh store. Reserve page 0 for the
                // superblock and start handing out ids at 1.
                let mut a = PageAllocator {
                    store,
                    free_list: Vec::new(),
                    next_new: 1,
                    scratch,
                    pages: Ghost(Map::empty()),
                };
                assert(a.free_ids() =~= Seq::<u64>::empty());
                match a.persist_superblock() {
                    Ok(()) => {
                        assert(a.free_ids().no_duplicates());
                        Ok(a)
                    },
                    Err(e) => Err(e),
                }
            },
            Err(e) => Err(e),
        };
        proof {
            let q = choose|q: &mut Page|
                mut_ref_future(q)@ == page0 && #[trigger] call_ensures(
                    S::read_into,
                    (&store, pid0, q),
                    fg,
                );
            assert(call_ensures(S::read_into, (&store, page_id(0), q), fg));
            assert(opened_from(store, fg, page0, res));
        }
        res
    }

    /// Persist the superblock and free-list chain, then make the store
    /// durable.
    pub fn sync(&mut self) -> (r: PageResult<()>)
        requires
            old(self).wf(),
        ensures
            final(self).wf(),
            final(self).store() == old(self).store(),
            r matches Err(e) ==> store_write_error(final(self).store(), e) || store_sync_error(
                final(self).store(),
                e,
            ),
            r matches Err(e) ==> {
                ||| exists|j: int|
                    #[trigger] write_failed_at(old(self).store(), old(self).free_ids(), j, e)
                ||| store_sync_error(old(self).store(), e) && (forall|k: int|
                    0 <= k < old(self).free_ids().len() ==> #[trigger] wrote_link(
                        old(self).store(),
                        old(self).free_ids()[k],
                        chain_next(old(self).free_ids(), k),
                    )) && wrote_superblock(
                    old(self).store(),
                    chain_head(old(self).free_ids()),
                    old(self).next_id(),
                    old(self).free_ids().len() as u64,
                )
            },
            r is Ok ==> call_ensures(S::sync, (&final(self).store(),), r),
            r is Ok ==> forall|k: int|
                0 <= k < old(self).free_ids().len() ==> #[trigger] wrote_link(
                    old(self).store(),
                    old(self).free_ids()[k],
                    chain_next(old(self).free_ids(), k),
                ),
            r is Ok ==> wrote_superblock(
                old(self).store(),
                chain_head(old(self).free_ids()),
                old(self).next_id(),
                old(self).free_ids().len() as u64,
            ),
            final(self).free_ids() == old(self).free_ids(),
            final(self).next_id() == old(self).next_id(),
            r is Ok && old(self).free_ids().no_duplicates() ==> chain_matches(
                final(self).recorded(),
                final(self).free_ids(),
                final(self).next_id(),
            ),
            r is Ok ==> final(self).recorded().contains_key(0) && wrote_payload(
                old(self).store(),
                0,
                final(self).recorded()[0],
            ),
            r is Ok ==> forall|k: int|
                #![trigger old(self).free_ids()[k]]
                0 <= k < old(self).free_ids().len() ==> final(self).recorded().contains_key(
                    old(self).free_ids()[k],
                ) && wrote_payload(
                    old(self).store(),
                    old(self).free_ids()[k],
                    final(self).recorded()[old(self).free_ids()[k]],
                ),
    {
        match self.persist_superblock() {
            Ok(()) => {},
            Err(e) => {
                return Err(e);
            },
        }
        self.store.sync()
    }

    /// Write the free-list chain and the superblock at page 0: each free page
    /// links to the next, the last to the sentinel, and the superblock holds
    /// the head, the high-water mark and the count.
    #[verifier::rlimit(100)]
    #[verifier::spinoff_prover]
    fn persist_superblock(&mut self) -> (r: PageResult<()>)
        requires
            old(self).wf(),
        ensures
            final(self).wf(),
            final(self).store() == old(self).store(),
            r matches Err(e) ==> store_write_error(final(self).store(), e),
            r matches Err(e) ==> exists|j: int|
                #[trigger] write_failed_at(old(self).store(), old(self).free_ids(), j, e),
            final(self).free_ids() == old(self).free_ids(),
            final(self).next_id() == old(self).next_id(),
            r is Ok && old(self).free_ids().no_duplicates() ==> chain_matches(
                final(self).recorded(),
                final(self).free_ids(),
                final(self).next_id(),
            ),
            r is Ok ==> forall|k: int|
                0 <= k < old(self).free_ids().len() ==> #[trigger] wrote_link(
                    old(self).store(),
                    old(self).free_ids()[k],
                    chain_next(old(self).free_ids(), k),
                ),
            r is Ok ==> wrote_superblock(
                old(self).store(),
                chain_head(old(self).free_ids()),
                old(self).next_id(),
                old(self).free_ids().len() as u64,
            ),
            r is Ok ==> final(self).recorded().contains_key(0) && wrote_payload(
                old(self).store(),
                0,
                final(self).recorded()[0],
            ),
            r is Ok ==> forall|k: int|
                #![trigger old(self).free_ids()[k]]
                0 <= k < old(self).free_ids().len() ==> final(self).recorded().contains_key(
                    old(self).free_ids()[k],
                ) && wrote_payload(
                    old(self).store(),
                    old(self).free_ids()[k],
                    final(self).recorded()[old(self).free_ids()[k]],
                ),
    {
        let len = self.free_list.len();
        let mut i: usize = 0;
        while i < len
            invariant
                self.wf(),
                old(self).wf(),
                len == self.free_list@.len(),
                self.free_list@ == old(self).free_list@,
                self.next_new == old(self).next_new,
                self.store == old(self).store,
                i <= len,
                forall|k: int|
                    #![trigger self.free_list@[k]]
                    0 <= k < i ==> self.pages@.contains_key(self.free_list@[k]) && wrote_payload(
                        old(self).store,
                        self.free_list@[k],
                        self.pages@[self.free_list@[k]],
                    ),
                forall|k: int|
                    0 <= k < i ==> #[trigger] wrote_link(
                        old(self).store,
                        self.free_list@[k],
                        chain_next(self.free_list@, k),
                    ),
                old(self).free_ids().no_duplicates() ==> forall|k: int|
                    0 <= k < i ==> #[trigger] self.pages@.contains_key(self.free_list@[k])
                        && self.pages@[self.free_list@[k]].len() >= 8 && link_of(
                        self.pages@[self.free_list@[k]],
                    ) == chain_next(self.free_list@, k),
            decreases len - i,
        {
            let id = self.free_list[i];
            let next = if i + 1 < len {
                self.free_list[i + 1]
            } else {
                NO_PAGE
            };
            let size = self.scratch.page_size();
            self.scratch.reset();
            proof {
                lemma_blank_len(size as nat);
            }
            let ghost blank = self.scratch@;
            {
                let payload = self.scratch.payload_mut();
                write_u64(payload, LINK_NEXT_OFF, next);
            }
            let ghost filled = self.scratch@;
            proof {
                assert(payload_of(filled) =~= put_field(payload_of(blank), 0, 8, next as nat));
                lemma_byte_bounds();
                lemma_put_field(payload_of(blank), 0, 8, next as nat);
            }
            let pid = PageId::new(id);
            let wr = write_to(&self.store, pid, &mut self.scratch);
            let ghost wrg = wr;
            proof {
                let q = choose|q: &mut Page|
                    mut_ref_current(q)@ == filled && mut_ref_future(q)@ == self.scratch@
                        && #[trigger] call_ensures(S::write_page, (&self.store, pid, q), wrg);
                assert(call_ensures(S::write_page, (&old(self).store, page_id(id), q), wrg));
                assert(old(self).free_ids()[i as int] == id);
                assert(call_ensures(
                    S::write_page,
                    (&old(self).store(), page_id(old(self).free_ids()[i as int]), q),
                    wrg,
                ));
                if wrg is Ok {
                    assert(link_of(payload_of(filled)) == next);
                    assert(wrote_link(old(self).store, id, next));
                    assert(wrote_payload(old(self).store, id, payload_of(filled)));
                }
            }
            match wr {
                Ok(()) => {},
                Err(e) => {
                    proof {
                        assert(self.free_ids() =~= old(self).free_ids());
                        assert(wrg == Err::<(), PageError>(e));
                        assert(self.free_list@ == old(self).free_ids());
                        assert(write_failed_at(old(self).store(), old(self).free_ids(), i as int, e));
                    }
                    return Err(e);
                },
            }
            proof {
                assert(self.free_ids() =~= old(self).free_ids());
                assert(blank == crate::page::blank_page(size as nat));
                assert(payload_of(blank).len() == size - 32);
                assert(payload_of(self.scratch@) == payload_of(filled));
                assert(link_of(payload_of(filled)) == next);
                assert(payload_of(filled).len() >= 8);
                assert(next == chain_next(self.free_list@, i as int));
                let ghost pre = self.pages@;
                self.pages@ = self.pages@.insert(id, payload_of(self.scratch@));
                if old(self).free_ids().no_duplicates() {
                    assert forall|k: int| 0 <= k < i + 1 implies #[trigger] self.pages@.contains_key(
                        self.free_list@[k],
                    ) && self.pages@[self.free_list@[k]].len() >= 8 && link_of(
                        self.pages@[self.free_list@[k]],
                    ) == chain_next(self.free_list@, k) by {
                        if k < i {
                            assert(self.free_list@[k] != id);
                            assert(pre.contains_key(self.free_list@[k]));
                            assert(self.pages@[self.free_list@[k]] == pre[self.free_list@[k]]);
                        } else {
                            assert(self.free_list@[k] == id);
                        }
                    }
                }
            }
            i += 1;
        }
        let head = if len > 0 {
            self.free_list[0]
        } else {
            NO_PAGE
        };
        let size = self.scratch.page_size();
        self.scratch.reset();
        proof {
            lemma_blank_len(size as nat);
        }
        let ghost blank = self.scratch@;
        {
            let payload = self.scratch.payload_mut();
            encode_superblock(payload, head, self.next_new, len as u64);
            proof {
                assert(payload_of(self.scratch@) =~= final(payload)@);
            }
        }
        let ghost filled = self.scratch@;
        proof {
            assert(blank == crate::page::blank_page(size as nat));
            assert(payload_of(filled).len() == payload_of(blank).len());
            assert(payload_of(filled).len() >= 32);
            assert(superblock_of(payload_of(filled)) == Some((head, self.next_new, len as u64)));
        }
        let pid = PageId::new(0);
        let wr = write_to(&self.store, pid, &mut self.scratch);
        let ghost wrg = wr;
        proof {
            let q = choose|q: &mut Page|
                mut_ref_current(q)@ == filled && mut_ref_future(q)@ == self.scratch@
                    && #[trigger] call_ensures(S::write_page, (&self.store, pid, q), wrg);
            assert(call_ensures(S::write_page, (&old(self).store, page_id(0), q), wrg));
            assert(call_ensures(S::write_page, (&old(self).store(), page_id(0), q), wrg));
            if wrg is Ok {
                assert(wrote_superblock(old(self).store, head, self.next_new, len as u64));
            }
        }
        match wr {
            Ok(()) => {},
            Err(e) => {
                proof {
                    assert(wrg == Err::<(), PageError>(e));
                    assert(self.free_list@ == old(self).free_ids());
                    assert(write_failed_at(old(self).store(), old(self).free_ids(), len as int, e));
                }
                return Err(e);
            },
        }
        proof {
            assert(payload_of(self.scratch@) == payload_of(filled));
            let ghost pre = self.pages@;
            self.pages@ = self.pages@.insert(0, payload_of(self.scratch@));
            if old(self).free_ids().no_duplicates() {
                assert forall|k: int| 0 <= k < len implies #[trigger] self.pages@.contains_key(
                    self.free_list@[k],
                ) && self.pages@[self.free_list@[k]].len() >= 8 && link_of(
                    self.pages@[self.free_list@[k]],
                ) == chain_next(self.free_list@, k) by {
                    assert(self.free_list@[k] != 0);
                    assert(pre.contains_key(self.free_list@[k]));
                    assert(self.pages@[self.free_list@[k]] == pre[self.free_list@[k]]);
                }
            }
        }
        Ok(())
    }
}


proof fn lemma_blank_len(n: nat)
    requires
        crate::page::valid_page_size(n),
    ensures
        crate::page::blank_page(n).len() == n,
        payload_of(crate::page::blank_page(n)).len() == n - 32,
{
    lemma_byte_bounds();
    let z = crate::page::zeros(n);
    lemma_put_field(z, 0, 4, crate::page::MAGIC as nat);
    lemma_put_field(put_field(z, 0, 4, crate::page::MAGIC as nat), 4, 2, crate::page::FORMAT_VERSION as nat);
}

/// The link the `k`-th page of a walked chain prefix `pre` held: the next
/// id in the prefix, or `last` (the link read from the final page) after
/// the end.
#[verifier::opaque]
pub open spec fn link_after(pre: Seq<u64>, last: u64, k: int) -> u64 {
    if k + 1 < pre.len() {
        pre[k + 1]
    } else {
        last
    }
}

/// A link the walk must refuse: the sentinel, the superblock's page 0, an id
/// never handed out, or an id already on the chain.
pub open spec fn bad_link(c: u64, pre: Seq<u64>, next_new: u64) -> bool {
    c == NO_PAGE || c == 0 || c >= next_new || pre.contains(c)
}

/// What walking a free-list chain of `count` links from `head` gives, when
/// the ids visited were `pre` and the last link read (or `head`, if none was
/// read) was `last`: the chain as read is exactly `count` links, each a fresh
/// id in `1..next_new`, ending at the sentinel, and the walk succeeds with
/// those ids; or it stops at the first link that breaks these rules with
/// `InvalidSuperblock`; or the read of the next id failed and its error is
/// returned.
pub open spec fn walk_outcome<S: PageStore>(
    store: S,
    head: u64,
    next_new: u64,
    count: u64,
    pre: Seq<u64>,
    last: u64,
    r: PageResult<Seq<u64>>,
) -> bool {
    &&& pre.len() <= count
    &&& pre.no_duplicates()
    &&& forall|k: int| 0 <= k < pre.len() ==> 1 <= #[trigger] pre[k] < next_new
    &&& pre.len() > 0 ==> pre[0] == head
    &&& pre.len() == 0 ==> last == head
    &&& match r {
        Ok(ids) => ids == pre && pre.len() == count && last == NO_PAGE,
        Err(e) => {
            ||| e == PageError::InvalidSuperblock && pre.len() < count && bad_link(last, pre, next_new)
            ||| e == PageError::InvalidSuperblock && pre.len() == count && last != NO_PAGE
            ||| pre.len() < count && !bad_link(last, pre, next_new) && exists|p: &mut Page|
                #[trigger] call_ensures(
                    S::read_into,
                    (&store, page_id(last), p),
                    Err::<(), PageError>(e),
                )
        },
    }
}

/// Read page `id` of `store` into `scratch` and return the free-list link
/// its payload holds.
fn read_link<S: PageStore>(store: &S, scratch: &mut Page, id: u64) -> (r: PageResult<u64>)
    ensures
        match r {
            Ok(next) => {
                &&& payload_of(final(scratch)@).len() >= 8
                &&& link_of(payload_of(final(scratch)@)) == next
                &&& exists|p: &mut Page, w: PageResult<()>|
                    w is Ok && mut_ref_future(p)@ == final(scratch)@ && #[trigger] call_ensures(
                        S::read_into,
                        (store, page_id(id), p),
                        w,
                    )
            },
            Err(e) => exists|p: &mut Page|
                #[trigger] call_ensures(
                    S::read_into,
                    (store, page_id(id), p),
                    Err::<(), PageError>(e),
                ),
        },
{
    let pid = PageId::new(id);
    let rr = read_from(store, pid, scratch);
    let ghost rrg = rr;
    proof {
        let q = choose|q: &mut Page|
            mut_ref_future(q)@ == scratch@ && #[trigger] call_ensures(S::read_into, (store, pid, q), rrg);
        assert(call_ensures(S::read_into, (store, page_id(id), q), rrg));
    }
    match rr {
        Ok(()) => {
            let size = scratch.page_size();
            proof {
                lemma_valid_len(size as nat);
            }
            let next = read_u64(scratch.payload(), LINK_NEXT_OFF);
            Ok(next)
        },
        Err(e) => {
            proof {
                assert(rrg == Err::<(), PageError>(e));
            }
            Err(e)
        },
    }
}

proof fn lemma_valid_len(n: nat)
    requires
        crate::page::valid_page_size(n),
    ensures
        n >= 4096,
{
}

/// Follow the on-disk free-list chain from `head`, returning the ids in
/// chain order with the payload read for each, the ids visited and the last
/// link read.
#[verifier::rlimit(100)]
#[verifier::spinoff_prover]
fn walk_free_chain<S: PageStore>(
    store: &S,
    scratch: &mut Page,
    head: u64,
    free_count: u64,
    next_new: u64,
) -> (r: (PageResult<Vec<u64>>, Ghost<Map<u64, Seq<u8>>>, Ghost<Seq<u64>>, Ghost<u64>))
    ensures
        walk_outcome(
            *store,
            head,
            next_new,
            free_count,
            r.2@,
            r.3@,
            match r.0 {
                Ok(ids) => Ok::<Seq<u64>, PageError>(ids@),
                Err(e) => Err::<Seq<u64>, PageError>(e),
            },
        ),
        forall|k: int|
            #![trigger r.2@[k]]
            0 <= k < r.2@.len() ==> r.1@.contains_key(r.2@[k]) && r.1@[r.2@[k]].len() >= 8
                && link_of(r.1@[r.2@[k]]) == link_after(r.2@, r.3@, k) && exists|
                p: &mut Page,
                w: PageResult<()>,
            |
                w is Ok && payload_of(mut_ref_future(p)@) == r.1@[r.2@[k]] && #[trigger] call_ensures(
                    S::read_into,
                    (store, page_id(r.2@[k]), p),
                    w,
                ),
{
    let mut ids: Vec<u64> = Vec::new();
    let mut seen: HashSet<u64> = HashSet::new();
    let mut cur = head;
    let mut i: u64 = 0;
    let ghost mut links: Map<u64, Seq<u8>> = Map::empty();
    while i < free_count
        invariant
            vstd::std_specs::hash::obeys_key_model::<u64>(),
            i <= free_count,
            ids@.len() == i,
            ids@.no_duplicates(),
            forall|k: int| 0 <= k < ids@.len() ==> 1 <= #[trigger] ids@[k] < next_new,
            forall|x: u64| seen@.contains(x) <==> ids@.contains(x),
            i == 0 ==> cur == head,
            i > 0 ==> ids@[0] == head,
            forall|k: int|
                #![trigger ids@[k]]
                0 <= k < ids@.len() ==> links.contains_key(ids@[k]) && links[ids@[k]].len() >= 8
                    && link_of(links[ids@[k]]) == link_after(ids@, cur, k) && exists|
                    p: &mut Page,
                    w: PageResult<()>,
                |
                    w is Ok && payload_of(mut_ref_future(p)@) == links[ids@[k]]
                        && #[trigger] call_ensures(S::read_into, (store, page_id(ids@[k]), p), w),
        decreases free_count - i,
    {
        if cur == NO_PAGE || cur == 0 || cur >= next_new || seen.contains(&cur) {
            proof {
                assert(bad_link(cur, ids@, next_new));
            }
            return (Err(PageError::InvalidSuperblock), Ghost(links), Ghost(ids@), Ghost(cur));
        }
        let rl = read_link(store, scratch, cur);
        let next = match rl {
            Ok(next) => next,
            Err(e) => {
                proof {
                    assert(!bad_link(cur, ids@, next_new));
                }
                return (Err(e), Ghost(links), Ghost(ids@), Ghost(cur));
            },
        };
        let ghost before = ids@;
        let ghost seen_before = seen@;
        let ghost prev = links;
        ids.push(cur);
        let _ = seen.insert(cur);
        proof {
            links = links.insert(cur, payload_of(scratch@));
            assert(!before.contains(cur));
            assert(seen@ == seen_before.insert(cur));
            assert forall|x: u64| seen@.contains(x) <==> ids@.contains(x) by {
                if ids@.contains(x) && x != cur {
                    let k = choose|k: int| 0 <= k < ids@.len() && ids@[k] == x;
                    assert(before[k] == x);
                }
                if x == cur {
                    assert(ids@[ids@.len() - 1] == cur);
                }
                if seen@.contains(x) && x != cur {
                    let k = choose|k: int| 0 <= k < before.len() && before[k] == x;
                    assert(ids@[k] == x);
                }
            }
            assert forall|k: int| 0 <= k < before.len() implies ids@[k] == before[k] && links[ids@[k]]
                == prev[before[k]] && link_after(ids@, next, k) == link_after(before, cur, k) by {
                assert(before[k] != cur);
                reveal(link_after);
            }
            assert(ids@[before.len() as int] == cur);
            assert(link_after(ids@, next, before.len() as int) == next) by {
                reveal(link_after);
            }
        }
        cur = next;
        i += 1;
    }
    if cur != NO_PAGE {
        return (Err(PageError::InvalidSuperblock), Ghost(links), Ghost(ids@), Ghost(cur));
    }
    let ghost pre = ids@;
    (Ok(ids), Ghost(links), Ghost(pre), Ghost(cur))
}
} // verus!
