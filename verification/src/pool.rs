//! [`BufferPool`]: a bounded in-memory cache of pages over a [`PageStore`].
//!
//! The pool keeps a fixed number of frames resident, each holding one page. A
//! caller asks for a page by id and gets back a [`PageGuard`] that pins the
//! frame: a pinned frame is never evicted, and [`BufferPool::unpin`] releases
//! the pin. Writing through the guard marks the frame dirty; a dirty frame is
//! written to the store before its frame is reused.
//!
//! Eviction is the clock (second-chance) algorithm: each frame carries a
//! reference bit set when it is touched; the hand sweeps the frames, clearing
//! set bits and skipping pinned frames, and reuses the first unset, unpinned
//! frame. If every frame is pinned, admission fails with
//! [`PageError::BufferPoolExhausted`].
//!
//! The pool keeps, as ghost state, the content it last exchanged with the
//! store for each page: what a successful read returned or a successful write
//! handed over. Its logical contents are the resident pages over that record,
//! and no operation but a write through a guard or the admission of a page
//! changes them.
use crate::error::{PageError, PageResult};
use crate::page::{page_id, blank_page, lsn_of, payload_of, Page, PageId};
use crate::store::{read_from, write_to, PageStore};
use std::collections::HashMap;
use vstd::prelude::*;

verus! {

broadcast use vstd::std_specs::hash::group_hash_axioms;

/// The part of a page that belongs to its users: its lsn and payload.
pub open spec fn content_of(b: Seq<u8>) -> (nat, Seq<u8>) {
    (lsn_of(b), payload_of(b))
}

/// The state of one frame.
pub struct FrameView {
    /// The id of the resident page, if any.
    pub id: Option<u64>,
    /// Outstanding pins.
    pub pin: nat,
    /// The resident page has modifications not yet handed to the store.
    pub dirty: bool,
    /// The clock reference bit.
    pub referenced: bool,
    /// The page image held by the frame.
    pub page: Seq<u8>,
}

/// The position of slot `s` in a sweep of `n` frames that starts at `h`.
pub open spec fn sweep_offset(s: int, h: int, n: int) -> int {
    if s >= h {
        s - h
    } else {
        s + n - h
    }
}

/// The slot a sweep of `n` frames starting at `h` visits at step `k`.
pub open spec fn sweep_slot(h: int, k: int, n: int) -> int {
    if h + k < n {
        h + k
    } else {
        h + k - n
    }
}

/// Some frame is unpinned with its reference bit clear.
pub open spec fn has_cold_frame(fr: Seq<FrameView>) -> bool {
    exists|s: int| 0 <= s < fr.len() && fr[s].pin == 0 && !fr[s].referenced
}

/// `slot` is the frame the clock hand, starting at `h`, selects for
/// eviction: the first unpinned frame with a clear reference bit in sweep
/// order if there is one, else (after a pass that clears every unpinned
/// frame's bit) the first unpinned frame.
pub open spec fn clock_pick(fr: Seq<FrameView>, h: int, slot: int) -> bool {
    let n = fr.len() as int;
    &&& 0 <= slot < n
    &&& fr[slot].pin == 0
    &&& if has_cold_frame(fr) {
        &&& !fr[slot].referenced
        &&& forall|s: int|
            0 <= s < n && sweep_offset(s, h, n) < sweep_offset(slot, h, n) ==> fr[s].pin > 0
                || fr[s].referenced
    } else {
        forall|s: int|
            0 <= s < n && sweep_offset(s, h, n) < sweep_offset(slot, h, n) ==> fr[s].pin > 0
    }
}

/// The reference bit of frame `s` after the clock hand, starting at `h`,
/// selected `slot`: cleared on every unpinned frame it passed.
pub open spec fn swept_ref(fr: Seq<FrameView>, h: int, slot: int, s: int) -> bool {
    let n = fr.len() as int;
    if has_cold_frame(fr) {
        if fr[s].pin == 0 && sweep_offset(s, h, n) < sweep_offset(slot, h, n) {
            false
        } else {
            fr[s].referenced
        }
    } else {
        if fr[s].pin == 0 {
            false
        } else {
            fr[s].referenced
        }
    }
}

/// What one clock sweep does to the reference bits: the hand, starting at
/// `h`, stops at an unpinned victim; pinned frames and every frame the hand
/// did not reach keep their bits; the unpinned frames it passed have their
/// bits cleared. When no unpinned frame had a clear bit, the sweep went all
/// the way round first, clearing every unpinned frame's bit.
pub proof fn lemma_clock_sweep(fr: Seq<FrameView>, h: int, v: int)
    requires
        0 <= h < fr.len(),
        clock_pick(fr, h, v),
    ensures
        fr[v].pin == 0,
        forall|s: int| 0 <= s < fr.len() && fr[s].pin > 0 ==> swept_ref(fr, h, v, s) == fr[s].referenced,
        has_cold_frame(fr) ==> forall|s: int|
            0 <= s < fr.len() && sweep_offset(s, h, fr.len() as int) > sweep_offset(v, h, fr.len() as int)
                ==> swept_ref(fr, h, v, s) == fr[s].referenced,
        has_cold_frame(fr) ==> forall|s: int|
            0 <= s < fr.len() && fr[s].pin == 0 && sweep_offset(s, h, fr.len() as int) < sweep_offset(
                v,
                h,
                fr.len() as int,
            ) ==> !swept_ref(fr, h, v, s),
        !has_cold_frame(fr) ==> forall|s: int|
            0 <= s < fr.len() && fr[s].pin == 0 ==> !swept_ref(fr, h, v, s),
{
}

/// Frames that were pinned still hold the same page, at least as pinned.
pub open spec fn pinned_kept(o: Seq<FrameView>, f: Seq<FrameView>) -> bool {
    &&& f.len() == o.len()
    &&& forall|s: int|
        0 <= s < o.len() && o[s].pin > 0 ==> f[s].id == o[s].id && f[s].pin >= o[s].pin
}

/// Two logical contents agree everywhere except possibly at `id`.
pub open spec fn same_except(o: Map<u64, (nat, Seq<u8>)>, f: Map<u64, (nat, Seq<u8>)>, id: u64) -> bool {
    forall|x: u64|
        x != id ==> (o.contains_key(x) <==> f.contains_key(x)) && (o.contains_key(x) ==> f[x]
            == o[x])
}

struct Frame {
    page: Page,
    id: Option<u64>,
    pin: usize,
    dirty: bool,
    referenced: bool,
}

spec fn frame_view(f: Frame) -> FrameView {
    FrameView { id: f.id, pin: f.pin as nat, dirty: f.dirty, referenced: f.referenced, page: f.page@ }
}

impl Frame {
    fn new(page: Page) -> (f: Frame)
        ensures
            f.page == page,
            f.id is None,
            f.pin == 0,
            !f.dirty,
            !f.referenced,
    {
        Frame { page, id: None, pin: 0, dirty: false, referenced: false }
    }
}

/// A pin on a cached page, handed out by [`BufferPool::fetch`] and
/// [`BufferPool::new_page`]. While it is held, the page stays resident; give
/// it back with [`BufferPool::unpin`].
pub struct PageGuard {
    slot: usize,
    id: PageId,
}

impl PageGuard {
    /// The frame the guard pins.
    pub closed spec fn slot(&self) -> nat {
        self.slot as nat
    }

    /// The id of the pinned page.
    pub closed spec fn page_id(&self) -> u64 {
        self.id@
    }

    /// The id of the pinned page.
    pub fn id(&self) -> (id: PageId)
        ensures
            id@ == self.page_id(),
    {
        self.id
    }
}

/// A bounded cache of pages over a [`PageStore`].
pub struct BufferPool<S> {
    store: S,
    frames: Vec<Frame>,
    map: HashMap<u64, usize>,
    free: Vec<usize>,
    hand: usize,
    capacity: usize,
    known: Ghost<Map<u64, (nat, Seq<u8>)>>,
}

impl<S: PageStore> BufferPool<S> {
    /// The frames, in slot order.
    pub closed spec fn frames(&self) -> Seq<FrameView> {
        self.frames@.map_values(|f: Frame| frame_view(f))
    }

    /// The store the pool sits on.
    pub closed spec fn store(&self) -> S {
        self.store
    }

    /// The clock hand.
    pub closed spec fn hand(&self) -> nat {
        self.hand as nat
    }

    /// Frames never yet filled (or given back after a failed read), taken
    /// from the back.
    pub closed spec fn free_slots(&self) -> Seq<usize> {
        self.free@
    }

    /// Resident page ids and the frame each occupies.
    pub closed spec fn slots(&self) -> Map<u64, usize> {
        self.map@
    }

    /// For each page, the content the pool last read from or wrote to the
    /// store.
    pub closed spec fn known(&self) -> Map<u64, (nat, Seq<u8>)> {
        self.known@
    }

    /// The number of frames.
    pub closed spec fn cap(&self) -> nat {
        self.capacity as nat
    }

    /// The pool's logical contents: each resident page's content, else the
    /// content last exchanged with the store.
    pub open spec fn contents(&self) -> Map<u64, (nat, Seq<u8>)> {
        Map::new(
            |x: u64| self.slots().contains_key(x) || self.known().contains_key(x),
            |x: u64|
                if self.slots().contains_key(x) {
                    content_of(self.frames()[self.slots()[x] as int].page)
                } else {
                    self.known()[x]
                },
        )
    }

    /// `g` is a live pin on this pool.
    pub open spec fn holds(&self, g: &PageGuard) -> bool {
        &&& g.slot() < self.frames().len()
        &&& self.frames()[g.slot() as int].id == Some(g.page_id())
        &&& self.frames()[g.slot() as int].pin > 0
    }

    /// The internal invariant, with frame `detached` (if any) taken out of
    /// circulation: neither free nor holding a page.
    closed spec fn inv_with(&self, detached: int) -> bool {
        &&& vstd::std_specs::hash::obeys_key_model::<u64>()
        &&& self.capacity >= 1
        &&& self.frames@.len() == self.capacity
        &&& self.hand < self.capacity
        &&& self.free@.no_duplicates()
        &&& forall|i: int| 0 <= i < self.free@.len() ==> #[trigger] self.free@[i] < self.capacity
        &&& forall|s: int|
            0 <= s < self.capacity && s != detached ==> (#[trigger] self.frames@[s].id is None
                <==> self.free@.contains(s as usize))
        &&& (0 <= detached < self.capacity ==> self.frames@[detached].id is None
            && !self.free@.contains(detached as usize))
        &&& forall|s: int|
            0 <= s < self.capacity && #[trigger] self.frames@[s].id is None ==> self.frames@[s].pin
                == 0 && !self.frames@[s].dirty
        &&& forall|x: u64| #[trigger]
            self.map@.contains_key(x) ==> self.map@[x] < self.capacity
                && self.frames@[self.map@[x] as int].id == Some(x)
        &&& forall|s: int|
            0 <= s < self.capacity && #[trigger] self.frames@[s].id is Some ==> self.map@.contains_key(
                self.frames@[s].id->0,
            ) && self.map@[self.frames@[s].id->0] == s
        &&& forall|s: int|
            0 <= s < self.capacity && #[trigger] self.frames@[s].id is Some && !self.frames@[s].dirty
                ==> self.known@.contains_key(self.frames@[s].id->0) && self.known@[self.frames@[s].id->0]
                == content_of(self.frames@[s].page@)
    }

    /// The pool's internal invariant.
    pub closed spec fn wf(&self) -> bool {
        self.inv_with(-1)
    }

    /// The clock sweep: return an unpinned frame to reuse, or `None` if all
    /// frames are pinned.
    fn find_victim(&mut self) -> (r: Option<usize>)
        requires
            old(self).wf(),
            old(self).free@.len() == 0,
        ensures
            final(self).wf(),
            final(self).store == old(self).store,
            final(self).map@ == old(self).map@,
            final(self).free@ == old(self).free@,
            final(self).capacity == old(self).capacity,
            final(self).known@ == old(self).known@,
            final(self).frames@.len() == old(self).frames@.len(),
            forall|s: int|
                0 <= s < old(self).frames@.len() ==> {
                    let o = #[trigger] old(self).frames@[s];
                    let f = final(self).frames@[s];
                    f.page == o.page && f.id == o.id && f.pin == o.pin && f.dirty == o.dirty
                },
            match r {
                None => {
                    &&& forall|s: int|
                        0 <= s < old(self).capacity ==> #[trigger] old(self).frames@[s].pin > 0
                    &&& final(self).frames() == old(self).frames()
                    &&& final(self).hand == old(self).hand
                },
                Some(slot) => {
                    &&& clock_pick(old(self).frames(), old(self).hand as int, slot as int)
                    &&& final(self).hand == if slot + 1 == old(self).capacity {
                        0
                    } else {
                        slot + 1
                    }
                    &&& forall|s: int|
                        0 <= s < old(self).capacity ==> #[trigger] final(self).frames@[s].referenced
                            == swept_ref(old(self).frames(), old(self).hand as int, slot as int, s)
                },
            },
    {
        let ghost h0 = self.hand as int;
        let ghost fr0 = self.frames();
        let n = self.capacity;
        let ghost nn = n as int;
        proof {
            assert forall|s: int| 0 <= s < nn implies #[trigger] fr0[s] == frame_view(self.frames@[s]) by {}
        }
        // First pass: clear set bits, stop at the first unpinned frame whose
        // bit was already clear.
        let mut k: usize = 0;
        while k < n
            invariant
                self.inv_with(-1),
                old(self).wf(),
                n == self.capacity,
                nn == n,
                self.capacity == old(self).capacity,
                self.store == old(self).store,
                self.map@ == old(self).map@,
                self.free@ == old(self).free@,
                self.free@.len() == 0,
                self.known@ == old(self).known@,
                self.frames@.len() == n,
                fr0 == old(self).frames(),
                fr0.len() == nn,
                0 <= h0 < nn,
                h0 == old(self).hand,
                k <= n,
                self.hand == if k < n { sweep_slot(h0, k as int, nn) } else { h0 },
                forall|s: int|
                    0 <= s < nn ==> {
                        let o = #[trigger] old(self).frames@[s];
                        let f = self.frames@[s];
                        f.page == o.page && f.id == o.id && f.pin == o.pin && f.dirty == o.dirty
                    },
                forall|s: int| 0 <= s < nn ==> #[trigger] fr0[s] == frame_view(old(self).frames@[s]),
                forall|s: int|
                    0 <= s < nn && sweep_offset(s, h0, nn) < k ==> #[trigger] fr0[s].pin > 0
                        || fr0[s].referenced,
                forall|s: int|
                    0 <= s < nn ==> #[trigger] self.frames@[s].referenced == if fr0[s].pin == 0
                        && sweep_offset(s, h0, nn) < k {
                        false
                    } else {
                        fr0[s].referenced
                    },
            decreases n - k,
        {
            let slot = self.hand;
            self.hand = if self.hand + 1 == n {
                0
            } else {
                self.hand + 1
            };
            if self.frames[slot].pin > 0 {
                k += 1;
                continue;
            }
            if self.frames[slot].referenced {
                self.frames[slot].referenced = false;
                k += 1;
                continue;
            }
            proof {
                assert(sweep_offset(slot as int, h0, nn) == k);
                assert(has_cold_frame(fr0));
            }
            return Some(slot);
        }
        // Second pass: every unpinned frame's bit is now clear; the first
        // unpinned frame is the victim.
        proof {
            assert(!has_cold_frame(fr0)) by {
                assert forall|s: int| 0 <= s < nn implies !(fr0[s].pin == 0 && !fr0[s].referenced) by {
                    assert(sweep_offset(s, h0, nn) < nn);
                }
            }
        }
        let mut k: usize = 0;
        while k < n
            invariant
                self.inv_with(-1),
                old(self).wf(),
                n == self.capacity,
                nn == n,
                self.capacity == old(self).capacity,
                self.store == old(self).store,
                self.map@ == old(self).map@,
                self.free@ == old(self).free@,
                self.free@.len() == 0,
                self.known@ == old(self).known@,
                self.frames@.len() == n,
                fr0 == old(self).frames(),
                fr0.len() == nn,
                !has_cold_frame(fr0),
                0 <= h0 < nn,
                h0 == old(self).hand,
                k <= n,
                self.hand == if k < n { sweep_slot(h0, k as int, nn) } else { h0 },
                forall|s: int|
                    0 <= s < nn ==> {
                        let o = #[trigger] old(self).frames@[s];
                        let f = self.frames@[s];
                        f.page == o.page && f.id == o.id && f.pin == o.pin && f.dirty == o.dirty
                    },
                forall|s: int| 0 <= s < nn ==> #[trigger] fr0[s] == frame_view(old(self).frames@[s]),
                forall|s: int|
                    0 <= s < nn && sweep_offset(s, h0, nn) < k ==> #[trigger] fr0[s].pin > 0,
                forall|s: int|
                    0 <= s < nn ==> #[trigger] self.frames@[s].referenced == if fr0[s].pin == 0 {
                        false
                    } else {
                        fr0[s].referenced
                    },
            decreases n - k,
        {
            let slot = self.hand;
            self.hand = if self.hand + 1 == n {
                0
            } else {
                self.hand + 1
            };
            if self.frames[slot].pin > 0 {
                k += 1;
                continue;
            }
            if self.frames[slot].referenced {
                self.frames[slot].referenced = false;
                k += 1;
                continue;
            }
            proof {
                assert(sweep_offset(slot as int, h0, nn) == k);
            }
            return Some(slot);
        }
        proof {
            assert forall|s: int| 0 <= s < nn implies #[trigger] old(self).frames@[s].pin > 0 by {
                assert(sweep_offset(s, h0, nn) < nn);
                assert(fr0[s].pin > 0);
            }
            assert(self.frames() =~= old(self).frames());
        }
        None
    }

    /// Write the page in `slot` to the store if it is dirty.
    fn flush_slot(&mut self, slot: usize) -> (r: PageResult<()>)
        requires
            old(self).wf(),
            slot < old(self).capacity,
            old(self).frames@[slot as int].id is Some,
        ensures
            final(self).wf(),
            final(self).store == old(self).store,
            final(self).map@ == old(self).map@,
            final(self).free@ == old(self).free@,
            final(self).hand == old(self).hand,
            final(self).capacity == old(self).capacity,
            final(self).frames@.len() == old(self).frames@.len(),
            forall|s: int|
                0 <= s < old(self).frames@.len() && s != slot ==> #[trigger] final(self).frames@[s]
                    == old(self).frames@[s],
            ({
                let o = old(self).frames@[slot as int];
                let f = final(self).frames@[slot as int];
                &&& f.id == o.id
                &&& f.pin == o.pin
                &&& f.referenced == o.referenced
                &&& f.page@.len() == o.page@.len()
                &&& content_of(f.page@) == content_of(o.page@)
                &&& if !o.dirty {
                    &&& r is Ok
                    &&& f == o
                    &&& final(self).known@ == old(self).known@
                } else {
                    &&& exists|p: &mut Page|
                        mut_ref_current(p)@ == o.page@ && mut_ref_future(p)@ == f.page@
                            && #[trigger] call_ensures(
                            S::write_page,
                            (&final(self).store, page_id(o.id->0), p),
                            r,
                        )
                    &&& r is Ok ==> !f.dirty && final(self).known@ == old(self).known@.insert(
                        o.id->0,
                        content_of(o.page@),
                    )
                    &&& r is Err ==> f.dirty && final(self).known@ == old(self).known@
                }
            }),
            final(self).contents() == old(self).contents(),
    {
        if !self.frames[slot].dirty {
            return Ok(());
        }
        let id = match self.frames[slot].id {
            Some(id) => id,
            None => {
                return Ok(());
            },
        };
        let ghost before = self.frames@[slot as int];
        let pid = PageId::new(id);
        let r = write_to(&self.store, pid, &mut self.frames[slot].page);
        let ghost after = self.frames@[slot as int].page@;
        if r.is_ok() {
            self.frames[slot].dirty = false;
            proof {
                self.known@ = self.known@.insert(id, content_of(before.page@));
            }
        }
        proof {
            assert(self.contents() =~= old(self).contents());
            assert(self.frames@[slot as int].page@ == after);
            assert(exists|p: &mut Page|
                mut_ref_current(p)@ == before.page@ && mut_ref_future(p)@ == after
                    && #[trigger] call_ensures(S::write_page, (&self.store, page_id(id), p), r));
        }
        r
    }

    proof fn lemma_frames_view(pool: Self)
        ensures
            pool.frames().len() == pool.frames@.len(),
            forall|s: int|
                0 <= s < pool.frames@.len() ==> #[trigger] pool.frames()[s] == frame_view(
                    pool.frames@[s],
                ),
    {
    }

    /// A failure to obtain a frame, restated over the pool's public views.
    proof fn lemma_take_error(pool: Self, e: PageError)
        requires
            pool.wf(),
            pool.free@.len() == 0,
            (e == PageError::BufferPoolExhausted { capacity: pool.capacity } && forall|s: int|
                0 <= s < pool.capacity ==> #[trigger] pool.frames@[s].pin > 0) || exists|
                v: int,
                p: &mut Page,
            |
                clock_pick(pool.frames(), pool.hand as int, v) && pool.frames@[v].id is Some
                    && pool.frames@[v].dirty && mut_ref_current(p)@ == pool.frames@[v].page@
                    && #[trigger] call_ensures(
                    S::write_page,
                    (&pool.store, page_id(pool.frames@[v].id->0), p),
                    Err::<(), PageError>(e),
                ),
        ensures
            (pool.free_slots().len() == 0 && e == PageError::BufferPoolExhausted {
                capacity: pool.cap() as usize,
            } && forall|s: int| 0 <= s < pool.cap() ==> #[trigger] pool.frames()[s].pin > 0)
                || exists|v: int, p: &mut Page|
                clock_pick(pool.frames(), pool.hand() as int, v) && pool.frames()[v].id is Some
                    && pool.frames()[v].dirty && mut_ref_current(p)@ == pool.frames()[v].page
                    && #[trigger] call_ensures(
                    S::write_page,
                    (&pool.store(), page_id(pool.frames()[v].id->0), p),
                    Err::<(), PageError>(e),
                ),
    {
        Self::lemma_frames_view(pool);
        if e == (PageError::BufferPoolExhausted { capacity: pool.capacity }) && forall|s: int|
            0 <= s < pool.capacity ==> #[trigger] pool.frames@[s].pin > 0 {
            assert forall|s: int| 0 <= s < pool.cap() implies #[trigger] pool.frames()[s].pin > 0 by {
                assert(pool.frames@[s].pin > 0);
            }
        } else {
            let (v, p) = choose|v: int, p: &mut Page|
                clock_pick(pool.frames(), pool.hand as int, v) && pool.frames@[v].id is Some
                    && pool.frames@[v].dirty && mut_ref_current(p)@ == pool.frames@[v].page@
                    && #[trigger] call_ensures(
                    S::write_page,
                    (&pool.store, page_id(pool.frames@[v].id->0), p),
                    Err::<(), PageError>(e),
                );
            assert(pool.frames()[v] == frame_view(pool.frames@[v]));
            assert(call_ensures(
                S::write_page,
                (&pool.store(), page_id(pool.frames()[v].id->0), p),
                Err::<(), PageError>(e),
            ));
        }
    }

    /// The write of an evicted dirty victim, restated over the public views.
    proof fn lemma_take_write(pool: Self, slot: int)
        requires
            0 <= slot < pool.frames@.len(),
            pool.frames@[slot].dirty ==> exists|p: &mut Page, w: PageResult<()>|
                w is Ok && mut_ref_current(p)@ == pool.frames@[slot].page@ && #[trigger] call_ensures(
                    S::write_page,
                    (&pool.store, page_id(pool.frames@[slot].id->0), p),
                    w,
                ),
        ensures
            pool.frames()[slot].dirty ==> exists|p: &mut Page, w: PageResult<()>|
                w is Ok && mut_ref_current(p)@ == pool.frames()[slot].page && #[trigger] call_ensures(
                    S::write_page,
                    (&pool.store(), page_id(pool.frames()[slot].id->0), p),
                    w,
                ),
    {
        Self::lemma_frames_view(pool);
        if pool.frames@[slot].dirty {
            let (p, w) = choose|p: &mut Page, w: PageResult<()>|
                w is Ok && mut_ref_current(p)@ == pool.frames@[slot].page@ && #[trigger] call_ensures(
                    S::write_page,
                    (&pool.store, page_id(pool.frames@[slot].id->0), p),
                    w,
                );
            assert(pool.frames()[slot] == frame_view(pool.frames@[slot]));
            assert(call_ensures(
                S::write_page,
                (&pool.store(), page_id(pool.frames()[slot].id->0), p),
                w,
            ));
        }
    }

    /// Obtain a frame to fill: a free one, or an evicted victim (written to
    /// the store first if dirty). The frame comes back detached.
    fn take_slot(&mut self) -> (r: PageResult<usize>)
        requires
            old(self).wf(),
        ensures
            final(self).store == old(self).store,
            final(self).capacity == old(self).capacity,
            final(self).frames@.len() == old(self).frames@.len(),
            final(self).contents() == old(self).contents(),
            pinned_kept(old(self).frames(), final(self).frames()),
            forall|s: int|
                0 <= s < old(self).frames@.len() ==> {
                    let o = #[trigger] old(self).frames@[s];
                    let f = final(self).frames@[s];
                    &&& f.page@.len() == o.page@.len()
                    &&& f.pin == o.pin
                },
            match r {
                Ok(slot) => {
                    &&& final(self).inv_with(slot as int)
                    &&& slot < old(self).capacity
                    &&& old(self).frames@[slot as int].pin == 0
                    &&& final(self).frames@[slot as int].pin == 0
                    &&& forall|s: int|
                        0 <= s < old(self).frames@.len() && s != slot ==> {
                            let o = #[trigger] old(self).frames@[s];
                            let f = final(self).frames@[s];
                            f.page == o.page && f.id == o.id && f.pin == o.pin && f.dirty
                                == o.dirty
                        }
                    &&& if old(self).free@.len() > 0 {
                        &&& slot == old(self).free@.last()
                        &&& final(self).free@ == old(self).free@.drop_last()
                        &&& final(self).frames@ == old(self).frames@
                        &&& final(self).hand == old(self).hand
                        &&& final(self).map@ == old(self).map@
                        &&& final(self).known@ == old(self).known@
                    } else {
                        &&& clock_pick(old(self).frames(), old(self).hand as int, slot as int)
                        &&& final(self).hand == if slot + 1 == old(self).capacity {
                            0
                        } else {
                            slot + 1
                        }
                        &&& forall|s: int|
                            0 <= s < old(self).capacity && s != slot ==> #[trigger] final(self).frames@[s].referenced
                                == swept_ref(old(self).frames(), old(self).hand as int, slot as int, s)
                        &&& old(self).frames@[slot as int].id is Some
                        &&& final(self).map@ == old(self).map@.remove(
                            old(self).frames@[slot as int].id->0,
                        )
                        &&& final(self).free@ == old(self).free@
                        &&& old(self).frames@[slot as int].dirty ==> exists|
                            p: &mut Page,
                            w: PageResult<()>,
                        |
                            w is Ok && mut_ref_current(p)@ == old(self).frames@[slot as int].page@
                                && mut_ref_future(p)@ == final(self).frames@[slot as int].page@
                                && #[trigger] call_ensures(
                                S::write_page,
                                (&old(self).store, page_id(old(self).frames@[slot as int].id->0), p),
                                w,
                            )
                    }
                },
                Err(e) => {
                    &&& final(self).wf()
                    &&& old(self).free@.len() == 0
                    &&& (e == PageError::BufferPoolExhausted { capacity: old(self).capacity }
                        && forall|s: int|
                        0 <= s < old(self).capacity ==> #[trigger] old(self).frames@[s].pin > 0)
                        || exists|v: int, p: &mut Page|
                        clock_pick(old(self).frames(), old(self).hand as int, v)
                            && old(self).frames@[v].id is Some && old(self).frames@[v].dirty
                            && mut_ref_current(p)@ == old(self).frames@[v].page@
                            && #[trigger] call_ensures(
                            S::write_page,
                            (&old(self).store, page_id(old(self).frames@[v].id->0), p),
                            Err::<(), PageError>(e),
                        )
                    &&& final(self).free@ == old(self).free@
                    &&& final(self).map@ == old(self).map@
                    &&& (forall|s: int|
                        0 <= s < old(self).capacity ==> #[trigger] old(self).frames@[s].pin > 0)
                        ==> {
                        &&& e == PageError::BufferPoolExhausted { capacity: old(self).capacity }
                        &&& final(self).frames() == old(self).frames()
                        &&& final(self).hand == old(self).hand
                        &&& final(self).known@ == old(self).known@
                    }
                },
            },
    {
        if let Some(slot) = self.free.pop() {
            proof {
                let of = old(self).free@;
                assert(of.last() == slot);
                assert forall|t: int| 0 <= t < self.capacity && t != slot implies (
                #[trigger] self.frames@[t].id is None <==> self.free@.contains(t as usize)) by {
                    if of.contains(t as usize) {
                        let k = choose|k: int| 0 <= k < of.len() && of[k] == t as usize;
                        assert(k != of.len() - 1);
                        assert(self.free@[k] == t as usize);
                    }
                    if self.free@.contains(t as usize) {
                        let k = choose|k: int| 0 <= k < self.free@.len() && self.free@[k] == t as usize;
                        assert(of[k] == t as usize);
                    }
                }
                assert(!self.free@.contains(slot)) by {
                    if self.free@.contains(slot) {
                        let k = choose|k: int| 0 <= k < self.free@.len() && self.free@[k] == slot;
                        assert(of[k] == of[of.len() - 1]);
                    }
                }
                assert(of.contains(slot)) by {
                    assert(of[of.len() - 1] == slot);
                }
                assert(self.free@.no_duplicates());
                assert forall|i: int| 0 <= i < self.free@.len() implies #[trigger] self.free@[i]
                    < self.capacity by {
                    assert(self.free@[i] == of[i]);
                }
            }
            return Ok(slot);
        }
        let slot = match self.find_victim() {
            Some(slot) => slot,
            None => {
                proof {
                    assert(self.contents() =~= old(self).contents());
                }
                return Err(PageError::BufferPoolExhausted { capacity: self.capacity });
            },
        };
        proof {
            assert(self.frames@[slot as int].id is Some) by {
                if self.frames@[slot as int].id is None {
                    assert(self.free@.contains(slot));
                }
            }
            assert(self.contents() =~= old(self).contents());
            assert(self.frames@[slot as int].pin == 0) by {
                assert(old(self).frames()[slot as int].pin == 0);
            }
        }
        let victim = match self.frames[slot].id {
            Some(v) => v,
            None => {
                return Err(PageError::BufferPoolExhausted { capacity: self.capacity });
            },
        };
        let ghost mid = *self;
        let fr = self.flush_slot(slot);
        let ghost fr_g = fr;
        proof {
            assert(mid.frames@[slot as int].page == old(self).frames@[slot as int].page);
            assert(mid.frames@[slot as int].dirty == old(self).frames@[slot as int].dirty);
        }
        match fr {
            Ok(()) => {},
            Err(e) => {
                return Err(e);
            },
        }
        let ghost flushed = *self;
        let _ = self.map.remove(&victim);
        self.frames[slot].id = None;
        proof {
            assert(!self.frames@[slot as int].dirty);
            assert(self.known@.contains_key(victim));
            assert(self.known@[victim] == content_of(self.frames@[slot as int].page@));
            assert(self.contents() =~= flushed.contents()) by {
                assert forall|x: u64| #[trigger] self.contents().contains_key(x) <==> flushed.contents().contains_key(x) by {}
                assert forall|x: u64| #[trigger] self.contents().contains_key(x) implies self.contents()[x] == flushed.contents()[x] by {
                    if x != victim && self.map@.contains_key(x) {
                        assert(self.map@[x] != slot);
                    }
                }
            }
            assert forall|t: int| 0 <= t < self.capacity && #[trigger] self.frames@[t].id is Some implies
                self.map@.contains_key(self.frames@[t].id->0) && self.map@[self.frames@[t].id->0] == t by {
                assert(t != slot);
                assert(flushed.frames@[t].id == self.frames@[t].id);
            }
        }
        Ok(slot)
    }

    /// Install page `id` into the detached frame `slot` and pin it.
    fn install(&mut self, slot: usize, id: PageId, dirty: bool) -> (g: PageGuard)
        requires
            old(self).inv_with(slot as int),
            slot < old(self).capacity,
            !old(self).map@.contains_key(id@),
            !dirty ==> old(self).known@.contains_key(id@) && old(self).known@[id@] == content_of(
                old(self).frames@[slot as int].page@,
            ),
        ensures
            final(self).wf(),
            final(self).store == old(self).store,
            final(self).capacity == old(self).capacity,
            final(self).free@ == old(self).free@,
            final(self).hand == old(self).hand,
            final(self).known@ == old(self).known@,
            final(self).map@ == old(self).map@.insert(id@, slot),
            final(self).frames@ == old(self).frames@.update(
                slot as int,
                Frame {
                    page: old(self).frames@[slot as int].page,
                    id: Some(id@),
                    pin: 1,
                    dirty,
                    referenced: true,
                },
            ),
            g.slot() == slot,
            g.page_id() == id@,
    {
        self.frames[slot].id = Some(id.get());
        self.frames[slot].dirty = dirty;
        self.frames[slot].referenced = true;
        self.frames[slot].pin = 1;
        let _ = self.map.insert(id.get(), slot);
        proof {
            assert(self.frames@ =~= old(self).frames@.update(
                slot as int,
                Frame {
                    page: old(self).frames@[slot as int].page,
                    id: Some(id@),
                    pin: 1,
                    dirty,
                    referenced: true,
                },
            ));
        }
        PageGuard { slot, id }
    }

    /// Build a pool of `capacity` frames over `store`. The capacity is
    /// clamped up to at least one; the frame buffers are allocated here, once.
    pub fn new(store: S, capacity: usize) -> (pool: Self)
        ensures
            pool.wf(),
            pool.cap() == if capacity == 0 {
                1
            } else {
                capacity
            },
            pool.frames().len() == pool.cap(),
            forall|s: int|
                0 <= s < pool.cap() ==> #[trigger] pool.frames()[s].id is None && pool.frames()[s].pin
                    == 0,
            pool.free_slots() == Seq::new(pool.cap(), |i: int| i as usize),
            pool.slots() == Map::<u64, usize>::empty(),
            pool.known() == Map::<u64, (nat, Seq<u8>)>::empty(),
            pool.hand() == 0,
            pool.store() == store,
            forall|s: int|
                0 <= s < pool.cap() ==> exists|pg: Page|
                    pg@ == (#[trigger] pool.frames()[s]).page && call_ensures(
                        S::allocate_page,
                        (&store,),
                        pg,
                    ),
    {
        let capacity = if capacity == 0 {
            1
        } else {
            capacity
        };
        let mut frames: Vec<Frame> = Vec::with_capacity(capacity);
        let mut i: usize = 0;
        while i < capacity
            invariant
                i <= capacity,
                frames@.len() == i,
                forall|s: int|
                    0 <= s < i ==> #[trigger] frames@[s].id is None && frames@[s].pin == 0
                        && !frames@[s].dirty,
                forall|s: int|
                    0 <= s < i ==> call_ensures(S::allocate_page, (&store,), #[trigger] frames@[s].page),
            decreases capacity - i,
        {
            let pg = store.allocate_page();
            frames.push(Frame::new(pg));
            i += 1;
        }
        let mut free: Vec<usize> = Vec::with_capacity(capacity);
        let mut j: usize = 0;
        while j < capacity
            invariant
                j <= capacity,
                free@ == Seq::new(j as nat, |i: int| i as usize),
            decreases capacity - j,
        {
            free.push(j);
            j += 1;
            proof {
                assert(free@ =~= Seq::new(j as nat, |i: int| i as usize));
            }
        }
        let pool = BufferPool {
            store,
            frames,
            map: HashMap::with_capacity(capacity),
            free,
            hand: 0,
            capacity,
            known: Ghost(Map::empty()),
        };
        proof {
            assert forall|s: int| 0 <= s < capacity implies (#[trigger] pool.frames@[s].id is None
                <==> pool.free@.contains(s as usize)) by {
                assert(pool.free@[s] == s as usize);
            }
            Self::lemma_frames_view(pool);
            assert forall|s: int| 0 <= s < pool.cap() implies exists|pg: Page|
                pg@ == (#[trigger] pool.frames()[s]).page && call_ensures(
                    S::allocate_page,
                    (&store,),
                    pg,
                ) by {
                assert(pool.frames()[s] == frame_view(pool.frames@[s]));
                assert(call_ensures(S::allocate_page, (&store,), pool.frames@[s].page));
            }
        }
        pool
    }

    /// The number of frames in the pool.
    pub fn capacity(&self) -> (n: usize)
        ensures
            n == self.cap(),
    {
        self.capacity
    }

    /// The number of pages currently resident.
    pub fn resident_len(&self) -> (n: usize)
        requires
            self.wf(),
        ensures
            n == self.slots().len(),
    {
        self.map.len()
    }

    /// Whether page `id` is currently held in the pool.
    pub fn is_resident(&self, id: PageId) -> (b: bool)
        requires
            self.wf(),
        ensures
            b == self.slots().contains_key(id@),
    {
        self.map.contains_key(&id.get())
    }

    /// Fetch the page at `id`, pinning it and returning a guard.
    ///
    /// Served from the cache if resident; otherwise a frame is found (a free
    /// one, or the clock's victim, written to the store first if dirty) and
    /// the page is read from the store into it.
    pub fn fetch(&mut self, id: PageId) -> (r: PageResult<PageGuard>)
        requires
            old(self).wf(),
        ensures
            final(self).wf(),
            final(self).cap() == old(self).cap(),
            same_except(old(self).contents(), final(self).contents(), id@),
            pinned_kept(old(self).frames(), final(self).frames()),
            old(self).slots().contains_key(id@) ==> {
                let slot = old(self).slots()[id@];
                let o = old(self).frames()[slot as int];
                if o.pin < usize::MAX {
                    &&& r is Ok
                    &&& r->Ok_0.slot() == slot
                    &&& r->Ok_0.page_id() == id@
                    &&& final(self).frames() == old(self).frames().update(
                        slot as int,
                        FrameView { pin: o.pin + 1, referenced: true, ..o },
                    )
                    &&& final(self).slots() == old(self).slots()
                    &&& final(self).known() == old(self).known()
                    &&& final(self).hand() == old(self).hand()
                    &&& final(self).free_slots() == old(self).free_slots()
                } else {
                    &&& r == Err::<PageGuard, PageError>(
                        PageError::BufferPoolExhausted { capacity: old(self).cap() as usize },
                    )
                    &&& final(self).frames() == old(self).frames()
                }
            },
            !old(self).slots().contains_key(id@) ==> {
                &&& (old(self).free_slots().len() == 0 && forall|s: int|
                    0 <= s < old(self).cap() ==> #[trigger] old(self).frames()[s].pin > 0) ==> {
                    &&& r == Err::<PageGuard, PageError>(
                        PageError::BufferPoolExhausted { capacity: old(self).cap() as usize },
                    )
                    &&& final(self).frames() == old(self).frames()
                    &&& final(self).hand() == old(self).hand()
                    &&& final(self).slots() == old(self).slots()
                }
                &&& match r {
                    Ok(g) => {
                        &&& g.page_id() == id@
                        &&& old(self).free_slots().len() > 0 ==> final(self).hand() == old(self).hand()
                            && forall|s: int|
                            0 <= s < old(self).cap() && s != g.slot() ==> #[trigger] final(self).frames()[s]
                                == old(self).frames()[s]
                        &&& old(self).free_slots().len() == 0 ==> final(self).hand() == (if g.slot() + 1
                            == old(self).cap() {
                            0
                        } else {
                            g.slot() + 1
                        }) && forall|s: int|
                            0 <= s < old(self).cap() && s != g.slot() ==> #[trigger] final(self).frames()[s]
                                == (FrameView {
                                referenced: swept_ref(
                                    old(self).frames(),
                                    old(self).hand() as int,
                                    g.slot() as int,
                                    s,
                                ),
                                ..old(self).frames()[s]
                            })
                        &&& exists|p: &mut Page, w: PageResult<()>|
                            w is Ok && mut_ref_future(p)@ == final(self).frames()[g.slot() as int].page
                                && #[trigger] call_ensures(
                                S::read_into,
                                (&old(self).store(), page_id(id@), p),
                                w,
                            )
                        &&& old(self).free_slots().len() == 0 && old(self).frames()[g.slot() as int].dirty
                            ==> exists|p: &mut Page, w: PageResult<()>|
                            w is Ok && mut_ref_current(p)@ == old(self).frames()[g.slot() as int].page
                                && #[trigger] call_ensures(
                                S::write_page,
                                (
                                    &old(self).store(),
                                    page_id(old(self).frames()[g.slot() as int].id->0),
                                    p,
                                ),
                                w,
                            )
                        &&& final(self).slots() == if old(self).free_slots().len() > 0 {
                            old(self).slots().insert(id@, g.slot() as usize)
                        } else {
                            old(self).slots().remove(
                                old(self).frames()[g.slot() as int].id->0,
                            ).insert(id@, g.slot() as usize)
                        }
                        &&& final(self).frames()[g.slot() as int].pin == 1
                        &&& !final(self).frames()[g.slot() as int].dirty
                        &&& final(self).frames()[g.slot() as int].referenced
                        &&& final(self).known()[id@] == content_of(
                            final(self).frames()[g.slot() as int].page,
                        )
                        &&& if old(self).free_slots().len() > 0 {
                            g.slot() == old(self).free_slots().last()
                        } else {
                            clock_pick(old(self).frames(), old(self).hand() as int, g.slot() as int)
                        }
                    },
                    Err(e) => {
                        &&& !final(self).slots().contains_key(id@)
                        &&& {
                            ||| old(self).free_slots().len() == 0 && e
                                == PageError::BufferPoolExhausted {
                                capacity: old(self).cap() as usize,
                            } && forall|s: int|
                                0 <= s < old(self).cap() ==> #[trigger] old(self).frames()[s].pin > 0
                            ||| exists|v: int, p: &mut Page|
                                clock_pick(old(self).frames(), old(self).hand() as int, v)
                                    && old(self).frames()[v].id is Some && old(self).frames()[v].dirty
                                    && mut_ref_current(p)@ == old(self).frames()[v].page
                                    && #[trigger] call_ensures(
                                    S::write_page,
                                    (&old(self).store(), page_id(old(self).frames()[v].id->0), p),
                                    Err::<(), PageError>(e),
                                )
                            ||| {
                                &&& exists|p: &mut Page|
                                    #[trigger] call_ensures(
                                        S::read_into,
                                        (&old(self).store(), page_id(id@), p),
                                        Err::<(), PageError>(e),
                                    )
                                &&& old(self).free_slots().len() > 0 ==> final(self).free_slots()
                                    == old(self).free_slots()
                                &&& old(self).free_slots().len() == 0 ==> exists|v: int|
                                    #[trigger] clock_pick(old(self).frames(), old(self).hand() as int, v)
                                        && final(self).free_slots() == seq![v as usize]
                                        && (old(self).frames()[v].dirty ==> exists|
                                        p: &mut Page,
                                        w: PageResult<()>,
                                    |
                                        w is Ok && mut_ref_current(p)@ == old(self).frames()[v].page
                                            && #[trigger] call_ensures(
                                            S::write_page,
                                            (&old(self).store(), page_id(old(self).frames()[v].id->0), p),
                                            w,
                                        ))
                            }
                        }
                    },
                }
            },
            r is Ok ==> final(self).holds(&r->Ok_0),
    {
        if let Some(slot_ref) = self.map.get(&id.get()) {
            let slot = *slot_ref;
            if self.frames[slot].pin == usize::MAX {
                return Err(PageError::BufferPoolExhausted { capacity: self.capacity });
            }
            self.frames[slot].pin = self.frames[slot].pin + 1;
            self.frames[slot].referenced = true;
            proof {
                assert(self.frames() =~= old(self).frames().update(
                    slot as int,
                    FrameView {
                        pin: old(self).frames()[slot as int].pin + 1,
                        referenced: true,
                        ..old(self).frames()[slot as int]
                    },
                ));
                assert(self.contents() =~= old(self).contents());
            }
            return Ok(PageGuard { slot, id });
        }
        let ghost pre = *self;
        let slot = match self.take_slot() {
            Ok(slot) => slot,
            Err(e) => {
                proof {
                    if forall|s: int| 0 <= s < old(self).cap() ==> #[trigger] old(self).frames()[s].pin > 0 {
                        assert forall|s: int| 0 <= s < old(self).capacity implies #[trigger] old(self).frames@[s].pin > 0 by {
                            assert(old(self).frames()[s].pin > 0);
                        }
                    }
                    Self::lemma_take_error(*old(self), e);
                }
                return Err(e);
            },
        };
        let ghost taken = *self;
        let r = read_from(&self.store, id, &mut self.frames[slot].page);
        let ghost after_read = self.frames@[slot as int].page@;
        proof {
            crate::page::lemma_page_id_of_view(id);
        }
        match r {
            Ok(()) => {},
            Err(e) => {
                self.free.push(slot);
                proof {
                    assert(self.free@.no_duplicates()) by {
                        assert forall|a: int, b: int|
                            0 <= a < self.free@.len() && 0 <= b < self.free@.len() && a != b implies self.free@[a]
                            != self.free@[b] by {
                            if a == self.free@.len() - 1 {
                                assert(taken.free@.contains(self.free@[b]));
                            } else if b == self.free@.len() - 1 {
                                assert(taken.free@.contains(self.free@[a]));
                            }
                        }
                    }
                    assert forall|t: int| 0 <= t < self.capacity implies (#[trigger] self.frames@[t].id is None
                        <==> self.free@.contains(t as usize)) by {
                        if t != slot {
                            if taken.free@.contains(t as usize) {
                                let k = choose|k: int| 0 <= k < taken.free@.len() && taken.free@[k] == t as usize;
                                assert(self.free@[k] == t as usize);
                            }
                            if self.free@.contains(t as usize) {
                                let k = choose|k: int| 0 <= k < self.free@.len() && self.free@[k] == t as usize;
                                if k < taken.free@.len() {
                                    assert(taken.free@[k] == t as usize);
                                }
                            }
                        } else {
                            assert(self.free@[self.free@.len() - 1] == slot);
                        }
                    }
                    assert(self.contents() =~= taken.contents());
                    assert(r == Err::<(), PageError>(e));
                    assert(taken.store == old(self).store);
                    assert(exists|p: &mut Page|
                        #[trigger] call_ensures(
                            S::read_into,
                            (&old(self).store(), page_id(id@), p),
                            Err::<(), PageError>(e),
                        ));
                    if old(self).free@.len() > 0 {
                        assert(self.free@ =~= old(self).free@);
                    } else {
                        assert(self.free@ =~= seq![slot]);
                        Self::lemma_take_write(*old(self), slot as int);
                        assert(clock_pick(old(self).frames(), old(self).hand() as int, slot as int));
                    }
                }
                return Err(e);
            },
        }
        proof {
            self.known@ = self.known@.insert(id@, content_of(self.frames@[slot as int].page@));
            assert(self.contents().remove(id@) =~= taken.contents().remove(id@)) by {
                assert forall|x: u64| x != id@ && #[trigger] self.slots().contains_key(x) implies self.slots()[x] != slot by {}
            }
        }
        let g = self.install(slot, id, false);
        proof {
            assert forall|x: u64| x != id@ implies (pre.contents().contains_key(x) <==> #[trigger] self.contents().contains_key(x))
                && (pre.contents().contains_key(x) ==> self.contents()[x] == pre.contents()[x]) by {
                assert(taken.contents().remove(id@).contains_key(x) == taken.contents().contains_key(x));
                if self.slots().contains_key(x) {
                    assert(self.slots()[x] != slot);
                }
            }
        }
        Ok(g)
    }

    /// Introduce a fresh, zeroed page at `id`, pinning it and returning a
    /// guard.
    ///
    /// The page is created in memory and marked dirty, so it reaches the store
    /// on the next flush; no read is performed. If `id` is already resident it
    /// is reset to a blank page.
    pub fn new_page(&mut self, id: PageId) -> (r: PageResult<PageGuard>)
        requires
            old(self).wf(),
        ensures
            final(self).wf(),
            final(self).cap() == old(self).cap(),
            same_except(old(self).contents(), final(self).contents(), id@),
            pinned_kept(old(self).frames(), final(self).frames()),
            old(self).slots().contains_key(id@) ==> {
                let slot = old(self).slots()[id@];
                let o = old(self).frames()[slot as int];
                if o.pin < usize::MAX {
                    &&& r is Ok
                    &&& r->Ok_0.slot() == slot
                    &&& final(self).frames() == old(self).frames().update(
                        slot as int,
                        FrameView {
                            pin: o.pin + 1,
                            referenced: true,
                            dirty: true,
                            page: blank_page(o.page.len()),
                            ..o
                        },
                    )
                    &&& final(self).slots() == old(self).slots()
                    &&& final(self).known() == old(self).known()
                    &&& final(self).hand() == old(self).hand()
                    &&& final(self).free_slots() == old(self).free_slots()
                } else {
                    &&& r == Err::<PageGuard, PageError>(
                        PageError::BufferPoolExhausted { capacity: old(self).cap() as usize },
                    )
                    &&& final(self).frames() == old(self).frames()
                }
            },
            !old(self).slots().contains_key(id@) ==> {
                &&& (old(self).free_slots().len() == 0 && forall|s: int|
                    0 <= s < old(self).cap() ==> #[trigger] old(self).frames()[s].pin > 0) ==> {
                    &&& r == Err::<PageGuard, PageError>(
                        PageError::BufferPoolExhausted { capacity: old(self).cap() as usize },
                    )
                    &&& final(self).frames() == old(self).frames()
                    &&& final(self).hand() == old(self).hand()
                    &&& final(self).slots() == old(self).slots()
                }
                &&& old(self).free_slots().len() > 0 ==> r is Ok
                &&& match r {
                    Ok(g) => {
                        &&& old(self).free_slots().len() > 0 ==> final(self).hand() == old(self).hand()
                            && forall|s: int|
                            0 <= s < old(self).cap() && s != g.slot() ==> #[trigger] final(self).frames()[s]
                                == old(self).frames()[s]
                        &&& old(self).free_slots().len() == 0 ==> final(self).hand() == (if g.slot() + 1
                            == old(self).cap() {
                            0
                        } else {
                            g.slot() + 1
                        }) && forall|s: int|
                            0 <= s < old(self).cap() && s != g.slot() ==> #[trigger] final(self).frames()[s]
                                == (FrameView {
                                referenced: swept_ref(
                                    old(self).frames(),
                                    old(self).hand() as int,
                                    g.slot() as int,
                                    s,
                                ),
                                ..old(self).frames()[s]
                            })
                        &&& old(self).free_slots().len() == 0 && old(self).frames()[g.slot() as int].dirty
                            ==> exists|p: &mut Page, w: PageResult<()>|
                            w is Ok && mut_ref_current(p)@ == old(self).frames()[g.slot() as int].page
                                && #[trigger] call_ensures(
                                S::write_page,
                                (
                                    &old(self).store(),
                                    page_id(old(self).frames()[g.slot() as int].id->0),
                                    p,
                                ),
                                w,
                            )
                        &&& final(self).slots() == if old(self).free_slots().len() > 0 {
                            old(self).slots().insert(id@, g.slot() as usize)
                        } else {
                            old(self).slots().remove(
                                old(self).frames()[g.slot() as int].id->0,
                            ).insert(id@, g.slot() as usize)
                        }
                        &&& final(self).frames()[g.slot() as int].pin == 1
                        &&& final(self).frames()[g.slot() as int].dirty
                        &&& final(self).frames()[g.slot() as int].referenced
                        &&& final(self).frames()[g.slot() as int].page == blank_page(
                            old(self).frames()[g.slot() as int].page.len(),
                        )
                        &&& if old(self).free_slots().len() > 0 {
                            g.slot() == old(self).free_slots().last()
                        } else {
                            clock_pick(old(self).frames(), old(self).hand() as int, g.slot() as int)
                        }
                    },
                    Err(e) => {
                        &&& !final(self).slots().contains_key(id@)
                        &&& (old(self).free_slots().len() == 0 && e == PageError::BufferPoolExhausted {
                            capacity: old(self).cap() as usize,
                        } && forall|s: int|
                            0 <= s < old(self).cap() ==> #[trigger] old(self).frames()[s].pin > 0)
                            || exists|v: int, p: &mut Page|
                            clock_pick(old(self).frames(), old(self).hand() as int, v)
                                && old(self).frames()[v].id is Some && old(self).frames()[v].dirty
                                && mut_ref_current(p)@ == old(self).frames()[v].page
                                && #[trigger] call_ensures(
                                S::write_page,
                                (&old(self).store(), page_id(old(self).frames()[v].id->0), p),
                                Err::<(), PageError>(e),
                            )
                    },
                }
            },
            r is Ok ==> {
                &&& final(self).holds(&r->Ok_0)
                &&& r->Ok_0.page_id() == id@
                &&& final(self).frames()[r->Ok_0.slot() as int].dirty
            },
    {
        if let Some(slot_ref) = self.map.get(&id.get()) {
            let slot = *slot_ref;
            if self.frames[slot].pin == usize::MAX {
                return Err(PageError::BufferPoolExhausted { capacity: self.capacity });
            }
            self.frames[slot].page.reset();
            self.frames[slot].pin = self.frames[slot].pin + 1;
            self.frames[slot].dirty = true;
            self.frames[slot].referenced = true;
            proof {
                let o = old(self).frames()[slot as int];
                assert(self.frames() =~= old(self).frames().update(
                    slot as int,
                    FrameView {
                        pin: o.pin + 1,
                        referenced: true,
                        dirty: true,
                        page: blank_page(o.page.len()),
                        ..o
                    },
                ));
                assert forall|x: u64| x != id@ implies (old(self).contents().contains_key(x)
                    <==> #[trigger] self.contents().contains_key(x)) && (old(self).contents().contains_key(x)
                    ==> self.contents()[x] == old(self).contents()[x]) by {
                    if self.slots().contains_key(x) {
                        assert(self.slots()[x] != slot);
                    }
                }
            }
            return Ok(PageGuard { slot, id });
        }
        let slot = match self.take_slot() {
            Ok(slot) => slot,
            Err(e) => {
                proof {
                    if forall|s: int| 0 <= s < old(self).cap() ==> #[trigger] old(self).frames()[s].pin > 0 {
                        assert forall|s: int| 0 <= s < old(self).capacity implies #[trigger] old(self).frames@[s].pin > 0 by {
                            assert(old(self).frames()[s].pin > 0);
                        }
                    }
                    Self::lemma_take_error(*old(self), e);
                }
                return Err(e);
            },
        };
        let ghost taken = *self;
        self.frames[slot].page.reset();
        let g = self.install(slot, id, true);
        proof {
            assert forall|x: u64| x != id@ implies (old(self).contents().contains_key(x)
                <==> #[trigger] self.contents().contains_key(x)) && (old(self).contents().contains_key(x)
                ==> self.contents()[x] == old(self).contents()[x]) by {
                assert(taken.contents().contains_key(x) == old(self).contents().contains_key(x));
                if self.slots().contains_key(x) {
                    assert(self.slots()[x] != slot);
                    assert(taken.slots().contains_key(x));
                }
                if taken.slots().contains_key(x) {
                    assert(taken.slots()[x] != slot);
                }
            }
        }
        Ok(g)
    }

    /// Write page `id` to the store if it is resident and dirty.
    ///
    /// This places the bytes in the store; call [`BufferPool::sync`] to make
    /// them durable.
    pub fn flush(&mut self, id: PageId) -> (r: PageResult<()>)
        requires
            old(self).wf(),
        ensures
            final(self).wf(),
            final(self).cap() == old(self).cap(),
            final(self).contents() == old(self).contents(),
            final(self).slots() == old(self).slots(),
            final(self).hand() == old(self).hand(),
            final(self).free_slots() == old(self).free_slots(),
            final(self).frames().len() == old(self).frames().len(),
            forall|s: int|
                0 <= s < old(self).frames().len() ==> {
                    let o = #[trigger] old(self).frames()[s];
                    let f = final(self).frames()[s];
                    &&& f.id == o.id
                    &&& f.pin == o.pin
                    &&& f.referenced == o.referenced
                    &&& content_of(f.page) == content_of(o.page)
                    &&& (f.dirty ==> o.dirty)
                },
            !old(self).slots().contains_key(id@) ==> r is Ok && final(self).frames() == old(self).frames() && final(self).known() == old(self).known(),
            old(self).slots().contains_key(id@) && r is Ok ==> !final(self).frames()[old(self).slots()[id@] as int].dirty && final(self).known()[id@] == old(self).contents()[id@],
            old(self).slots().contains_key(id@) && old(self).frames()[old(self).slots()[id@] as int].dirty
                ==> exists|p: &mut Page|
                mut_ref_current(p)@ == old(self).frames()[old(self).slots()[id@] as int].page
                    && #[trigger] call_ensures(S::write_page, (&old(self).store(), page_id(id@), p), r),
            old(self).slots().contains_key(id@) && !old(self).frames()[old(self).slots()[id@] as int].dirty
                ==> r is Ok,
    {
        if let Some(slot_ref) = self.map.get(&id.get()) {
            let slot = *slot_ref;
            let r = self.flush_slot(slot);
            proof {
                assert forall|s: int| 0 <= s < old(self).frames().len() implies {
                    let o = #[trigger] old(self).frames()[s];
                    let f = self.frames()[s];
                    &&& f.id == o.id
                    &&& f.pin == o.pin
                    &&& f.referenced == o.referenced
                    &&& content_of(f.page) == content_of(o.page)
                    &&& (f.dirty ==> o.dirty)
                } by {
                    if s != slot {
                        assert(self.frames@[s] == old(self).frames@[s]);
                    }
                }
                Self::lemma_frames_view(*old(self));
                assert(old(self).frames()[slot as int] == frame_view(old(self).frames@[slot as int]));
                assert(old(self).frames@[slot as int].id == Some(id@));
                if old(self).frames@[slot as int].dirty {
                    let q = choose|q: &mut Page|
                        mut_ref_current(q)@ == old(self).frames@[slot as int].page@
                            && mut_ref_future(q)@ == self.frames@[slot as int].page@
                            && #[trigger] call_ensures(
                            S::write_page,
                            (&self.store, page_id(old(self).frames@[slot as int].id->0), q),
                            r,
                        );
                    assert(call_ensures(S::write_page, (&old(self).store(), page_id(id@), q), r));
                }
            }
            return r;
        }
        Ok(())
    }

    /// Write every dirty resident page to the store, frame by frame. On error
    /// the frames before the failing one are already written; the operation
    /// is safe to retry.
    pub fn flush_all(&mut self) -> (r: PageResult<()>)
        requires
            old(self).wf(),
        ensures
            final(self).wf(),
            final(self).cap() == old(self).cap(),
            final(self).contents() == old(self).contents(),
            final(self).slots() == old(self).slots(),
            final(self).hand() == old(self).hand(),
            final(self).free_slots() == old(self).free_slots(),
            final(self).frames().len() == old(self).frames().len(),
            forall|s: int|
                0 <= s < old(self).frames().len() ==> {
                    let o = #[trigger] old(self).frames()[s];
                    let f = final(self).frames()[s];
                    &&& f.id == o.id
                    &&& f.pin == o.pin
                    &&& f.referenced == o.referenced
                    &&& content_of(f.page) == content_of(o.page)
                    &&& (f.dirty ==> o.dirty)
                },
            r is Ok ==> forall|s: int|
                0 <= s < final(self).frames().len() ==> !(#[trigger] final(self).frames()[s]).dirty,
            r is Ok ==> forall|x: u64| #[trigger]
                old(self).slots().contains_key(x) ==> final(self).known().contains_key(x)
                    && final(self).known()[x] == old(self).contents()[x],
            final(self).store() == old(self).store(),
            (forall|s: int| 0 <= s < old(self).frames().len() ==> !(#[trigger] old(self).frames()[s]).dirty)
                ==> r is Ok && final(self).frames() == old(self).frames() && final(self).known()
                == old(self).known(),
            r is Ok ==> forall|s: int|
                0 <= s < old(self).frames().len() && (#[trigger] old(self).frames()[s]).dirty
                    ==> exists|p: &mut Page, w: PageResult<()>|
                    w is Ok && mut_ref_current(p)@ == old(self).frames()[s].page
                        && #[trigger] call_ensures(
                        S::write_page,
                        (&old(self).store(), page_id(old(self).frames()[s].id->0), p),
                        w,
                    ),
            forall|s: int|
                0 <= s < old(self).frames().len() && (#[trigger] old(self).frames()[s]).dirty
                    && !final(self).frames()[s].dirty ==> exists|p: &mut Page, w: PageResult<()>|
                    w is Ok && mut_ref_current(p)@ == old(self).frames()[s].page
                        && #[trigger] call_ensures(
                        S::write_page,
                        (&old(self).store(), page_id(old(self).frames()[s].id->0), p),
                        w,
                    ),
            r matches Err(e) ==> exists|s: int, p: &mut Page|
                0 <= s < old(self).frames().len() && old(self).frames()[s].dirty && mut_ref_current(
                    p,
                )@ == old(self).frames()[s].page && #[trigger] call_ensures(
                    S::write_page,
                    (&old(self).store(), page_id(old(self).frames()[s].id->0), p),
                    Err::<(), PageError>(e),
                ),
    {
        let n = self.capacity;
        let ghost clean: bool = forall|s: int| 0 <= s < n ==> !(#[trigger] old(self).frames@[s]).dirty;
        proof {
            assert forall|s: int| 0 <= s < n implies #[trigger] old(self).frames()[s] == frame_view(
                old(self).frames@[s],
            ) by {}
            if forall|s: int| 0 <= s < old(self).frames().len() ==> !(#[trigger] old(self).frames()[s]).dirty {
                assert forall|s: int| 0 <= s < n implies !(#[trigger] old(self).frames@[s]).dirty by {
                    assert(!old(self).frames()[s].dirty);
                }
                assert(clean);
            }
        }
        let mut slot: usize = 0;
        while slot < n
            invariant
                self.wf(),
                old(self).wf(),
                n == self.capacity,
                self.capacity == old(self).capacity,
                slot <= n,
                self.store == old(self).store,
                self.contents() == old(self).contents(),
                self.map@ == old(self).map@,
                self.hand == old(self).hand,
                self.free@ == old(self).free@,
                self.frames@.len() == n,
                forall|s: int|
                    0 <= s < n ==> {
                        let o = #[trigger] old(self).frames@[s];
                        let f = self.frames@[s];
                        &&& f.id == o.id
                        &&& f.pin == o.pin
                        &&& f.referenced == o.referenced
                        &&& f.page@.len() == o.page@.len()
                        &&& content_of(f.page@) == content_of(o.page@)
                        &&& (f.dirty ==> o.dirty)
                    },
                forall|s: int| 0 <= s < slot ==> !(#[trigger] self.frames@[s]).dirty,
                clean == (forall|s: int| 0 <= s < n ==> !(#[trigger] old(self).frames@[s]).dirty),
                (forall|s: int| 0 <= s < old(self).frames().len() ==> !(#[trigger] old(self).frames()[s]).dirty)
                    ==> clean,
                clean ==> self.frames@ == old(self).frames@ && self.known@ == old(self).known@,
                forall|s: int| slot <= s < n ==> #[trigger] self.frames@[s] == old(self).frames@[s],
                forall|s: int|
                    0 <= s < slot && (#[trigger] old(self).frames@[s]).dirty ==> exists|
                        p: &mut Page,
                        w: PageResult<()>,
                    |
                        w is Ok && mut_ref_current(p)@ == old(self).frames@[s].page@
                            && #[trigger] call_ensures(
                            S::write_page,
                            (&old(self).store, page_id(old(self).frames@[s].id->0), p),
                            w,
                        ),
            decreases n - slot,
        {
            if self.frames[slot].id.is_some() {
                let ghost pre = *self;
                let fr = self.flush_slot(slot);
                let ghost frg = fr;
                proof {
                    assert(pre.frames@[slot as int] == old(self).frames@[slot as int]);
                }
                match fr {
                    Ok(()) => {},
                    Err(e) => {
                        proof {
                            Self::lemma_frames_view(*old(self));
                            assert(old(self).frames()[slot as int] == frame_view(old(self).frames@[slot as int]));
                            let q = choose|q: &mut Page|
                                mut_ref_current(q)@ == old(self).frames@[slot as int].page@
                                    && mut_ref_future(q)@ == self.frames@[slot as int].page@
                                    && #[trigger] call_ensures(
                                    S::write_page,
                                    (&self.store, page_id(old(self).frames@[slot as int].id->0), q),
                                    frg,
                                );
                            assert(frg == Err::<(), PageError>(e));
                            assert(call_ensures(
                                S::write_page,
                                (&old(self).store(), page_id(old(self).frames()[slot as int].id->0), q),
                                Err::<(), PageError>(e),
                            ));
                            Self::lemma_frames_view(*self);
                            assert forall|s: int|
                                0 <= s < old(self).frames().len() && (#[trigger] old(self).frames()[s]).dirty
                                    && !self.frames()[s].dirty implies exists|p: &mut Page, w: PageResult<()>|
                                    w is Ok && mut_ref_current(p)@ == old(self).frames()[s].page
                                        && #[trigger] call_ensures(
                                        S::write_page,
                                        (&old(self).store(), page_id(old(self).frames()[s].id->0), p),
                                        w,
                                    ) by {
                                assert(old(self).frames()[s] == frame_view(old(self).frames@[s]));
                                assert(self.frames()[s] == frame_view(self.frames@[s]));
                                if s < slot {
                                    let (q2, w2) = choose|q2: &mut Page, w2: PageResult<()>|
                                        w2 is Ok && mut_ref_current(q2)@ == old(self).frames@[s].page@
                                            && #[trigger] call_ensures(
                                            S::write_page,
                                            (&old(self).store, page_id(old(self).frames@[s].id->0), q2),
                                            w2,
                                        );
                                    assert(call_ensures(
                                        S::write_page,
                                        (&old(self).store(), page_id(old(self).frames()[s].id->0), q2),
                                        w2,
                                    ));
                                } else if s > slot {
                                    assert(pre.frames@[s] == old(self).frames@[s]);
                                }
                            }
                        }
                        return Err(e);
                    },
                }
                proof {
                    if old(self).frames@[slot as int].dirty {
                        let q = choose|q: &mut Page|
                            mut_ref_current(q)@ == old(self).frames@[slot as int].page@
                                && mut_ref_future(q)@ == self.frames@[slot as int].page@
                                && #[trigger] call_ensures(
                                S::write_page,
                                (&self.store, page_id(old(self).frames@[slot as int].id->0), q),
                                frg,
                            );
                        assert(call_ensures(
                            S::write_page,
                            (&old(self).store, page_id(old(self).frames@[slot as int].id->0), q),
                            frg,
                        ));
                    }
                }
            }
            slot += 1;
        }
        proof {
            Self::lemma_frames_view(*old(self));
            assert forall|s: int|
                0 <= s < old(self).frames().len() && (#[trigger] old(self).frames()[s]).dirty
                    implies exists|p: &mut Page, w: PageResult<()>|
                    w is Ok && mut_ref_current(p)@ == old(self).frames()[s].page
                        && #[trigger] call_ensures(
                        S::write_page,
                        (&old(self).store(), page_id(old(self).frames()[s].id->0), p),
                        w,
                    ) by {
                assert(old(self).frames()[s] == frame_view(old(self).frames@[s]));
                assert(old(self).frames@[s].dirty);
                let (q, w) = choose|q: &mut Page, w: PageResult<()>|
                    w is Ok && mut_ref_current(q)@ == old(self).frames@[s].page@
                        && #[trigger] call_ensures(
                        S::write_page,
                        (&old(self).store, page_id(old(self).frames@[s].id->0), q),
                        w,
                    );
                assert(call_ensures(
                    S::write_page,
                    (&old(self).store(), page_id(old(self).frames()[s].id->0), q),
                    w,
                ));
            }
        }
        proof {
            assert forall|x: u64| #[trigger] old(self).slots().contains_key(x) implies self.known().contains_key(x)
                && self.known()[x] == old(self).contents()[x] by {
                let s = self.map@[x] as int;
                assert(self.frames@[s].id == Some(x));
                assert(!self.frames@[s].dirty);
            }
        }
        Ok(())
    }

    /// Flush all dirty pages, then make the store durable.
    pub fn checkpoint(&mut self) -> (r: PageResult<()>)
        requires
            old(self).wf(),
        ensures
            final(self).wf(),
            final(self).cap() == old(self).cap(),
            final(self).contents() == old(self).contents(),
            final(self).slots() == old(self).slots(),
            pinned_kept(old(self).frames(), final(self).frames()),
            r is Ok ==> forall|s: int|
                0 <= s < final(self).frames().len() ==> !(#[trigger] final(self).frames()[s]).dirty,
            final(self).store() == old(self).store(),
            r is Ok ==> call_ensures(S::sync, (&final(self).store(),), r),
            (forall|s: int| 0 <= s < old(self).frames().len() ==> !(#[trigger] old(self).frames()[s]).dirty)
                ==> final(self).frames() == old(self).frames() && call_ensures(
                S::sync,
                (&final(self).store(),),
                r,
            ),
            r is Ok ==> forall|s: int|
                0 <= s < old(self).frames().len() && (#[trigger] old(self).frames()[s]).dirty
                    ==> exists|p: &mut Page, w: PageResult<()>|
                    w is Ok && mut_ref_current(p)@ == old(self).frames()[s].page
                        && #[trigger] call_ensures(
                        S::write_page,
                        (&old(self).store(), page_id(old(self).frames()[s].id->0), p),
                        w,
                    ),
            forall|s: int|
                0 <= s < old(self).frames().len() && (#[trigger] old(self).frames()[s]).dirty
                    && !final(self).frames()[s].dirty ==> exists|p: &mut Page, w: PageResult<()>|
                    w is Ok && mut_ref_current(p)@ == old(self).frames()[s].page
                        && #[trigger] call_ensures(
                        S::write_page,
                        (&old(self).store(), page_id(old(self).frames()[s].id->0), p),
                        w,
                    ),
            r matches Err(e) ==> {
                ||| exists|s: int, p: &mut Page|
                    0 <= s < old(self).frames().len() && old(self).frames()[s].dirty
                        && mut_ref_current(p)@ == old(self).frames()[s].page
                        && #[trigger] call_ensures(
                        S::write_page,
                        (&old(self).store(), page_id(old(self).frames()[s].id->0), p),
                        Err::<(), PageError>(e),
                    )
                ||| call_ensures(S::sync, (&old(self).store(),), Err::<(), PageError>(e))
            },
    {
        match self.flush_all() {
            Ok(()) => {},
            Err(e) => {
                return Err(e);
            },
        }
        self.sync()
    }

    /// Make the store durable. Dirty cached pages are not written first; use
    /// [`BufferPool::flush_all`] or [`BufferPool::checkpoint`] for that.
    pub fn sync(&self) -> (r: PageResult<()>)
        ensures
            call_ensures(S::sync, (&self.store(),), r),
    {
        self.store.sync()
    }

    /// Release the pin `guard` holds.
    pub fn unpin(&mut self, guard: PageGuard)
        requires
            old(self).wf(),
            old(self).holds(&guard),
        ensures
            final(self).wf(),
            final(self).cap() == old(self).cap(),
            final(self).contents() == old(self).contents(),
            final(self).slots() == old(self).slots(),
            final(self).known() == old(self).known(),
            final(self).hand() == old(self).hand(),
            final(self).free_slots() == old(self).free_slots(),
            final(self).frames() == old(self).frames().update(
                guard.slot() as int,
                FrameView {
                    pin: (old(self).frames()[guard.slot() as int].pin - 1) as nat,
                    ..old(self).frames()[guard.slot() as int]
                },
            ),
    {
        let slot = guard.slot;
        self.frames[slot].pin = self.frames[slot].pin - 1;
        proof {
            assert(self.frames() =~= old(self).frames().update(
                guard.slot() as int,
                FrameView {
                    pin: (old(self).frames()[guard.slot() as int].pin - 1) as nat,
                    ..old(self).frames()[guard.slot() as int]
                },
            ));
            assert(self.contents() =~= old(self).contents());
        }
    }
}


/// A shared read borrow of a pinned page. Dereferences to [`Page`].
pub struct PageRef<'a> {
    page: &'a Page,
}

impl<'a> View for PageRef<'a> {
    type V = Seq<u8>;

    closed spec fn view(&self) -> Seq<u8> {
        self.page@
    }
}

impl<'a> core::ops::Deref for PageRef<'a> {
    type Target = Page;

    fn deref(&self) -> (p: &Page)
        ensures
            p@ == self@,
    {
        self.page
    }
}

impl PageGuard {
    /// Borrow the pinned page for reading.
    pub fn read<'a, S: PageStore>(&self, pool: &'a BufferPool<S>) -> (p: PageRef<'a>)
        requires
            pool.wf(),
            pool.holds(self),
        ensures
            p@ == pool.frames()[self.slot() as int].page,
    {
        PageRef { page: &pool.frames[self.slot].page }
    }

    /// Whether the pinned page has modifications not yet written to the
    /// store.
    pub fn is_dirty<S: PageStore>(&self, pool: &BufferPool<S>) -> (b: bool)
        requires
            pool.wf(),
            pool.holds(self),
        ensures
            b == pool.frames()[self.slot() as int].dirty,
    {
        pool.frames[self.slot].dirty
    }

    /// Borrow the pinned page for writing, marking it dirty. The page is
    /// recorded dirty as soon as the borrow is taken.
    pub fn write<'a, S: PageStore>(&self, pool: &'a mut BufferPool<S>) -> (p: &'a mut Page)
        requires
            old(pool).wf(),
            old(pool).holds(self),
        ensures
            p@ == old(pool).frames()[self.slot() as int].page,
            final(pool).wf(),
            final(pool).cap() == old(pool).cap(),
            final(pool).slots() == old(pool).slots(),
            final(pool).known() == old(pool).known(),
            final(pool).hand() == old(pool).hand(),
            final(pool).free_slots() == old(pool).free_slots(),
            final(pool).frames() == old(pool).frames().update(
                self.slot() as int,
                FrameView {
                    dirty: true,
                    page: final(p)@,
                    ..old(pool).frames()[self.slot() as int]
                },
            ),
            final(pool).contents() == old(pool).contents().insert(
                self.page_id(),
                content_of(final(p)@),
            ),
    {
        let slot = self.slot;
        pool.frames[slot].dirty = true;
        &mut pool.frames[slot].page
    }
}
} // verus!
