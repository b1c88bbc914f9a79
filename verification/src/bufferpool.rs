//! Fixed-capacity page cache in front of the disk manager.
//!
//! The pool holds a fixed array of frames, each with a page id, a dirty
//! flag, a pin count and a page body.  Victims are chosen by clock
//! (second-chance) eviction: a frame is skipped while its reference bit is
//! set or it is pinned by an outstanding handle; a dirty victim is written
//! back and flushed before its frame is reused.  Callers must bound the
//! number of simultaneously pinned frames below the pool size, or no victim
//! can be found.

use vstd::prelude::*;
use vstd::seq_lib::*;

use crate::disk::DiskManager;
use crate::page::{zero_column, PhysicalPage};
use crate::PAGE_SLOTS;

verus! {

/// Page id stored in a frame that holds no page.
pub const FRAME_EMPTY: usize = usize::MAX;

/// One cache frame: a page id, a dirty flag, a pin count standing for the
/// outstanding handles, and the cached page body.
pub struct BufferPoolFrame {
    pub page_id: usize,
    pub dirty: bool,
    pub pins: usize,
    pub page: PhysicalPage,
}

impl BufferPoolFrame {
    pub open spec fn wf(self) -> bool {
        self.page.wf()
    }

    /// An empty, clean, unpinned frame.
    pub fn new() -> (r: Self)
        ensures
            r.wf(),
            r.page_id == FRAME_EMPTY,
            !r.dirty,
            r.pins == 0,
            r.page@ == zero_column(),
    {
        BufferPoolFrame { page_id: FRAME_EMPTY, dirty: false, pins: 0, page: PhysicalPage::new() }
    }

    /// Record that the page body was mutated and must be written back
    /// before the frame is reused.
    pub fn mark_dirty(&mut self)
        ensures
            *final(self) == (BufferPoolFrame { dirty: true, ..*old(self) }),
    {
        self.dirty = true;
    }

    /// The page id this frame currently holds (`FRAME_EMPTY` if none).
    pub fn get_page_id(&self) -> (r: usize)
        ensures
            r == self.page_id,
    {
        self.page_id
    }
}

/// Fixed-capacity cache of page frames with clock eviction.
pub struct BufferPool {
    pub disk: DiskManager,
    pub size: usize,
    pub frames: Vec<BufferPoolFrame>,
    pub clock_refs: Vec<bool>,
    pub clock_hand: usize,
}

impl BufferPool {
    pub open spec fn wf(self) -> bool {
        &&& self.size >= 1
        &&& self.frames@.len() == self.size
        &&& self.clock_refs@.len() == self.size
        &&& self.clock_hand < self.size
        &&& self.disk.wf()
        &&& (forall|f: int| 0 <= f < self.size ==> (#[trigger] self.frames@[f]).wf())
        &&& (forall|f1: int, f2: int|
            0 <= f1 < f2 < self.size && (#[trigger] self.frames@[f1]).page_id != FRAME_EMPTY ==> (
            #[trigger] self.frames@[f2]).page_id != self.frames@[f1].page_id)
        &&& (forall|f: int|
            0 <= f < self.size && (#[trigger] self.frames@[f]).page_id != FRAME_EMPTY
                && !self.frames@[f].dirty ==> self.frames@[f].page@ == self.disk.block(
                self.frames@[f].page_id as int,
            ))
        &&& (forall|f: int|
            0 <= f < self.size && (#[trigger] self.frames@[f]).page_id != FRAME_EMPTY
                ==> self.frames@[f].page_id < self.disk.next_free_page)
    }

    /// Whether the page with id `page_id` currently occupies a frame.
    pub open spec fn is_resident(self, page_id: int) -> bool {
        exists|f: int|
            0 <= f < self.size && (#[trigger] self.frames@[f]).page_id == page_id && page_id
                != FRAME_EMPTY
    }

    /// The current contents of page `page_id`: the cached body while the
    /// page is resident, the on-disk block otherwise.  Eviction preserves
    /// this view, so a dirty frame is always written back before it is
    /// reused.
    pub open spec fn page_view(self, page_id: int) -> Seq<i64> {
        if self.is_resident(page_id) {
            let f = choose|f: int|
                0 <= f < self.size && (#[trigger] self.frames@[f]).page_id == page_id && page_id
                    != FRAME_EMPTY;
            self.frames@[f].page@
        } else {
            self.disk.block(page_id)
        }
    }

    /// Whether some frame is unpinned, so that a victim can be found.
    pub open spec fn has_unpinned_frame(self) -> bool {
        exists|f: int| 0 <= f < self.size && (#[trigger] self.frames@[f]).pins == 0
    }

    /// A pool of `size` empty frames in front of `disk`.
    pub fn new(disk: DiskManager, size: usize) -> (r: Self)
        requires
            disk.wf(),
            size >= 1,
        ensures
            r.wf(),
            r.size == size,
            r.disk == disk,
            forall|p: int| !r.is_resident(p),
            forall|f: int| 0 <= f < size ==> (#[trigger] r.frames@[f]).pins == 0,
    {
        let mut frames: Vec<BufferPoolFrame> = Vec::new();
        let mut clock_refs: Vec<bool> = Vec::new();
        let mut i: usize = 0;
        while i < size
            invariant
                i <= size,
                frames@.len() == i,
                clock_refs@.len() == i,
                forall|f: int|
                    0 <= f < i ==> (#[trigger] frames@[f]).wf() && frames@[f].page_id == FRAME_EMPTY
                        && frames@[f].pins == 0 && !frames@[f].dirty,
            decreases size - i,
        {
            frames.push(BufferPoolFrame::new());
            clock_refs.push(false);
            i += 1;
        }
        BufferPool { disk, size, frames, clock_refs, clock_hand: 0 }
    }

    /// The frame currently holding `page_id`, if any.
    fn find_frame(&self, page_id: usize) -> (r: Option<usize>)
        requires
            self.wf(),
            page_id != FRAME_EMPTY,
        ensures
            match r {
                Some(f) => f < self.size && self.frames@[f as int].page_id == page_id,
                None => !self.is_resident(page_id as int),
            },
    {
        let mut f: usize = 0;
        while f < self.size
            invariant
                f <= self.size,
                self.wf(),
                page_id != FRAME_EMPTY,
                forall|k: int| 0 <= k < f ==> (#[trigger] self.frames@[k]).page_id != page_id,
            decreases self.size - f,
        {
            if self.frames[f].get_page_id() == page_id {
                return Some(f);
            }
            f += 1;
        }
        None
    }

    /// One clock sweep over the frames in `[start, end)`: each frame with
    /// its reference bit set or a pin outstanding is skipped and its bit
    /// cleared; the first remaining frame is the victim.
    fn sweep(&mut self, start: usize, end: usize) -> (r: Option<usize>)
        requires
            old(self).wf(),
            start <= end <= old(self).size,
        ensures
            final(self).wf(),
            final(self).frames@ == old(self).frames@,
            final(self).disk == old(self).disk,
            final(self).size == old(self).size,
            final(self).clock_hand == old(self).clock_hand,
            final(self).clock_refs@.len() == old(self).clock_refs@.len(),
            match r {
                Some(f) => start <= f < end && final(self).frames@[f as int].pins == 0,
                None => forall|f: int|
                    #![trigger final(self).clock_refs@[f]]
                    #![trigger final(self).frames@[f]]
                    start <= f < end ==> !final(self).clock_refs@[f] && (old(self).clock_refs@[f]
                        || final(self).frames@[f].pins > 0),
            },
            forall|f: int|
                0 <= f < old(self).size && !(start <= f < end) ==> final(self).clock_refs@[f]
                    == old(self).clock_refs@[f],
    {
        let mut f = start;
        while f < end
            invariant
                start <= f <= end <= self.size,
                self.wf(),
                self.frames@ == old(self).frames@,
                self.disk == old(self).disk,
                self.size == old(self).size,
                self.clock_hand == old(self).clock_hand,
                self.clock_refs@.len() == old(self).clock_refs@.len(),
                forall|k: int|
                    #![trigger self.clock_refs@[k]]
                    #![trigger self.frames@[k]]
                    start <= k < f ==> !self.clock_refs@[k] && (old(self).clock_refs@[k]
                        || self.frames@[k].pins > 0),
                forall|k: int|
                    0 <= k < self.size && !(start <= k < f) ==> self.clock_refs@[k] == old(
                        self,
                    ).clock_refs@[k],
            decreases end - f,
        {
            if !self.clock_refs[f] && self.frames[f].pins == 0 {
                return Some(f);
            }
            let ghost pre = *self;
            self.clock_refs.set(f, false);
            proof {
                assert(self.clock_refs@ == pre.clock_refs@.update(f as int, false));
                assert forall|k: int|
                    #![trigger self.clock_refs@[k]]
                    #![trigger self.frames@[k]]
                    start <= k < f + 1 implies !self.clock_refs@[k] && (old(self).clock_refs@[k]
                        || self.frames@[k].pins > 0) by {
                    if k < f {
                        assert(!pre.clock_refs@[k]);
                        assert(self.clock_refs@[k] == pre.clock_refs@[k]);
                    } else {
                        assert(!self.clock_refs@[k]);
                        assert(pre.clock_refs@[f as int] || pre.frames@[f as int].pins > 0);
                        assert(pre.clock_refs@[f as int] == old(self).clock_refs@[f as int]);
                    }
                }
            }
            f += 1;
        }
        None
    }

    /// Choose an eviction victim by clock: starting at the hand, skip (and
    /// clear the reference bit of) every frame that is referenced or
    /// pinned; the hand then points past the victim.
    fn find_evict_victim(&mut self) -> (victim: usize)
        requires
            old(self).wf(),
            old(self).has_unpinned_frame(),
        ensures
            final(self).wf(),
            final(self).frames@ == old(self).frames@,
            final(self).disk == old(self).disk,
            final(self).size == old(self).size,
            victim < final(self).size,
            final(self).frames@[victim as int].pins == 0,
    {
        let hand = self.clock_hand;
        let mut v = self.sweep(hand, self.size);
        if v.is_none() {
            v = self.sweep(0, hand);
        }
        if v.is_none() {
            v = self.sweep(hand, self.size);
        }
        if v.is_none() {
            v = self.sweep(0, hand);
        }
        match v {
            Some(f) => {
                self.clock_hand = if f + 1 < self.size {
                    f + 1
                } else {
                    0
                };
                f
            },
            None => {
                // After the first two sweeps every reference bit is clear,
                // so the last two sweeps reject a frame only when it is
                // pinned; an unpinned frame exists, a contradiction.
                proof {
                    let w = choose|w: int|
                        0 <= w < self.size && (#[trigger] self.frames@[w]).pins == 0;
                    assert(false);
                }
                0
            },
        }
    }

    /// Free the chosen frame: write its page back (and flush) when dirty,
    /// then drop its mapping.  The page view of every page is preserved.
    fn evict(&mut self, victim: usize)
        requires
            old(self).wf(),
            victim < old(self).size,
            old(self).frames@[victim as int].pins == 0,
        ensures
            final(self).wf(),
            final(self).size == old(self).size,
            final(self).clock_refs@ == old(self).clock_refs@,
            final(self).clock_hand == old(self).clock_hand,
            final(self).frames@[victim as int].page_id == FRAME_EMPTY,
            final(self).frames@[victim as int].pins == 0,
            !final(self).frames@[victim as int].dirty,
            final(self).frames@[victim as int].page@ == old(self).frames@[victim as int].page@,
            forall|f: int|
                0 <= f < old(self).size && f != victim ==> #[trigger] final(self).frames@[f] == old(
                    self,
                ).frames@[f],
            final(self).disk.next_free_page == old(self).disk.next_free_page,
            forall|p: int|
                p != FRAME_EMPTY ==> #[trigger] final(self).page_view(p) == old(self).page_view(p),
            forall|p: int|
                old(self).is_resident(p) && p != old(self).frames@[victim as int].page_id
                    ==> #[trigger] final(self).is_resident(p),
            forall|p: int| final(self).is_resident(p) ==> old(self).is_resident(p),
    {
        let page_id = self.frames[victim].get_page_id();
        let is_dirty = self.frames[victim].dirty;
        if page_id != FRAME_EMPTY && is_dirty {
            // Write-back: the evicted page's last written contents reach
            // the disk before the frame is reused.
            self.disk.write_page(page_id, &self.frames[victim].page);
            self.disk.flush();
            let frame: &mut BufferPoolFrame = &mut self.frames[victim];
            frame.dirty = false;
        }
        let frame: &mut BufferPoolFrame = &mut self.frames[victim];
        frame.page_id = FRAME_EMPTY;
        frame.dirty = false;
        proof {
            let ov = old(self).frames@[victim as int];
            assert forall|p: int|
                old(self).is_resident(p) && p != ov.page_id implies #[trigger] final(self).is_resident(p) by {
                let f = choose|f: int|
                    0 <= f < old(self).size && (#[trigger] old(self).frames@[f]).page_id == p && p
                        != FRAME_EMPTY;
                assert(f != victim);
                assert(final(self).frames@[f].page_id == p);
            }
            assert forall|p: int| final(self).is_resident(p) implies old(self).is_resident(p) by {
                let f2 = choose|f2: int|
                    0 <= f2 < final(self).size && (#[trigger] final(self).frames@[f2]).page_id == p
                        && p != FRAME_EMPTY;
                assert(f2 != victim);
                assert(old(self).frames@[f2].page_id == p);
            }
            assert forall|p: int| p != FRAME_EMPTY implies #[trigger] final(self).page_view(p)
                == old(self).page_view(p) by {
                if old(self).is_resident(p) {
                    let f = choose|f: int|
                        0 <= f < old(self).size && (#[trigger] old(self).frames@[f]).page_id == p
                            && p != FRAME_EMPTY;
                    if f == victim {
                        assert(!final(self).is_resident(p));
                        assert(final(self).disk.block(p) == ov.page@);
                    } else {
                        assert(final(self).frames@[f].page_id == p);
                        assert(final(self).is_resident(p));
                        let f2 = choose|f2: int|
                            0 <= f2 < final(self).size && (#[trigger] final(self).frames@[f2]).page_id == p && p != FRAME_EMPTY;
                        assert(f2 != victim);
                        assert(old(self).frames@[f2].page_id == p);
                        assert(f2 == f);
                    }
                } else {
                    assert(!final(self).is_resident(p)) by {
                        if final(self).is_resident(p) {
                            let f2 = choose|f2: int|
                                0 <= f2 < final(self).size && (#[trigger] final(self).frames@[f2]).page_id == p && p != FRAME_EMPTY;
                            assert(old(self).frames@[f2].page_id == p);
                        }
                    }
                }
            }
        }
    }

    /// A shared handle (frame index) for page `page_id`, pinning the frame:
    /// the cached frame if the page is resident, else a freed victim frame
    /// filled from disk.  The page view of every page is preserved, and the
    /// returned frame carries exactly the page's current contents.
    pub fn get_page(&mut self, page_id: usize) -> (f: usize)
        requires
            old(self).wf(),
            page_id != FRAME_EMPTY,
            page_id < old(self).disk.next_free_page,
            old(self).is_resident(page_id as int) || old(self).has_unpinned_frame(),
        ensures
            final(self).wf(),
            final(self).size == old(self).size,
            f < final(self).size,
            final(self).frames@[f as int].page_id == page_id,
            final(self).is_resident(page_id as int),
            final(self).frames@[f as int].page@ == old(self).page_view(page_id as int),
            final(self).frames@[f as int].page@ == final(self).page_view(page_id as int),
            final(self).frames@[f as int].pins >= 1,
            forall|p: int|
                p != FRAME_EMPTY ==> #[trigger] final(self).page_view(p) == old(self).page_view(p),
            // A resident hit touches nothing but the found frame's pin count
            // and reference bit: no disk access, no eviction, no mapping
            // change.
            old(self).is_resident(page_id as int) ==> ({
                let p = old(self).frames@[f as int].pins;
                &&& old(self).frames@[f as int].page_id == page_id
                &&& final(self).disk == old(self).disk
                &&& final(self).clock_hand == old(self).clock_hand
                &&& final(self).clock_refs@ == old(self).clock_refs@.update(f as int, true)
                &&& final(self).frames@ == old(self).frames@.update(
                    f as int,
                    (BufferPoolFrame {
                        pins: (if p < usize::MAX {
                            (p + 1) as usize
                        } else {
                            p
                        }),
                        ..old(self).frames@[f as int]
                    }),
                )
            }),
    {
        proof {
            lemma_resident_frame_unique(*old(self), page_id as int);
        }
        match self.find_frame(page_id) {
            Some(f) => {
                self.clock_refs.set(f, true);
                let frame: &mut BufferPoolFrame = &mut self.frames[f];
                if frame.pins < usize::MAX {
                    frame.pins = frame.pins + 1;
                }
                proof {
                    lemma_same_frames_same_views(*old(self), *self);
                    assert(self.frames@ =~= old(self).frames@.update(
                        f as int,
                        self.frames@[f as int],
                    ));
                }
                f
            },
            None => {
                let ghost entry = *self;
                let victim = self.find_evict_victim();
                let ghost chosen = *self;
                proof {
                    lemma_same_frames_same_views(entry, chosen);
                }
                self.evict(victim);
                let ghost evicted = *self;
                proof {
                    assert(!evicted.is_resident(page_id as int)) by {
                        if evicted.is_resident(page_id as int) {
                            let f2 = choose|f2: int|
                                0 <= f2 < evicted.size && (#[trigger] evicted.frames@[f2]).page_id
                                    == page_id && page_id != FRAME_EMPTY;
                        }
                    }
                    assert(evicted.page_view(page_id as int) == evicted.disk.block(
                        page_id as int,
                    ));
                }
                // Fill the freed frame from disk.
                let mut body = PhysicalPage::new();
                self.disk.read_page(page_id, &mut body);
                let frame: &mut BufferPoolFrame = &mut self.frames[victim];
                frame.page_id = page_id;
                frame.dirty = false;
                frame.pins = 1;
                frame.page = body;
                self.clock_refs.set(victim, true);
                proof {
                    assert(self.frames@[victim as int].page@ == evicted.disk.block(
                        page_id as int,
                    ));
                    assert(self.is_resident(page_id as int));
                    assert forall|p: int| p != FRAME_EMPTY implies #[trigger] self.page_view(p)
                        == evicted.page_view(p) by {
                        if p == page_id {
                            let fp = choose|fp: int|
                                0 <= fp < self.size && (#[trigger] self.frames@[fp]).page_id == p
                                    && p != FRAME_EMPTY;
                            assert(fp == victim) by {
                                if fp != victim {
                                    assert(evicted.frames@[fp].page_id == p);
                                }
                            }
                            assert(self.page_view(p) == self.frames@[victim as int].page@);
                        } else {
                            lemma_page_view_after_fill(
                                evicted,
                                *self,
                                victim as int,
                                page_id as int,
                                p,
                            );
                        }
                    }
                    assert(self.page_view(page_id as int) == self.frames@[victim as int].page@);
                }
                victim
            },
        }
    }

    /// A fresh page: reserves a new page id, frees a victim frame exactly
    /// as `get_page` does, and hands it out pinned without reading from
    /// disk; the frame's previous contents become the new page's initial
    /// contents, so the caller must reset them.  Returns the new page id
    /// and the frame handle.
    pub fn new_page(&mut self) -> (r: (usize, usize))
        requires
            old(self).wf(),
            old(self).has_unpinned_frame(),
            old(self).disk.next_free_page < FRAME_EMPTY,
        ensures
            final(self).wf(),
            final(self).size == old(self).size,
            r.0 == old(self).disk.next_free_page,
            final(self).disk.next_free_page == old(self).disk.next_free_page + 1,
            r.1 < final(self).size,
            final(self).frames@[r.1 as int].page_id == r.0,
            final(self).frames@[r.1 as int].pins == 1,
            final(self).is_resident(r.0 as int),
            forall|p: int|
                p != FRAME_EMPTY && p != r.0 ==> #[trigger] final(self).page_view(p) == old(
                    self,
                ).page_view(p),
    {
        let ghost entry = *self;
        let new_page_id = self.disk.reserve_page();
        let ghost reserved = *self;
        proof {
            lemma_same_frames_same_views(entry, reserved);
        }
        let victim = self.find_evict_victim();
        let ghost chosen = *self;
        proof {
            lemma_same_frames_same_views(reserved, chosen);
        }
        self.evict(victim);
        let ghost evicted = *self;
        let frame: &mut BufferPoolFrame = &mut self.frames[victim];
        frame.page_id = new_page_id;
        frame.dirty = true;
        frame.pins = 1;
        self.clock_refs.set(victim, true);
        proof {
            assert(!evicted.is_resident(new_page_id as int)) by {
                if evicted.is_resident(new_page_id as int) {
                    let f = choose|f: int|
                        0 <= f < evicted.size && (#[trigger] evicted.frames@[f]).page_id
                            == new_page_id && new_page_id != FRAME_EMPTY;
                }
            }
            assert forall|p: int| p != FRAME_EMPTY && p != new_page_id implies #[trigger] self
                .page_view(p) == evicted.page_view(p) by {
                lemma_page_view_after_fill(
                    evicted,
                    *self,
                    victim as int,
                    new_page_id as int,
                    p,
                );
            }
            assert(self.frames@[victim as int].page_id == new_page_id);
            assert(self.is_resident(new_page_id as int));
        }
        (new_page_id, victim)
    }

    /// Read the cell at `slot` of the page held by frame `f`.
    pub fn read_slot(&self, f: usize, slot: usize) -> (v: i64)
        requires
            self.wf(),
            f < self.size,
            slot < PAGE_SLOTS,
        ensures
            v == self.frames@[f as int].page@[slot as int],
    {
        self.frames[f].page.slot(slot)
    }

    /// Overwrite the cell at `slot` of the page held by frame `f`, marking
    /// the frame dirty.
    pub fn write_slot(&mut self, f: usize, slot: usize, value: i64)
        requires
            old(self).wf(),
            f < old(self).size,
            slot < PAGE_SLOTS,
        ensures
            final(self).wf(),
            final(self).size == old(self).size,
            final(self).frames@[f as int].page@ == old(self).frames@[f as int].page@.update(
                slot as int,
                value,
            ),
            final(self).frames@[f as int].page_id == old(self).frames@[f as int].page_id,
            final(self).frames@[f as int].pins == old(self).frames@[f as int].pins,
            final(self).frames@[f as int].dirty,
            forall|k: int|
                0 <= k < old(self).size && k != f ==> #[trigger] final(self).frames@[k] == old(
                    self,
                ).frames@[k],
            final(self).disk == old(self).disk,
    {
        let frame: &mut BufferPoolFrame = &mut self.frames[f];
        frame.page.write_slot(slot, value);
        frame.dirty = true;
    }

    /// Release one pin of frame `f`, allowing it to become an eviction
    /// victim again.
    pub fn unpin(&mut self, f: usize)
        requires
            old(self).wf(),
            f < old(self).size,
            old(self).frames@[f as int].pins > 0,
        ensures
            final(self).wf(),
            final(self).size == old(self).size,
            final(self).frames@[f as int].pins == old(self).frames@[f as int].pins - 1,
            final(self).size == old(self).size,
            final(self).disk == old(self).disk,
            final(self).clock_refs@ == old(self).clock_refs@,
            final(self).clock_hand == old(self).clock_hand,
            final(self).frames@ == old(self).frames@.update(
                f as int,
                (BufferPoolFrame {
                    pins: (old(self).frames@[f as int].pins - 1) as usize,
                    ..old(self).frames@[f as int]
                }),
            ),
    {
        let frame: &mut BufferPoolFrame = &mut self.frames[f];
        frame.pins = frame.pins - 1;
    }
}

/// At most one frame holds a given page id.
proof fn lemma_resident_frame_unique(pool: BufferPool, page_id: int)
    requires
        pool.wf(),
    ensures
        forall|f1: int, f2: int|
            0 <= f1 < pool.size && 0 <= f2 < pool.size && (#[trigger] pool.frames@[f1]).page_id
                == page_id && (#[trigger] pool.frames@[f2]).page_id == page_id && page_id
                != FRAME_EMPTY ==> f1 == f2,
{
}

/// Pools with identical frames and disk have identical page views.
proof fn lemma_same_frames_same_views(a: BufferPool, b: BufferPool)
    requires
        a.wf(),
        a.size == b.size,
        forall|f: int|
            0 <= f < a.size ==> (#[trigger] a.frames@[f]).page_id == b.frames@[f].page_id
                && a.frames@[f].page@ == b.frames@[f].page@,
        a.disk.blocks@ == b.disk.blocks@,
    ensures
        forall|p: int| p != FRAME_EMPTY ==> #[trigger] a.page_view(p) == b.page_view(p),
{
    assert forall|p: int| p != FRAME_EMPTY implies #[trigger] a.page_view(p) == b.page_view(p) by {
        if a.is_resident(p) {
            let f = choose|f: int|
                0 <= f < a.size && (#[trigger] a.frames@[f]).page_id == p && p != FRAME_EMPTY;
            assert(b.frames@[f].page_id == p);
            assert(b.is_resident(p));
            let f2 = choose|f2: int|
                0 <= f2 < b.size && (#[trigger] b.frames@[f2]).page_id == p && p != FRAME_EMPTY;
            assert(a.frames@[f2].page_id == p);
            assert(f2 == f);
            assert(b.frames@[f2].page@ == a.frames@[f].page@);
        } else {
            assert(!b.is_resident(p)) by {
                if b.is_resident(p) {
                    let f2 = choose|f2: int|
                        0 <= f2 < b.size && (#[trigger] b.frames@[f2]).page_id == p && p
                            != FRAME_EMPTY;
                    assert(a.frames@[f2].page_id == p);
                }
            }
            assert(a.disk.block(p) == b.disk.block(p));
        }
    }
}

/// Filling a freed frame with a page that was not resident leaves the view
/// of every other page unchanged.
proof fn lemma_page_view_after_fill(
    before: BufferPool,
    after: BufferPool,
    victim: int,
    new_id: int,
    p: int,
)
    requires
        before.wf(),
        after.size == before.size,
        0 <= victim < before.size,
        new_id != FRAME_EMPTY,
        before.frames@[victim].page_id == FRAME_EMPTY,
        !before.is_resident(new_id),
        after.frames@[victim].page_id == new_id,
        forall|f: int|
            0 <= f < before.size && f != victim ==> (#[trigger] after.frames@[f]).page_id
                == before.frames@[f].page_id && after.frames@[f].page@ == before.frames@[f].page@,
        after.disk.blocks@ == before.disk.blocks@,
        p != FRAME_EMPTY,
        p != new_id,
    ensures
        after.page_view(p) == before.page_view(p),
{
    if before.is_resident(p) {
        let f = choose|f: int|
            0 <= f < before.size && (#[trigger] before.frames@[f]).page_id == p && p != FRAME_EMPTY;
        assert(f != victim);
        assert(after.frames@[f].page_id == p);
        assert(after.is_resident(p));
        let f2 = choose|f2: int|
            0 <= f2 < after.size && (#[trigger] after.frames@[f2]).page_id == p && p != FRAME_EMPTY;
        if f2 != f {
            assert(before.frames@[f2].page_id == p);
        }
    } else {
        assert(!after.is_resident(p)) by {
            if after.is_resident(p) {
                let f2 = choose|f2: int|
                    0 <= f2 < after.size && (#[trigger] after.frames@[f2]).page_id == p && p
                        != FRAME_EMPTY;
                assert(f2 != victim);
                assert(before.frames@[f2].page_id == p);
            }
        }
        assert(after.disk.block(p) == before.disk.block(p));
    }
}

/// Law: a pool of `size` frames holds at most `size` resident pages at any
/// time.
pub proof fn lemma_buffer_pool_capacity_bound(pool: BufferPool)
    requires
        pool.wf(),
    ensures
        Set::new(|p: int| pool.is_resident(p)).finite(),
        Set::new(|p: int| pool.is_resident(p)).len() <= pool.size,
{
    let resident = Set::new(|p: int| pool.is_resident(p));
    let ids = Seq::new(pool.frames@.len(), |f: int| pool.frames@[f].page_id as int);
    assert forall|p: int| resident.contains(p) implies ids.to_set().contains(p) by {
        let f = choose|f: int|
            0 <= f < pool.size && (#[trigger] pool.frames@[f]).page_id == p && p != FRAME_EMPTY;
        assert(ids[f] == p);
    }
    broadcast use vstd::seq_lib::seq_to_set_is_finite;
    broadcast use vstd::set_lib::lemma_set_subset_finite;

    assert(resident.subset_of(ids.to_set()));
    ids.lemma_cardinality_of_set();
    vstd::set_lib::lemma_len_subset(resident, ids.to_set());
}

} // verus!
