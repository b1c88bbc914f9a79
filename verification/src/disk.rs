//! Block storage and page-id allocation.
//!
//! The disk manager stores fixed-size blocks addressed by numeric page id
//! and owns the free-page cursor, the only piece of allocation state.  A
//! block that was never written reads back as all zeroes.  Writes are
//! applied to the block store as a whole, so `flush` has nothing left to
//! make durable; an application wrapping this store in a file carries the
//! blocks to that file itself.

use vstd::prelude::*;

use crate::page::{zero_column, PhysicalPage};
use crate::PAGE_SLOTS;

verus! {

/// Fixed-size block storage plus the free-page cursor.
pub struct DiskManager {
    pub blocks: Vec<PhysicalPage>,
    pub next_free_page: usize,
}

impl DiskManager {
    pub open spec fn wf(self) -> bool {
        forall|i: int| 0 <= i < self.blocks@.len() ==> (#[trigger] self.blocks@[i]).wf()
    }

    /// Contents of the block at `id`: all zeroes until first written.
    pub open spec fn block(self, id: int) -> Seq<i64> {
        if 0 <= id < self.blocks@.len() {
            self.blocks@[id]@
        } else {
            zero_column()
        }
    }

    /// An empty store; page id 0 is left to the table header, so the
    /// free-page cursor starts at 1.
    pub fn new() -> (r: Self)
        ensures
            r.wf(),
            r.next_free_page == 1,
            forall|id: int| #[trigger] r.block(id) == zero_column(),
    {
        DiskManager { blocks: Vec::new(), next_free_page: 1 }
    }

    /// Read the whole block at `page_id` into `page`.
    pub fn read_page(&self, page_id: usize, page: &mut PhysicalPage)
        requires
            self.wf(),
            old(page).wf(),
        ensures
            final(page).wf(),
            final(page)@ == self.block(page_id as int),
    {
        if page_id < self.blocks.len() {
            page.copy_from(&self.blocks[page_id]);
        } else {
            let zero = PhysicalPage::new();
            page.copy_from(&zero);
        }
    }

    /// Write the whole block at `page_id`; every other block is unchanged.
    /// The page id must leave room for the block list to grow to
    /// `page_id + 1` entries.
    pub fn write_page(&mut self, page_id: usize, page: &PhysicalPage)
        requires
            old(self).wf(),
            page.wf(),
            page_id < usize::MAX,
        ensures
            final(self).wf(),
            final(self).next_free_page == old(self).next_free_page,
            final(self).block(page_id as int) == page@,
            forall|id: int| id != page_id ==> #[trigger] final(self).block(id) == old(self).block(id),
    {
        while self.blocks.len() <= page_id
            invariant
                self.wf(),
                page_id < usize::MAX,
                self.next_free_page == old(self).next_free_page,
                self.blocks@.len() >= old(self).blocks@.len(),
                forall|id: int| #[trigger] self.block(id) == old(self).block(id),
            decreases page_id + 1 - self.blocks@.len(),
        {
            let ghost prev = *self;
            self.blocks.push(PhysicalPage::new());
            proof {
                assert forall|id: int| #[trigger] self.block(id) == prev.block(id) by {
                    if 0 <= id < prev.blocks@.len() {
                        assert(self.blocks@[id] == prev.blocks@[id]);
                    }
                }
            }
        }
        let ghost grown = *self;
        let target: &mut PhysicalPage = &mut self.blocks[page_id];
        target.copy_from(page);
        proof {
            assert(self.blocks@ == grown.blocks@.update(page_id as int, self.blocks@[page_id as int]));
            assert forall|id: int| id != page_id implies #[trigger] self.block(id) == old(
                self,
            ).block(id) by {
                assert(grown.block(id) == old(self).block(id));
                if 0 <= id < grown.blocks@.len() {
                    assert(self.blocks@[id] == grown.blocks@[id]);
                } else {
                    assert(self.block(id) == zero_column());
                }
            }
        }
    }

    /// Nothing is buffered: every write is already applied to the block
    /// store when `write_page` returns.
    pub fn flush(&self) {
    }

    /// Return a fresh unused page id and advance the free-page cursor.
    pub fn reserve_page(&mut self) -> (r: usize)
        requires
            old(self).next_free_page < usize::MAX,
        ensures
            r == old(self).next_free_page,
            final(self).next_free_page == old(self).next_free_page + 1,
            final(self).blocks@ == old(self).blocks@,
    {
        let r = self.next_free_page;
        self.next_free_page = r + 1;
        r
    }

    /// Reserve `pages` consecutive fresh page ids, returning the first.
    pub fn reserve_range(&mut self, pages: usize) -> (r: usize)
        requires
            old(self).next_free_page + pages <= usize::MAX,
        ensures
            r == old(self).next_free_page,
            final(self).next_free_page == old(self).next_free_page + pages,
            final(self).blocks@ == old(self).blocks@,
    {
        let r = self.next_free_page;
        self.next_free_page = r + pages;
        r
    }

    /// The current free-page cursor.
    pub fn free_page_pointer(&self) -> (r: usize)
        ensures
            r == self.next_free_page,
    {
        self.next_free_page
    }

    /// Restore the free-page cursor, as read from a persisted table header.
    pub fn set_free_page_pointer(&mut self, ptr: usize)
        ensures
            final(self).next_free_page == ptr,
            final(self).blocks@ == old(self).blocks@,
    {
        self.next_free_page = ptr;
    }
}

} // verus!
