//! Row/version addressing.
//!
//! A RID encodes a grid position `(page_range, page, slot)` as one unsigned
//! integer: `slot` in the low 9 bits, `page` in the next 4, `page_range`
//! above them.  Base RIDs (original rows) use the raw value directly; tail
//! RIDs (update versions) add `TAIL_RID_BASE`, so the two flavors occupy
//! disjoint numeric ranges.

use vstd::arithmetic::div_mod::lemma_fundamental_div_mod_converse;
use vstd::prelude::*;

use crate::{MAX_RID_INDEX, TAIL_RID_BASE};

verus! {

/// Grid position encoded by a `(page_range, page, slot)` triple.
pub open spec fn rid_index_of(page_range: int, page: int, slot: int) -> int {
    page_range * 8192 + page * 512 + slot
}

/// Decoding is the inverse of encoding: slot, page and page range are
/// recovered exactly from an encoded grid position.
pub proof fn lemma_rid_index_decode(page_range: int, page: int, slot: int)
    requires
        0 <= page_range,
        0 <= page < 16,
        0 <= slot < 512,
    ensures
        rid_index_of(page_range, page, slot) >= 0,
        rid_index_of(page_range, page, slot) % 512 == slot,
        (rid_index_of(page_range, page, slot) / 512) % 16 == page,
        rid_index_of(page_range, page, slot) / 8192 == page_range,
{
    let x = rid_index_of(page_range, page, slot);
    lemma_fundamental_div_mod_converse(x, 512, 16 * page_range + page, slot);
    lemma_fundamental_div_mod_converse(16 * page_range + page, 16, page_range, page);
    lemma_fundamental_div_mod_converse(x, 8192, page_range, page * 512 + slot);
}

/// A row or version address of either flavor, tagged by what it refers to.
#[derive(Clone, Copy, PartialEq, Eq, Structural, Debug)]
pub enum RID {
    Base(BaseRID),
    Tail(TailRID),
}

/// Address of an original (inserted) row.
#[derive(Clone, Copy, PartialEq, Eq, Structural, Debug)]
pub struct BaseRID {
    pub raw: u64,
}

/// Address of an appended version (update) record.
#[derive(Clone, Copy, PartialEq, Eq, Structural, Debug)]
pub struct TailRID {
    pub raw: u64,
}

impl BaseRID {
    /// Grid position of this RID.
    pub open spec fn idx(self) -> int {
        self.raw as int
    }

    pub open spec fn wf(self) -> bool {
        self.raw < MAX_RID_INDEX
    }

    pub open spec fn spec_slot(self) -> int {
        self.idx() % 512
    }

    pub open spec fn spec_page(self) -> int {
        (self.idx() / 512) % 16
    }

    pub open spec fn spec_page_range(self) -> int {
        self.idx() / 8192
    }

    pub fn new(raw: u64) -> (r: Self)
        ensures
            r.raw == raw,
    {
        BaseRID { raw }
    }

    /// The raw integer form of this RID.
    pub fn raw(&self) -> (r: u64)
        ensures
            r == self.raw,
    {
        self.raw
    }

    /// Row position within its page.
    pub fn slot(&self) -> (s: usize)
        requires
            self.wf(),
        ensures
            s == self.spec_slot(),
            s < 512,
    {
        (self.raw % 512) as usize
    }

    /// Page within the page range.
    pub fn page(&self) -> (p: usize)
        requires
            self.wf(),
        ensures
            p == self.spec_page(),
            p < 16,
    {
        ((self.raw / 512) % 16) as usize
    }

    /// Page range within the table.
    pub fn page_range(&self) -> (pr: usize)
        requires
            self.wf(),
        ensures
            pr == self.spec_page_range(),
            pr < MAX_RID_INDEX / 8192,
    {
        (self.raw / 8192) as usize
    }

    /// The RID one slot later, overflowing into the next page or page range
    /// by the same arithmetic that decodes it.
    pub fn next(&self) -> (r: Self)
        requires
            self.raw + 1 < MAX_RID_INDEX,
        ensures
            r.raw == self.raw + 1,
            r.wf(),
    {
        BaseRID { raw: self.raw + 1 }
    }

    /// Encode a grid position as a base RID.
    pub fn from_parts(page_range: usize, page: usize, slot: usize) -> (r: Self)
        requires
            page < 16,
            slot < 512,
            page_range * 8192 + page * 512 + slot < MAX_RID_INDEX,
        ensures
            r.wf(),
            r.idx() == rid_index_of(page_range as int, page as int, slot as int),
            r.spec_page_range() == page_range,
            r.spec_page() == page,
            r.spec_slot() == slot,
    {
        proof {
            lemma_rid_index_decode(page_range as int, page as int, slot as int);
        }
        BaseRID { raw: (page_range as u64) * 8192 + (page as u64) * 512 + (slot as u64) }
    }
}

impl TailRID {
    /// Grid position of this RID, after removing the tail-flavor offset.
    pub open spec fn idx(self) -> int {
        self.raw - TAIL_RID_BASE
    }

    pub open spec fn wf(self) -> bool {
        TAIL_RID_BASE <= self.raw && self.raw - TAIL_RID_BASE < MAX_RID_INDEX
    }

    pub open spec fn spec_slot(self) -> int {
        self.idx() % 512
    }

    pub open spec fn spec_page(self) -> int {
        (self.idx() / 512) % 16
    }

    pub open spec fn spec_page_range(self) -> int {
        self.idx() / 8192
    }

    pub fn new(raw: u64) -> (r: Self)
        ensures
            r.raw == raw,
    {
        TailRID { raw }
    }

    /// The raw integer form of this RID.
    pub fn raw(&self) -> (r: u64)
        ensures
            r == self.raw,
    {
        self.raw
    }

    /// Version position within its tail page.
    pub fn slot(&self) -> (s: usize)
        requires
            self.wf(),
        ensures
            s == self.spec_slot(),
            s < 512,
    {
        ((self.raw - TAIL_RID_BASE) % 512) as usize
    }

    /// Tail page within the page range.
    pub fn page(&self) -> (p: usize)
        requires
            self.wf(),
        ensures
            p == self.spec_page(),
            p < 16,
    {
        (((self.raw - TAIL_RID_BASE) / 512) % 16) as usize
    }

    /// Page range within the table.
    pub fn page_range(&self) -> (pr: usize)
        requires
            self.wf(),
        ensures
            pr == self.spec_page_range(),
            pr < MAX_RID_INDEX / 8192,
    {
        ((self.raw - TAIL_RID_BASE) / 8192) as usize
    }

    /// Encode a grid position as a tail RID.
    pub fn from_parts(page_range: usize, page: usize, slot: usize) -> (r: Self)
        requires
            page < 16,
            slot < 512,
            page_range * 8192 + page * 512 + slot < MAX_RID_INDEX,
        ensures
            r.wf(),
            r.idx() == rid_index_of(page_range as int, page as int, slot as int),
            r.spec_page_range() == page_range,
            r.spec_page() == page,
            r.spec_slot() == slot,
    {
        proof {
            lemma_rid_index_decode(page_range as int, page as int, slot as int);
        }
        TailRID {
            raw: TAIL_RID_BASE + (page_range as u64) * 8192 + (page as u64) * 512 + (slot as u64),
        }
    }
}

/// Law: for every grid position within bounds, encoding it as a base RID and
/// decoding the RID yields the same `(page_range, page, slot)` triple, and
/// the same holds for the tail flavor.
pub proof fn lemma_rid_round_trip(page_range: int, page: int, slot: int)
    requires
        0 <= page_range,
        0 <= page < 16,
        0 <= slot < 512,
        rid_index_of(page_range, page, slot) < MAX_RID_INDEX,
    ensures
        ({
            let b = BaseRID { raw: rid_index_of(page_range, page, slot) as u64 };
            b.spec_page_range() == page_range && b.spec_page() == page && b.spec_slot() == slot
        }),
        ({
            let t = TailRID { raw: (TAIL_RID_BASE + rid_index_of(page_range, page, slot)) as u64 };
            t.spec_page_range() == page_range && t.spec_page() == page && t.spec_slot() == slot
        }),
{
    lemma_rid_index_decode(page_range, page, slot);
}

/// Law: advancing a RID by one slot `PAGE_SLOTS` times from the start of a
/// page lands on slot 0 of the next page of the same page range.
pub proof fn lemma_rid_next_page(page_range: int, page: int)
    requires
        0 <= page_range,
        0 <= page < 15,
        rid_index_of(page_range, page, 0) + 512 < MAX_RID_INDEX,
    ensures
        rid_index_of(page_range, page, 0) + 512 == rid_index_of(page_range, page + 1, 0),
        ({
            let b = BaseRID { raw: (rid_index_of(page_range, page, 0) + 512) as u64 };
            b.spec_page_range() == page_range && b.spec_page() == page + 1 && b.spec_slot() == 0
        }),
{
    lemma_rid_index_decode(page_range, page + 1, 0);
}

/// Law: a RID at the last slot of the last page of a page range advances to
/// slot 0 of page 0 of the next page range.
pub proof fn lemma_rid_next_range(page_range: int)
    requires
        0 <= page_range,
        rid_index_of(page_range, 15, 511) + 1 < MAX_RID_INDEX,
    ensures
        rid_index_of(page_range, 15, 511) + 1 == rid_index_of(page_range + 1, 0, 0),
        ({
            let b = BaseRID { raw: (rid_index_of(page_range, 15, 511) + 1) as u64 };
            b.spec_page_range() == page_range + 1 && b.spec_page() == 0 && b.spec_slot() == 0
        }),
{
    lemma_rid_index_decode(page_range + 1, 0, 0);
}

/// Grid positions are recovered uniquely: two RIDs with the same decoded
/// triple have the same raw value.
pub proof fn lemma_rid_index_injective(a: BaseRID, b: BaseRID)
    requires
        a.wf(),
        b.wf(),
        a.spec_page_range() == b.spec_page_range(),
        a.spec_page() == b.spec_page(),
        a.spec_slot() == b.spec_slot(),
    ensures
        a.raw == b.raw,
{
    vstd::arithmetic::div_mod::lemma_fundamental_div_mod(a.idx(), 512);
    vstd::arithmetic::div_mod::lemma_fundamental_div_mod(a.idx() / 512, 16);
    vstd::arithmetic::div_mod::lemma_fundamental_div_mod(b.idx(), 512);
    vstd::arithmetic::div_mod::lemma_fundamental_div_mod(b.idx() / 512, 16);
    assert(a.idx() / 512 / 16 == a.idx() / 8192) by {
        vstd::arithmetic::div_mod::lemma_div_denominator(a.idx(), 512, 16);
    }
    assert(b.idx() / 512 / 16 == b.idx() / 8192) by {
        vstd::arithmetic::div_mod::lemma_div_denominator(b.idx(), 512, 16);
    }
}

} // verus!
