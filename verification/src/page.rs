//! In-memory page format.
//!
//! A physical page is a fixed-capacity, zero-initialized array of signed
//! 64-bit cells.  A page is one physical page per column: four metadata
//! columns followed by the logical data columns.  A page range is a fixed
//! set of base pages plus a tail-page list that grows as update versions are
//! appended.

use vstd::arithmetic::power2::pow2;
use vstd::prelude::*;

use crate::rid::{BaseRID, TailRID};
use crate::{
    MAX_RID_INDEX, METADATA_INDIRECTION, METADATA_RID, METADATA_SCHEMA_ENCODING,
    NUM_METADATA_COLUMNS, PAGE_SLOTS, RANGE_CAPACITY, RANGE_PAGE_COUNT, TAIL_RID_BASE,
};

verus! {

/// Contents of a freshly allocated physical page: all cells zero.
pub open spec fn zero_column() -> Seq<i64> {
    Seq::new(PAGE_SLOTS as nat, |i: int| 0i64)
}

/// Contents of a freshly allocated page for `num_columns` logical columns.
pub open spec fn zero_page(num_columns: int) -> Seq<Seq<i64>> {
    Seq::new((NUM_METADATA_COLUMNS + num_columns) as nat, |c: int| zero_column())
}

/// A fixed-capacity array of signed 64-bit cells, read and written by slot
/// index.
pub struct PhysicalPage {
    pub cells: Vec<i64>,
}

impl View for PhysicalPage {
    type V = Seq<i64>;

    open spec fn view(&self) -> Seq<i64> {
        self.cells@
    }
}

impl PhysicalPage {
    pub open spec fn wf(self) -> bool {
        self@.len() == PAGE_SLOTS
    }

    /// A zero-initialized page.
    pub fn new() -> (r: Self)
        ensures
            r.wf(),
            r@ == zero_column(),
    {
        let cells = vec![0i64; PAGE_SLOTS];
        proof {
            assert(cells@ =~= zero_column());
        }
        PhysicalPage { cells }
    }

    /// Read the cell at `index`.
    pub fn slot(&self, index: usize) -> (v: i64)
        requires
            self.wf(),
            index < PAGE_SLOTS,
        ensures
            v == self@[index as int],
    {
        self.cells[index]
    }

    /// Overwrite every cell with the corresponding cell of `other`.
    pub fn copy_from(&mut self, other: &PhysicalPage)
        requires
            old(self).wf(),
            other.wf(),
        ensures
            final(self).wf(),
            final(self)@ == other@,
    {
        let mut i: usize = 0;
        while i < PAGE_SLOTS
            invariant
                i <= PAGE_SLOTS,
                self.wf(),
                other.wf(),
                forall|j: int| 0 <= j < i ==> self@[j] == other@[j],
            decreases PAGE_SLOTS - i,
        {
            let v = other.slot(i);
            self.write_slot(i, v);
            i += 1;
        }
        proof {
            assert(self@ =~= other@);
        }
    }

    /// Overwrite the cell at `index`.
    pub fn write_slot(&mut self, index: usize, value: i64)
        requires
            old(self).wf(),
            index < PAGE_SLOTS,
        ensures
            final(self).wf(),
            final(self)@ == old(self)@.update(index as int, value),
    {
        self.cells[index] = value;
    }
}

/// One page of a table: an ordered sequence of physical pages, the four
/// metadata columns first, then one physical page per logical column.
pub struct Page {
    pub columns: Vec<PhysicalPage>,
}

impl View for Page {
    type V = Seq<Seq<i64>>;

    open spec fn view(&self) -> Seq<Seq<i64>> {
        Seq::new(self.columns@.len(), |c: int| self.columns@[c]@)
    }
}

impl Page {
    pub open spec fn wf(self, num_columns: int) -> bool {
        &&& self@.len() == NUM_METADATA_COLUMNS + num_columns
        &&& forall|c: int| 0 <= c < self@.len() ==> (#[trigger] self@[c]).len() == PAGE_SLOTS
    }

    /// A page with all metadata and data cells zero.
    pub fn new(num_columns: usize) -> (r: Self)
        requires
            num_columns + NUM_METADATA_COLUMNS <= usize::MAX,
        ensures
            r.wf(num_columns as int),
            r@ == zero_page(num_columns as int),
    {
        let total = NUM_METADATA_COLUMNS + num_columns;
        let mut columns: Vec<PhysicalPage> = Vec::new();
        let mut i: usize = 0;
        while i < total
            invariant
                i <= total,
                columns@.len() == i,
                forall|c: int| 0 <= c < i ==> (#[trigger] columns@[c])@ == zero_column(),
            decreases total - i,
        {
            columns.push(PhysicalPage::new());
            i += 1;
        }
        let r = Page { columns };
        proof {
            assert(r@ =~~= zero_page(num_columns as int));
        }
        r
    }

    /// The physical page of column `index` (metadata columns occupy indices
    /// 0 to 3, logical column `c` sits at `NUM_METADATA_COLUMNS + c`).
    pub fn get_column(&self, index: usize) -> (r: &PhysicalPage)
        requires
            index < self@.len(),
        ensures
            r@ == self@[index as int],
    {
        &self.columns[index]
    }

    /// Read the cell of column `column` at row position `slot`.
    pub fn get_slot(&self, column: usize, slot: usize) -> (v: i64)
        requires
            column < self@.len(),
            self@[column as int].len() == PAGE_SLOTS,
            slot < PAGE_SLOTS,
        ensures
            v == self@[column as int][slot as int],
    {
        self.columns[column].slot(slot)
    }

    /// Overwrite the cell of column `column` at row position `slot`.
    pub fn write_slot(&mut self, column: usize, slot: usize, value: i64)
        requires
            column < old(self)@.len(),
            old(self)@[column as int].len() == PAGE_SLOTS,
            slot < PAGE_SLOTS,
        ensures
            final(self)@ == old(self)@.update(
                column as int,
                old(self)@[column as int].update(slot as int, value),
            ),
    {
        let pp: &mut PhysicalPage = &mut self.columns[column];
        pp.write_slot(slot, value);
        proof {
            assert(self@ =~~= old(self)@.update(
                column as int,
                old(self)@[column as int].update(slot as int, value),
            ));
        }
    }
}

/// Two distinct tail record numbers differ in their page or in their slot.
proof fn lemma_tail_position_distinct(t1: int, t2: int)
    requires
        0 <= t1,
        0 <= t2,
        t1 != t2,
    ensures
        t1 / 512 != t2 / 512 || t1 % 512 != t2 % 512,
{
    vstd::arithmetic::div_mod::lemma_fundamental_div_mod(t1, 512);
    vstd::arithmetic::div_mod::lemma_fundamental_div_mod(t2, 512);
}

/// A record number below the allocated cell count lies within the tail-page
/// list.
pub proof fn lemma_tail_page_in_bounds(t: int, len: int)
    requires
        0 <= t < len * 512,
    ensures
        0 <= t / 512 < len,
        0 <= t % 512 < 512,
{
    vstd::arithmetic::div_mod::lemma_fundamental_div_mod(t, 512);
    vstd::arithmetic::div_mod::lemma_multiply_divide_lt(t, 512, len);
}

/// A fixed group of base pages plus a growable list of tail (version) pages.
///
/// Base pages are allocated eagerly at range creation; tail pages are added
/// one at a time as appended update records fill the current tail page.  The
/// range knows its own position in the table so it can mint tail RIDs.
pub struct PageRange {
    pub num_columns: usize,
    pub range_number: usize,
    pub base_pages: Vec<Page>,
    pub tail_pages: Vec<Page>,
    pub num_tail_records: usize,
}

impl PageRange {
    pub open spec fn wf(self) -> bool {
        &&& self.num_columns <= 62
        &&& self.range_number < MAX_RID_INDEX / 8192
        &&& self.base_pages@.len() == RANGE_PAGE_COUNT
        &&& (forall|p: int|
            0 <= p < RANGE_PAGE_COUNT ==> (#[trigger] self.base_pages@[p]).wf(
                self.num_columns as int,
            ))
        &&& 1 <= self.tail_pages@.len() <= RANGE_PAGE_COUNT
        &&& (forall|p: int|
            0 <= p < self.tail_pages@.len() ==> (#[trigger] self.tail_pages@[p]).wf(
                self.num_columns as int,
            ))
        &&& self.num_tail_records <= self.tail_pages@.len() * 512
        &&& self.num_tail_records <= RANGE_CAPACITY
    }

    /// The metadata or data cell of the base record at `(page, slot)`.
    pub open spec fn base_cell(self, page: int, column: int, slot: int) -> i64 {
        self.base_pages@[page]@[column][slot]
    }

    /// The metadata or data cell of the `t`-th appended tail record.
    pub open spec fn tail_cell(self, t: int, column: int) -> i64 {
        self.tail_pages@[t / 512]@[column][t % 512]
    }

    /// Raw RID of the `t`-th tail record of this range.
    pub open spec fn tail_raw(self, t: int) -> int {
        TAIL_RID_BASE + self.range_number * 8192 + t
    }

    /// Whether a stored cell value names an already appended tail record of
    /// this range.
    pub open spec fn is_local_tail(self, x: int) -> bool {
        self.tail_raw(0) <= x < self.tail_raw(self.num_tail_records as int)
    }

    /// Tail record number named by a stored tail RID of this range.
    pub open spec fn local_tail(self, x: int) -> int {
        x - TAIL_RID_BASE - self.range_number * 8192
    }

    /// A base record either has schema encoding zero (its own cells are
    /// current) or its indirection cell names an appended tail record of
    /// this range.
    pub open spec fn base_indirection_ok(self, page: int, slot: int) -> bool {
        self.base_cell(page, METADATA_SCHEMA_ENCODING as int, slot) != 0
            ==> self.is_local_tail(
            self.base_cell(page, METADATA_INDIRECTION as int, slot) as int,
        )
    }

    /// The current value of column `column` of the base record at
    /// `(page, slot)`: the base cell while the row was never updated, else
    /// the cell of the newest tail record named by the base indirection.
    pub open spec fn latest_cell(self, page: int, slot: int, column: int) -> i64 {
        if self.base_cell(page, METADATA_SCHEMA_ENCODING as int, slot) == 0 {
            self.base_cell(page, column, slot)
        } else {
            self.tail_cell(
                self.local_tail(self.base_cell(page, METADATA_INDIRECTION as int, slot) as int),
                column,
            )
        }
    }

    /// A page range with `RANGE_PAGE_COUNT` zeroed base pages and one
    /// zeroed initial tail page.
    pub fn new(num_columns: usize, range_number: usize) -> (r: Self)
        requires
            num_columns <= 62,
            range_number < MAX_RID_INDEX / 8192,
        ensures
            r.wf(),
            r.num_columns == num_columns,
            r.range_number == range_number,
            r.num_tail_records == 0,
            r.base_pages@.len() == RANGE_PAGE_COUNT,
            r.tail_pages@.len() == 1,
            r.tail_pages@[0]@ == zero_page(num_columns as int),
            forall|p: int, c: int, s: int|
                0 <= p < RANGE_PAGE_COUNT && 0 <= c < NUM_METADATA_COLUMNS + num_columns && 0 <= s
                    < PAGE_SLOTS ==> #[trigger] r.base_cell(p, c, s) == 0,
    {
        let mut base_pages: Vec<Page> = Vec::new();
        let mut i: usize = 0;
        while i < RANGE_PAGE_COUNT
            invariant
                i <= RANGE_PAGE_COUNT,
                num_columns <= 62,
                base_pages@.len() == i,
                forall|p: int|
                    0 <= p < i ==> (#[trigger] base_pages@[p])@ == zero_page(num_columns as int),
            decreases RANGE_PAGE_COUNT - i,
        {
            base_pages.push(Page::new(num_columns));
            i += 1;
        }
        let tail_pages: Vec<Page> = vec![Page::new(num_columns)];
        PageRange { num_columns, range_number, base_pages, tail_pages, num_tail_records: 0 }
    }

    /// The base page at `page_num`.
    pub fn get_page(&self, page_num: usize) -> (r: &Page)
        requires
            self.wf(),
            page_num < RANGE_PAGE_COUNT,
        ensures
            r@ == self.base_pages@[page_num as int]@,
            r.wf(self.num_columns as int),
    {
        &self.base_pages[page_num]
    }

    /// The base page holding the record addressed by `rid`; a base RID's
    /// page field always lies within the fixed base-page count.
    pub fn get_base_page(&self, rid: &BaseRID) -> (r: Option<&Page>)
        requires
            self.wf(),
            rid.wf(),
        ensures
            r is Some,
            r->0@ == self.base_pages@[rid.spec_page()]@,
    {
        Some(&self.base_pages[rid.page()])
    }

    /// The tail page holding the record addressed by `rid`, or `None` if
    /// that page has not been allocated in this range yet.
    pub fn get_tail_page(&self, rid: &TailRID) -> (r: Option<&Page>)
        requires
            self.wf(),
            rid.wf(),
        ensures
            r is Some <==> rid.spec_page() < self.tail_pages@.len(),
            r is Some ==> r->0@ == self.tail_pages@[rid.spec_page()]@,
    {
        let p = rid.page();
        if p < self.tail_pages.len() {
            Some(&self.tail_pages[p])
        } else {
            None
        }
    }

    /// Read one cell of a base record.
    pub fn read_base_cell(&self, page: usize, column: usize, slot: usize) -> (v: i64)
        requires
            self.wf(),
            page < RANGE_PAGE_COUNT,
            column < NUM_METADATA_COLUMNS + self.num_columns,
            slot < PAGE_SLOTS,
        ensures
            v == self.base_cell(page as int, column as int, slot as int),
    {
        self.base_pages[page].get_slot(column, slot)
    }

    /// Overwrite one cell of a base record; every other cell of the range
    /// is unchanged.
    pub fn write_base_cell(&mut self, page: usize, column: usize, slot: usize, value: i64)
        requires
            old(self).wf(),
            page < RANGE_PAGE_COUNT,
            column < NUM_METADATA_COLUMNS + old(self).num_columns,
            slot < PAGE_SLOTS,
        ensures
            final(self).wf(),
            final(self).num_columns == old(self).num_columns,
            final(self).range_number == old(self).range_number,
            final(self).num_tail_records == old(self).num_tail_records,
            final(self).tail_pages@ == old(self).tail_pages@,
            final(self).base_cell(page as int, column as int, slot as int) == value,
            forall|p2: int, c2: int, s2: int|
                0 <= p2 < RANGE_PAGE_COUNT && 0 <= c2 < NUM_METADATA_COLUMNS
                    + old(self).num_columns && 0 <= s2 < PAGE_SLOTS && !(p2 == page && c2 == column
                    && s2 == slot) ==> #[trigger] final(self).base_cell(p2, c2, s2) == old(
                    self,
                ).base_cell(p2, c2, s2),
    {
        let pg: &mut Page = &mut self.base_pages[page];
        pg.write_slot(column, slot, value);
    }

    /// Read one cell of an appended tail record.
    pub fn read_tail_cell(&self, t: usize, column: usize) -> (v: i64)
        requires
            self.wf(),
            t < self.tail_pages@.len() * 512,
            column < NUM_METADATA_COLUMNS + self.num_columns,
        ensures
            v == self.tail_cell(t as int, column as int),
    {
        proof {
            lemma_tail_page_in_bounds(t as int, self.tail_pages@.len() as int);
        }
        self.tail_pages[t / 512].get_slot(column, t % 512)
    }

    /// Overwrite one cell of a tail record; every other cell of the range
    /// is unchanged.
    pub(crate) fn write_tail_cell(&mut self, t: usize, column: usize, value: i64)
        requires
            old(self).wf(),
            t < old(self).tail_pages@.len() * 512,
            column < NUM_METADATA_COLUMNS + old(self).num_columns,
        ensures
            final(self).wf(),
            final(self).num_columns == old(self).num_columns,
            final(self).range_number == old(self).range_number,
            final(self).num_tail_records == old(self).num_tail_records,
            final(self).base_pages@ == old(self).base_pages@,
            final(self).tail_pages@.len() == old(self).tail_pages@.len(),
            final(self).tail_cell(t as int, column as int) == value,
            forall|t2: int, c2: int|
                0 <= t2 < old(self).tail_pages@.len() * 512 && 0 <= c2 < NUM_METADATA_COLUMNS
                    + old(self).num_columns && !(t2 == t && c2 == column)
                    ==> #[trigger] final(self).tail_cell(t2, c2) == old(self).tail_cell(t2, c2),
    {
        proof {
            lemma_tail_page_in_bounds(t as int, self.tail_pages@.len() as int);
        }
        let tp = t / 512;
        let ts = t % 512;
        let pg: &mut Page = &mut self.tail_pages[tp];
        pg.write_slot(column, ts, value);
        proof {
            assert forall|t2: int, c2: int|
                0 <= t2 < old(self).tail_pages@.len() * 512 && 0 <= c2 < NUM_METADATA_COLUMNS
                    + old(self).num_columns && !(t2 == t && c2 == column) implies #[trigger] self
                .tail_cell(t2, c2) == old(self).tail_cell(t2, c2) by {
                lemma_tail_page_in_bounds(t2, old(self).tail_pages@.len() as int);
                if t2 != t {
                    lemma_tail_position_distinct(t2, t as int);
                }
            }
        }
    }

    /// Append a new update (tail) record for the base row addressed by
    /// `base`, carrying `values[c]` for each supplied column and the row's
    /// previous current value for the rest, and pointing back at the row's
    /// previous newest version.  Returns the new record's tail RID, or
    /// `None` when the range's tail capacity is exhausted.
    pub fn append_update_record(&mut self, base: &BaseRID, values: &Vec<Option<i64>>) -> (r: Option<
        TailRID,
    >)
        requires
            old(self).wf(),
            base.wf(),
            base.spec_page_range() == old(self).range_number,
            values@.len() == old(self).num_columns,
            old(self).base_indirection_ok(base.spec_page(), base.spec_slot()),
        ensures
            final(self).wf(),
            final(self).num_columns == old(self).num_columns,
            final(self).range_number == old(self).range_number,
            final(self).base_pages@ == old(self).base_pages@,
            r is None <==> old(self).num_tail_records == RANGE_CAPACITY,
            r is None ==> *final(self) == *old(self),
            r is Some ==> {
                let t = old(self).num_tail_records as int;
                let trid = r->0;
                &&& final(self).num_tail_records == t + 1
                &&& trid.wf()
                &&& trid.raw == old(self).tail_raw(t)
                &&& forall|t2: int, c2: int|
                    0 <= t2 < t && 0 <= c2 < NUM_METADATA_COLUMNS + old(self).num_columns
                        ==> #[trigger] final(self).tail_cell(t2, c2) == old(self).tail_cell(t2, c2)
                &&& final(self).tail_cell(t, METADATA_INDIRECTION as int) == (
                if old(self).base_cell(
                    base.spec_page(),
                    METADATA_SCHEMA_ENCODING as int,
                    base.spec_slot(),
                ) == 0 {
                    base.raw as i64
                } else {
                    old(self).base_cell(
                        base.spec_page(),
                        METADATA_INDIRECTION as int,
                        base.spec_slot(),
                    )
                })
                &&& final(self).tail_cell(t, METADATA_RID as int) == old(self).tail_raw(t) as i64
                &&& final(self).tail_cell(t, METADATA_SCHEMA_ENCODING as int) == schema_bitmap(
                    values@,
                )
                &&& forall|c: int|
                    0 <= c < old(self).num_columns
                        ==> #[trigger] final(self).tail_cell(t, NUM_METADATA_COLUMNS + c) == (
                    if values@[c] is Some {
                        values@[c]->0
                    } else {
                        old(self).latest_cell(
                            base.spec_page(),
                            base.spec_slot(),
                            NUM_METADATA_COLUMNS + c,
                        )
                    })
            },
    {
        if self.num_tail_records == RANGE_CAPACITY {
            return None;
        }
        let t = self.num_tail_records;
        let bp = base.page();
        let bs = base.slot();
        let sch = self.read_base_cell(bp, METADATA_SCHEMA_ENCODING, bs);
        let prev_raw: i64 = if sch == 0 {
            base.raw() as i64
        } else {
            self.read_base_cell(bp, METADATA_INDIRECTION, bs)
        };
        // Tail record number of the row's previous newest version, where one
        // exists.
        let prev_t: usize = if sch == 0 {
            0
        } else {
            ((prev_raw as u64 - TAIL_RID_BASE) as usize) - self.range_number * RANGE_CAPACITY
        };

        // Collect the merged record first: the supplied value where one is
        // given, the row's previous current value otherwise.
        let mut merged: Vec<i64> = Vec::new();
        let mut c: usize = 0;
        while c < self.num_columns
            invariant
                c <= self.num_columns,
                *self == *old(self),
                self.wf(),
                base.wf(),
                bp == base.spec_page(),
                bs == base.spec_slot(),
                values@.len() == self.num_columns,
                sch == self.base_cell(bp as int, METADATA_SCHEMA_ENCODING as int, bs as int),
                sch != 0 ==> prev_t == self.local_tail(
                    self.base_cell(bp as int, METADATA_INDIRECTION as int, bs as int) as int,
                ) && prev_t < self.num_tail_records,
                merged@.len() == c,
                forall|j: int|
                    0 <= j < c ==> #[trigger] merged@[j] == (if values@[j] is Some {
                        values@[j]->0
                    } else {
                        self.latest_cell(bp as int, bs as int, NUM_METADATA_COLUMNS + j)
                    }),
            decreases self.num_columns - c,
        {
            let v: i64 = match values[c] {
                Some(v) => v,
                None => {
                    if sch == 0 {
                        self.read_base_cell(bp, NUM_METADATA_COLUMNS + c, bs)
                    } else {
                        self.read_tail_cell(prev_t, NUM_METADATA_COLUMNS + c)
                    }
                },
            };
            merged.push(v);
            c += 1;
        }

        // Grow the tail-page list when the current tail page is full.
        if t == self.tail_pages.len() * 512 {
            self.tail_pages.push(Page::new(self.num_columns));
            proof {
                assert forall|t2: int, c2: int|
                    0 <= t2 < t && 0 <= c2 < NUM_METADATA_COLUMNS + self.num_columns implies #[trigger] self.tail_cell(t2, c2) == old(self).tail_cell(t2, c2) by {
                    lemma_tail_page_in_bounds(t2, old(self).tail_pages@.len() as int);
                }
            }
        }
        proof {
            assert(t < self.tail_pages@.len() * 512);
        }
        let bitmap = compute_schema_bitmap(values);
        let trid = TailRID::from_parts(self.range_number, t / 512, t % 512);
        proof {
            vstd::arithmetic::div_mod::lemma_fundamental_div_mod(t as int, 512);
            lemma_tail_page_in_bounds(t as int, self.tail_pages@.len() as int);
        }
        self.num_tail_records = t + 1;
        self.write_tail_cell(t, METADATA_INDIRECTION, prev_raw);
        self.write_tail_cell(t, METADATA_RID, trid.raw() as i64);
        self.write_tail_cell(t, METADATA_SCHEMA_ENCODING, bitmap);
        let mut c: usize = 0;
        while c < self.num_columns
            invariant
                c <= self.num_columns,
                t == old(self).num_tail_records,
                t < self.tail_pages@.len() * 512,
                trid.wf(),
                trid.raw == old(self).tail_raw(t as int),
                self.wf(),
                self.num_columns == old(self).num_columns,
                self.range_number == old(self).range_number,
                self.num_tail_records == old(self).num_tail_records + 1,
                self.base_pages@ == old(self).base_pages@,
                self.tail_pages@.len() >= old(self).tail_pages@.len(),
                t <= old(self).tail_pages@.len() * 512,
                bp == base.spec_page(),
                bs == base.spec_slot(),
                values@.len() == self.num_columns,
                merged@.len() == self.num_columns,
                forall|j: int|
                    0 <= j < merged@.len() ==> #[trigger] merged@[j] == (if values@[j] is Some {
                        values@[j]->0
                    } else {
                        old(self).latest_cell(bp as int, bs as int, NUM_METADATA_COLUMNS + j)
                    }),
                forall|t2: int, c2: int|
                    0 <= t2 < t && 0 <= c2 < NUM_METADATA_COLUMNS + self.num_columns && t2 < old(
                        self,
                    ).tail_pages@.len() * 512 ==> #[trigger] self.tail_cell(t2, c2) == old(
                        self,
                    ).tail_cell(t2, c2),
                self.tail_cell(t as int, METADATA_INDIRECTION as int) == prev_raw,
                self.tail_cell(t as int, METADATA_RID as int) == trid.raw as i64,
                self.tail_cell(t as int, METADATA_SCHEMA_ENCODING as int) == bitmap,
                forall|j: int|
                    0 <= j < c ==> #[trigger] self.tail_cell(t as int, NUM_METADATA_COLUMNS + j)
                        == merged@[j],
            decreases self.num_columns - c,
        {
            self.write_tail_cell(t, NUM_METADATA_COLUMNS + c, merged[c]);
            c += 1;
        }
        Some(trid)
    }
}

/// Bitmap over a row of nullable update values: bit `i` (weight `pow2(i)`)
/// is set exactly when value `i` is supplied.
pub open spec fn schema_bitmap<T>(vals: Seq<Option<T>>) -> int
    decreases vals.len(),
{
    if vals.len() == 0 {
        0
    } else {
        schema_bitmap(vals.drop_last()) + if vals.last() is Some {
            pow2((vals.len() - 1) as nat) as int
        } else {
            0
        }
    }
}

/// The schema bitmap is non-negative and bounded by `pow2(len)`.
pub proof fn lemma_schema_bitmap_bound<T>(vals: Seq<Option<T>>)
    ensures
        0 <= schema_bitmap(vals) < pow2(vals.len()) as int,
    decreases vals.len(),
{
    vstd::arithmetic::power2::lemma_pow2_pos(vals.len());
    if vals.len() > 0 {
        lemma_schema_bitmap_bound(vals.drop_last());
        vstd::arithmetic::power2::lemma_pow2_unfold(vals.len());
    }
}

/// The schema bitmap is zero exactly when no value is supplied.
pub proof fn lemma_schema_bitmap_zero<T>(vals: Seq<Option<T>>)
    ensures
        schema_bitmap(vals) == 0 <==> (forall|i: int| 0 <= i < vals.len() ==> vals[i] is None),
    decreases vals.len(),
{
    lemma_schema_bitmap_bound(vals);
    if vals.len() > 0 {
        lemma_schema_bitmap_bound(vals.drop_last());
        lemma_schema_bitmap_zero(vals.drop_last());
        vstd::arithmetic::power2::lemma_pow2_pos((vals.len() - 1) as nat);
        assert(forall|i: int|
            0 <= i < vals.len() - 1 ==> #[trigger] vals[i] == vals.drop_last()[i]);
        if schema_bitmap(vals) != 0 && vals.last() is None {
            let w = choose|i: int| 0 <= i < vals.len() - 1 && !(vals.drop_last()[i] is None);
            assert(!(vals[w] is None));
        }
    }
}

/// Compute the schema-encoding bitmap of a row of nullable update values.
pub fn compute_schema_bitmap(values: &Vec<Option<i64>>) -> (r: i64)
    requires
        values@.len() <= 62,
    ensures
        r == schema_bitmap(values@),
        r >= 0,
{
    let mut acc: i64 = 0;
    let mut bit: i64 = 1;
    let mut i: usize = 0;
    let n = values.len();
    proof {
        lemma_schema_bitmap_bound(values@);
        vstd::arithmetic::power2::lemma2_to64();
        assert(values@.take(0) =~= Seq::<Option<i64>>::empty());
    }
    while i < n
        invariant
            i <= n,
            n == values@.len() <= 62,
            i < n ==> bit == pow2(i as nat),
            acc == schema_bitmap(values@.take(i as int)),
            0 <= acc < pow2(i as nat),
        decreases n - i,
    {
        proof {
            lemma_schema_bitmap_bound(values@.take(i as int));
            lemma_schema_bitmap_bound(values@.take(i as int + 1));
            assert(values@.take(i as int + 1).drop_last() =~= values@.take(i as int));
            vstd::arithmetic::power2::lemma_pow2_unfold(i as nat + 1);
            vstd::arithmetic::power2::lemma_pow2_pos(i as nat);
            assert(pow2(i as nat + 1) <= pow2(62)) by {
                if i as nat + 1 < 62 {
                    vstd::arithmetic::power2::lemma_pow2_strictly_increases(i as nat + 1, 62);
                }
            }
            assert(pow2(62) == 0x4000000000000000) by {
                vstd::arithmetic::power2::lemma2_to64_rest();
            }
        }
        if values[i].is_some() {
            acc = acc + bit;
        }
        bit = if i + 1 < n {
            bit * 2
        } else {
            bit
        };
        i += 1;
    }
    proof {
        assert(values@.take(n as int) =~= values@);
    }
    acc
}

} // verus!
