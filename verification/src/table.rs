//! The versioned row engine.
//!
//! A table owns a primary-key index, a sequence of page ranges and the RID
//! allocator.  Rows are inserted into base records; an update appends a tail
//! record carrying the merged row (the supplied value for each given column,
//! the row's previous current value for the rest) and rewires the base
//! record's indirection to it, so a read resolves at most one hop.  A delete
//! tombstones the base record and every reachable tail record.  The base
//! record's schema-encoding cell accumulates the bitmap of every column ever
//! updated; it is zero exactly while the base cells are current.

use vstd::prelude::*;

use crate::disk::DiskManager;
use crate::index::{seq_has_raw, Index};
use crate::page::{compute_schema_bitmap, schema_bitmap, PageRange, PhysicalPage};
use crate::rid::{lemma_rid_index_decode, lemma_rid_index_injective, BaseRID, TailRID, RID};
use crate::{
    MAX_RID_INDEX, METADATA_INDIRECTION, METADATA_RID, METADATA_SCHEMA_ENCODING,
    NUM_METADATA_COLUMNS, RANGE_CAPACITY, RID_INVALID, TAIL_RID_BASE,
};

verus! {

/// One matched row as returned by a point query: the base record's RID,
/// indirection and schema-encoding metadata, plus the selected column values
/// of the row's current version.
pub struct Record {
    pub rid: u64,
    pub indirection: u64,
    pub schema_encoding: u64,
    pub columns: Vec<i64>,
}

impl Record {
    pub fn new(rid: u64, indirection: u64, schema_encoding: u64, columns: Vec<i64>) -> (r: Self)
        ensures
            r.rid == rid,
            r.indirection == indirection,
            r.schema_encoding == schema_encoding,
            r.columns@ == columns@,
    {
        Record { rid, indirection, schema_encoding, columns }
    }
}

/// Whether some record of `s` reports the base RID `raw`.
pub open spec fn records_have_rid(s: Seq<Record>, raw: u64) -> bool {
    exists|k: int| 0 <= k < s.len() && (#[trigger] s[k]).rid == raw
}

/// A table: name, column bookkeeping, the per-column index, the next-RID
/// allocator cursor and the page ranges holding the rows.
pub struct Table {
    pub name: String,
    pub num_columns: usize,
    pub primary_key_index: usize,
    pub index: Index,
    pub next_rid: u64,
    pub ranges: Vec<PageRange>,
}

impl Table {
    /// The metadata or data cell of the base record of row `r`.
    pub open spec fn b_cell(self, r: int, c: int) -> i64 {
        self.ranges@[r / 8192].base_cell((r / 512) % 16, c, r % 512)
    }

    /// Whether row `r` is live (not tombstoned).
    pub open spec fn live(self, r: int) -> bool {
        self.b_cell(r, METADATA_RID as int) != RID_INVALID
    }

    /// The accumulated schema-encoding bitmap of row `r`.
    pub open spec fn schema(self, r: int) -> i64 {
        self.b_cell(r, METADATA_SCHEMA_ENCODING as int)
    }

    /// The current value of (absolute) column `c` of row `r`: the base cell
    /// while the row was never updated, else the newest tail record's cell.
    pub open spec fn latest_cell(self, r: int, c: int) -> i64 {
        self.ranges@[r / 8192].latest_cell((r / 512) % 16, r % 512, c)
    }

    /// The current value of logical column `c` of row `r`.
    pub open spec fn latest_col(self, r: int, c: int) -> i64 {
        self.latest_cell(r, NUM_METADATA_COLUMNS + c)
    }

    /// The row's current primary-key value.
    pub open spec fn key_of(self, r: int) -> i64 {
        self.latest_col(r, self.primary_key_index as int)
    }

    /// Whether row `r` currently matches `value` at logical column `c`.
    pub open spec fn matches(self, r: int, c: int, value: i64) -> bool {
        0 <= r < self.next_rid && self.live(r) && self.latest_col(r, c) == value
    }

    /// Shape of the stored ranges alone: every allocated page range is
    /// well-formed, matches the table's column count and knows its own
    /// position.  At most 62 logical columns are allowed so that the schema
    /// and indexed-column bitmaps, and every intermediate bit weight used to
    /// build them, fit comfortably in one signed 64-bit metadata cell.
    pub open spec fn ranges_wf(self) -> bool {
        &&& 1 <= self.num_columns <= 62
        &&& (forall|i: int|
            0 <= i < self.ranges@.len() ==> (#[trigger] self.ranges@[i]).wf()
                && self.ranges@[i].num_columns == self.num_columns
                && self.ranges@[i].range_number == i)
    }

    /// Structural well-formedness: bounds, the range-count formula, and the
    /// shape of every range and of the index.
    pub open spec fn shape_wf(self) -> bool {
        &&& self.ranges_wf()
        &&& self.primary_key_index < self.num_columns
        &&& self.next_rid <= MAX_RID_INDEX
        &&& self.ranges@.len() == (self.next_rid + 8191) / 8192
        &&& self.index.wf(self.num_columns as int)
        &&& self.index.spec_is_indexed(self.primary_key_index as int)
    }

    /// Well-formedness of one stored row: the RID metadata cell holds the
    /// row's own RID or the tombstone sentinel, the schema bitmap is
    /// non-negative, and a nonzero schema names an appended tail record of
    /// the row's own range.
    pub open spec fn row_wf(self, r: int) -> bool {
        &&& (self.b_cell(r, METADATA_RID as int) == r || self.b_cell(r, METADATA_RID as int)
            == RID_INVALID)
        &&& self.schema(r) >= 0
        &&& (self.b_cell(r, METADATA_INDIRECTION as int) == r || self.ranges@[r / 8192].is_local_tail(
            self.b_cell(r, METADATA_INDIRECTION as int) as int,
        ))
        &&& (self.schema(r) != 0 ==> self.ranges@[r / 8192].is_local_tail(
            self.b_cell(r, METADATA_INDIRECTION as int) as int,
        ))
    }

    pub open spec fn rows_wf(self) -> bool {
        forall|r: int| 0 <= r < self.next_rid ==> #[trigger] self.row_wf(r)
    }

    /// Every tail record's indirection points at a strictly older tail
    /// record of the same range or at a base RID, so version chains
    /// terminate.
    pub open spec fn tails_wf(self) -> bool {
        forall|i: int, t: int|
            0 <= i < self.ranges@.len() && 0 <= t < (#[trigger] self.ranges@[i]).num_tail_records
                ==> {
                let ind = #[trigger] self.ranges@[i].tail_cell(t, METADATA_INDIRECTION as int) as int;
                (self.ranges@[i].tail_raw(0) <= ind < self.ranges@[i].tail_raw(t)) || (0 <= ind
                    < TAIL_RID_BASE)
            }
    }

    /// The index is consistent with the stored rows: every recorded entry
    /// names an allocated row and, while that row is live, its current value
    /// of the entry's column; and every live row is recorded under its
    /// current value in every indexed column.
    pub open spec fn index_ok(self) -> bool {
        &&& (forall|c: int, v: i64, raw: u64|
            0 <= c < self.num_columns && #[trigger] self.index.spec_contains(c, v, raw) ==> raw
                < self.next_rid && (self.live(raw as int) ==> self.latest_col(raw as int, c) == v))
        &&& (forall|c: int, r: int|
            0 <= c < self.num_columns && self.index.spec_is_indexed(c) && 0 <= r < self.next_rid
                && self.live(r) ==> #[trigger] self.index.spec_contains(
                c,
                self.latest_col(r, c),
                r as u64,
            ))
    }

    pub open spec fn wf(self) -> bool {
        self.shape_wf() && self.rows_wf() && self.tails_wf() && self.index_ok()
    }

    /// An empty table with the given shape; the primary key column is
    /// indexed from the start.
    pub fn new(name: String, num_columns: usize, key_index: usize) -> (r: Table)
        requires
            1 <= num_columns <= 62,
            key_index < num_columns,
        ensures
            r.wf(),
            r.name == name,
            r.num_columns == num_columns,
            r.primary_key_index == key_index,
            r.next_rid == 0,
            r.index.spec_is_indexed(key_index as int),
            forall|c: int|
                0 <= c < num_columns && c != key_index ==> !(#[trigger] r.index.spec_is_indexed(c)),
            forall|c: int, v: i64, raw: u64|
                0 <= c < num_columns ==> !r.index.spec_contains(c, v, raw),
    {
        let t = Table {
            name,
            num_columns,
            primary_key_index: key_index,
            index: Index::new(key_index, num_columns),
            next_rid: 0,
            ranges: Vec::new(),
        };
        t
    }

    /// The number of logical columns.
    pub fn num_columns(&self) -> (r: usize)
        ensures
            r == self.num_columns,
    {
        self.num_columns
    }

    /// The page range holding row addresses of range number `range_number`.
    pub fn get_page_range(&self, range_number: usize) -> (r: &PageRange)
        requires
            self.shape_wf(),
            range_number < self.ranges@.len(),
        ensures
            *r == self.ranges@[range_number as int],
    {
        &self.ranges[range_number]
    }

    /// Read one base-record cell of row `rid`.
    fn read_base(&self, rid: &BaseRID, col: usize) -> (v: i64)
        requires
            self.ranges_wf(),
            rid.wf(),
            rid.idx() < self.ranges@.len() * 8192,
            col < NUM_METADATA_COLUMNS + self.num_columns,
        ensures
            v == self.b_cell(rid.idx(), col as int),
    {
        proof {
            lemma_range_of_rid(rid.idx(), self.ranges@.len() as int);
        }
        let pr = rid.page_range();
        self.ranges[pr].read_base_cell(rid.page(), col, rid.slot())
    }

    /// Overwrite one base-record cell of row `rid`; every other cell of the
    /// table, the index and the allocator cursor are unchanged.
    fn write_base(&mut self, rid: &BaseRID, col: usize, value: i64)
        requires
            old(self).ranges_wf(),
            rid.wf(),
            rid.idx() < old(self).ranges@.len() * 8192,
            col < NUM_METADATA_COLUMNS + old(self).num_columns,
        ensures
            final(self).ranges_wf(),
            final(self).name == old(self).name,
            final(self).num_columns == old(self).num_columns,
            final(self).primary_key_index == old(self).primary_key_index,
            final(self).index == old(self).index,
            final(self).next_rid == old(self).next_rid,
            final(self).ranges@.len() == old(self).ranges@.len(),
            final(self).b_cell(rid.idx(), col as int) == value,
            forall|r2: int, c2: int|
                0 <= r2 < old(self).ranges@.len() * 8192 && 0 <= c2 < NUM_METADATA_COLUMNS + old(
                    self,
                ).num_columns && !(r2 == rid.idx() && c2 == col) ==> #[trigger] final(self).b_cell(
                    r2,
                    c2,
                ) == old(self).b_cell(r2, c2),
            forall|i: int|
                0 <= i < old(self).ranges@.len() ==> (#[trigger] final(self).ranges@[i]).tail_pages@
                    == old(self).ranges@[i].tail_pages@ && final(self).ranges@[i].num_tail_records
                    == old(self).ranges@[i].num_tail_records,
    {
        proof {
            lemma_range_of_rid(rid.idx(), self.ranges@.len() as int);
        }
        let pr = rid.page_range();
        let pg = rid.page();
        let sl = rid.slot();
        let range: &mut PageRange = &mut self.ranges[pr];
        range.write_base_cell(pg, col, sl, value);
        proof {
            assert forall|r2: int, c2: int|
                0 <= r2 < old(self).ranges@.len() * 8192 && 0 <= c2 < NUM_METADATA_COLUMNS + old(
                    self,
                ).num_columns && !(r2 == rid.idx() && c2 == col) implies #[trigger] self.b_cell(
                r2,
                c2,
            ) == old(self).b_cell(r2, c2) by {
                lemma_range_of_rid(r2, old(self).ranges@.len() as int);
                lemma_rid_index_decode(r2 / 8192, (r2 / 512) % 16, r2 % 512);
                if r2 / 8192 == rid.idx() / 8192 {
                    if r2 != rid.idx() {
                        let a = BaseRID { raw: r2 as u64 };
                        let b = BaseRID { raw: rid.raw };
                        if a.spec_page_range() == b.spec_page_range() && a.spec_page()
                            == b.spec_page() && a.spec_slot() == b.spec_slot() {
                            lemma_rid_index_injective(a, b);
                        }
                    }
                }
            }
        }
    }
}

/// What an insert of the row `vals` leaves behind: one new live row at the
/// previous allocator cursor carrying exactly `vals` with schema encoding
/// zero, every existing row untouched, and the new row recorded in every
/// indexed column.
pub open spec fn inserted_row(pre: Table, post: Table, vals: Seq<i64>) -> bool {
    let r = pre.next_rid as int;
    &&& post.num_columns == pre.num_columns
    &&& post.primary_key_index == pre.primary_key_index
    &&& post.next_rid == pre.next_rid + 1
    &&& post.ranges@.len() == (pre.next_rid + 1 + 8191) / 8192
    &&& (forall|i: int|
        0 <= i < pre.ranges@.len() ==> (#[trigger] post.ranges@[i]).num_tail_records
            == pre.ranges@[i].num_tail_records)
    &&& (forall|i: int|
        pre.ranges@.len() <= i < post.ranges@.len() ==> (
        #[trigger] post.ranges@[i]).num_tail_records == 0)
    &&& post.live(r)
    &&& post.schema(r) == 0
    &&& (forall|c: int|
        0 <= c < pre.num_columns ==> #[trigger] post.latest_col(r, c) == vals[c])
    &&& (forall|r2: int|
        0 <= r2 < pre.next_rid ==> (#[trigger] post.live(r2) == pre.live(r2) && post.schema(r2)
            == pre.schema(r2)))
    &&& (forall|r2: int, c: int|
        0 <= r2 < pre.next_rid && 0 <= c < pre.num_columns ==> #[trigger] post.latest_col(r2, c)
            == pre.latest_col(r2, c))
    &&& (forall|c: int, v: i64, raw: u64|
        0 <= c < pre.num_columns ==> (#[trigger] post.index.spec_contains(c, v, raw) <==> (
        pre.index.spec_contains(c, v, raw) || (raw == pre.next_rid && pre.index.spec_is_indexed(c)
            && v == vals[c]))))
}

impl Table {
    /// Insert a row: allocate the next base RID, create a page range when
    /// the address crosses into one that does not exist yet, write the RID,
    /// a zero schema encoding, a self-pointing indirection and every column
    /// value, and record the row in every indexed column.  Every existing
    /// row is untouched.
    pub fn insert(&mut self, values: &Vec<i64>)
        requires
            old(self).wf(),
            values@.len() == old(self).num_columns,
            old(self).next_rid < MAX_RID_INDEX,
        ensures
            final(self).wf(),
            final(self).name == old(self).name,
            inserted_row(*old(self), *final(self), values@),
    {
        let ghost old_t = *old(self);
        let n = self.next_rid;
        let ghost ni = n as int;
        let rid = BaseRID::new(n);
        proof {
            vstd::arithmetic::div_mod::lemma_fundamental_div_mod(ni, 8192);
            let q = ni / 8192;
            let s = ni % 8192;
            if s > 0 {
                vstd::arithmetic::div_mod::lemma_fundamental_div_mod_converse(
                    ni + 8191,
                    8192,
                    q + 1,
                    s - 1,
                );
                vstd::arithmetic::div_mod::lemma_fundamental_div_mod_converse(
                    ni + 1 + 8191,
                    8192,
                    q + 1,
                    s,
                );
            } else {
                vstd::arithmetic::div_mod::lemma_fundamental_div_mod_converse(
                    ni + 8191,
                    8192,
                    q,
                    8191,
                );
                vstd::arithmetic::div_mod::lemma_fundamental_div_mod_converse(
                    ni + 1 + 8191,
                    8192,
                    q + 1,
                    0,
                );
            }
        }
        if self.ranges.len() <= rid.page_range() {
            let range_number = self.ranges.len();
            self.ranges.push(PageRange::new(self.num_columns, range_number));
        }
        proof {
            assert(ni < self.ranges@.len() * 8192);
            assert(self.ranges@.len() == (old_t.next_rid + 1 + 8191) / 8192);
        }
        let ghost grown = *self;
        self.write_base(&rid, METADATA_RID, n as i64);
        let ghost g1 = *self;
        self.write_base(&rid, METADATA_SCHEMA_ENCODING, 0);
        let ghost g2 = *self;
        self.write_base(&rid, METADATA_INDIRECTION, n as i64);
        proof {
            assert forall|r2: int, c2: int|
                0 <= r2 < old_t.ranges@.len() * 8192 && 0 <= c2 < NUM_METADATA_COLUMNS
                    + old_t.num_columns && r2 != ni implies #[trigger] self.b_cell(r2, c2)
                == old_t.b_cell(r2, c2) by {
                lemma_range_of_rid(r2, old_t.ranges@.len() as int);
                assert(grown.b_cell(r2, c2) == old_t.b_cell(r2, c2));
                assert(g1.b_cell(r2, c2) == grown.b_cell(r2, c2));
                assert(g2.b_cell(r2, c2) == g1.b_cell(r2, c2));
            }
            assert forall|i: int| 0 <= i < old_t.ranges@.len() implies (
                #[trigger] self.ranges@[i]).tail_pages@ == old_t.ranges@[i].tail_pages@
                && self.ranges@[i].num_tail_records == old_t.ranges@[i].num_tail_records by {
                assert(grown.ranges@[i].tail_pages@ == old_t.ranges@[i].tail_pages@);
                assert(g1.ranges@[i].tail_pages@ == grown.ranges@[i].tail_pages@);
                assert(g2.ranges@[i].tail_pages@ == g1.ranges@[i].tail_pages@);
                assert(g1.ranges@[i].num_tail_records == grown.ranges@[i].num_tail_records);
                assert(g2.ranges@[i].num_tail_records == g1.ranges@[i].num_tail_records);
            }
            assert forall|i: int|
                old_t.ranges@.len() <= i < self.ranges@.len() implies (
            #[trigger] self.ranges@[i]).num_tail_records == 0 by {
                assert(grown.ranges@[i].num_tail_records == 0);
                assert(g1.ranges@[i].num_tail_records == grown.ranges@[i].num_tail_records);
                assert(g2.ranges@[i].num_tail_records == g1.ranges@[i].num_tail_records);
            }
        }
        let mut c: usize = 0;
        while c < self.num_columns
            invariant
                c <= self.num_columns,
                rid.wf(),
                rid.idx() == ni,
                ni == old(self).next_rid,
                values@.len() == old(self).num_columns,
                old(self).wf(),
                self.ranges_wf(),
                self.name == old(self).name,
                self.num_columns == old(self).num_columns,
                self.primary_key_index == old(self).primary_key_index,
                self.index == old(self).index,
                self.next_rid == old(self).next_rid,
                self.ranges@.len() == (old(self).next_rid + 1 + 8191) / 8192,
                ni < self.ranges@.len() * 8192,
                self.b_cell(ni, METADATA_RID as int) == ni,
                self.b_cell(ni, METADATA_SCHEMA_ENCODING as int) == 0,
                self.b_cell(ni, METADATA_INDIRECTION as int) == ni,
                forall|r2: int, c2: int|
                    0 <= r2 < old(self).ranges@.len() * 8192 && 0 <= c2 < NUM_METADATA_COLUMNS
                        + old(self).num_columns && r2 != ni ==> #[trigger] self.b_cell(r2, c2)
                        == old(self).b_cell(r2, c2),
                forall|j: int|
                    0 <= j < c ==> #[trigger] self.b_cell(ni, NUM_METADATA_COLUMNS + j)
                        == values@[j],
                forall|i: int|
                    0 <= i < old(self).ranges@.len() ==> (#[trigger] self.ranges@[i]).tail_pages@
                        == old(self).ranges@[i].tail_pages@ && self.ranges@[i].num_tail_records
                        == old(self).ranges@[i].num_tail_records,
                forall|i: int|
                    old(self).ranges@.len() <= i < self.ranges@.len() ==> (
                    #[trigger] self.ranges@[i]).num_tail_records == 0,
            decreases self.num_columns - c,
        {
            let ghost prev = *self;
            self.write_base(&rid, NUM_METADATA_COLUMNS + c, values[c]);
            proof {
                assert forall|r2: int, c2: int|
                    0 <= r2 < old(self).ranges@.len() * 8192 && 0 <= c2 < NUM_METADATA_COLUMNS
                        + old(self).num_columns && r2 != ni implies #[trigger] self.b_cell(r2, c2)
                    == old(self).b_cell(r2, c2) by {
                    lemma_range_of_rid(r2, old(self).ranges@.len() as int);
                    assert(prev.b_cell(r2, c2) == old(self).b_cell(r2, c2));
                }
                assert forall|i: int| 0 <= i < self.ranges@.len() implies (
                    #[trigger] self.ranges@[i]).tail_pages@ == prev.ranges@[i].tail_pages@
                    && self.ranges@[i].num_tail_records == prev.ranges@[i].num_tail_records by {
                }
            }
            c += 1;
        }
        let ghost written = *self;
        self.next_rid = n + 1;
        proof {
            assert(self.ranges@ == written.ranges@);
            assert(self.b_cell(ni, METADATA_RID as int) == written.b_cell(
                ni,
                METADATA_RID as int,
            ));
            assert(self.b_cell(ni, METADATA_SCHEMA_ENCODING as int) == written.b_cell(
                ni,
                METADATA_SCHEMA_ENCODING as int,
            ));
            assert(self.b_cell(ni, METADATA_INDIRECTION as int) == written.b_cell(
                ni,
                METADATA_INDIRECTION as int,
            ));
            assert forall|r2: int, c2: int|
                0 <= r2 < old(self).ranges@.len() * 8192 && 0 <= c2 < NUM_METADATA_COLUMNS + old(
                    self,
                ).num_columns && r2 != ni implies #[trigger] self.b_cell(r2, c2) == old(
                self,
            ).b_cell(r2, c2) by {
                assert(written.b_cell(r2, c2) == old(self).b_cell(r2, c2));
            }
            assert forall|j: int|
                0 <= j < old(self).num_columns implies #[trigger] self.b_cell(
                ni,
                NUM_METADATA_COLUMNS + j,
            ) == values@[j] by {
                assert(written.b_cell(ni, NUM_METADATA_COLUMNS + j) == values@[j]);
            }
            assert forall|i: int| 0 <= i < old(self).ranges@.len() implies (
                #[trigger] self.ranges@[i]).tail_pages@ == old(self).ranges@[i].tail_pages@
                && self.ranges@[i].num_tail_records == old(self).ranges@[i].num_tail_records by {
                assert(written.ranges@[i] == self.ranges@[i]);
            }
            assert forall|i: int|
                old(self).ranges@.len() <= i < self.ranges@.len() implies (
            #[trigger] self.ranges@[i]).num_tail_records == 0 by {
                assert(written.ranges@[i] == self.ranges@[i]);
            }
        }
        // Record the new row in every indexed column.
        let mut c: usize = 0;
        while c < self.num_columns
            invariant
                c <= self.num_columns,
                rid.wf(),
                rid.idx() == ni,
                rid.raw == n,
                ni == old(self).next_rid,
                values@.len() == old(self).num_columns,
                old(self).wf(),
                self.ranges_wf(),
                self.name == old(self).name,
                self.num_columns == old(self).num_columns,
                self.primary_key_index == old(self).primary_key_index,
                self.next_rid == old(self).next_rid + 1,
                self.ranges@.len() == (old(self).next_rid + 1 + 8191) / 8192,
                ni < self.ranges@.len() * 8192,
                self.b_cell(ni, METADATA_RID as int) == ni,
                self.b_cell(ni, METADATA_SCHEMA_ENCODING as int) == 0,
                self.b_cell(ni, METADATA_INDIRECTION as int) == ni,
                forall|r2: int, c2: int|
                    0 <= r2 < old(self).ranges@.len() * 8192 && 0 <= c2 < NUM_METADATA_COLUMNS
                        + old(self).num_columns && r2 != ni ==> #[trigger] self.b_cell(r2, c2)
                        == old(self).b_cell(r2, c2),
                forall|j: int|
                    0 <= j < old(self).num_columns ==> #[trigger] self.b_cell(
                        ni,
                        NUM_METADATA_COLUMNS + j,
                    ) == values@[j],
                forall|i: int|
                    0 <= i < old(self).ranges@.len() ==> (#[trigger] self.ranges@[i]).tail_pages@
                        == old(self).ranges@[i].tail_pages@ && self.ranges@[i].num_tail_records
                        == old(self).ranges@[i].num_tail_records,
                forall|i: int|
                    old(self).ranges@.len() <= i < self.ranges@.len() ==> (
                    #[trigger] self.ranges@[i]).num_tail_records == 0,
                self.index.wf(self.num_columns as int),
                forall|c2: int|
                    0 <= c2 < old(self).num_columns ==> #[trigger] self.index.spec_is_indexed(c2)
                        == old(self).index.spec_is_indexed(c2),
                forall|c2: int, v: i64, raw: u64|
                    0 <= c2 < old(self).num_columns ==> (#[trigger] self.index.spec_contains(
                        c2,
                        v,
                        raw,
                    ) <==> (old(self).index.spec_contains(c2, v, raw) || (0 <= c2 < c && raw == n
                        && old(self).index.spec_is_indexed(c2) && v == values@[c2]))),
            decreases self.num_columns - c,
        {
            let ghost prev = *self;
            self.index.update_index(c, values[c], rid);
            proof {
                assert(self.ranges@ == prev.ranges@);
                assert(self.b_cell(ni, METADATA_RID as int) == prev.b_cell(
                    ni,
                    METADATA_RID as int,
                ));
                assert(self.b_cell(ni, METADATA_SCHEMA_ENCODING as int) == prev.b_cell(
                    ni,
                    METADATA_SCHEMA_ENCODING as int,
                ));
                assert(self.b_cell(ni, METADATA_INDIRECTION as int) == prev.b_cell(
                    ni,
                    METADATA_INDIRECTION as int,
                ));
                assert forall|r2: int, c2: int|
                    0 <= r2 < old(self).ranges@.len() * 8192 && 0 <= c2 < NUM_METADATA_COLUMNS
                        + old(self).num_columns && r2 != ni implies #[trigger] self.b_cell(r2, c2)
                    == old(self).b_cell(r2, c2) by {
                    assert(prev.b_cell(r2, c2) == old(self).b_cell(r2, c2));
                }
                assert forall|j: int|
                    0 <= j < old(self).num_columns implies #[trigger] self.b_cell(
                    ni,
                    NUM_METADATA_COLUMNS + j,
                ) == values@[j] by {
                    assert(prev.b_cell(ni, NUM_METADATA_COLUMNS + j) == values@[j]);
                }
                assert forall|i: int| 0 <= i < old(self).ranges@.len() implies (
                    #[trigger] self.ranges@[i]).tail_pages@ == old(self).ranges@[i].tail_pages@
                    && self.ranges@[i].num_tail_records == old(
                    self,
                ).ranges@[i].num_tail_records by {
                    assert(prev.ranges@[i] == self.ranges@[i]);
                }
            }
            c += 1;
        }
        proof {
            lemma_range_of_rid(ni, self.ranges@.len() as int);
            assert(self.schema(ni) == 0);
            assert(self.live(ni));
            assert forall|c2: int| 0 <= c2 < old_t.num_columns implies #[trigger] self.latest_col(
                ni,
                c2,
            ) == values@[c2] by {
                assert(self.b_cell(ni, NUM_METADATA_COLUMNS + c2) == values@[c2]);
            }
            assert forall|r2: int|
                0 <= r2 < old_t.next_rid implies (#[trigger] self.live(r2) == old_t.live(r2)
                && self.schema(r2) == old_t.schema(r2)) by {
                lemma_range_of_rid(r2, old_t.ranges@.len() as int);
                assert(self.b_cell(r2, METADATA_RID as int) == old_t.b_cell(
                    r2,
                    METADATA_RID as int,
                ));
                assert(self.b_cell(r2, METADATA_SCHEMA_ENCODING as int) == old_t.b_cell(
                    r2,
                    METADATA_SCHEMA_ENCODING as int,
                ));
            }
            assert forall|r2: int, c2: int|
                0 <= r2 < old_t.next_rid && 0 <= c2 < old_t.num_columns implies #[trigger] self
                .latest_col(r2, c2) == old_t.latest_col(r2, c2) by {
                lemma_range_of_rid(r2, old_t.ranges@.len() as int);
                assert(self.b_cell(r2, METADATA_SCHEMA_ENCODING as int) == old_t.b_cell(
                    r2,
                    METADATA_SCHEMA_ENCODING as int,
                ));
                assert(self.b_cell(r2, METADATA_INDIRECTION as int) == old_t.b_cell(
                    r2,
                    METADATA_INDIRECTION as int,
                ));
                assert(self.b_cell(r2, NUM_METADATA_COLUMNS + c2) == old_t.b_cell(
                    r2,
                    NUM_METADATA_COLUMNS + c2,
                ));
                lemma_latest_frame(old_t, *self, r2, c2);
            }
            // Row well-formedness and index consistency.
            assert forall|r2: int| 0 <= r2 < self.next_rid implies #[trigger] self.row_wf(r2) by {
                if r2 < old_t.next_rid {
                    lemma_range_of_rid(r2, old_t.ranges@.len() as int);
                    assert(old_t.row_wf(r2));
                    assert(self.b_cell(r2, METADATA_RID as int) == old_t.b_cell(
                        r2,
                        METADATA_RID as int,
                    ));
                    assert(self.b_cell(r2, METADATA_SCHEMA_ENCODING as int) == old_t.b_cell(
                        r2,
                        METADATA_SCHEMA_ENCODING as int,
                    ));
                    assert(self.b_cell(r2, METADATA_INDIRECTION as int) == old_t.b_cell(
                        r2,
                        METADATA_INDIRECTION as int,
                    ));
                }
            }
            assert(self.tails_wf()) by {
                assert forall|i: int, t: int|
                    0 <= i < self.ranges@.len() && 0 <= t < (
                    #[trigger] self.ranges@[i]).num_tail_records implies {
                    let ind = #[trigger] self.ranges@[i].tail_cell(
                        t,
                        METADATA_INDIRECTION as int,
                    ) as int;
                    (self.ranges@[i].tail_raw(0) <= ind < self.ranges@[i].tail_raw(t)) || (0 <= ind
                        < TAIL_RID_BASE)
                } by {
                    if i < old_t.ranges@.len() {
                        assert(self.ranges@[i].tail_cell(t, METADATA_INDIRECTION as int)
                            == old_t.ranges@[i].tail_cell(t, METADATA_INDIRECTION as int));
                        assert(self.ranges@[i].tail_raw(0) == old_t.ranges@[i].tail_raw(0));
                    }
                }
            }
            assert forall|c2: int, v: i64, raw: u64|
                0 <= c2 < self.num_columns && #[trigger] self.index.spec_contains(
                    c2,
                    v,
                    raw,
                ) implies raw < self.next_rid && (self.live(raw as int) ==> self.latest_col(
                raw as int,
                c2,
            ) == v) by {
                if old_t.index.spec_contains(c2, v, raw) {
                    lemma_range_of_rid(raw as int, old_t.ranges@.len() as int);
                }
            }
            assert forall|c2: int, r2: int|
                0 <= c2 < self.num_columns && self.index.spec_is_indexed(c2) && 0 <= r2
                    < self.next_rid && self.live(r2) implies #[trigger] self.index.spec_contains(
                c2,
                self.latest_col(r2, c2),
                r2 as u64,
            ) by {
                if r2 < old_t.next_rid {
                    lemma_range_of_rid(r2, old_t.ranges@.len() as int);
                    assert(old_t.live(r2));
                    assert(old_t.index.spec_contains(c2, old_t.latest_col(r2, c2), r2 as u64));
                }
            }
        }
    }
}

impl Table {
    /// Read the current value of (absolute) column `col` of row `rid`,
    /// resolving the newest version through the base record's indirection.
    fn read_latest(&self, rid: &BaseRID, col: usize) -> (v: i64)
        requires
            self.ranges_wf(),
            rid.wf(),
            rid.idx() < self.ranges@.len() * 8192,
            col < NUM_METADATA_COLUMNS + self.num_columns,
            self.row_wf(rid.idx()),
        ensures
            v == self.latest_cell(rid.idx(), col as int),
    {
        proof {
            lemma_range_of_rid(rid.idx(), self.ranges@.len() as int);
        }
        let sch = self.read_base(rid, METADATA_SCHEMA_ENCODING);
        if sch == 0 {
            self.read_base(rid, col)
        } else {
            let ind = self.read_base(rid, METADATA_INDIRECTION);
            let pr = rid.page_range();
            let t = ((ind as u64 - TAIL_RID_BASE) as usize) - pr * RANGE_CAPACITY;
            proof {
                assert(t == self.ranges@[rid.idx() / 8192].local_tail(ind as int));
                assert(t < self.ranges@[pr as int].num_tail_records);
            }
            self.ranges[pr].read_tail_cell(t, col)
        }
    }

    /// Every allocated row address lies within the allocated ranges.
    pub proof fn lemma_next_rid_capacity(self)
        requires
            self.shape_wf(),
        ensures
            self.next_rid <= self.ranges@.len() * 8192,
    {
        vstd::arithmetic::div_mod::lemma_fundamental_div_mod(self.next_rid + 8191, 8192);
    }

    /// The first live row whose current value of logical column
    /// `column_index` equals `value`, through the column's index when it
    /// carries one and by a full scan otherwise; `None` exactly when no such
    /// row exists.
    pub fn find_row(&self, column_index: usize, value: i64) -> (r: Option<BaseRID>)
        requires
            self.wf(),
            column_index < self.num_columns,
        ensures
            match r {
                Some(rid) => rid.wf() && self.matches(rid.idx(), column_index as int, value),
                None => forall|r2: int|
                    0 <= r2 < self.next_rid ==> !self.matches(r2, column_index as int, value),
            },
    {
        proof {
            self.lemma_next_rid_capacity();
        }
        match self.index.get_from_index(column_index, value) {
            Some(rids) => {
                let m = rids.len();
                let mut k: usize = 0;
                while k < m
                    invariant
                        k <= m,
                        m == rids@.len(),
                        self.wf(),
                        column_index < self.num_columns,
                        self.next_rid <= self.ranges@.len() * 8192,
                        forall|k2: int|
                            0 <= k2 < m ==> self.index.spec_contains(
                                column_index as int,
                                value,
                                (#[trigger] rids@[k2]).raw,
                            ),
                        forall|raw: u64|
                            self.index.spec_contains(column_index as int, value, raw)
                                ==> seq_has_raw(rids@, raw),
                        forall|k2: int| 0 <= k2 < k ==> !self.live((#[trigger] rids@[k2]).raw as int),
                    decreases m - k,
                {
                    let rid = rids[k];
                    proof {
                        assert(self.index.spec_contains(column_index as int, value, rid.raw));
                        assert(rid.raw < self.next_rid);
                    }
                    if self.read_base(&rid, METADATA_RID) != RID_INVALID {
                        return Some(rid);
                    }
                    k += 1;
                }
                proof {
                    assert forall|r2: int|
                        0 <= r2 < self.next_rid implies !self.matches(
                        r2,
                        column_index as int,
                        value,
                    ) by {
                        if self.matches(r2, column_index as int, value) {
                            assert(self.index.spec_contains(
                                column_index as int,
                                self.latest_col(r2, column_index as int),
                                r2 as u64,
                            ));
                            assert(seq_has_raw(rids@, r2 as u64));
                            let k2 = choose|k2: int|
                                0 <= k2 < rids@.len() && (#[trigger] rids@[k2]).raw == r2 as u64;
                            assert(!self.live(rids@[k2].raw as int));
                        }
                    }
                }
                None
            },
            None => {
                let mut r: u64 = 0;
                let n = self.next_rid;
                while r < n
                    invariant
                        r <= n,
                        n == self.next_rid,
                        self.wf(),
                        column_index < self.num_columns,
                        self.next_rid <= self.ranges@.len() * 8192,
                        forall|r2: int|
                            0 <= r2 < r ==> !self.matches(r2, column_index as int, value),
                    decreases n - r,
                {
                    let rid = BaseRID::new(r);
                    if self.read_base(&rid, METADATA_RID) != RID_INVALID {
                        let v = self.read_latest(&rid, NUM_METADATA_COLUMNS + column_index);
                        if v == value {
                            return Some(rid);
                        }
                    }
                    r += 1;
                }
                None
            },
        }
    }

    /// All live rows whose current value of logical column `column_index`
    /// equals `value` (in particular none of them twice), through the
    /// column's index when it carries one and by a full scan otherwise.
    pub fn find_rows(&self, column_index: usize, value: i64) -> (r: Vec<BaseRID>)
        requires
            self.wf(),
            column_index < self.num_columns,
        ensures
            forall|k: int|
                0 <= k < r@.len() ==> (#[trigger] r@[k]).wf() && self.matches(
                    r@[k].idx(),
                    column_index as int,
                    value,
                ),
            forall|r2: int|
                0 <= r2 < self.next_rid && self.matches(r2, column_index as int, value)
                    ==> seq_has_raw(r@, r2 as u64),
            forall|k1: int, k2: int|
                0 <= k1 < k2 < r@.len() ==> (#[trigger] r@[k1]).raw != (#[trigger] r@[k2]).raw,
    {
        proof {
            self.lemma_next_rid_capacity();
        }
        let mut out: Vec<BaseRID> = Vec::new();
        match self.index.get_from_index(column_index, value) {
            Some(rids) => {
                let m = rids.len();
                let mut k: usize = 0;
                while k < m
                    invariant
                        k <= m,
                        m == rids@.len(),
                        self.wf(),
                        column_index < self.num_columns,
                        self.next_rid <= self.ranges@.len() * 8192,
                        forall|k2: int|
                            0 <= k2 < m ==> self.index.spec_contains(
                                column_index as int,
                                value,
                                (#[trigger] rids@[k2]).raw,
                            ),
                        forall|raw: u64|
                            self.index.spec_contains(column_index as int, value, raw)
                                ==> seq_has_raw(rids@, raw),
                        forall|j1: int, j2: int|
                            0 <= j1 < j2 < m ==> (#[trigger] rids@[j1]).raw != (
                            #[trigger] rids@[j2]).raw,
                        forall|j: int|
                            0 <= j < out@.len() ==> (#[trigger] out@[j]).wf() && self.matches(
                                out@[j].idx(),
                                column_index as int,
                                value,
                            ),
                        forall|k2: int|
                            0 <= k2 < k && self.live((#[trigger] rids@[k2]).raw as int)
                                ==> seq_has_raw(out@, rids@[k2].raw),
                        forall|j: int|
                            0 <= j < out@.len() ==> seq_has_raw(rids@, (#[trigger] out@[j]).raw),
                        forall|j1: int, j2: int|
                            0 <= j1 < j2 < out@.len() ==> (#[trigger] out@[j1]).raw != (
                            #[trigger] out@[j2]).raw,
                        forall|j: int, k2: int|
                            0 <= j < out@.len() && 0 <= k2 < m && (#[trigger] out@[j]).raw == (
                            #[trigger] rids@[k2]).raw ==> k2 < k,
                    decreases m - k,
                {
                    let rid = rids[k];
                    proof {
                        assert(self.index.spec_contains(column_index as int, value, rid.raw));
                        assert(rid.raw < self.next_rid);
                    }
                    if self.read_base(&rid, METADATA_RID) != RID_INVALID {
                        let ghost prev = out@;
                        out.push(rid);
                        proof {
                            assert(out@[out@.len() - 1].raw == rid.raw);
                            assert forall|raw: u64| seq_has_raw(prev, raw) || raw
                                == rid.raw implies seq_has_raw(out@, raw) by {
                                crate::index::lemma_seq_has_raw_any_push(prev, rid, raw);
                            }
                            assert forall|j1: int, j2: int|
                                0 <= j1 < j2 < out@.len() implies (#[trigger] out@[j1]).raw != (
                            #[trigger] out@[j2]).raw by {
                                if j2 == out@.len() - 1 {
                                    assert(out@[j1] == prev[j1]);
                                }
                            }
                        }
                    }
                    k += 1;
                }
                proof {
                    assert forall|r2: int|
                        0 <= r2 < self.next_rid && self.matches(
                            r2,
                            column_index as int,
                            value,
                        ) implies seq_has_raw(out@, r2 as u64) by {
                        assert(self.index.spec_contains(
                            column_index as int,
                            self.latest_col(r2, column_index as int),
                            r2 as u64,
                        ));
                        assert(seq_has_raw(rids@, r2 as u64));
                        let k2 = choose|k2: int|
                            0 <= k2 < rids@.len() && (#[trigger] rids@[k2]).raw == r2 as u64;
                        assert(self.live(rids@[k2].raw as int));
                    }
                }
                out
            },
            None => {
                let mut r: u64 = 0;
                let n = self.next_rid;
                while r < n
                    invariant
                        r <= n,
                        n == self.next_rid,
                        self.wf(),
                        column_index < self.num_columns,
                        self.next_rid <= self.ranges@.len() * 8192,
                        forall|j: int|
                            0 <= j < out@.len() ==> (#[trigger] out@[j]).wf() && self.matches(
                                out@[j].idx(),
                                column_index as int,
                                value,
                            ) && out@[j].raw < r,
                        forall|r2: int|
                            0 <= r2 < r && self.matches(r2, column_index as int, value)
                                ==> seq_has_raw(out@, r2 as u64),
                        forall|j1: int, j2: int|
                            0 <= j1 < j2 < out@.len() ==> (#[trigger] out@[j1]).raw != (
                            #[trigger] out@[j2]).raw,
                    decreases n - r,
                {
                    let rid = BaseRID::new(r);
                    if self.read_base(&rid, METADATA_RID) != RID_INVALID {
                        let v = self.read_latest(&rid, NUM_METADATA_COLUMNS + column_index);
                        if v == value {
                            let ghost prev = out@;
                            out.push(rid);
                            proof {
                                assert(out@[out@.len() - 1].raw == rid.raw);
                                assert forall|raw: u64| seq_has_raw(prev, raw) || raw
                                    == rid.raw implies seq_has_raw(out@, raw) by {
                                    crate::index::lemma_seq_has_raw_any_push(prev, rid, raw);
                                }
                                assert forall|j1: int, j2: int|
                                    0 <= j1 < j2 < out@.len() implies (#[trigger] out@[j1]).raw
                                    != (#[trigger] out@[j2]).raw by {
                                    if j2 == out@.len() - 1 {
                                        assert(out@[j1] == prev[j1]);
                                    }
                                }
                            }
                        }
                    }
                    r += 1;
                }
                out
            },
        }
    }
}

impl Table {
    /// Whether row `r` is live with its current value of logical column `c`
    /// in `[begin, end)`.
    pub open spec fn matches_range(self, r: int, c: int, begin: i64, end: i64) -> bool {
        0 <= r < self.next_rid && self.live(r) && begin <= self.latest_col(r, c) < end
    }

    /// All live rows whose current value of logical column `column_index`
    /// lies in `[begin, end)`, through the column's index when it carries
    /// one and by a full scan otherwise.
    pub fn find_rows_range(&self, column_index: usize, begin: i64, end: i64) -> (r: Vec<BaseRID>)
        requires
            self.wf(),
            column_index < self.num_columns,
        ensures
            forall|k: int|
                0 <= k < r@.len() ==> (#[trigger] r@[k]).wf() && self.matches_range(
                    r@[k].idx(),
                    column_index as int,
                    begin,
                    end,
                ),
            forall|r2: int|
                0 <= r2 < self.next_rid && self.matches_range(r2, column_index as int, begin, end)
                    ==> seq_has_raw(r@, r2 as u64),
            forall|k1: int, k2: int|
                0 <= k1 < k2 < r@.len() ==> (#[trigger] r@[k1]).raw != (#[trigger] r@[k2]).raw,
    {
        proof {
            self.lemma_next_rid_capacity();
        }
        let mut out: Vec<BaseRID> = Vec::new();
        match self.index.range_from_index(column_index, begin, end) {
            Some(rids) => {
                let m = rids.len();
                let mut k: usize = 0;
                while k < m
                    invariant
                        k <= m,
                        m == rids@.len(),
                        self.wf(),
                        column_index < self.num_columns,
                        self.next_rid <= self.ranges@.len() * 8192,
                        forall|k2: int|
                            0 <= k2 < m ==> self.index.spec_contains_range(
                                column_index as int,
                                begin,
                                end,
                                (#[trigger] rids@[k2]).raw,
                            ),
                        forall|raw: u64|
                            self.index.spec_contains_range(column_index as int, begin, end, raw)
                                ==> seq_has_raw(rids@, raw),
                        forall|j: int|
                            0 <= j < out@.len() ==> (#[trigger] out@[j]).wf()
                                && self.matches_range(
                                out@[j].idx(),
                                column_index as int,
                                begin,
                                end,
                            ),
                        forall|k2: int|
                            0 <= k2 < k && self.live((#[trigger] rids@[k2]).raw as int)
                                ==> seq_has_raw(out@, rids@[k2].raw),
                        forall|j1: int, j2: int|
                            0 <= j1 < j2 < out@.len() ==> (#[trigger] out@[j1]).raw != (
                            #[trigger] out@[j2]).raw,
                    decreases m - k,
                {
                    let rid = rids[k];
                    proof {
                        assert(self.index.spec_contains_range(
                            column_index as int,
                            begin,
                            end,
                            rid.raw,
                        ));
                        self.index.lemma_contains_range(column_index as int, begin, end, rid.raw);
                        let v = choose|v: i64|
                            begin <= v < end && #[trigger] self.index.spec_contains(
                                column_index as int,
                                v,
                                rid.raw,
                            );
                        assert(rid.raw < self.next_rid);
                    }
                    if self.read_base(&rid, METADATA_RID) != RID_INVALID && !contains_raw(
                        &out,
                        rid.raw(),
                    ) {
                        let ghost prev = out@;
                        out.push(rid);
                        proof {
                            let v = choose|v: i64|
                                begin <= v < end && #[trigger] self.index.spec_contains(
                                    column_index as int,
                                    v,
                                    rid.raw,
                                );
                            assert(self.latest_col(rid.idx(), column_index as int) == v);
                            assert(out@[out@.len() - 1].raw == rid.raw);
                            assert forall|raw: u64| seq_has_raw(prev, raw) || raw
                                == rid.raw implies seq_has_raw(out@, raw) by {
                                crate::index::lemma_seq_has_raw_any_push(prev, rid, raw);
                            }
                            assert forall|j1: int, j2: int|
                                0 <= j1 < j2 < out@.len() implies (#[trigger] out@[j1]).raw != (
                            #[trigger] out@[j2]).raw by {
                                if j2 == out@.len() - 1 {
                                    assert(out@[j1] == prev[j1]);
                                    if prev[j1].raw == rid.raw {
                                        assert(seq_has_raw(prev, rid.raw));
                                    }
                                }
                            }
                        }
                    }
                    k += 1;
                }
                proof {
                    assert forall|r2: int|
                        0 <= r2 < self.next_rid && self.matches_range(
                            r2,
                            column_index as int,
                            begin,
                            end,
                        ) implies seq_has_raw(out@, r2 as u64) by {
                        assert(self.index.spec_contains(
                            column_index as int,
                            self.latest_col(r2, column_index as int),
                            r2 as u64,
                        ));
                        self.index.lemma_contains_range(column_index as int, begin, end, r2 as u64);
                        assert(self.index.spec_contains_range(
                            column_index as int,
                            begin,
                            end,
                            r2 as u64,
                        ));
                        assert(seq_has_raw(rids@, r2 as u64));
                        let k2 = choose|k2: int|
                            0 <= k2 < rids@.len() && (#[trigger] rids@[k2]).raw == r2 as u64;
                        assert(self.live(rids@[k2].raw as int));
                    }
                }
                out
            },
            None => {
                let mut r: u64 = 0;
                let n = self.next_rid;
                while r < n
                    invariant
                        r <= n,
                        n == self.next_rid,
                        self.wf(),
                        column_index < self.num_columns,
                        self.next_rid <= self.ranges@.len() * 8192,
                        forall|j: int|
                            0 <= j < out@.len() ==> (#[trigger] out@[j]).wf()
                                && self.matches_range(
                                out@[j].idx(),
                                column_index as int,
                                begin,
                                end,
                            ),
                        forall|r2: int|
                            0 <= r2 < r && self.matches_range(r2, column_index as int, begin, end)
                                ==> seq_has_raw(out@, r2 as u64),
                        forall|j: int| 0 <= j < out@.len() ==> (#[trigger] out@[j]).raw < r,
                        forall|j1: int, j2: int|
                            0 <= j1 < j2 < out@.len() ==> (#[trigger] out@[j1]).raw != (
                            #[trigger] out@[j2]).raw,
                    decreases n - r,
                {
                    let rid = BaseRID::new(r);
                    if self.read_base(&rid, METADATA_RID) != RID_INVALID {
                        let v = self.read_latest(&rid, NUM_METADATA_COLUMNS + column_index);
                        if begin <= v && v < end {
                            let ghost prev = out@;
                            out.push(rid);
                            proof {
                                assert(out@[out@.len() - 1].raw == rid.raw);
                                assert forall|raw: u64| seq_has_raw(prev, raw) || raw
                                    == rid.raw implies seq_has_raw(out@, raw) by {
                                    crate::index::lemma_seq_has_raw_any_push(prev, rid, raw);
                                }
                                assert forall|j1: int, j2: int|
                                    0 <= j1 < j2 < out@.len() implies (#[trigger] out@[j1]).raw
                                    != (#[trigger] out@[j2]).raw by {
                                    if j2 == out@.len() - 1 {
                                        assert(out@[j1] == prev[j1]);
                                    }
                                }
                            }
                        }
                    }
                    r += 1;
                }
                out
            },
        }
    }

    /// The column values a point query reports for row `r` under the
    /// selection mask `cols`: the row's current value of each logical
    /// column whose mask entry is nonzero, in column order.
    pub open spec fn selected_cols(self, r: int, cols: Seq<i64>) -> Seq<i64>
        decreases cols.len(),
    {
        if cols.len() == 0 {
            Seq::empty()
        } else {
            let rest = self.selected_cols(r, cols.drop_last());
            if cols.last() != 0 {
                rest.push(self.latest_col(r, cols.len() - 1))
            } else {
                rest
            }
        }
    }

    /// What a point query reports: one record per live row whose current
    /// value of logical column `c` equals `value` (none twice), carrying the
    /// base record's metadata and the current values of the selected
    /// columns.
    pub open spec fn is_select_result(
        self,
        value: i64,
        c: int,
        mask: Seq<i64>,
        recs: Seq<Record>,
    ) -> bool {
        &&& (forall|k: int|
            0 <= k < recs.len() ==> {
                let r2 = (#[trigger] recs[k]).rid as int;
                &&& self.matches(r2, c, value)
                &&& recs[k].indirection == self.b_cell(r2, METADATA_INDIRECTION as int) as u64
                &&& recs[k].schema_encoding == self.schema(r2) as u64
                &&& recs[k].columns@ == self.selected_cols(r2, mask)
            })
        &&& (forall|r2: int|
            0 <= r2 < self.next_rid && self.matches(r2, c, value) ==> records_have_rid(
                recs,
                r2 as u64,
            ))
        &&& (forall|k1: int, k2: int|
            0 <= k1 < k2 < recs.len() ==> (#[trigger] recs[k1]).rid != (#[trigger] recs[k2]).rid)
    }

    /// Point query: one record per live row whose current value of logical
    /// column `column_index` equals `search_value`, carrying the base
    /// record's metadata and the current values of the selected columns.
    pub fn select(&self, search_value: i64, column_index: usize, columns: &Vec<i64>) -> (records:
        Vec<Record>)
        requires
            self.wf(),
            column_index < self.num_columns,
            columns@.len() == self.num_columns,
        ensures
            self.is_select_result(search_value, column_index as int, columns@, records@),
    {
        proof {
            self.lemma_next_rid_capacity();
        }
        let rids = self.find_rows(column_index, search_value);
        let mut records: Vec<Record> = Vec::new();
        let m = rids.len();
        let mut k: usize = 0;
        while k < m
            invariant
                k <= m,
                m == rids@.len(),
                self.wf(),
                column_index < self.num_columns,
                columns@.len() == self.num_columns,
                self.next_rid <= self.ranges@.len() * 8192,
                forall|k2: int|
                    0 <= k2 < m ==> (#[trigger] rids@[k2]).wf() && self.matches(
                        rids@[k2].idx(),
                        column_index as int,
                        search_value,
                    ),
                forall|r2: int|
                    0 <= r2 < self.next_rid && self.matches(r2, column_index as int, search_value)
                        ==> seq_has_raw(rids@, r2 as u64),
                forall|j1: int, j2: int|
                    0 <= j1 < j2 < m ==> (#[trigger] rids@[j1]).raw != (#[trigger] rids@[j2]).raw,
                records@.len() == k,
                forall|j: int|
                    0 <= j < k ==> (#[trigger] records@[j]).rid == rids@[j].raw,
                forall|j: int|
                    0 <= j < k ==> {
                        let r2 = (#[trigger] records@[j]).rid as int;
                        &&& self.matches(r2, column_index as int, search_value)
                        &&& records@[j].indirection == self.b_cell(
                            r2,
                            METADATA_INDIRECTION as int,
                        ) as u64
                        &&& records@[j].schema_encoding == self.schema(r2) as u64
                        &&& records@[j].columns@ == self.selected_cols(r2, columns@)
                    },
            decreases m - k,
        {
            let rid = rids[k];
            let ghost r2 = rid.idx();
            let mut result_cols: Vec<i64> = Vec::new();
            let mut c: usize = 0;
            proof {
                assert(columns@.take(0) =~= Seq::<i64>::empty());
            }
            while c < self.num_columns
                invariant
                    c <= self.num_columns,
                    self.wf(),
                    rid.wf(),
                    r2 == rid.idx(),
                    0 <= r2 < self.next_rid,
                    self.row_wf(r2),
                    columns@.len() == self.num_columns,
                    self.next_rid <= self.ranges@.len() * 8192,
                    result_cols@ == self.selected_cols(r2, columns@.take(c as int)),
                decreases self.num_columns - c,
            {
                proof {
                    assert(columns@.take(c as int + 1).drop_last() =~= columns@.take(c as int));
                }
                if columns[c] != 0 {
                    let v = self.read_latest(&rid, NUM_METADATA_COLUMNS + c);
                    result_cols.push(v);
                }
                c += 1;
            }
            proof {
                assert(columns@.take(self.num_columns as int) =~= columns@);
            }
            let rid_meta = self.read_base(&rid, METADATA_RID);
            let ind_meta = self.read_base(&rid, METADATA_INDIRECTION);
            let sch_meta = self.read_base(&rid, METADATA_SCHEMA_ENCODING);
            let rec = Record::new(
                rid_meta as u64,
                #[verifier::truncate] (ind_meta as u64),
                sch_meta as u64,
                result_cols,
            );
            proof {
                assert(self.b_cell(r2, METADATA_RID as int) == r2);
                assert(rec.rid == rid.raw);
            }
            records.push(rec);
            k += 1;
        }
        proof {
            assert forall|r2: int|
                0 <= r2 < self.next_rid && self.matches(
                    r2,
                    column_index as int,
                    search_value,
                ) implies records_have_rid(records@, r2 as u64) by {
                assert(seq_has_raw(rids@, r2 as u64));
                let k2 = choose|k2: int|
                    0 <= k2 < rids@.len() && (#[trigger] rids@[k2]).raw == r2 as u64;
                assert(records@[k2].rid == r2 as u64);
            }
        }
        records
    }

    /// The wrapping sum, in row order, of the current value of logical
    /// column `col` over the live rows below `r` whose current primary-key
    /// value lies in `[begin, end)`.
    pub open spec fn sum_in_range(self, r: int, begin: i64, end: i64, col: int) -> i64
        decreases r,
    {
        if r <= 0 {
            0
        } else {
            let rest = self.sum_in_range(r - 1, begin, end, col);
            if self.live(r - 1) && begin <= self.key_of(r - 1) < end {
                rest.wrapping_add(self.latest_col(r - 1, col))
            } else {
                rest
            }
        }
    }

    /// Aggregate: the sum of the current value of logical column
    /// `column_index` over the live rows whose primary-key value lies in
    /// `[start_range, end_range)`, with signed 64-bit wraparound; zero when
    /// nothing matches.
    pub fn sum(&self, start_range: i64, end_range: i64, column_index: usize) -> (s: i64)
        requires
            self.wf(),
            column_index < self.num_columns,
        ensures
            s == self.sum_in_range(
                self.next_rid as int,
                start_range,
                end_range,
                column_index as int,
            ),
    {
        proof {
            self.lemma_next_rid_capacity();
        }
        let rids = self.find_rows_range(self.primary_key_index, start_range, end_range);
        let mut acc: i64 = 0;
        let mut r: u64 = 0;
        let n = self.next_rid;
        while r < n
            invariant
                r <= n,
                n == self.next_rid,
                self.wf(),
                column_index < self.num_columns,
                self.next_rid <= self.ranges@.len() * 8192,
                forall|k: int|
                    0 <= k < rids@.len() ==> (#[trigger] rids@[k]).wf() && self.matches_range(
                        rids@[k].idx(),
                        self.primary_key_index as int,
                        start_range,
                        end_range,
                    ),
                forall|r2: int|
                    0 <= r2 < self.next_rid && self.matches_range(
                        r2,
                        self.primary_key_index as int,
                        start_range,
                        end_range,
                    ) ==> seq_has_raw(rids@, r2 as u64),
                acc == self.sum_in_range(r as int, start_range, end_range, column_index as int),
            decreases n - r,
        {
            let rid = BaseRID::new(r);
            if contains_raw(&rids, r) {
                proof {
                    let k = choose|k: int|
                        0 <= k < rids@.len() && (#[trigger] rids@[k]).raw == r as u64;
                    assert(self.matches_range(
                        r as int,
                        self.primary_key_index as int,
                        start_range,
                        end_range,
                    ));
                }
                let v = self.read_latest(&rid, NUM_METADATA_COLUMNS + column_index);
                acc = acc.wrapping_add(v);
            } else {
                proof {
                    if self.matches_range(
                        r as int,
                        self.primary_key_index as int,
                        start_range,
                        end_range,
                    ) {
                        assert(seq_has_raw(rids@, r as u64));
                    }
                }
            }
            r += 1;
        }
        acc
    }
}

/// What a successful update of row `r` with the nullable values `vals`
/// leaves behind: the row's current values carry each supplied value and
/// keep the rest, its schema bitmap accumulates the supplied columns, every
/// other row is untouched, and the index maps the row under its new values
/// instead of its old ones.
pub open spec fn updated_row(pre: Table, post: Table, r: int, vals: Seq<Option<i64>>, key: i64) -> bool {
    &&& pre.matches(r, pre.primary_key_index as int, key)
    &&& post.num_columns == pre.num_columns
    &&& post.primary_key_index == pre.primary_key_index
    &&& post.next_rid == pre.next_rid
    &&& (forall|r3: int|
        0 <= r3 < pre.next_rid ==> #[trigger] post.live(r3) == pre.live(r3))
    &&& ({
        // Exactly one tail record is appended, in the row's own range; the
        // base record's indirection now names it, and the new record
        // carries its own RID and the update's schema bitmap.
        let pr = r / 8192;
        let nt = pre.ranges@[pr].num_tail_records as int;
        &&& post.ranges@.len() == pre.ranges@.len()
        &&& post.ranges@[pr].num_tail_records == nt + 1
        &&& (forall|i: int|
            0 <= i < pre.ranges@.len() && i != pr ==> (#[trigger] post.ranges@[i]).num_tail_records
                == pre.ranges@[i].num_tail_records)
        &&& post.b_cell(r, METADATA_INDIRECTION as int) == pre.ranges@[pr].tail_raw(nt) as i64
        &&& post.ranges@[pr].tail_cell(nt, METADATA_RID as int) == pre.ranges@[pr].tail_raw(
            nt,
        ) as i64
        &&& post.ranges@[pr].tail_cell(nt, METADATA_SCHEMA_ENCODING as int) == schema_bitmap(vals)
    })
    &&& (forall|c: int|
        0 <= c < pre.num_columns ==> #[trigger] post.latest_col(r, c) == (if vals[c] is Some {
            vals[c]->0
        } else {
            pre.latest_col(r, c)
        }))
    &&& post.schema(r) == (pre.schema(r) | (schema_bitmap(vals) as i64))
    &&& (forall|r3: int, c: int|
        0 <= r3 < pre.next_rid && r3 != r && 0 <= c < pre.num_columns
            ==> #[trigger] post.latest_col(r3, c) == pre.latest_col(r3, c))
    &&& (forall|r3: int|
        0 <= r3 < pre.next_rid && r3 != r ==> #[trigger] post.schema(r3) == pre.schema(r3))
    &&& (forall|c: int, v: i64, raw: u64|
        0 <= c < pre.num_columns ==> (#[trigger] post.index.spec_contains(c, v, raw) <==> ((
        pre.index.spec_contains(c, v, raw) && !(vals[c] is Some && raw == r && v == pre.latest_col(
            r,
            c,
        ))) || (vals[c] is Some && pre.index.spec_is_indexed(c) && raw == r && v == vals[c]->0))))
}

impl Table {
    /// Update the row whose current primary-key value is `search_value`:
    /// append a tail record carrying the supplied values merged over the
    /// row's current ones, reindex every supplied column from its old value
    /// to its new one, and rewire the base record's indirection to the new
    /// record.  Returns `false`, changing nothing, when no live row carries
    /// the key, and also when the row's page range already holds
    /// `RANGE_CAPACITY` versions: the RID layout's 4-bit page field caps a
    /// range at 16 tail pages, so a further version could not be addressed;
    /// the structural limit is reported as a failed update rather than
    /// corrupting addresses.
    pub fn update(&mut self, search_value: i64, values: &Vec<Option<i64>>) -> (success: bool)
        requires
            old(self).wf(),
            values@.len() == old(self).num_columns,
        ensures
            final(self).wf(),
            final(self).name == old(self).name,
            final(self).num_columns == old(self).num_columns,
            final(self).primary_key_index == old(self).primary_key_index,
            final(self).next_rid == old(self).next_rid,
            forall|c: int|
                0 <= c < old(self).num_columns ==> #[trigger] final(self).index.spec_is_indexed(c)
                    == old(self).index.spec_is_indexed(c),
            forall|r2: int|
                0 <= r2 < old(self).next_rid ==> #[trigger] final(self).live(r2) == old(self).live(
                    r2,
                ),
            !success ==> final(self).ranges@ == old(self).ranges@ && final(self).index == old(
                self,
            ).index,
            !success ==> ((forall|r2: int|
                0 <= r2 < old(self).next_rid ==> !old(self).matches(
                    r2,
                    old(self).primary_key_index as int,
                    search_value,
                )) || (exists|r2: int|
                old(self).matches(r2, old(self).primary_key_index as int, search_value) && (
                #[trigger] old(self).ranges@[r2 / 8192]).num_tail_records == RANGE_CAPACITY)),
            success ==> exists|r2: int|
                #[trigger] updated_row(*old(self), *final(self), r2, values@, search_value),
    {
        let row = match self.find_row(self.primary_key_index, search_value) {
            None => {
                return false;
            },
            Some(row) => row,
        };
        let ghost r = row.idx();
        proof {
            self.lemma_next_rid_capacity();
            lemma_range_of_rid(r, self.ranges@.len() as int);
        }
        let pr = row.page_range();
        if self.ranges[pr].num_tail_records == RANGE_CAPACITY {
            return false;
        }
        let old_sch = self.read_base(&row, METADATA_SCHEMA_ENCODING);
        // Append the merged tail record; the base record still resolves to
        // the row's previous version until the indirection is rewired.
        let ghost pre = *self;
        proof {
            assert(self.row_wf(r));
        }
        let tail_opt = {
            let range: &mut PageRange = &mut self.ranges[pr];
            range.append_update_record(&row, values)
        };
        let tail = match tail_opt {
            Some(t) => t,
            None => {
                proof {
                    assert(false);
                }
                TailRID::new(TAIL_RID_BASE)
            },
        };
        let ghost nt = pre.ranges@[r / 8192].num_tail_records as int;
        proof {
            // The append left every base cell and every earlier tail record
            // unchanged, so every row still reads its previous version.
            assert forall|r2: int, c2: int|
                0 <= r2 < pre.ranges@.len() * 8192 && 0 <= c2 implies #[trigger] self.b_cell(
                r2,
                c2,
            ) == pre.b_cell(r2, c2) by {
                lemma_range_of_rid(r2, pre.ranges@.len() as int);
                if r2 / 8192 == r / 8192 {
                    assert(self.ranges@[r2 / 8192].base_pages@ == pre.ranges@[r2
                        / 8192].base_pages@);
                }
            }
            assert forall|r2: int, c2: int|
                0 <= r2 < pre.next_rid && 0 <= c2 < pre.num_columns implies #[trigger] self
                .latest_col(r2, c2) == pre.latest_col(r2, c2) by {
                lemma_range_of_rid(r2, pre.ranges@.len() as int);
                assert(pre.row_wf(r2));
                lemma_latest_frame_tails(pre, *self, r2, c2);
            }
        }
        let ghost appended = *self;
        // Reindex every supplied column: drop the row's old value mapping,
        // record the new one.
        let mut c: usize = 0;
        while c < self.num_columns
            invariant
                c <= self.num_columns,
                row.wf(),
                r == row.idx(),
                0 <= r < appended.next_rid,
                values@.len() == appended.num_columns,
                pre.wf(),
                pre.num_columns == appended.num_columns,
                pre.next_rid == appended.next_rid,
                appended.ranges_wf(),
                appended.next_rid <= appended.ranges@.len() * 8192,
                self.name == appended.name,
                self.num_columns == appended.num_columns,
                self.primary_key_index == appended.primary_key_index,
                self.next_rid == appended.next_rid,
                self.ranges@ == appended.ranges@,
                self.ranges_wf(),
                forall|r2: int, c2: int|
                    0 <= r2 < pre.ranges@.len() * 8192 && 0 <= c2 ==> #[trigger] appended.b_cell(
                        r2,
                        c2,
                    ) == pre.b_cell(r2, c2),
                forall|r2: int, c2: int|
                    0 <= r2 < pre.next_rid && 0 <= c2 < pre.num_columns
                        ==> #[trigger] appended.latest_col(r2, c2) == pre.latest_col(r2, c2),
                r / 8192 < pre.ranges@.len(),
                pre.ranges@.len() == appended.ranges@.len(),
                appended.ranges@[r / 8192].num_tail_records == pre.ranges@[r
                    / 8192].num_tail_records + 1,
                appended.ranges@[r / 8192].range_number == pre.ranges@[r / 8192].range_number,
                self.index.wf(self.num_columns as int),
                forall|c2: int|
                    0 <= c2 < pre.num_columns ==> #[trigger] self.index.spec_is_indexed(c2)
                        == pre.index.spec_is_indexed(c2),
                forall|c2: int, v: i64, raw: u64|
                    0 <= c2 < pre.num_columns ==> (#[trigger] self.index.spec_contains(c2, v, raw)
                        <==> ((pre.index.spec_contains(c2, v, raw) && !(c2 < c
                        && values@[c2] is Some && raw == r && v == pre.latest_col(r, c2))) || (c2
                        < c && values@[c2] is Some && pre.index.spec_is_indexed(c2) && raw == r && v
                        == values@[c2]->0))),
            decreases self.num_columns - c,
        {
            let has_value = values[c].is_some();
            if has_value {
                let w = match values[c] {
                    Some(w) => w,
                    None => 0,
                };
                proof {
                    assert(self.b_cell(r, METADATA_SCHEMA_ENCODING as int) == appended.b_cell(
                        r,
                        METADATA_SCHEMA_ENCODING as int,
                    ));
                    assert(appended.b_cell(r, METADATA_SCHEMA_ENCODING as int) == pre.b_cell(
                        r,
                        METADATA_SCHEMA_ENCODING as int,
                    ));
                    assert(self.b_cell(r, METADATA_INDIRECTION as int) == appended.b_cell(
                        r,
                        METADATA_INDIRECTION as int,
                    ));
                    assert(appended.b_cell(r, METADATA_INDIRECTION as int) == pre.b_cell(
                        r,
                        METADATA_INDIRECTION as int,
                    ));
                    assert(self.b_cell(r, METADATA_RID as int) == appended.b_cell(
                        r,
                        METADATA_RID as int,
                    ));
                    assert(appended.b_cell(r, METADATA_RID as int) == pre.b_cell(
                        r,
                        METADATA_RID as int,
                    ));
                    assert(pre.row_wf(r));
                    assert(self.ranges@[r / 8192].num_tail_records
                        >= pre.ranges@[r / 8192].num_tail_records);
                    assert(self.ranges@[r / 8192].range_number == pre.ranges@[r
                        / 8192].range_number);
                    assert(self.row_wf(r));
                }
                let oldv = self.read_latest(&row, NUM_METADATA_COLUMNS + c);
                proof {
                    assert(self.latest_col(r, c as int) == appended.latest_col(r, c as int));
                    assert(appended.latest_col(r, c as int) == pre.latest_col(r, c as int));
                    assert(oldv == pre.latest_col(r, c as int));
                }
                let ghost prev = *self;
                self.index.remove_index(c, oldv, row);
                let ghost mid = *self;
                self.index.update_index(c, w, row);
                proof {
                    assert(self.ranges@ == prev.ranges@);
                }
            }
            c += 1;
        }
        let bitmap = compute_schema_bitmap(values);
        let new_sch = old_sch | bitmap;
        proof {
            crate::page::lemma_schema_bitmap_bound(values@);
            assert(old_sch >= 0);
            let a = old_sch;
            let b = bitmap;
            assert(a >= 0 && b >= 0 ==> (a | b) >= 0 && (((a | b) == 0) <==> (a == 0 && b == 0)))
                by (bit_vector);
        }
        let ghost reindexed = *self;
        self.write_base(&row, METADATA_INDIRECTION, tail.raw() as i64);
        let ghost w1 = *self;
        self.write_base(&row, METADATA_SCHEMA_ENCODING, new_sch);
        proof {
            let fin = *self;
            // Cells of every other row, and the row's own untouched cells,
            // carry their previous values.
            assert forall|r2: int, c2: int|
                0 <= r2 < pre.ranges@.len() * 8192 && 0 <= c2 < NUM_METADATA_COLUMNS
                    + pre.num_columns && !(r2 == r && (c2 == METADATA_INDIRECTION || c2
                    == METADATA_SCHEMA_ENCODING)) implies #[trigger] fin.b_cell(r2, c2)
                == pre.b_cell(r2, c2) by {
                lemma_range_of_rid(r2, pre.ranges@.len() as int);
                assert(w1.b_cell(r2, c2) == reindexed.b_cell(r2, c2));
                assert(reindexed.b_cell(r2, c2) == appended.b_cell(r2, c2));
                assert(appended.b_cell(r2, c2) == pre.b_cell(r2, c2));
            }
            assert forall|i: int, t: int, c2: int|
                0 <= i < pre.ranges@.len() && 0 <= t && 0 <= c2 implies #[trigger] fin.ranges@[i].tail_cell(
                t,
                c2,
            ) == appended.ranges@[i].tail_cell(t, c2) by {
                assert(w1.ranges@[i].tail_pages@ == reindexed.ranges@[i].tail_pages@);
                assert(fin.ranges@[i].tail_pages@ == w1.ranges@[i].tail_pages@);
                assert(reindexed.ranges@[i].tail_pages@ == appended.ranges@[i].tail_pages@);
            }
            assert forall|i: int| 0 <= i < pre.ranges@.len() implies (
                #[trigger] fin.ranges@[i]).num_tail_records
                == appended.ranges@[i].num_tail_records && fin.ranges@[i].range_number
                == appended.ranges@[i].range_number by {
                assert(w1.ranges@[i].num_tail_records == reindexed.ranges@[i].num_tail_records);
                assert(fin.ranges@[i].num_tail_records == w1.ranges@[i].num_tail_records);
                assert(reindexed.ranges@[i].num_tail_records
                    == appended.ranges@[i].num_tail_records);
            }
            assert(fin.b_cell(r, METADATA_INDIRECTION as int) == tail.raw as i64) by {
                assert(w1.b_cell(r, METADATA_INDIRECTION as int) == tail.raw as i64);
            }
            assert(fin.b_cell(r, METADATA_SCHEMA_ENCODING as int) == new_sch);
            // The row's new current values: the merged tail record when the
            // schema is nonzero, the untouched base cells otherwise.
            assert(fin.ranges@[r / 8192].local_tail(tail.raw as int) == nt);
            assert forall|c2: int| 0 <= c2 < pre.num_columns implies #[trigger] fin.latest_col(
                r,
                c2,
            ) == (if values@[c2] is Some {
                values@[c2]->0
            } else {
                pre.latest_col(r, c2)
            }) by {
                if new_sch == 0 {
                    crate::page::lemma_schema_bitmap_zero(values@);
                    assert(pre.schema(r) == 0);
                    assert(fin.b_cell(r, NUM_METADATA_COLUMNS + c2) == pre.b_cell(
                        r,
                        NUM_METADATA_COLUMNS + c2,
                    ));
                } else {
                    assert(fin.ranges@[r / 8192].tail_cell(nt, NUM_METADATA_COLUMNS + c2)
                        == appended.ranges@[r / 8192].tail_cell(nt, NUM_METADATA_COLUMNS + c2));
                    assert(pre.ranges@[r / 8192].latest_cell(
                        (r / 512) % 16,
                        r % 512,
                        NUM_METADATA_COLUMNS + c2,
                    ) == pre.latest_col(r, c2));
                }
            }
            // Every other row reads exactly what it read before.
            assert forall|r3: int, c2: int|
                0 <= r3 < pre.next_rid && r3 != r && 0 <= c2 < pre.num_columns implies
                #[trigger] fin.latest_col(r3, c2) == pre.latest_col(r3, c2) by {
                lemma_range_of_rid(r3, pre.ranges@.len() as int);
                assert(pre.row_wf(r3));
                lemma_latest_frame_tails(pre, fin, r3, c2);
            }
            assert forall|r3: int|
                0 <= r3 < pre.next_rid && r3 != r implies #[trigger] fin.schema(r3) == pre.schema(
                r3,
            ) by {
                lemma_range_of_rid(r3, pre.ranges@.len() as int);
            }
            assert forall|r3: int|
                0 <= r3 < pre.next_rid implies #[trigger] fin.live(r3) == pre.live(r3) by {
                lemma_range_of_rid(r3, pre.ranges@.len() as int);
                assert(fin.b_cell(r3, METADATA_RID as int) == pre.b_cell(r3, METADATA_RID as int));
            }
            // Well-formedness of every row, of the tail chains and of the
            // index.
            assert forall|r3: int| 0 <= r3 < fin.next_rid implies #[trigger] fin.row_wf(r3) by {
                lemma_range_of_rid(r3, pre.ranges@.len() as int);
                assert(pre.row_wf(r3));
                if r3 != r {
                    assert(fin.b_cell(r3, METADATA_RID as int) == pre.b_cell(
                        r3,
                        METADATA_RID as int,
                    ));
                    assert(fin.b_cell(r3, METADATA_SCHEMA_ENCODING as int) == pre.b_cell(
                        r3,
                        METADATA_SCHEMA_ENCODING as int,
                    ));
                    assert(fin.b_cell(r3, METADATA_INDIRECTION as int) == pre.b_cell(
                        r3,
                        METADATA_INDIRECTION as int,
                    ));
                } else {
                    assert(fin.b_cell(r, METADATA_RID as int) == pre.b_cell(
                        r,
                        METADATA_RID as int,
                    ));
                }
            }
            assert(fin.tails_wf()) by {
                assert forall|i: int, t: int|
                    0 <= i < fin.ranges@.len() && 0 <= t < (
                    #[trigger] fin.ranges@[i]).num_tail_records implies {
                    let ind = #[trigger] fin.ranges@[i].tail_cell(
                        t,
                        METADATA_INDIRECTION as int,
                    ) as int;
                    (fin.ranges@[i].tail_raw(0) <= ind < fin.ranges@[i].tail_raw(t)) || (0 <= ind
                        < TAIL_RID_BASE)
                } by {
                    assert(fin.ranges@[i].tail_cell(t, METADATA_INDIRECTION as int)
                        == appended.ranges@[i].tail_cell(t, METADATA_INDIRECTION as int));
                    if i == r / 8192 && t == nt {
                        assert(pre.row_wf(r));
                    } else {
                        assert(appended.ranges@[i].tail_cell(t, METADATA_INDIRECTION as int)
                            == pre.ranges@[i].tail_cell(t, METADATA_INDIRECTION as int));
                    }
                }
            }
            assert forall|c2: int, v: i64, raw: u64|
                0 <= c2 < fin.num_columns && #[trigger] fin.index.spec_contains(
                    c2,
                    v,
                    raw,
                ) implies raw < fin.next_rid && (fin.live(raw as int) ==> fin.latest_col(
                raw as int,
                c2,
            ) == v) by {
                if pre.index.spec_contains(c2, v, raw) {
                    lemma_range_of_rid(raw as int, pre.ranges@.len() as int);
                }
            }
            assert forall|c2: int, r3: int|
                0 <= c2 < fin.num_columns && fin.index.spec_is_indexed(c2) && 0 <= r3
                    < fin.next_rid && fin.live(r3) implies #[trigger] fin.index.spec_contains(
                c2,
                fin.latest_col(r3, c2),
                r3 as u64,
            ) by {
                lemma_range_of_rid(r3, pre.ranges@.len() as int);
                assert(pre.live(r3));
                assert(pre.index.spec_contains(c2, pre.latest_col(r3, c2), r3 as u64));
            }
            assert(updated_row(pre, fin, r, values@, search_value));
        }
        true
    }
}

impl Table {
    /// The tail-record numbers reachable in range `pr` by following
    /// indirection cells from the stored value `x`, stopping at any
    /// base-flavored value.  The fuel bounds the walk; `RANGE_CAPACITY`
    /// suffices for any well-formed chain, whose record numbers strictly
    /// decrease.
    pub open spec fn chain_from(self, pr: int, x: int, fuel: nat) -> Set<int>
        decreases fuel,
    {
        if fuel == 0 {
            Set::empty()
        } else if self.ranges@[pr].is_local_tail(x) {
            let t = self.ranges@[pr].local_tail(x);
            self.chain_from(
                pr,
                self.ranges@[pr].tail_cell(t, METADATA_INDIRECTION as int) as int,
                (fuel - 1) as nat,
            ).insert(t)
        } else {
            Set::empty()
        }
    }
}

/// In a well-formed table the reachable chain does not depend on the fuel,
/// as long as the fuel exceeds the starting record number: each step
/// strictly decreases it.
proof fn lemma_chain_fuel(tbl: Table, pr: int, x: int, f1: nat, f2: nat)
    requires
        tbl.wf(),
        0 <= pr < tbl.ranges@.len(),
        tbl.ranges@[pr].is_local_tail(x) ==> tbl.ranges@[pr].local_tail(x) < f1
            && tbl.ranges@[pr].local_tail(x) < f2,
    ensures
        tbl.chain_from(pr, x, f1) == tbl.chain_from(pr, x, f2),
    decreases (if tbl.ranges@[pr].is_local_tail(x) {
        tbl.ranges@[pr].local_tail(x) + 1
    } else {
        0
    }),
{
    if tbl.ranges@[pr].is_local_tail(x) {
        let t = tbl.ranges@[pr].local_tail(x);
        let next = tbl.ranges@[pr].tail_cell(t, METADATA_INDIRECTION as int) as int;
        assert((tbl.ranges@[pr].tail_raw(0) <= next < tbl.ranges@[pr].tail_raw(t)) || (0 <= next
            < TAIL_RID_BASE));
        lemma_chain_fuel(tbl, pr, next, (f1 - 1) as nat, (f2 - 1) as nat);
    }
}

/// Every reachable tail-record number names an appended record.
proof fn lemma_chain_valid(tbl: Table, pr: int, x: int, fuel: nat)
    requires
        tbl.wf(),
        0 <= pr < tbl.ranges@.len(),
    ensures
        forall|t: int|
            tbl.chain_from(pr, x, fuel).contains(t) ==> 0 <= t < tbl.ranges@[pr].num_tail_records,
    decreases fuel,
{
    if fuel > 0 && tbl.ranges@[pr].is_local_tail(x) {
        let t = tbl.ranges@[pr].local_tail(x);
        let next = tbl.ranges@[pr].tail_cell(t, METADATA_INDIRECTION as int) as int;
        lemma_chain_valid(tbl, pr, next, (fuel - 1) as nat);
        assert forall|t2: int| tbl.chain_from(pr, x, fuel).contains(t2) implies 0 <= t2
            < tbl.ranges@[pr].num_tail_records by {
            if t2 != t {
                assert(tbl.chain_from(pr, next, (fuel - 1) as nat).contains(t2));
            }
        }
    }
}

/// What a successful delete of row `r` leaves behind: the row is
/// tombstoned, and so is the RID metadata of every tail record reachable
/// along its indirection chain; every other row keeps its liveness, and
/// every row keeps its current values and schema; the index is untouched,
/// its stale entries for the row being filtered by every later lookup.
pub open spec fn deleted_row(pre: Table, post: Table, r: int, key: i64) -> bool {
    &&& pre.matches(r, pre.primary_key_index as int, key)
    &&& post.num_columns == pre.num_columns
    &&& post.primary_key_index == pre.primary_key_index
    &&& post.next_rid == pre.next_rid
    &&& post.index == pre.index
    &&& (forall|t: int|
        pre.chain_from(
            r / 8192,
            pre.b_cell(r, METADATA_INDIRECTION as int) as int,
            RANGE_CAPACITY as nat,
        ).contains(t) ==> #[trigger] post.ranges@[r / 8192].tail_cell(t, METADATA_RID as int)
            == RID_INVALID)
    &&& !post.live(r)
    &&& (forall|r3: int|
        0 <= r3 < pre.next_rid && r3 != r ==> #[trigger] post.live(r3) == pre.live(r3))
    &&& (forall|r3: int, c: int|
        0 <= r3 < pre.next_rid && 0 <= c < pre.num_columns ==> #[trigger] post.latest_col(r3, c)
            == pre.latest_col(r3, c))
    &&& (forall|r3: int| 0 <= r3 < pre.next_rid ==> #[trigger] post.schema(r3) == pre.schema(r3))
}

impl Table {
    /// Delete the row whose current primary-key value is `key`: walk its
    /// version chain from the newest tail record back, tombstoning each tail
    /// record's RID metadata, then tombstone the base record itself.  The
    /// records stay physically present and the row's RID is never reused.
    /// Returns `false`, changing nothing, when no live row carries the key.
    pub fn delete(&mut self, key: i64) -> (success: bool)
        requires
            old(self).wf(),
        ensures
            final(self).wf(),
            final(self).name == old(self).name,
            final(self).num_columns == old(self).num_columns,
            final(self).primary_key_index == old(self).primary_key_index,
            final(self).next_rid == old(self).next_rid,
            final(self).index == old(self).index,
            !success ==> final(self).ranges@ == old(self).ranges@ && (forall|r2: int|
                0 <= r2 < old(self).next_rid ==> !old(self).matches(
                    r2,
                    old(self).primary_key_index as int,
                    key,
                )),
            success ==> exists|r2: int| #[trigger] deleted_row(*old(self), *final(self), r2, key),
    {
        let row = match self.find_row(self.primary_key_index, key) {
            None => {
                return false;
            },
            Some(row) => row,
        };
        let ghost r = row.idx();
        proof {
            self.lemma_next_rid_capacity();
            lemma_range_of_rid(r, self.ranges@.len() as int);
            assert(self.row_wf(r));
        }
        let pr = row.page_range();
        let ghost pre = *self;
        let mut cur: i64 = self.read_base(&row, METADATA_INDIRECTION);
        let ghost ind0 = cur as int;
        while cur >= 0x2000_0000_0000_0000i64
            invariant
                pre.wf(),
                row.wf(),
                r == row.idx(),
                0 <= r < pre.next_rid,
                pr == r / 8192,
                pr < pre.ranges@.len(),
                pre.next_rid <= pre.ranges@.len() * 8192,
                self.name == pre.name,
                self.num_columns == pre.num_columns,
                self.primary_key_index == pre.primary_key_index,
                self.next_rid == pre.next_rid,
                self.index == pre.index,
                self.ranges_wf(),
                self.ranges@.len() == pre.ranges@.len(),
                forall|i: int|
                    0 <= i < pre.ranges@.len() ==> (#[trigger] self.ranges@[i]).num_tail_records
                        == pre.ranges@[i].num_tail_records && self.ranges@[i].range_number
                        == pre.ranges@[i].range_number,
                forall|r2: int, c2: int|
                    0 <= r2 < pre.ranges@.len() * 8192 && 0 <= c2 < NUM_METADATA_COLUMNS
                        + pre.num_columns ==> #[trigger] self.b_cell(r2, c2) == pre.b_cell(r2, c2),
                forall|i: int, t: int, c2: int|
                    0 <= i < pre.ranges@.len() && 0 <= t < pre.ranges@[i].num_tail_records && 0
                        <= c2 < NUM_METADATA_COLUMNS + pre.num_columns && c2 != METADATA_RID
                        ==> #[trigger] self.ranges@[i].tail_cell(t, c2) == pre.ranges@[i].tail_cell(
                        t,
                        c2,
                    ),
                cur < 0x2000_0000_0000_0000i64 || pre.ranges@[pr as int].is_local_tail(cur as int),
                ind0 == pre.b_cell(r, METADATA_INDIRECTION as int) as int,
                pre.chain_from(pr as int, cur as int, RANGE_CAPACITY as nat).subset_of(
                    pre.chain_from(pr as int, ind0, RANGE_CAPACITY as nat),
                ),
                forall|t: int|
                    pre.chain_from(pr as int, ind0, RANGE_CAPACITY as nat).contains(t)
                        && !pre.chain_from(pr as int, cur as int, RANGE_CAPACITY as nat).contains(
                        t,
                    ) ==> #[trigger] self.ranges@[pr as int].tail_cell(t, METADATA_RID as int)
                        == RID_INVALID,
            decreases cur + 1,
        {
            proof {
                assert(pre.ranges@[pr as int].is_local_tail(cur as int));
            }
            let t = ((cur as u64 - TAIL_RID_BASE) as usize) - pr * RANGE_CAPACITY;
            proof {
                assert(t == pre.ranges@[pr as int].local_tail(cur as int));
                assert(t < pre.ranges@[pr as int].num_tail_records);
            }
            let next = self.ranges[pr].read_tail_cell(t, METADATA_INDIRECTION);
            proof {
                assert(self.ranges@[pr as int].tail_cell(t as int, METADATA_INDIRECTION as int)
                    == pre.ranges@[pr as int].tail_cell(t as int, METADATA_INDIRECTION as int));
                assert((pre.ranges@[pr as int].tail_raw(0) <= next < pre.ranges@[pr as int].tail_raw(
                    t as int,
                )) || (0 <= next < TAIL_RID_BASE));
            }
            let ghost prev = *self;
            {
                let range: &mut PageRange = &mut self.ranges[pr];
                range.write_tail_cell(t, METADATA_RID, RID_INVALID);
            }
            proof {
                assert forall|r2: int, c2: int|
                    0 <= r2 < pre.ranges@.len() * 8192 && 0 <= c2 < NUM_METADATA_COLUMNS
                        + pre.num_columns implies #[trigger] self.b_cell(r2, c2) == pre.b_cell(
                    r2,
                    c2,
                ) by {
                    lemma_range_of_rid(r2, pre.ranges@.len() as int);
                    if r2 / 8192 == pr {
                        assert(self.ranges@[r2 / 8192].base_pages@ == prev.ranges@[r2
                            / 8192].base_pages@);
                    }
                    assert(prev.b_cell(r2, c2) == pre.b_cell(r2, c2));
                }
                assert forall|i: int, t2: int, c2: int|
                    0 <= i < pre.ranges@.len() && 0 <= t2 < pre.ranges@[i].num_tail_records && 0
                        <= c2 < NUM_METADATA_COLUMNS + pre.num_columns && c2
                        != METADATA_RID implies #[trigger] self.ranges@[i].tail_cell(t2, c2)
                    == pre.ranges@[i].tail_cell(t2, c2) by {
                    assert(prev.ranges@[i].tail_cell(t2, c2) == pre.ranges@[i].tail_cell(t2, c2));
                    assert(prev.ranges@[i].num_tail_records == pre.ranges@[i].num_tail_records);
                    assert(prev.ranges@[i].wf());
                    assert(t2 < prev.ranges@[i].tail_pages@.len() * 512);
                    if i == pr {
                        assert(self.ranges@[i].tail_cell(t2, c2) == prev.ranges@[i].tail_cell(
                            t2,
                            c2,
                        ));
                    }
                }
                // The chain from this record is the record itself plus the
                // chain from its predecessor; the record is now tombstoned.
                assert(pre.ranges@[pr as int].local_tail(cur as int) == t as int);
                lemma_chain_fuel(
                    pre,
                    pr as int,
                    next as int,
                    (RANGE_CAPACITY - 1) as nat,
                    RANGE_CAPACITY as nat,
                );
                assert(pre.chain_from(pr as int, cur as int, RANGE_CAPACITY as nat)
                    == pre.chain_from(pr as int, next as int, RANGE_CAPACITY as nat).insert(
                    t as int,
                ));
                assert(self.ranges@[pr as int].tail_cell(t as int, METADATA_RID as int)
                    == RID_INVALID);
                lemma_chain_valid(pre, pr as int, ind0, RANGE_CAPACITY as nat);
                assert forall|t2: int|
                    pre.chain_from(pr as int, ind0, RANGE_CAPACITY as nat).contains(t2)
                        && !pre.chain_from(pr as int, next as int, RANGE_CAPACITY as nat).contains(
                        t2,
                    ) implies #[trigger] self.ranges@[pr as int].tail_cell(
                    t2,
                    METADATA_RID as int,
                ) == RID_INVALID by {
                    if t2 != t {
                        assert(!pre.chain_from(pr as int, cur as int, RANGE_CAPACITY as nat)
                            .contains(t2));
                        assert(prev.ranges@[pr as int].tail_cell(t2, METADATA_RID as int)
                            == RID_INVALID);
                        assert(0 <= t2 < pre.ranges@[pr as int].num_tail_records);
                        assert(prev.ranges@[pr as int].wf());
                        assert(t2 < prev.ranges@[pr as int].tail_pages@.len() * 512);
                        assert(self.ranges@[pr as int].tail_cell(t2, METADATA_RID as int)
                            == prev.ranges@[pr as int].tail_cell(t2, METADATA_RID as int));
                    }
                }
            }
            cur = next;
        }
        let ghost walked = *self;
        proof {
            assert(!pre.ranges@[pr as int].is_local_tail(cur as int));
            assert(pre.chain_from(pr as int, cur as int, RANGE_CAPACITY as nat) =~= Set::<
                int,
            >::empty());
        }
        self.write_base(&row, METADATA_RID, RID_INVALID);
        proof {
            let fin = *self;
            assert forall|t: int|
                pre.chain_from(pr as int, ind0, RANGE_CAPACITY as nat).contains(
                    t,
                ) implies #[trigger] fin.ranges@[pr as int].tail_cell(t, METADATA_RID as int)
                == RID_INVALID by {
                assert(walked.ranges@[pr as int].tail_cell(t, METADATA_RID as int) == RID_INVALID);
                assert(fin.ranges@[pr as int].tail_pages@ == walked.ranges@[pr
                    as int].tail_pages@);
            }
            assert forall|r2: int, c2: int|
                0 <= r2 < pre.ranges@.len() * 8192 && 0 <= c2 < NUM_METADATA_COLUMNS
                    + pre.num_columns && !(r2 == r && c2 == METADATA_RID) implies #[trigger] fin
                .b_cell(r2, c2) == pre.b_cell(r2, c2) by {
                lemma_range_of_rid(r2, pre.ranges@.len() as int);
                assert(walked.b_cell(r2, c2) == pre.b_cell(r2, c2));
            }
            assert forall|i: int, t: int, c2: int|
                0 <= i < pre.ranges@.len() && 0 <= t < pre.ranges@[i].num_tail_records && 0 <= c2
                    < NUM_METADATA_COLUMNS + pre.num_columns && c2 != METADATA_RID implies
                #[trigger] fin.ranges@[i].tail_cell(t, c2) == pre.ranges@[i].tail_cell(t, c2) by {
                assert(fin.ranges@[i].tail_pages@ == walked.ranges@[i].tail_pages@);
                assert(walked.ranges@[i].tail_cell(t, c2) == pre.ranges@[i].tail_cell(t, c2));
            }
            assert(!fin.live(r));
            assert forall|r3: int|
                0 <= r3 < pre.next_rid && r3 != r implies #[trigger] fin.live(r3) == pre.live(
                r3,
            ) by {
                lemma_range_of_rid(r3, pre.ranges@.len() as int);
                assert(fin.b_cell(r3, METADATA_RID as int) == pre.b_cell(r3, METADATA_RID as int));
            }
            assert forall|r3: int|
                0 <= r3 < pre.next_rid implies #[trigger] fin.schema(r3) == pre.schema(r3) by {
                lemma_range_of_rid(r3, pre.ranges@.len() as int);
                assert(fin.b_cell(r3, METADATA_SCHEMA_ENCODING as int) == pre.b_cell(
                    r3,
                    METADATA_SCHEMA_ENCODING as int,
                ));
            }
            assert forall|r3: int, c2: int|
                0 <= r3 < pre.next_rid && 0 <= c2 < pre.num_columns implies #[trigger] fin
                .latest_col(r3, c2) == pre.latest_col(r3, c2) by {
                lemma_range_of_rid(r3, pre.ranges@.len() as int);
                assert(pre.row_wf(r3));
                assert(fin.b_cell(r3, METADATA_SCHEMA_ENCODING as int) == pre.b_cell(
                    r3,
                    METADATA_SCHEMA_ENCODING as int,
                ));
                assert(fin.b_cell(r3, METADATA_INDIRECTION as int) == pre.b_cell(
                    r3,
                    METADATA_INDIRECTION as int,
                ));
                assert(fin.b_cell(r3, NUM_METADATA_COLUMNS + c2) == pre.b_cell(
                    r3,
                    NUM_METADATA_COLUMNS + c2,
                ));
                assert forall|t: int|
                    0 <= t < pre.ranges@[r3 / 8192].num_tail_records implies #[trigger] fin.ranges@[r3
                    / 8192].tail_cell(t, NUM_METADATA_COLUMNS + c2) == pre.ranges@[r3
                    / 8192].tail_cell(t, NUM_METADATA_COLUMNS + c2) by {
                }
                lemma_latest_frame_tails(pre, fin, r3, c2);
            }
            assert forall|r3: int| 0 <= r3 < fin.next_rid implies #[trigger] fin.row_wf(r3) by {
                lemma_range_of_rid(r3, pre.ranges@.len() as int);
                assert(pre.row_wf(r3));
                assert(fin.b_cell(r3, METADATA_SCHEMA_ENCODING as int) == pre.b_cell(
                    r3,
                    METADATA_SCHEMA_ENCODING as int,
                ));
                assert(fin.b_cell(r3, METADATA_INDIRECTION as int) == pre.b_cell(
                    r3,
                    METADATA_INDIRECTION as int,
                ));
                if r3 != r {
                    assert(fin.b_cell(r3, METADATA_RID as int) == pre.b_cell(
                        r3,
                        METADATA_RID as int,
                    ));
                }
            }
            assert(fin.tails_wf()) by {
                assert forall|i: int, t: int|
                    0 <= i < fin.ranges@.len() && 0 <= t < (
                    #[trigger] fin.ranges@[i]).num_tail_records implies {
                    let ind = #[trigger] fin.ranges@[i].tail_cell(
                        t,
                        METADATA_INDIRECTION as int,
                    ) as int;
                    (fin.ranges@[i].tail_raw(0) <= ind < fin.ranges@[i].tail_raw(t)) || (0 <= ind
                        < TAIL_RID_BASE)
                } by {
                    assert(fin.ranges@[i].tail_cell(t, METADATA_INDIRECTION as int)
                        == pre.ranges@[i].tail_cell(t, METADATA_INDIRECTION as int));
                }
            }
            assert forall|c2: int, v: i64, raw: u64|
                0 <= c2 < fin.num_columns && #[trigger] fin.index.spec_contains(
                    c2,
                    v,
                    raw,
                ) implies raw < fin.next_rid && (fin.live(raw as int) ==> fin.latest_col(
                raw as int,
                c2,
            ) == v) by {
                assert(pre.index.spec_contains(c2, v, raw));
                lemma_range_of_rid(raw as int, pre.ranges@.len() as int);
                if fin.live(raw as int) {
                    assert(raw as int != r);
                    assert(pre.live(raw as int));
                }
            }
            assert forall|c2: int, r3: int|
                0 <= c2 < fin.num_columns && fin.index.spec_is_indexed(c2) && 0 <= r3
                    < fin.next_rid && fin.live(r3) implies #[trigger] fin.index.spec_contains(
                c2,
                fin.latest_col(r3, c2),
                r3 as u64,
            ) by {
                lemma_range_of_rid(r3, pre.ranges@.len() as int);
                assert(r3 != r);
                assert(pre.live(r3));
                assert(pre.index.spec_contains(c2, pre.latest_col(r3, c2), r3 as u64));
            }
            assert(deleted_row(pre, fin, r, key));
        }
        true
    }
}

impl Table {
    /// Whether the base record of `rid` is itself the row's current version
    /// (its schema encoding is zero: never updated).
    pub fn is_latest(&self, rid: &BaseRID) -> (r: bool)
        requires
            self.wf(),
            rid.wf(),
            rid.raw < self.next_rid,
        ensures
            r == (self.schema(rid.idx()) == 0),
    {
        proof {
            self.lemma_next_rid_capacity();
        }
        self.read_base(rid, METADATA_SCHEMA_ENCODING) == 0
    }

    /// The tail RID of the row's newest version, read from the base
    /// record's indirection; meaningful only for a row that has been
    /// updated.
    pub fn find_latest(&self, rid: &BaseRID) -> (r: TailRID)
        requires
            self.wf(),
            rid.wf(),
            rid.raw < self.next_rid,
            self.schema(rid.idx()) != 0,
        ensures
            r.wf(),
            r.raw as i64 == self.b_cell(rid.idx(), METADATA_INDIRECTION as int),
            r.spec_page_range() == rid.spec_page_range(),
    {
        proof {
            self.lemma_next_rid_capacity();
            lemma_range_of_rid(rid.idx(), self.ranges@.len() as int);
            assert(self.row_wf(rid.idx()));
        }
        let ind = self.read_base(rid, METADATA_INDIRECTION);
        TailRID::new(ind as u64)
    }

    /// The page and RID holding the row's current version: the base page
    /// and base RID while the row was never updated, else the tail page and
    /// tail RID of its newest version.
    pub fn get_latest_page_rid(&self, rid: &BaseRID) -> (r: (&crate::page::Page, RID))
        requires
            self.wf(),
            rid.wf(),
            rid.raw < self.next_rid,
        ensures
            self.schema(rid.idx()) == 0 ==> r.1 == RID::Base(*rid) && r.0@ == self.ranges@[rid.spec_page_range()].base_pages@[rid.spec_page()]@,
            self.schema(rid.idx()) != 0 ==> (r.1 matches RID::Tail(t) && t.raw as i64 == self.b_cell(
                rid.idx(),
                METADATA_INDIRECTION as int,
            )),
    {
        proof {
            self.lemma_next_rid_capacity();
            lemma_range_of_rid(rid.idx(), self.ranges@.len() as int);
            assert(self.row_wf(rid.idx()));
        }
        if self.is_latest(rid) {
            let pr = rid.page_range();
            let page = self.ranges[pr].get_page(rid.page());
            (page, RID::Base(*rid))
        } else {
            let tail = self.find_latest(rid);
            let pr = rid.page_range();
            proof {
                let lt = self.ranges@[rid.idx() / 8192].local_tail(tail.raw as int);
                assert(0 <= lt < self.ranges@[rid.idx() / 8192].num_tail_records);
                crate::page::lemma_tail_page_in_bounds(
                    lt,
                    self.ranges@[rid.idx() / 8192].tail_pages@.len() as int,
                );
            }
            let tp = tail.page();
            let page = &self.ranges[pr].tail_pages[tp];
            (page, RID::Tail(tail))
        }
    }

    /// Build an index on column `column_number` from the rows already
    /// stored: afterwards the column's map records exactly the live rows
    /// under their current values.
    pub fn build_index(&mut self, column_number: usize)
        requires
            old(self).wf(),
            column_number < old(self).num_columns,
        ensures
            final(self).wf(),
            final(self).name == old(self).name,
            final(self).num_columns == old(self).num_columns,
            final(self).primary_key_index == old(self).primary_key_index,
            final(self).next_rid == old(self).next_rid,
            final(self).ranges@ == old(self).ranges@,
            final(self).index.spec_is_indexed(column_number as int),
            forall|c: int|
                0 <= c < old(self).num_columns && c != column_number ==> #[trigger] final(self).index.spec_is_indexed(c) == old(self).index.spec_is_indexed(c),
            forall|v: i64, raw: u64|
                #[trigger] final(self).index.spec_contains(column_number as int, v, raw) <==> (
                old(self).matches(raw as int, column_number as int, v)),
            forall|c: int, v: i64, raw: u64|
                0 <= c < old(self).num_columns && c != column_number ==> (#[trigger] final(self).index.spec_contains(c, v, raw) <==> old(self).index.spec_contains(c, v, raw)),
    {
        proof {
            self.lemma_next_rid_capacity();
        }
        self.index.create_index(column_number);
        let n = self.next_rid;
        let mut r: u64 = 0;
        while r < n
            invariant
                r <= n,
                n == old(self).next_rid,
                old(self).wf(),
                column_number < old(self).num_columns,
                old(self).next_rid <= old(self).ranges@.len() * 8192,
                self.name == old(self).name,
                self.num_columns == old(self).num_columns,
                self.primary_key_index == old(self).primary_key_index,
                self.next_rid == old(self).next_rid,
                self.ranges@ == old(self).ranges@,
                self.index.wf(self.num_columns as int),
                self.index.spec_is_indexed(column_number as int),
                forall|c: int|
                    0 <= c < old(self).num_columns && c != column_number
                        ==> #[trigger] self.index.spec_is_indexed(c) == old(
                        self,
                    ).index.spec_is_indexed(c),
                forall|v: i64, raw: u64|
                    #[trigger] self.index.spec_contains(column_number as int, v, raw) <==> (raw < r
                        && old(self).matches(raw as int, column_number as int, v)),
                forall|c: int, v: i64, raw: u64|
                    0 <= c < old(self).num_columns && c != column_number ==> (
                    #[trigger] self.index.spec_contains(c, v, raw) <==> old(
                        self,
                    ).index.spec_contains(c, v, raw)),
            decreases n - r,
        {
            let rid = BaseRID::new(r);
            proof {
                assert(self.b_cell(rid.idx(), METADATA_RID as int) == old(self).b_cell(
                    rid.idx(),
                    METADATA_RID as int,
                ));
                assert(old(self).row_wf(rid.idx()));
                assert(self.row_wf(rid.idx()));
            }
            if self.read_base(&rid, METADATA_RID) != RID_INVALID {
                let v = self.read_latest(&rid, NUM_METADATA_COLUMNS + column_number);
                proof {
                    assert(self.latest_col(rid.idx(), column_number as int) == old(
                        self,
                    ).latest_col(rid.idx(), column_number as int));
                }
                let ghost prev = *self;
                self.index.update_index(column_number, v, rid);
                proof {
                    assert(self.ranges@ == prev.ranges@);
                }
            }
            r += 1;
        }
        proof {
            assert forall|r3: int| 0 <= r3 < self.next_rid implies #[trigger] self.row_wf(r3) by {
                lemma_range_of_rid(r3, old(self).ranges@.len() as int);
                assert(old(self).row_wf(r3));
                assert(self.ranges@[r3 / 8192] == old(self).ranges@[r3 / 8192]);
            }
            assert(self.tails_wf()) by {
                assert forall|i: int, t: int|
                    0 <= i < self.ranges@.len() && 0 <= t < (
                    #[trigger] self.ranges@[i]).num_tail_records implies {
                    let ind = #[trigger] self.ranges@[i].tail_cell(
                        t,
                        METADATA_INDIRECTION as int,
                    ) as int;
                    (self.ranges@[i].tail_raw(0) <= ind < self.ranges@[i].tail_raw(t)) || (0 <= ind
                        < TAIL_RID_BASE)
                } by {
                    assert(self.ranges@[i] == old(self).ranges@[i]);
                }
            }
            assert forall|c2: int, v: i64, raw: u64|
                0 <= c2 < self.num_columns && #[trigger] self.index.spec_contains(
                    c2,
                    v,
                    raw,
                ) implies raw < self.next_rid && (self.live(raw as int) ==> self.latest_col(
                raw as int,
                c2,
            ) == v) by {
                if c2 != column_number {
                    assert(old(self).index.spec_contains(c2, v, raw));
                }
                lemma_range_of_rid(raw as int, old(self).ranges@.len() as int);
                assert(self.ranges@[raw as int / 8192] == old(self).ranges@[raw as int / 8192]);
            }
            assert forall|c2: int, r3: int|
                0 <= c2 < self.num_columns && self.index.spec_is_indexed(c2) && 0 <= r3
                    < self.next_rid && self.live(r3) implies #[trigger] self.index.spec_contains(
                c2,
                self.latest_col(r3, c2),
                r3 as u64,
            ) by {
                lemma_range_of_rid(r3, old(self).ranges@.len() as int);
                assert(self.ranges@[r3 / 8192] == old(self).ranges@[r3 / 8192]);
                if c2 != column_number {
                    assert(old(self).index.spec_contains(c2, old(self).latest_col(r3, c2), r3 as u64));
                }
            }
        }
    }

    /// Discard the index of column `column_number`; later lookups on it
    /// fall back to a full scan until the index is rebuilt.  The primary-key
    /// index cannot be dropped.
    pub fn drop_index(&mut self, column_number: usize)
        requires
            old(self).wf(),
            column_number < old(self).num_columns,
            column_number != old(self).primary_key_index,
        ensures
            final(self).wf(),
            final(self).name == old(self).name,
            final(self).num_columns == old(self).num_columns,
            final(self).primary_key_index == old(self).primary_key_index,
            final(self).next_rid == old(self).next_rid,
            final(self).ranges@ == old(self).ranges@,
            !final(self).index.spec_is_indexed(column_number as int),
            forall|c: int|
                0 <= c < old(self).num_columns && c != column_number ==> #[trigger] final(self).index.spec_is_indexed(c) == old(self).index.spec_is_indexed(c),
            forall|c: int, v: i64, raw: u64|
                0 <= c < old(self).num_columns && c != column_number ==> (#[trigger] final(self).index.spec_contains(c, v, raw) <==> old(self).index.spec_contains(c, v, raw)),
    {
        self.index.drop_index(column_number);
        proof {
            assert forall|r3: int| 0 <= r3 < self.next_rid implies #[trigger] self.row_wf(r3) by {
                lemma_range_of_rid(r3, old(self).ranges@.len() as int);
                assert(old(self).row_wf(r3));
                assert(self.ranges@[r3 / 8192] == old(self).ranges@[r3 / 8192]);
            }
            assert(self.tails_wf()) by {
                assert forall|i: int, t: int|
                    0 <= i < self.ranges@.len() && 0 <= t < (
                    #[trigger] self.ranges@[i]).num_tail_records implies {
                    let ind = #[trigger] self.ranges@[i].tail_cell(
                        t,
                        METADATA_INDIRECTION as int,
                    ) as int;
                    (self.ranges@[i].tail_raw(0) <= ind < self.ranges@[i].tail_raw(t)) || (0 <= ind
                        < TAIL_RID_BASE)
                } by {
                    assert(self.ranges@[i] == old(self).ranges@[i]);
                }
            }
            assert forall|c2: int, v: i64, raw: u64|
                0 <= c2 < self.num_columns && #[trigger] self.index.spec_contains(
                    c2,
                    v,
                    raw,
                ) implies raw < self.next_rid && (self.live(raw as int) ==> self.latest_col(
                raw as int,
                c2,
            ) == v) by {
                assert(old(self).index.spec_contains(c2, v, raw));
                lemma_range_of_rid(raw as int, old(self).ranges@.len() as int);
                assert(self.ranges@[raw as int / 8192] == old(self).ranges@[raw as int / 8192]);
            }
            assert forall|c2: int, r3: int|
                0 <= c2 < self.num_columns && self.index.spec_is_indexed(c2) && 0 <= r3
                    < self.next_rid && self.live(r3) implies #[trigger] self.index.spec_contains(
                c2,
                self.latest_col(r3, c2),
                r3 as u64,
            ) by {
                lemma_range_of_rid(r3, old(self).ranges@.len() as int);
                assert(self.ranges@[r3 / 8192] == old(self).ranges@[r3 / 8192]);
                assert(old(self).index.spec_contains(c2, old(self).latest_col(r3, c2), r3 as u64));
            }
        }
    }
}

/// The fixed binary record persisted in page 0 of a table's file: column
/// count, primary-key column, the bitmap of indexed columns, the free-page
/// cursor and the allocator cursors for row and version ids.
pub struct TableHeaderPage {
    pub num_columns: usize,
    pub primary_key_index: usize,
    pub indexed_columns: i64,
    pub next_free_page: usize,
    pub next_rid: u64,
    pub next_tid: u64,
}

impl TableHeaderPage {
    /// Bounds under which every field fits one signed 64-bit cell.
    pub open spec fn wf(self) -> bool {
        &&& 1 <= self.num_columns <= 62
        &&& self.primary_key_index < self.num_columns
        &&& self.indexed_columns >= 0
        &&& self.next_free_page <= 0x7fff_ffff_ffff_ffff
        &&& self.next_rid <= MAX_RID_INDEX
        &&& self.next_tid <= MAX_RID_INDEX
    }

    /// The cell layout of the header: one field per cell, in a fixed order,
    /// the rest of the page zero.
    pub open spec fn cells(self) -> Seq<i64> {
        crate::page::zero_column().update(0, self.num_columns as i64).update(
            1,
            self.primary_key_index as i64,
        ).update(2, self.indexed_columns).update(3, self.next_free_page as i64).update(
            4,
            self.next_rid as i64,
        ).update(5, self.next_tid as i64)
    }

    /// Write the header into a physical page.
    pub fn encode(&self, page: &mut PhysicalPage)
        requires
            old(page).wf(),
            self.wf(),
        ensures
            final(page).wf(),
            final(page)@ == self.cells(),
    {
        let zero = PhysicalPage::new();
        page.copy_from(&zero);
        page.write_slot(0, self.num_columns as i64);
        page.write_slot(1, self.primary_key_index as i64);
        page.write_slot(2, self.indexed_columns);
        page.write_slot(3, self.next_free_page as i64);
        page.write_slot(4, self.next_rid as i64);
        page.write_slot(5, self.next_tid as i64);
        proof {
            assert(final(page)@ =~= self.cells());
        }
    }

    /// Read a header back from a physical page; `None` when the stored
    /// cells cannot have been written by `encode` of a well-formed header.
    pub fn decode(page: &PhysicalPage) -> (r: Option<TableHeaderPage>)
        requires
            page.wf(),
        ensures
            forall|h: TableHeaderPage| h.wf() && page@ == h.cells() ==> r == Some(h),
            r is Some ==> r->0.wf(),
    {
        let num_columns = page.slot(0);
        let primary_key_index = page.slot(1);
        let indexed_columns = page.slot(2);
        let next_free_page = page.slot(3);
        let next_rid = page.slot(4);
        let next_tid = page.slot(5);
        if 1 <= num_columns && num_columns <= 62 && 0 <= primary_key_index && primary_key_index
            < num_columns && 0 <= indexed_columns && 0 <= next_free_page && 0 <= next_rid
            && next_rid <= MAX_RID_INDEX as i64 && 0 <= next_tid && next_tid
            <= MAX_RID_INDEX as i64 {
            Some(
                TableHeaderPage {
                    num_columns: num_columns as usize,
                    primary_key_index: primary_key_index as usize,
                    indexed_columns,
                    next_free_page: next_free_page as usize,
                    next_rid: next_rid as u64,
                    next_tid: next_tid as u64,
                },
            )
        } else {
            None
        }
    }
}

/// Whether bit `c` of a header's indexed-column bitmap is set.
pub open spec fn header_bit(x: i64, c: int) -> bool {
    (x >> (c as u32)) & 1 == 1
}

impl Table {
    /// Persist the table's configuration and allocator cursors as the
    /// header in page 0 of the disk manager, and flush.  Version ids are
    /// not allocated from a table-wide cursor but derived per range from
    /// its tail-record count, so the header's version-cursor field has
    /// nothing to record and is written as zero; the field stays in the
    /// fixed layout.
    pub fn persist(&self, disk: &mut DiskManager)
        requires
            self.wf(),
            old(disk).wf(),
            old(disk).next_free_page <= 0x7fff_ffff_ffff_ffff,
        ensures
            final(disk).wf(),
            final(disk).next_free_page == old(disk).next_free_page,
            final(disk).block(0) == (TableHeaderPage {
                num_columns: self.num_columns,
                primary_key_index: self.primary_key_index,
                indexed_columns: self.index.spec_indexed_bitmap() as i64,
                next_free_page: old(disk).next_free_page,
                next_rid: self.next_rid,
                next_tid: 0,
            }).cells(),
            forall|id: int| id != 0 ==> #[trigger] final(disk).block(id) == old(disk).block(id),
    {
        let header = TableHeaderPage {
            num_columns: self.num_columns,
            primary_key_index: self.primary_key_index,
            indexed_columns: self.index.index_meta_to_bit_vector(),
            next_free_page: disk.free_page_pointer(),
            next_rid: self.next_rid,
            next_tid: 0,
        };
        proof {
            crate::page::lemma_schema_bitmap_bound(self.index.indices@);
        }
        let mut page = PhysicalPage::new();
        header.encode(&mut page);
        disk.write_page(0, &page);
        disk.flush();
    }

    /// Open a table from a persisted header: restore the configuration and
    /// the free-page cursor, rebuild empty indexes for the recorded indexed
    /// columns, and start with no materialized rows.  Returns `None` when
    /// page 0 does not hold a valid header.
    pub fn load(name: String, disk: &mut DiskManager) -> (r: Option<Table>)
        requires
            old(disk).wf(),
        ensures
            final(disk).wf(),
            forall|id: int| #[trigger] final(disk).block(id) == old(disk).block(id),
            r is Some ==> {
                let t = r->0;
                &&& t.wf()
                &&& t.name == name
                &&& t.next_rid == 0
            },
            forall|h: TableHeaderPage|
                h.wf() && old(disk).block(0) == #[trigger] h.cells() ==> {
                    &&& r is Some
                    &&& r->0.num_columns == h.num_columns
                    &&& r->0.primary_key_index == h.primary_key_index
                    &&& final(disk).next_free_page == h.next_free_page
                    &&& (forall|c: int|
                        0 <= c < h.num_columns ==> (#[trigger] r->0.index.spec_is_indexed(c) <==> (
                        c == h.primary_key_index || header_bit(h.indexed_columns, c))))
                },
    {
        let mut page = PhysicalPage::new();
        disk.read_page(0, &mut page);
        let header = match TableHeaderPage::decode(&page) {
            None => {
                proof {
                    assert forall|h: TableHeaderPage|
                        h.wf() && old(disk).block(0) == #[trigger] h.cells() implies false by {
                    }
                }
                return None;
            },
            Some(h) => h,
        };
        disk.set_free_page_pointer(header.next_free_page);
        let mut table = Table::new(name, header.num_columns, header.primary_key_index);
        let mut c: usize = 0;
        while c < header.num_columns
            invariant
                c <= header.num_columns,
                header.wf(),
                table.wf(),
                table.name == name,
                table.next_rid == 0,
                table.num_columns == header.num_columns,
                table.primary_key_index == header.primary_key_index,
                forall|c2: int|
                    0 <= c2 < c ==> (#[trigger] table.index.spec_is_indexed(c2) <==> (c2
                        == header.primary_key_index || header_bit(header.indexed_columns, c2))),
                forall|c2: int|
                    c <= c2 < header.num_columns ==> (#[trigger] table.index.spec_is_indexed(c2)
                        <==> c2 == header.primary_key_index),
            decreases header.num_columns - c,
        {
            if (header.indexed_columns >> (c as u32)) & 1 == 1 {
                table.build_index(c);
            }
            c += 1;
        }
        proof {
            assert forall|h: TableHeaderPage|
                h.wf() && old(disk).block(0) == #[trigger] h.cells() implies header == h by {
            }
        }
        Some(table)
    }
}

/// The selected columns of a full (all-ones) mask are exactly the row's
/// current values, in column order.
pub proof fn lemma_selected_cols_full(t: Table, r: int, mask: Seq<i64>)
    requires
        forall|c: int| 0 <= c < mask.len() ==> #[trigger] mask[c] != 0,
    ensures
        t.selected_cols(r, mask) == Seq::new(mask.len(), |c: int| t.latest_col(r, c)),
    decreases mask.len(),
{
    if mask.len() == 0 {
        assert(t.selected_cols(r, mask) =~= Seq::new(mask.len(), |c: int| t.latest_col(r, c)));
    } else {
        assert(forall|c: int| 0 <= c < mask.len() - 1 ==> #[trigger] mask.drop_last()[c] == mask[c]);
        lemma_selected_cols_full(t, r, mask.drop_last());
        assert(t.selected_cols(r, mask) =~= Seq::new(mask.len(), |c: int| t.latest_col(r, c)));
    }
}

/// Law (insert/select round trip): after inserting a row, the new row is
/// live, matches its primary-key value, reports schema encoding zero, and a
/// point query for that key under a full column mask reports exactly the
/// inserted values; when no other live row carries the key, the new row is
/// the only match.
pub proof fn lemma_insert_select_round_trip(pre: Table, post: Table, vals: Seq<i64>, mask: Seq<i64>)
    requires
        pre.wf(),
        post.wf(),
        vals.len() == pre.num_columns,
        inserted_row(pre, post, vals),
        mask.len() == pre.num_columns,
        forall|c: int| 0 <= c < mask.len() ==> #[trigger] mask[c] != 0,
        forall|r2: int|
            0 <= r2 < pre.next_rid ==> !pre.matches(
                r2,
                pre.primary_key_index as int,
                vals[pre.primary_key_index as int],
            ),
    ensures
        post.matches(
            pre.next_rid as int,
            post.primary_key_index as int,
            vals[pre.primary_key_index as int],
        ),
        post.schema(pre.next_rid as int) == 0,
        post.selected_cols(pre.next_rid as int, mask) == vals,
        forall|r2: int|
            0 <= r2 < post.next_rid && #[trigger] post.matches(
                r2,
                post.primary_key_index as int,
                vals[pre.primary_key_index as int],
            ) ==> r2 == pre.next_rid,
{
    let r0 = pre.next_rid as int;
    lemma_selected_cols_full(post, r0, mask);
    assert(post.selected_cols(r0, mask) =~= vals);
    assert forall|r2: int|
        0 <= r2 < post.next_rid && #[trigger] post.matches(
            r2,
            post.primary_key_index as int,
            vals[pre.primary_key_index as int],
        ) implies r2 == r0 by {
        if r2 < pre.next_rid {
            assert(post.latest_col(r2, pre.primary_key_index as int) == pre.latest_col(
                r2,
                pre.primary_key_index as int,
            ));
            assert(pre.matches(
                r2,
                pre.primary_key_index as int,
                vals[pre.primary_key_index as int],
            ));
        }
    }
}

/// Law (update visibility): after updating column `c` of the key's unique
/// row to `v`, the row's current value of `c` is `v`, every column the
/// update left null keeps its previous value, and the row still is the
/// key's unique match while the update did not touch the key column.
pub proof fn lemma_update_visibility(
    pre: Table,
    post: Table,
    r: int,
    vals: Seq<Option<i64>>,
    key: i64,
    c: int,
)
    requires
        pre.wf(),
        post.wf(),
        vals.len() == pre.num_columns,
        updated_row(pre, post, r, vals, key),
        0 <= c < pre.num_columns,
        vals[c] is Some,
        vals[pre.primary_key_index as int] is None,
        forall|r2: int|
            0 <= r2 < pre.next_rid && #[trigger] pre.matches(
                r2,
                pre.primary_key_index as int,
                key,
            ) ==> r2 == r,
    ensures
        post.latest_col(r, c) == vals[c]->0,
        forall|c2: int|
            0 <= c2 < pre.num_columns && vals[c2] is None ==> #[trigger] post.latest_col(r, c2)
                == pre.latest_col(r, c2),
        post.matches(r, post.primary_key_index as int, key),
        forall|r2: int|
            0 <= r2 < post.next_rid && #[trigger] post.matches(
                r2,
                post.primary_key_index as int,
                key,
            ) ==> r2 == r,
{
    assert(post.latest_col(r, pre.primary_key_index as int) == pre.latest_col(
        r,
        pre.primary_key_index as int,
    ));
    assert forall|r2: int|
        0 <= r2 < post.next_rid && #[trigger] post.matches(
            r2,
            post.primary_key_index as int,
            key,
        ) implies r2 == r by {
        if r2 != r {
            assert(post.latest_col(r2, pre.primary_key_index as int) == pre.latest_col(
                r2,
                pre.primary_key_index as int,
            ));
            assert(pre.matches(r2, pre.primary_key_index as int, key));
        }
    }
}

/// Law (delete semantics): after deleting the key's unique row, no live row
/// matches the key any more, and a later insert allocates a fresh RID that
/// never collides with the tombstoned one.
pub proof fn lemma_delete_semantics(pre: Table, post: Table, r: int, key: i64)
    requires
        pre.wf(),
        post.wf(),
        deleted_row(pre, post, r, key),
        forall|r2: int|
            0 <= r2 < pre.next_rid && #[trigger] pre.matches(
                r2,
                pre.primary_key_index as int,
                key,
            ) ==> r2 == r,
    ensures
        forall|r2: int|
            0 <= r2 < post.next_rid ==> !post.matches(r2, post.primary_key_index as int, key),
        r < post.next_rid,
{
    assert forall|r2: int|
        0 <= r2 < post.next_rid implies !post.matches(r2, post.primary_key_index as int, key) by {
        if post.matches(r2, post.primary_key_index as int, key) {
            assert(r2 != r);
            assert(post.latest_col(r2, pre.primary_key_index as int) == pre.latest_col(
                r2,
                pre.primary_key_index as int,
            ));
            assert(pre.matches(r2, pre.primary_key_index as int, key));
        }
    }
}

/// Law (index/scan equivalence): any two result lists that meet the point
/// query's contract for the same table, column and value — one produced
/// through the column's index, one by a full scan — contain exactly the
/// same RIDs.
pub proof fn lemma_index_scan_equivalence(
    t: Table,
    c: int,
    v: i64,
    with_index: Seq<BaseRID>,
    by_scan: Seq<BaseRID>,
)
    requires
        t.wf(),
        forall|k: int|
            0 <= k < with_index.len() ==> t.matches((#[trigger] with_index[k]).idx(), c, v),
        forall|r2: int|
            0 <= r2 < t.next_rid && t.matches(r2, c, v) ==> seq_has_raw(with_index, r2 as u64),
        forall|k: int| 0 <= k < by_scan.len() ==> t.matches((#[trigger] by_scan[k]).idx(), c, v),
        forall|r2: int|
            0 <= r2 < t.next_rid && t.matches(r2, c, v) ==> seq_has_raw(by_scan, r2 as u64),
    ensures
        forall|raw: u64| seq_has_raw(with_index, raw) <==> seq_has_raw(by_scan, raw),
{
    assert forall|raw: u64| #[trigger] seq_has_raw(with_index, raw) implies seq_has_raw(
        by_scan,
        raw,
    ) by {
        let k = choose|k: int| 0 <= k < with_index.len() && (#[trigger] with_index[k]).raw == raw;
        assert(t.matches(with_index[k].idx(), c, v));
    }
    assert forall|raw: u64| #[trigger] seq_has_raw(by_scan, raw) implies seq_has_raw(
        with_index,
        raw,
    ) by {
        let k = choose|k: int| 0 <= k < by_scan.len() && (#[trigger] by_scan[k]).raw == raw;
        assert(t.matches(by_scan[k].idx(), c, v));
    }
}

/// Whether `v` holds a RID with raw value `raw`.
fn contains_raw(v: &Vec<BaseRID>, raw: u64) -> (r: bool)
    ensures
        r == seq_has_raw(v@, raw),
{
    let n = v.len();
    let mut k: usize = 0;
    while k < n
        invariant
            k <= n,
            n == v@.len(),
            forall|j: int| 0 <= j < k ==> (#[trigger] v@[j]).raw != raw,
        decreases n - k,
    {
        if v[k].raw() == raw {
            proof {
                assert(seq_has_raw(v@, raw));
            }
            return true;
        }
        k += 1;
    }
    false
}

/// Two tables whose ranges agree on every cell a row's current version can
/// read, where the second may have appended tail records beyond those the
/// first had, give that row the same current value.
pub proof fn lemma_latest_frame_tails(a: Table, b: Table, r: int, c: int)
    requires
        0 <= r,
        0 <= c,
        0 <= r / 8192 < a.ranges@.len(),
        a.ranges@.len() <= b.ranges@.len(),
        b.b_cell(r, METADATA_SCHEMA_ENCODING as int) == a.b_cell(r, METADATA_SCHEMA_ENCODING as int),
        b.b_cell(r, METADATA_INDIRECTION as int) == a.b_cell(r, METADATA_INDIRECTION as int),
        b.b_cell(r, NUM_METADATA_COLUMNS + c) == a.b_cell(r, NUM_METADATA_COLUMNS + c),
        b.ranges@[r / 8192].range_number == a.ranges@[r / 8192].range_number,
        a.schema(r) != 0 ==> a.ranges@[r / 8192].is_local_tail(
            a.b_cell(r, METADATA_INDIRECTION as int) as int,
        ),
        forall|t: int|
            0 <= t < a.ranges@[r / 8192].num_tail_records ==> #[trigger] b.ranges@[r
                / 8192].tail_cell(t, NUM_METADATA_COLUMNS + c) == a.ranges@[r / 8192].tail_cell(
                t,
                NUM_METADATA_COLUMNS + c,
            ),
    ensures
        b.latest_col(r, c) == a.latest_col(r, c),
{
    if a.schema(r) != 0 {
        let ind = a.b_cell(r, METADATA_INDIRECTION as int) as int;
        let lt = a.ranges@[r / 8192].local_tail(ind);
        assert(0 <= lt < a.ranges@[r / 8192].num_tail_records);
        assert(b.ranges@[r / 8192].tail_cell(lt, NUM_METADATA_COLUMNS + c) == a.ranges@[r
            / 8192].tail_cell(lt, NUM_METADATA_COLUMNS + c));
    }
}

/// Two tables whose ranges agree on every cell a row's current version can
/// read give that row the same current value.
pub proof fn lemma_latest_frame(a: Table, b: Table, r: int, c: int)
    requires
        0 <= r,
        0 <= r / 8192 < a.ranges@.len(),
        a.ranges@.len() <= b.ranges@.len(),
        b.b_cell(r, METADATA_SCHEMA_ENCODING as int) == a.b_cell(r, METADATA_SCHEMA_ENCODING as int),
        b.b_cell(r, METADATA_INDIRECTION as int) == a.b_cell(r, METADATA_INDIRECTION as int),
        b.b_cell(r, NUM_METADATA_COLUMNS + c) == a.b_cell(r, NUM_METADATA_COLUMNS + c),
        b.ranges@[r / 8192].tail_pages@ == a.ranges@[r / 8192].tail_pages@,
        b.ranges@[r / 8192].range_number == a.ranges@[r / 8192].range_number,
    ensures
        b.latest_col(r, c) == a.latest_col(r, c),
{
}

/// A row address below the allocated-range capacity decodes to a valid
/// range, page and slot.
pub proof fn lemma_range_of_rid(r: int, num_ranges: int)
    requires
        0 <= r < num_ranges * 8192,
    ensures
        0 <= r / 8192 < num_ranges,
        0 <= (r / 512) % 16 < 16,
        0 <= r % 512 < 512,
        (r / 512) % 16 < crate::RANGE_PAGE_COUNT,
        r % 512 < crate::PAGE_SLOTS,
{
    vstd::arithmetic::div_mod::lemma_fundamental_div_mod(r, 8192);
    vstd::arithmetic::div_mod::lemma_multiply_divide_lt(r, 8192, num_ranges);
    vstd::arithmetic::div_mod::lemma_fundamental_div_mod(r, 512);
    vstd::arithmetic::div_mod::lemma_fundamental_div_mod(r / 512, 16);
}

} // verus!


