//! Optional per-column index.
//!
//! Each logical column either carries no index or a map from column value to
//! the set of base RIDs currently holding that value.  The primary key is
//! indexed from table creation; other columns gain a map on request and may
//! drop it again, after which lookups fall back to a full scan.

use vstd::arithmetic::power2::pow2;
use vstd::prelude::*;

use crate::page::{lemma_schema_bitmap_bound, schema_bitmap};
use crate::rid::BaseRID;

verus! {

/// Whether some element of `s` carries the raw RID value `raw`.
pub open spec fn seq_has_raw(s: Seq<BaseRID>, raw: u64) -> bool {
    exists|k: int| 0 <= k < s.len() && (#[trigger] s[k]).raw == raw
}

/// Pushing an element records exactly its raw value in addition.
pub proof fn lemma_seq_has_raw_any_push(s: Seq<BaseRID>, r: BaseRID, raw: u64)
    ensures
        seq_has_raw(s.push(r), raw) <==> (seq_has_raw(s, raw) || r.raw == raw),
{
    lemma_seq_has_raw_push(s, r, raw);
}

/// Pushing an element records exactly its raw value in addition.
proof fn lemma_seq_has_raw_push(s: Seq<BaseRID>, r: BaseRID, raw: u64)
    ensures
        seq_has_raw(s.push(r), raw) <==> (seq_has_raw(s, raw) || r.raw == raw),
{
    if seq_has_raw(s.push(r), raw) {
        let k = choose|k: int| 0 <= k < s.push(r).len() && (#[trigger] s.push(r)[k]).raw == raw;
        if k < s.len() {
            assert(s[k].raw == raw);
        }
    }
    if seq_has_raw(s, raw) {
        let k = choose|k: int| 0 <= k < s.len() && (#[trigger] s[k]).raw == raw;
        assert(s.push(r)[k].raw == raw);
    }
    if r.raw == raw {
        assert(s.push(r)[s.len() as int].raw == raw);
    }
}

/// The set of RIDs recorded for one distinct column value.
pub struct Bucket {
    pub key: i64,
    pub rids: Vec<BaseRID>,
}

/// The map of one indexed column: one bucket per distinct value.
pub struct ColumnIndex {
    pub buckets: Vec<Bucket>,
}

impl ColumnIndex {
    /// Keys are unique across buckets and no bucket lists a RID twice.
    pub open spec fn wf(self) -> bool {
        &&& (forall|i: int, j: int|
            0 <= i < j < self.buckets@.len() ==> (#[trigger] self.buckets@[i]).key != (
            #[trigger] self.buckets@[j]).key)
        &&& (forall|i: int, j1: int, j2: int|
            0 <= i < self.buckets@.len() && 0 <= j1 < j2 < (#[trigger] self.buckets@[i]).rids@.len()
                ==> (#[trigger] self.buckets@[i].rids@[j1]).raw != (
            #[trigger] self.buckets@[i].rids@[j2]).raw)
    }

    /// Whether the map records `raw` under the value `value`.
    pub open spec fn contains(self, value: i64, raw: u64) -> bool {
        exists|i: int|
            0 <= i < self.buckets@.len() && (#[trigger] self.buckets@[i]).key == value
                && seq_has_raw(self.buckets@[i].rids@, raw)
    }

    /// Whether the map records `raw` under some value in `[begin, end)`.
    pub open spec fn contains_range(self, begin: i64, end: i64, raw: u64) -> bool {
        exists|i: int|
            0 <= i < self.buckets@.len() && begin <= (#[trigger] self.buckets@[i]).key < end
                && seq_has_raw(self.buckets@[i].rids@, raw)
    }

    fn new() -> (r: Self)
        ensures
            r.wf(),
            forall|v: i64, raw: u64| !r.contains(v, raw),
    {
        ColumnIndex { buckets: Vec::new() }
    }

    /// Position of the bucket keyed by `value`, if there is one.
    fn find_bucket(&self, value: i64) -> (r: Option<usize>)
        ensures
            match r {
                Some(i) => i < self.buckets@.len() && self.buckets@[i as int].key == value,
                None => forall|i: int|
                    0 <= i < self.buckets@.len() ==> (#[trigger] self.buckets@[i]).key != value,
            },
    {
        let mut i: usize = 0;
        let n = self.buckets.len();
        while i < n
            invariant
                i <= n,
                n == self.buckets@.len(),
                forall|k: int| 0 <= k < i ==> (#[trigger] self.buckets@[k]).key != value,
            decreases n - i,
        {
            if self.buckets[i].key == value {
                return Some(i);
            }
            i += 1;
        }
        None
    }

    /// Record `rid` under `value`, creating the bucket if needed; a RID
    /// already recorded under that value is left as it is, so each bucket
    /// stays a set.
    fn add(&mut self, value: i64, rid: BaseRID)
        requires
            old(self).wf(),
        ensures
            final(self).wf(),
            forall|v2: i64, raw2: u64|
                #[trigger] final(self).contains(v2, raw2) <==> (old(self).contains(v2, raw2) || (v2
                    == value && raw2 == rid.raw)),
    {
        match self.find_bucket(value) {
            Some(i) => {
                let bucket_len = self.buckets[i].rids.len();
                let mut j: usize = 0;
                while j < bucket_len
                    invariant
                        j <= bucket_len,
                        i < self.buckets@.len(),
                        bucket_len == self.buckets@[i as int].rids@.len(),
                        self.buckets@[i as int].key == value,
                        self.wf(),
                        *self == *old(self),
                        forall|k: int|
                            0 <= k < j ==> (#[trigger] self.buckets@[i as int].rids@[k]).raw
                                != rid.raw,
                    decreases bucket_len - j,
                {
                    if self.buckets[i].rids[j].raw == rid.raw {
                        proof {
                            assert(seq_has_raw(self.buckets@[i as int].rids@, rid.raw));
                            assert(old(self).contains(value, rid.raw));
                        }
                        return ;
                    }
                    j += 1;
                }
                let bucket: &mut Bucket = &mut self.buckets[i];
                bucket.rids.push(rid);
                proof {
                    let oldb = old(self).buckets@;
                    assert(self.buckets@[i as int].rids@ == oldb[i as int].rids@.push(rid));
                    assert forall|raw2: u64| true implies #[trigger] seq_has_raw(
                        self.buckets@[i as int].rids@,
                        raw2,
                    ) <==> (seq_has_raw(oldb[i as int].rids@, raw2) || raw2 == rid.raw) by {
                        lemma_seq_has_raw_push(oldb[i as int].rids@, rid, raw2);
                    }
                    assert(self.contains(value, rid.raw));
                    assert forall|v2: i64, raw2: u64|
                        #[trigger] self.contains(v2, raw2) implies (old(self).contains(v2, raw2)
                        || (v2 == value && raw2 == rid.raw)) by {
                        let wi = choose|wi: int|
                            0 <= wi < self.buckets@.len() && (#[trigger] self.buckets@[wi]).key
                                == v2 && seq_has_raw(self.buckets@[wi].rids@, raw2);
                        if wi != i {
                            assert(oldb[wi].key == v2 && seq_has_raw(oldb[wi].rids@, raw2));
                        }
                    }
                    assert forall|v2: i64, raw2: u64| old(self).contains(v2, raw2) implies
                        #[trigger] self.contains(v2, raw2) by {
                        let wi = choose|wi: int|
                            0 <= wi < oldb.len() && (#[trigger] oldb[wi]).key == v2 && seq_has_raw(
                                oldb[wi].rids@,
                                raw2,
                            );
                        assert(self.buckets@[wi].key == v2 && seq_has_raw(
                            self.buckets@[wi].rids@,
                            raw2,
                        ));
                    }
                }
            },
            None => {
                let bucket = Bucket { key: value, rids: vec![rid] };
                self.buckets.push(bucket);
                proof {
                    let oldb = old(self).buckets@;
                    let n = oldb.len() as int;
                    assert(self.buckets@[n].rids@[0].raw == rid.raw);
                    assert(seq_has_raw(self.buckets@[n].rids@, rid.raw));
                    assert(self.contains(value, rid.raw));
                    assert forall|v2: i64, raw2: u64|
                        #[trigger] self.contains(v2, raw2) implies (old(self).contains(v2, raw2)
                        || (v2 == value && raw2 == rid.raw)) by {
                        let wi = choose|wi: int|
                            0 <= wi < self.buckets@.len() && (#[trigger] self.buckets@[wi]).key
                                == v2 && seq_has_raw(self.buckets@[wi].rids@, raw2);
                        if wi < n {
                            assert(oldb[wi].key == v2 && seq_has_raw(oldb[wi].rids@, raw2));
                        } else {
                            let k = choose|k: int|
                                0 <= k < self.buckets@[n].rids@.len() && (
                                #[trigger] self.buckets@[n].rids@[k]).raw == raw2;
                        }
                    }
                    assert forall|v2: i64, raw2: u64| old(self).contains(v2, raw2) implies
                        #[trigger] self.contains(v2, raw2) by {
                        let wi = choose|wi: int|
                            0 <= wi < oldb.len() && (#[trigger] oldb[wi]).key == v2 && seq_has_raw(
                                oldb[wi].rids@,
                                raw2,
                            );
                        assert(self.buckets@[wi].key == v2 && seq_has_raw(
                            self.buckets@[wi].rids@,
                            raw2,
                        ));
                    }
                }
            },
        }
    }

    /// Drop `rid` from the bucket of `value`, if both exist.
    fn remove(&mut self, value: i64, rid: BaseRID)
        requires
            old(self).wf(),
        ensures
            final(self).wf(),
            forall|v2: i64, raw2: u64|
                #[trigger] final(self).contains(v2, raw2) <==> (old(self).contains(v2, raw2) && !(
                v2 == value && raw2 == rid.raw)),
    {
        let found = self.find_bucket(value);
        match found {
            Some(i) => {
                let bucket_len = self.buckets[i].rids.len();
                let mut j: usize = 0;
                while j < bucket_len
                    invariant
                        j <= bucket_len,
                        i < self.buckets@.len(),
                        bucket_len == self.buckets@[i as int].rids@.len(),
                        self.buckets@[i as int].key == value,
                        self.wf(),
                        *self == *old(self),
                        forall|k: int|
                            0 <= k < j ==> (#[trigger] self.buckets@[i as int].rids@[k]).raw
                                != rid.raw,
                    decreases bucket_len - j,
                {
                    if self.buckets[i].rids[j].raw == rid.raw {
                        let bucket: &mut Bucket = &mut self.buckets[i];
                        bucket.rids.swap_remove(j);
                        proof {
                            let oldb = old(self).buckets@;
                            let oldr = oldb[i as int].rids@;
                            let newr = self.buckets@[i as int].rids@;
                            assert forall|raw2: u64| true implies #[trigger] seq_has_raw(
                                newr,
                                raw2,
                            ) <==> (seq_has_raw(oldr, raw2) && raw2 != rid.raw) by {
                                if seq_has_raw(newr, raw2) {
                                    let k = choose|k: int|
                                        0 <= k < newr.len() && (#[trigger] newr[k]).raw == raw2;
                                    if k == j {
                                        assert(oldr[oldr.len() - 1].raw == raw2);
                                    } else {
                                        assert(oldr[k].raw == raw2);
                                    }
                                }
                                if seq_has_raw(oldr, raw2) && raw2 != rid.raw {
                                    let k = choose|k: int|
                                        0 <= k < oldr.len() && (#[trigger] oldr[k]).raw == raw2;
                                    if k == oldr.len() - 1 {
                                        if (j as int) < oldr.len() - 1 {
                                            assert(newr[j as int].raw == raw2);
                                        }
                                    } else {
                                        assert(newr[k].raw == raw2);
                                    }
                                }
                            }
                            assert forall|v2: i64, raw2: u64|
                                #[trigger] self.contains(v2, raw2) implies (old(self).contains(
                                v2,
                                raw2,
                            ) && !(v2 == value && raw2 == rid.raw)) by {
                                let wi = choose|wi: int|
                                    0 <= wi < self.buckets@.len() && (
                                    #[trigger] self.buckets@[wi]).key == v2 && seq_has_raw(
                                        self.buckets@[wi].rids@,
                                        raw2,
                                    );
                                if wi != i {
                                    assert(oldb[wi].key == v2 && seq_has_raw(
                                        oldb[wi].rids@,
                                        raw2,
                                    ));
                                }
                            }
                            assert forall|v2: i64, raw2: u64|
                                old(self).contains(v2, raw2) && !(v2 == value && raw2
                                    == rid.raw) implies #[trigger] self.contains(v2, raw2) by {
                                let wi = choose|wi: int|
                                    0 <= wi < oldb.len() && (#[trigger] oldb[wi]).key == v2
                                        && seq_has_raw(oldb[wi].rids@, raw2);
                                if wi != i {
                                    assert(self.buckets@[wi].key == v2 && seq_has_raw(
                                        self.buckets@[wi].rids@,
                                        raw2,
                                    ));
                                }
                            }
                        }
                        return ;
                    }
                    j += 1;
                }
                proof {
                    assert(!seq_has_raw(self.buckets@[i as int].rids@, rid.raw));
                    assert forall|v2: i64, raw2: u64|
                        #[trigger] self.contains(v2, raw2) implies (old(self).contains(v2, raw2)
                        && !(v2 == value && raw2 == rid.raw)) by {
                        if v2 == value && raw2 == rid.raw {
                            let wi = choose|wi: int|
                                0 <= wi < self.buckets@.len() && (#[trigger] self.buckets@[wi]).key
                                    == v2 && seq_has_raw(self.buckets@[wi].rids@, raw2);
                            assert(wi == i);
                        }
                    }
                }
            },
            None => {
                proof {
                    assert forall|v2: i64, raw2: u64|
                        #[trigger] self.contains(v2, raw2) implies (old(self).contains(v2, raw2)
                        && !(v2 == value && raw2 == rid.raw)) by {
                        if v2 == value && raw2 == rid.raw {
                            let wi = choose|wi: int|
                                0 <= wi < self.buckets@.len() && (#[trigger] self.buckets@[wi]).key
                                    == v2 && seq_has_raw(self.buckets@[wi].rids@, raw2);
                        }
                    }
                }
            },
        }
    }

    /// Copy of the bucket recorded for `value` (empty if none).
    fn get(&self, value: i64) -> (r: Vec<BaseRID>)
        requires
            self.wf(),
        ensures
            forall|k: int| 0 <= k < r@.len() ==> self.contains(value, (#[trigger] r@[k]).raw),
            forall|raw: u64| self.contains(value, raw) ==> seq_has_raw(r@, raw),
            forall|k1: int, k2: int|
                0 <= k1 < k2 < r@.len() ==> (#[trigger] r@[k1]).raw != (#[trigger] r@[k2]).raw,
    {
        match self.find_bucket(value) {
            Some(i) => {
                let mut out: Vec<BaseRID> = Vec::new();
                let bucket_len = self.buckets[i].rids.len();
                let mut j: usize = 0;
                while j < bucket_len
                    invariant
                        j <= bucket_len,
                        i < self.buckets@.len(),
                        bucket_len == self.buckets@[i as int].rids@.len(),
                        self.buckets@[i as int].key == value,
                        self.wf(),
                        out@.len() == j,
                        forall|k: int|
                            0 <= k < j ==> (#[trigger] out@[k]).raw
                                == self.buckets@[i as int].rids@[k].raw,
                    decreases bucket_len - j,
                {
                    let r = self.buckets[i].rids[j];
                    out.push(r);
                    j += 1;
                }
                proof {
                    assert forall|k: int| 0 <= k < out@.len() implies self.contains(
                        value,
                        (#[trigger] out@[k]).raw,
                    ) by {
                        assert(self.buckets@[i as int].rids@[k].raw == out@[k].raw);
                        assert(seq_has_raw(self.buckets@[i as int].rids@, out@[k].raw));
                    }
                    assert forall|raw: u64| self.contains(value, raw) implies seq_has_raw(
                        out@,
                        raw,
                    ) by {
                        let wi = choose|wi: int|
                            0 <= wi < self.buckets@.len() && (#[trigger] self.buckets@[wi]).key
                                == value && seq_has_raw(self.buckets@[wi].rids@, raw);
                        assert(wi == i);
                        let k = choose|k: int|
                            0 <= k < self.buckets@[i as int].rids@.len() && (
                            #[trigger] self.buckets@[i as int].rids@[k]).raw == raw;
                        assert(out@[k].raw == raw);
                    }
                }
                out
            },
            None => {
                let out: Vec<BaseRID> = Vec::new();
                proof {
                    assert forall|raw: u64| self.contains(value, raw) implies seq_has_raw(
                        out@,
                        raw,
                    ) by {
                        let wi = choose|wi: int|
                            0 <= wi < self.buckets@.len() && (#[trigger] self.buckets@[wi]).key
                                == value && seq_has_raw(self.buckets@[wi].rids@, raw);
                    }
                }
                out
            },
        }
    }
}

/// One optional map per logical column.
pub struct Index {
    pub indices: Vec<Option<ColumnIndex>>,
}

impl Index {
    pub open spec fn wf(self, num_columns: int) -> bool {
        &&& self.indices@.len() == num_columns
        &&& (forall|c: int|
            0 <= c < num_columns && self.indices@[c] is Some ==> (#[trigger] self.indices@[c])->0.wf())
    }

    /// Whether column `col` carries an index.
    pub open spec fn spec_is_indexed(self, col: int) -> bool {
        self.indices@[col] is Some
    }

    /// Whether the index of column `col` records `raw` under `value`.
    pub open spec fn spec_contains(self, col: int, value: i64, raw: u64) -> bool {
        self.spec_is_indexed(col) && self.indices@[col]->0.contains(value, raw)
    }

    /// Whether the index of column `col` records `raw` under some value in
    /// `[begin, end)`.
    pub open spec fn spec_contains_range(self, col: int, begin: i64, end: i64, raw: u64) -> bool {
        self.spec_is_indexed(col) && self.indices@[col]->0.contains_range(begin, end, raw)
    }

    /// A RID is recorded under some value in `[begin, end)` exactly when it
    /// is recorded under a particular such value.
    pub proof fn lemma_contains_range(self, col: int, begin: i64, end: i64, raw: u64)
        ensures
            self.spec_contains_range(col, begin, end, raw) <==> exists|v: i64|
                begin <= v < end && #[trigger] self.spec_contains(col, v, raw),
    {
        if self.spec_contains_range(col, begin, end, raw) {
            let ci = self.indices@[col]->0;
            let wi = choose|wi: int|
                0 <= wi < ci.buckets@.len() && begin <= (#[trigger] ci.buckets@[wi]).key < end
                    && seq_has_raw(ci.buckets@[wi].rids@, raw);
            assert(self.spec_contains(col, ci.buckets@[wi].key, raw));
        }
        if exists|v: i64| begin <= v < end && #[trigger] self.spec_contains(col, v, raw) {
            let v = choose|v: i64| begin <= v < end && #[trigger] self.spec_contains(col, v, raw);
            let ci = self.indices@[col]->0;
            let wi = choose|wi: int|
                0 <= wi < ci.buckets@.len() && (#[trigger] ci.buckets@[wi]).key == v
                    && seq_has_raw(ci.buckets@[wi].rids@, raw);
            assert(ci.contains_range(begin, end, raw));
        }
    }

    /// An index with one empty map on the primary-key column and none
    /// elsewhere.
    pub fn new(key_index: usize, num_columns: usize) -> (r: Self)
        requires
            key_index < num_columns,
        ensures
            r.wf(num_columns as int),
            r.spec_is_indexed(key_index as int),
            forall|c: int| 0 <= c < num_columns && c != key_index ==> !r.spec_is_indexed(c),
            forall|c: int, v: i64, raw: u64|
                0 <= c < num_columns ==> !r.spec_contains(c, v, raw),
    {
        let mut indices: Vec<Option<ColumnIndex>> = Vec::new();
        let mut i: usize = 0;
        while i < num_columns
            invariant
                i <= num_columns,
                indices@.len() == i,
                forall|c: int| 0 <= c < i ==> (#[trigger] indices@[c]) is None,
            decreases num_columns - i,
        {
            indices.push(None);
            i += 1;
        }
        indices.set(key_index, Some(ColumnIndex::new()));
        Index { indices }
    }

    /// Record `rid` under `value` in the index of `column_number`, if that
    /// column carries one; a RID already recorded there is left as it is.
    pub fn update_index(&mut self, column_number: usize, value: i64, rid: BaseRID)
        requires
            old(self).wf(old(self).indices@.len() as int),
            column_number < old(self).indices@.len(),
        ensures
            final(self).wf(old(self).indices@.len() as int),
            final(self).indices@.len() == old(self).indices@.len(),
            forall|c: int|
                0 <= c < old(self).indices@.len() ==> #[trigger] final(self).spec_is_indexed(c)
                    == old(self).spec_is_indexed(c),
            forall|c: int, v2: i64, raw2: u64|
                0 <= c < old(self).indices@.len() ==> (#[trigger] final(self).spec_contains(
                    c,
                    v2,
                    raw2,
                ) <==> (old(self).spec_contains(c, v2, raw2) || (c == column_number && old(
                    self,
                ).spec_is_indexed(c) && v2 == value && raw2 == rid.raw))),
    {
        let slot: &mut Option<ColumnIndex> = &mut self.indices[column_number];
        match slot {
            Some(ci) => {
                ci.add(value, rid);
            },
            None => {},
        }
    }

    /// Drop `rid` from the bucket of `value` in the index of
    /// `column_number`, if that column carries one.
    pub fn remove_index(&mut self, column_number: usize, value: i64, rid: BaseRID)
        requires
            old(self).wf(old(self).indices@.len() as int),
            column_number < old(self).indices@.len(),
        ensures
            final(self).wf(old(self).indices@.len() as int),
            final(self).indices@.len() == old(self).indices@.len(),
            forall|c: int|
                0 <= c < old(self).indices@.len() ==> #[trigger] final(self).spec_is_indexed(c)
                    == old(self).spec_is_indexed(c),
            forall|c: int, v2: i64, raw2: u64|
                0 <= c < old(self).indices@.len() ==> (#[trigger] final(self).spec_contains(
                    c,
                    v2,
                    raw2,
                ) <==> (old(self).spec_contains(c, v2, raw2) && !(c == column_number && v2 == value
                    && raw2 == rid.raw))),
    {
        let slot: &mut Option<ColumnIndex> = &mut self.indices[column_number];
        match slot {
            Some(ci) => {
                ci.remove(value, rid);
            },
            None => {},
        }
    }

    /// The set of RIDs recorded under `value` in the index of
    /// `column_number` (empty if the value is absent), or `None` when the
    /// column carries no index and the caller must fall back to a scan.
    pub fn get_from_index(&self, column_number: usize, value: i64) -> (r: Option<Vec<BaseRID>>)
        requires
            self.wf(self.indices@.len() as int),
            column_number < self.indices@.len(),
        ensures
            r is Some <==> self.spec_is_indexed(column_number as int),
            r is Some ==> {
                let rids = r->0;
                &&& (forall|k: int|
                    0 <= k < rids@.len() ==> self.spec_contains(
                        column_number as int,
                        value,
                        (#[trigger] rids@[k]).raw,
                    ))
                &&& (forall|raw: u64|
                    self.spec_contains(column_number as int, value, raw) ==> seq_has_raw(
                        rids@,
                        raw,
                    ))
                &&& (forall|k1: int, k2: int|
                    0 <= k1 < k2 < rids@.len() ==> (#[trigger] rids@[k1]).raw != (
                    #[trigger] rids@[k2]).raw)
            },
    {
        match &self.indices[column_number] {
            Some(ci) => Some(ci.get(value)),
            None => None,
        }
    }

    /// The set of RIDs recorded under any value in `[begin, end)` in the
    /// index of `column_number`, or `None` when the column carries no index.
    pub fn range_from_index(&self, column_number: usize, begin: i64, end: i64) -> (r: Option<
        Vec<BaseRID>,
    >)
        requires
            self.wf(self.indices@.len() as int),
            column_number < self.indices@.len(),
        ensures
            r is Some <==> self.spec_is_indexed(column_number as int),
            r is Some ==> {
                let rids = r->0;
                &&& (forall|k: int|
                    0 <= k < rids@.len() ==> self.spec_contains_range(
                        column_number as int,
                        begin,
                        end,
                        (#[trigger] rids@[k]).raw,
                    ))
                &&& (forall|raw: u64|
                    #[trigger] self.spec_contains_range(column_number as int, begin, end, raw)
                        ==> seq_has_raw(rids@, raw))
            },
    {
        match &self.indices[column_number] {
            Some(ci) => {
                let mut out: Vec<BaseRID> = Vec::new();
                let n = ci.buckets.len();
                let mut i: usize = 0;
                while i < n
                    invariant
                        i <= n,
                        n == ci.buckets@.len(),
                        ci.wf(),
                        forall|k: int|
                            0 <= k < out@.len() ==> ci.contains_range(
                                begin,
                                end,
                                (#[trigger] out@[k]).raw,
                            ),
                        forall|bi: int, raw: u64|
                            0 <= bi < i && begin <= ci.buckets@[bi].key < end
                                && #[trigger] seq_has_raw(ci.buckets@[bi].rids@, raw)
                                ==> seq_has_raw(out@, raw),
                    decreases n - i,
                {
                    let key = ci.buckets[i].key;
                    if begin <= key && key < end {
                        let bucket_len = ci.buckets[i].rids.len();
                        let mut j: usize = 0;
                        while j < bucket_len
                            invariant
                                j <= bucket_len,
                                i < n,
                                n == ci.buckets@.len(),
                                ci.wf(),
                                bucket_len == ci.buckets@[i as int].rids@.len(),
                                key == ci.buckets@[i as int].key,
                                begin <= key < end,
                                forall|k: int|
                                    0 <= k < out@.len() ==> ci.contains_range(
                                        begin,
                                        end,
                                        (#[trigger] out@[k]).raw,
                                    ),
                                forall|bi: int, raw: u64|
                                    0 <= bi < i && begin <= ci.buckets@[bi].key < end
                                        && #[trigger] seq_has_raw(ci.buckets@[bi].rids@, raw)
                                        ==> seq_has_raw(out@, raw),
                                forall|bj: int|
                                    0 <= bj < j ==> seq_has_raw(
                                        out@,
                                        (#[trigger] ci.buckets@[i as int].rids@[bj]).raw,
                                    ),
                            decreases bucket_len - j,
                        {
                            let rid = ci.buckets[i].rids[j];
                            let ghost prev = out@;
                            out.push(rid);
                            proof {
                                assert(seq_has_raw(ci.buckets@[i as int].rids@, rid.raw));
                                assert(ci.contains_range(begin, end, rid.raw));
                                assert(out@[out@.len() - 1].raw == rid.raw);
                                assert forall|raw: u64| seq_has_raw(prev, raw) implies seq_has_raw(
                                    out@,
                                    raw,
                                ) by {
                                    lemma_seq_has_raw_push(prev, rid, raw);
                                }
                                assert(seq_has_raw(out@, rid.raw));
                            }
                            j += 1;
                        }
                        proof {
                            assert forall|raw: u64|
                                seq_has_raw(ci.buckets@[i as int].rids@, raw) implies seq_has_raw(
                                out@,
                                raw,
                            ) by {
                                let k = choose|k: int|
                                    0 <= k < ci.buckets@[i as int].rids@.len() && (
                                    #[trigger] ci.buckets@[i as int].rids@[k]).raw == raw;
                            }
                        }
                    }
                    i += 1;
                }
                proof {
                    assert forall|raw: u64| ci.contains_range(begin, end, raw) implies seq_has_raw(
                        out@,
                        raw,
                    ) by {
                        let wi = choose|wi: int|
                            0 <= wi < ci.buckets@.len() && begin <= (
                            #[trigger] ci.buckets@[wi]).key < end && seq_has_raw(
                                ci.buckets@[wi].rids@,
                                raw,
                            );
                    }
                }
                Some(out)
            },
            None => None,
        }
    }

    /// Materialize an empty map for column `column_number`; the caller is
    /// responsible for filling it from the rows already stored.
    pub fn create_index(&mut self, column_number: usize)
        requires
            old(self).wf(old(self).indices@.len() as int),
            column_number < old(self).indices@.len(),
        ensures
            final(self).wf(old(self).indices@.len() as int),
            final(self).indices@.len() == old(self).indices@.len(),
            final(self).spec_is_indexed(column_number as int),
            forall|c: int|
                0 <= c < old(self).indices@.len() && c != column_number ==> #[trigger] final(self).spec_is_indexed(c) == old(self).spec_is_indexed(c),
            forall|v: i64, raw: u64| !final(self).spec_contains(column_number as int, v, raw),
            forall|c: int, v: i64, raw: u64|
                0 <= c < old(self).indices@.len() && c != column_number ==> (#[trigger] final(self).spec_contains(c, v, raw) <==> old(self).spec_contains(c, v, raw)),
    {
        self.indices.set(column_number, Some(ColumnIndex::new()));
    }

    /// Discard the map of column `column_number`, losing every entry
    /// accumulated for it.
    pub fn drop_index(&mut self, column_number: usize)
        requires
            old(self).wf(old(self).indices@.len() as int),
            column_number < old(self).indices@.len(),
        ensures
            final(self).wf(old(self).indices@.len() as int),
            final(self).indices@.len() == old(self).indices@.len(),
            !final(self).spec_is_indexed(column_number as int),
            forall|c: int|
                0 <= c < old(self).indices@.len() && c != column_number ==> #[trigger] final(self).spec_is_indexed(c) == old(self).spec_is_indexed(c),
            forall|c: int, v: i64, raw: u64|
                0 <= c < old(self).indices@.len() && c != column_number ==> (#[trigger] final(self).spec_contains(c, v, raw) <==> old(self).spec_contains(c, v, raw)),
    {
        self.indices.set(column_number, None);
    }

    /// Bitmap of the indexed columns: bit `c` is set exactly when column
    /// `c` carries an index.
    pub open spec fn spec_indexed_bitmap(self) -> int {
        schema_bitmap(self.indices@)
    }

    /// Compute the bitmap of the indexed columns, for the table header.
    pub fn index_meta_to_bit_vector(&self) -> (r: i64)
        requires
            self.indices@.len() <= 62,
        ensures
            r == self.spec_indexed_bitmap(),
            r >= 0,
    {
        let mut acc: i64 = 0;
        let mut bit: i64 = 1;
        let mut i: usize = 0;
        let n = self.indices.len();
        proof {
            lemma_schema_bitmap_bound(self.indices@);
            vstd::arithmetic::power2::lemma2_to64();
            assert(self.indices@.take(0) =~= Seq::<Option<ColumnIndex>>::empty());
        }
        while i < n
            invariant
                i <= n,
                n == self.indices@.len() <= 62,
                i < n ==> bit == pow2(i as nat),
                acc == schema_bitmap(self.indices@.take(i as int)),
                0 <= acc < pow2(i as nat),
            decreases n - i,
        {
            proof {
                lemma_schema_bitmap_bound(self.indices@.take(i as int));
                lemma_schema_bitmap_bound(self.indices@.take(i as int + 1));
                assert(self.indices@.take(i as int + 1).drop_last() =~= self.indices@.take(
                    i as int,
                ));
                vstd::arithmetic::power2::lemma_pow2_unfold(i as nat + 1);
                vstd::arithmetic::power2::lemma_pow2_pos(i as nat);
                assert(pow2(i as nat + 1) <= pow2(62)) by {
                    if i as nat + 1 < 62 {
                        vstd::arithmetic::power2::lemma_pow2_strictly_increases(i as nat + 1, 62);
                    }
                }
                assert(pow2(62) == 0x4000000000000000) by {
                    vstd::arithmetic::power2::lemma2_to64_rest();
                }
            }
            if self.indices[i].is_some() {
                acc = acc + bit;
            }
            bit = if i + 1 < n {
                bit * 2
            } else {
                bit
            };
            i += 1;
        }
        proof {
            assert(self.indices@.take(n as int) =~= self.indices@);
        }
        acc
    }
}

} // verus!
