//! Transactions: ordered groups of queries executed as a unit.
//!
//! A transaction is an ordered queue of typed queries.  Executing it against
//! a table runs the queries strictly in the order they were added; a query
//! whose arguments do not fit the table (wrong arity, column out of range,
//! or an exhausted allocator) is refused with a result of its own rather
//! than applied partially.

use vstd::prelude::*;

use crate::table::{deleted_row, inserted_row, updated_row, Record, Table};
use crate::{MAX_RID_INDEX, RANGE_CAPACITY};

verus! {

/// One typed query, carrying its arguments.
pub enum Query {
    /// Insert a row with these column values.
    Insert(Vec<i64>),
    /// Point query: value, the column it applies to, and the selection mask.
    Select(i64, usize, Vec<i64>),
    /// Update the row keyed by the value with these nullable columns.
    Update(i64, Vec<Option<i64>>),
    /// Delete the row keyed by the value.
    Delete(i64),
    /// Sum a column over a primary-key range `[start, end)`.
    Sum(i64, i64, usize),
}

/// The outcome of one executed query, in queue order.
pub enum QueryResult {
    Inserted,
    Selected(Vec<Record>),
    Updated(bool),
    Deleted(bool),
    Summed(i64),
    /// The query's arguments did not fit the table, so it was not applied.
    Refused,
}

/// What executing one query against a table does: its result variant and
/// the table's evolution, exactly as the corresponding table operation's
/// contract states them.  A query whose arguments do not fit the table is
/// refused and the table is untouched.
pub open spec fn query_applied(pre: Table, post: Table, q: Query, r: QueryResult) -> bool {
    &&& post.wf()
    &&& post.name == pre.name
    &&& post.num_columns == pre.num_columns
    &&& post.primary_key_index == pre.primary_key_index
    &&& match q {
        Query::Insert(values) => {
            if values@.len() == pre.num_columns && pre.next_rid < MAX_RID_INDEX {
                r is Inserted && inserted_row(pre, post, values@)
            } else {
                r is Refused && post == pre
            }
        },
        Query::Select(value, column, mask) => {
            if column < pre.num_columns && mask@.len() == pre.num_columns {
                &&& post == pre
                &&& (r matches QueryResult::Selected(recs) && pre.is_select_result(
                    value,
                    column as int,
                    mask@,
                    recs@,
                ))
            } else {
                r is Refused && post == pre
            }
        },
        Query::Update(key, values) => {
            if values@.len() == pre.num_columns {
                &&& post.next_rid == pre.next_rid
                &&& (forall|c: int|
                    0 <= c < pre.num_columns ==> #[trigger] post.index.spec_is_indexed(c)
                        == pre.index.spec_is_indexed(c))
                &&& (forall|r2: int|
                    0 <= r2 < pre.next_rid ==> #[trigger] post.live(r2) == pre.live(r2))
                &&& match r {
                    QueryResult::Updated(b) => {
                        &&& (b ==> exists|r2: int|
                            #[trigger] updated_row(pre, post, r2, values@, key))
                        &&& (!b ==> post.ranges@ == pre.ranges@ && post.index == pre.index && ((
                        forall|r2: int|
                            0 <= r2 < pre.next_rid ==> !pre.matches(
                                r2,
                                pre.primary_key_index as int,
                                key,
                            )) || (exists|r2: int|
                            pre.matches(r2, pre.primary_key_index as int, key) && (
                            #[trigger] pre.ranges@[r2 / 8192]).num_tail_records
                                == RANGE_CAPACITY)))
                    },
                    _ => false,
                }
            } else {
                r is Refused && post == pre
            }
        },
        Query::Delete(key) => {
            &&& post.next_rid == pre.next_rid
            &&& post.index == pre.index
            &&& match r {
                QueryResult::Deleted(b) => {
                    &&& (b ==> exists|r2: int| #[trigger] deleted_row(pre, post, r2, key))
                    &&& (!b ==> post.ranges@ == pre.ranges@ && (forall|r2: int|
                        0 <= r2 < pre.next_rid ==> !pre.matches(
                            r2,
                            pre.primary_key_index as int,
                            key,
                        )))
                },
                _ => false,
            }
        },
        Query::Sum(start, end, column) => {
            if column < pre.num_columns {
                &&& post == pre
                &&& (r matches QueryResult::Summed(s) && s == pre.sum_in_range(
                    pre.next_rid as int,
                    start,
                    end,
                    column as int,
                ))
            } else {
                r is Refused && post == pre
            }
        },
    }
}

/// What executing a queue of queries does: each query is applied, in queue
/// order, to the state the previous queries left behind, and yields the
/// result at its own position.
pub open spec fn queries_applied(
    pre: Table,
    post: Table,
    qs: Seq<Query>,
    rs: Seq<QueryResult>,
) -> bool
    decreases qs.len(),
{
    if qs.len() == 0 {
        &&& rs.len() == 0
        &&& post == pre
    } else {
        &&& rs.len() == qs.len()
        &&& exists|mid: Table|
            #[trigger] query_applied(pre, mid, qs[0], rs[0]) && queries_applied(
                mid,
                post,
                qs.skip(1),
                rs.skip(1),
            )
    }
}

/// Appending one applied query to an applied queue applies the longer
/// queue.
proof fn lemma_queries_applied_snoc(
    pre: Table,
    mid: Table,
    post: Table,
    qs: Seq<Query>,
    rs: Seq<QueryResult>,
    q: Query,
    r: QueryResult,
)
    requires
        queries_applied(pre, mid, qs, rs),
        query_applied(mid, post, q, r),
    ensures
        queries_applied(pre, post, qs.push(q), rs.push(r)),
    decreases qs.len(),
{
    assert(qs.push(q)[0] == if qs.len() == 0 {
        q
    } else {
        qs[0]
    });
    assert(rs.push(r)[0] == if rs.len() == 0 {
        r
    } else {
        rs[0]
    });
    if qs.len() == 0 {
        assert(qs.push(q).skip(1) =~= Seq::<Query>::empty());
        assert(rs.push(r).skip(1) =~= Seq::<QueryResult>::empty());
        assert(query_applied(pre, post, q, r));
        assert(queries_applied(post, post, qs.push(q).skip(1), rs.push(r).skip(1)));
    } else {
        let m1 = choose|m: Table|
            #[trigger] query_applied(pre, m, qs[0], rs[0]) && queries_applied(
                m,
                mid,
                qs.skip(1),
                rs.skip(1),
            );
        lemma_queries_applied_snoc(m1, mid, post, qs.skip(1), rs.skip(1), q, r);
        assert(qs.push(q).skip(1) =~= qs.skip(1).push(q));
        assert(rs.push(r).skip(1) =~= rs.skip(1).push(r));
        assert(query_applied(pre, m1, qs.push(q)[0], rs.push(r)[0]) && queries_applied(
            m1,
            post,
            qs.push(q).skip(1),
            rs.push(r).skip(1),
        ));
    }
}

/// An ordered queue of queries to execute as a unit.
pub struct Transaction {
    pub queries: Vec<Query>,
}

impl Transaction {
    /// An empty transaction.
    pub fn new() -> (r: Self)
        ensures
            r.queries@.len() == 0,
    {
        Transaction { queries: Vec::new() }
    }

    /// Append a query; queries execute in the order added.
    pub fn add_query(&mut self, query: Query)
        ensures
            final(self).queries@ == old(self).queries@.push(query),
    {
        self.queries.push(query);
    }

    /// Execute every query against `table`, in the order added, returning
    /// one result per query in that same order: each query is applied to
    /// the state the previous queries left behind, with the effect its own
    /// table operation's contract states.
    pub fn execute(&self, table: &mut Table) -> (results: Vec<QueryResult>)
        requires
            old(table).wf(),
        ensures
            final(table).wf(),
            final(table).name == old(table).name,
            final(table).num_columns == old(table).num_columns,
            final(table).primary_key_index == old(table).primary_key_index,
            results@.len() == self.queries@.len(),
            queries_applied(*old(table), *final(table), self.queries@, results@),
    {
        let mut results: Vec<QueryResult> = Vec::new();
        let n = self.queries.len();
        let mut i: usize = 0;
        proof {
            assert(self.queries@.take(0) =~= Seq::<Query>::empty());
            assert(results@.take(0) =~= Seq::<QueryResult>::empty());
        }
        while i < n
            invariant
                i <= n,
                n == self.queries@.len(),
                table.wf(),
                table.name == old(table).name,
                table.num_columns == old(table).num_columns,
                table.primary_key_index == old(table).primary_key_index,
                results@.len() == i,
                queries_applied(*old(table), *table, self.queries@.take(i as int), results@),
            decreases n - i,
        {
            let ghost mid = *table;
            let ghost prev_results = results@;
            let result = match &self.queries[i] {
                Query::Insert(values) => {
                    if values.len() == table.num_columns && table.next_rid < MAX_RID_INDEX {
                        table.insert(values);
                        QueryResult::Inserted
                    } else {
                        QueryResult::Refused
                    }
                },
                Query::Select(value, column, mask) => {
                    if *column < table.num_columns && mask.len() == table.num_columns {
                        QueryResult::Selected(table.select(*value, *column, mask))
                    } else {
                        QueryResult::Refused
                    }
                },
                Query::Update(key, values) => {
                    if values.len() == table.num_columns {
                        QueryResult::Updated(table.update(*key, values))
                    } else {
                        QueryResult::Refused
                    }
                },
                Query::Delete(key) => {
                    QueryResult::Deleted(table.delete(*key))
                },
                Query::Sum(start, end, column) => {
                    if *column < table.num_columns {
                        QueryResult::Summed(table.sum(*start, *end, *column))
                    } else {
                        QueryResult::Refused
                    }
                },
            };
            proof {
                assert(query_applied(mid, *table, self.queries@[i as int], result));
                lemma_queries_applied_snoc(
                    *old(table),
                    mid,
                    *table,
                    self.queries@.take(i as int),
                    prev_results,
                    self.queries@[i as int],
                    result,
                );
                assert(self.queries@.take(i as int + 1) =~= self.queries@.take(i as int).push(
                    self.queries@[i as int],
                ));
            }
            results.push(result);
            i += 1;
        }
        proof {
            assert(self.queries@.take(n as int) =~= self.queries@);
        }
        results
    }
}

} // verus!

