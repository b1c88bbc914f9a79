//! Transaction workers.
//!
//! A worker owns a set of assigned transactions and executes them one after
//! the other; each transaction's queries run in the order they were added.
//! An application runs many workers in parallel, one per thread, giving each
//! exclusive access to the table while a transaction is in flight, so that
//! writes to the same row never interleave.

use vstd::prelude::*;

use crate::table::Table;
use crate::transaction::{queries_applied, QueryResult, Transaction};

verus! {

/// What running a set of transactions does: each transaction's queries are
/// applied, in assignment order, to the state the previous transactions
/// left behind, and yield the results at the transaction's own position.
pub open spec fn transactions_applied(
    pre: Table,
    post: Table,
    txs: Seq<Transaction>,
    rss: Seq<Vec<QueryResult>>,
) -> bool
    decreases txs.len(),
{
    if txs.len() == 0 {
        &&& rss.len() == 0
        &&& post == pre
    } else {
        &&& rss.len() == txs.len()
        &&& exists|mid: Table|
            #[trigger] queries_applied(pre, mid, txs[0].queries@, rss[0]@) && transactions_applied(
                mid,
                post,
                txs.skip(1),
                rss.skip(1),
            )
    }
}

/// Appending one executed transaction to an executed set runs the longer
/// set.
proof fn lemma_transactions_applied_snoc(
    pre: Table,
    mid: Table,
    post: Table,
    txs: Seq<Transaction>,
    rss: Seq<Vec<QueryResult>>,
    tx: Transaction,
    rs: Vec<QueryResult>,
)
    requires
        transactions_applied(pre, mid, txs, rss),
        queries_applied(mid, post, tx.queries@, rs@),
    ensures
        transactions_applied(pre, post, txs.push(tx), rss.push(rs)),
    decreases txs.len(),
{
    assert(txs.push(tx)[0] == if txs.len() == 0 {
        tx
    } else {
        txs[0]
    });
    assert(rss.push(rs)[0] == if rss.len() == 0 {
        rs
    } else {
        rss[0]
    });
    if txs.len() == 0 {
        assert(txs.push(tx).skip(1) =~= Seq::<Transaction>::empty());
        assert(rss.push(rs).skip(1) =~= Seq::<Vec<QueryResult>>::empty());
        assert(queries_applied(pre, post, tx.queries@, rs@));
        assert(transactions_applied(post, post, txs.push(tx).skip(1), rss.push(rs).skip(1)));
    } else {
        let m1 = choose|m: Table|
            #[trigger] queries_applied(pre, m, txs[0].queries@, rss[0]@) && transactions_applied(
                m,
                mid,
                txs.skip(1),
                rss.skip(1),
            );
        lemma_transactions_applied_snoc(m1, mid, post, txs.skip(1), rss.skip(1), tx, rs);
        assert(txs.push(tx).skip(1) =~= txs.skip(1).push(tx));
        assert(rss.push(rs).skip(1) =~= rss.skip(1).push(rs));
        assert(queries_applied(pre, m1, txs.push(tx)[0].queries@, rss.push(rs)[0]@)
            && transactions_applied(m1, post, txs.push(tx).skip(1), rss.push(rs).skip(1)));
    }
}

/// A set of assigned transactions, executed in assignment order.
pub struct TransactionWorker {
    pub transactions: Vec<Transaction>,
}

impl TransactionWorker {
    /// A worker with no assigned transactions.
    pub fn new() -> (r: Self)
        ensures
            r.transactions@.len() == 0,
    {
        TransactionWorker { transactions: Vec::new() }
    }

    /// Assign one more transaction; transactions run in assignment order.
    pub fn add_transaction(&mut self, transaction: Transaction)
        ensures
            final(self).transactions@ == old(self).transactions@.push(transaction),
    {
        self.transactions.push(transaction);
    }

    /// Execute every assigned transaction against `table`, in assignment
    /// order, returning each transaction's results in that same order: each
    /// transaction's queries are applied to the state the previous
    /// transactions left behind.
    pub fn run(&self, table: &mut Table) -> (results: Vec<Vec<QueryResult>>)
        requires
            old(table).wf(),
        ensures
            final(table).wf(),
            final(table).name == old(table).name,
            final(table).num_columns == old(table).num_columns,
            final(table).primary_key_index == old(table).primary_key_index,
            results@.len() == self.transactions@.len(),
            forall|k: int|
                0 <= k < results@.len() ==> (#[trigger] results@[k])@.len()
                    == self.transactions@[k].queries@.len(),
            transactions_applied(*old(table), *final(table), self.transactions@, results@),
    {
        let mut results: Vec<Vec<QueryResult>> = Vec::new();
        let n = self.transactions.len();
        let mut i: usize = 0;
        proof {
            assert(self.transactions@.take(0) =~= Seq::<Transaction>::empty());
        }
        while i < n
            invariant
                i <= n,
                n == self.transactions@.len(),
                table.wf(),
                table.name == old(table).name,
                table.num_columns == old(table).num_columns,
                table.primary_key_index == old(table).primary_key_index,
                results@.len() == i,
                forall|k: int|
                    0 <= k < i ==> (#[trigger] results@[k])@.len()
                        == self.transactions@[k].queries@.len(),
                transactions_applied(
                    *old(table),
                    *table,
                    self.transactions@.take(i as int),
                    results@,
                ),
            decreases n - i,
        {
            let ghost mid = *table;
            let ghost prev_results = results@;
            let r = self.transactions[i].execute(table);
            proof {
                lemma_transactions_applied_snoc(
                    *old(table),
                    mid,
                    *table,
                    self.transactions@.take(i as int),
                    prev_results,
                    self.transactions@[i as int],
                    r,
                );
                assert(self.transactions@.take(i as int + 1) =~= self.transactions@.take(
                    i as int,
                ).push(self.transactions@[i as int]));
            }
            results.push(r);
            i += 1;
        }
        proof {
            assert(self.transactions@.take(n as int) =~= self.transactions@);
        }
        results
    }

    /// Wait for the worker's work to finish; execution here is synchronous,
    /// so everything is already done when `run` returns.
    pub fn join(&self) {
    }
}

} // verus!
