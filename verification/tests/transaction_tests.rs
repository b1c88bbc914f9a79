use std::collections::HashMap;

use crabstore::store::CrabStore;
use crabstore::transaction::{Query, QueryResult, Transaction};
use crabstore::transaction_worker::TransactionWorker;

/// Small deterministic generator for test data.
struct Lcg {
    state: u64,
}

impl Lcg {
    fn new(seed: u64) -> Self {
        Lcg { state: seed }
    }

    fn gen_range(&mut self, lo: i64, hi: i64) -> i64 {
        self.state = self.state.wrapping_mul(6364136223846793005).wrapping_add(1442695040888963407);
        lo + ((self.state >> 33) % ((hi - lo) as u64)) as i64
    }
}

#[test]
fn transaction_test() {
    let mut rand = Lcg::new(3562901);
    let mut crabstore = CrabStore::new();
    crabstore.create_table(String::from("Grades"), 5, 0);

    let mut records: HashMap<i64, Vec<i64>> = HashMap::new();
    let number_of_records = 1000i64;
    let number_of_transactions = 100usize;
    let num_workers = 8usize;

    {
        let grades = crabstore.get_table_mut(&String::from("Grades")).unwrap();
        grades.build_index(2);
        grades.build_index(3);
        grades.build_index(4);
    }

    let mut keys: Vec<i64> = Vec::new();
    let mut insert_transactions = Vec::new();
    for _ in 0..number_of_transactions {
        insert_transactions.push(Transaction::new());
    }

    for i in 0..number_of_records {
        let key = 92106429 + i;
        keys.push(key);
        let cols = vec![
            key,
            rand.gen_range(i * 20, (i + 1) * 20),
            rand.gen_range(i * 20, (i + 1) * 20),
            rand.gen_range(i * 20, (i + 1) * 20),
            rand.gen_range(i * 20, (i + 1) * 20),
        ];
        records.insert(key, cols.clone());
        insert_transactions[(i as usize) % number_of_transactions]
            .add_query(Query::Insert(cols));
    }

    let mut workers: Vec<TransactionWorker> = Vec::new();
    for _ in 0..num_workers {
        workers.push(TransactionWorker::new());
    }
    for (i, tx) in insert_transactions.into_iter().enumerate() {
        workers[i % num_workers].add_transaction(tx);
    }

    {
        let grades = crabstore.get_table_mut(&String::from("Grades")).unwrap();
        for worker in workers.iter_mut() {
            let results = worker.run(grades);
            for tx_results in results {
                for r in tx_results {
                    assert!(matches!(r, QueryResult::Inserted));
                }
            }
            worker.join();
        }
    }

    // Every inserted row reads back exactly.
    {
        let grades = crabstore.get_table_mut(&String::from("Grades")).unwrap();
        for key in keys.iter() {
            let recs = grades.select(*key, 0, &vec![1, 1, 1, 1, 1]);
            assert_eq!(recs.len(), 1);
            assert_eq!(&recs[0].columns, records.get(key).unwrap());
        }
    }

    // A round of updates through transactions, two columns at a time.
    let mut update_transactions = Vec::new();
    for _ in 0..number_of_transactions {
        update_transactions.push(Transaction::new());
    }
    for (i, key) in keys.iter().enumerate() {
        let mut updated_cols: Vec<Option<i64>> = vec![None, None, None, None, None];
        for c in 2..5 {
            let value = rand.gen_range(0, 20);
            updated_cols[c] = Some(value);
            records.get_mut(key).unwrap()[c] = value;
        }
        update_transactions[i % number_of_transactions]
            .add_query(Query::Update(*key, updated_cols));
        update_transactions[i % number_of_transactions]
            .add_query(Query::Select(*key, 0, vec![1, 1, 1, 1, 1]));
    }

    let mut workers: Vec<TransactionWorker> = Vec::new();
    for _ in 0..num_workers {
        workers.push(TransactionWorker::new());
    }
    for (i, tx) in update_transactions.into_iter().enumerate() {
        workers[i % num_workers].add_transaction(tx);
    }

    {
        let grades = crabstore.get_table_mut(&String::from("Grades")).unwrap();
        for worker in workers.iter_mut() {
            worker.run(grades);
            worker.join();
        }
    }

    // Every update is visible.
    {
        let grades = crabstore.get_table_mut(&String::from("Grades")).unwrap();
        for key in keys.iter() {
            let recs = grades.select(*key, 0, &vec![1, 1, 1, 1, 1]);
            assert_eq!(recs.len(), 1);
            assert_eq!(&recs[0].columns, records.get(key).unwrap());
        }
    }
}

#[test]
fn transaction_refuses_ill_formed_queries() {
    let mut store = CrabStore::new();
    store.create_table(String::from("t"), 2, 0);
    let table = store.get_table_mut(&String::from("t")).unwrap();
    let mut tx = Transaction::new();
    // Wrong arity for this table.
    tx.add_query(Query::Insert(vec![1, 2, 3]));
    // Column out of range.
    tx.add_query(Query::Select(1, 5, vec![1, 1]));
    tx.add_query(Query::Insert(vec![1, 2]));
    let results = tx.execute(table);
    assert_eq!(results.len(), 3);
    assert!(matches!(results[0], QueryResult::Refused));
    assert!(matches!(results[1], QueryResult::Refused));
    assert!(matches!(results[2], QueryResult::Inserted));
    assert_eq!(table.select(1, 0, &vec![1, 1])[0].columns, vec![1, 2]);
}

#[test]
fn store_registry_creates_finds_and_drops() {
    let mut store = CrabStore::new();
    store.create_table(String::from("a"), 2, 0);
    store.create_table(String::from("b"), 3, 1);
    assert!(store.get_table(&String::from("a")).is_some());
    assert_eq!(store.get_table(&String::from("b")).unwrap().num_columns(), 3);
    assert!(store.get_table(&String::from("c")).is_none());
    assert!(store.drop_table(&String::from("a")));
    assert!(store.get_table(&String::from("a")).is_none());
    assert!(!store.drop_table(&String::from("a")));
}
