use crabstore::bufferpool::{BufferPool, FRAME_EMPTY};
use crabstore::disk::DiskManager;
use crabstore::page::PhysicalPage;
use crabstore::index::Index;
use crabstore::rid::{BaseRID, TailRID};
use crabstore::table::{Table, TableHeaderPage};

#[test]
fn rid_round_trip() {
    // Encoding a (page_range, page, slot) triple and decoding it returns
    // the same triple, for both flavors.
    for &(pr, pg, sl) in &[(0usize, 0usize, 0usize), (3, 2, 5), (7, 15, 511), (131000, 0, 1)] {
        let b = BaseRID::from_parts(pr, pg, sl);
        assert_eq!(b.page_range(), pr);
        assert_eq!(b.page(), pg);
        assert_eq!(b.slot(), sl);
        let t = TailRID::from_parts(pr, pg, sl);
        assert_eq!(t.page_range(), pr);
        assert_eq!(t.page(), pg);
        assert_eq!(t.slot(), sl);
    }
}

#[test]
fn rid_next_advances_pages() {
    // Applying next() slots-per-page times from slot 0 moves to slot 0 of
    // the next page of the same range.
    let mut r = BaseRID::from_parts(2, 3, 0);
    for _ in 0..512 {
        r = r.next();
    }
    assert_eq!(r.page_range(), 2);
    assert_eq!(r.page(), 4);
    assert_eq!(r.slot(), 0);

    // The last slot of the last page overflows into the next range.
    let mut r = BaseRID::from_parts(2, 15, 511);
    r = r.next();
    assert_eq!(r.page_range(), 3);
    assert_eq!(r.page(), 0);
    assert_eq!(r.slot(), 0);
}

#[test]
fn insert_select_round_trip() {
    let mut t = Table::new(String::from("tbl"), 3, 0);
    t.insert(&vec![7, 70, 700]);
    let recs = t.select(7, 0, &vec![1, 1, 1]);
    assert_eq!(recs.len(), 1);
    assert_eq!(recs[0].columns, vec![7, 70, 700]);
    assert_eq!(recs[0].schema_encoding, 0);
}

#[test]
fn update_visibility() {
    let mut t = Table::new(String::from("tbl"), 3, 0);
    t.insert(&vec![1, 10, 100]);
    assert!(t.update(1, &vec![None, None, Some(999)]));
    let recs = t.select(1, 0, &vec![1, 1, 1]);
    assert_eq!(recs.len(), 1);
    // The updated column reads the new value; untouched columns retain
    // their pre-update values.
    assert_eq!(recs[0].columns, vec![1, 10, 999]);
    // A second update of another column keeps the first update's value.
    assert!(t.update(1, &vec![None, Some(11), None]));
    let recs = t.select(1, 0, &vec![1, 1, 1]);
    assert_eq!(recs[0].columns, vec![1, 11, 999]);
}

#[test]
fn update_of_absent_key_fails() {
    let mut t = Table::new(String::from("tbl"), 2, 0);
    t.insert(&vec![5, 50]);
    assert!(!t.update(6, &vec![None, Some(1)]));
    let recs = t.select(5, 0, &vec![1, 1]);
    assert_eq!(recs[0].columns, vec![5, 50]);
}

#[test]
fn delete_semantics() {
    let mut t = Table::new(String::from("tbl"), 2, 0);
    t.insert(&vec![1, 10]);
    t.insert(&vec![2, 20]);
    assert!(t.update(1, &vec![None, Some(11)]));
    assert!(t.delete(1));
    // Selecting the deleted key returns no rows.
    assert_eq!(t.select(1, 0, &vec![1, 1]).len(), 0);
    // Deleting it again fails.
    assert!(!t.delete(1));
    // The other row is untouched.
    let recs = t.select(2, 0, &vec![1, 1]);
    assert_eq!(recs[0].columns, vec![2, 20]);
    // A subsequent insert of the same key does not collide with the
    // tombstoned RID: it gets a fresh one and is visible again.
    let old_rid = t.select(2, 0, &vec![1, 1])[0].rid;
    t.insert(&vec![1, 12]);
    let recs = t.select(1, 0, &vec![1, 1]);
    assert_eq!(recs.len(), 1);
    assert_eq!(recs[0].columns, vec![1, 12]);
    assert_ne!(recs[0].rid, old_rid);
}

#[test]
fn index_scan_equivalence() {
    // The same data, queried on a column with and without an index built,
    // returns identical result sets.
    let mut with_index = Table::new(String::from("a"), 3, 0);
    let mut without_index = Table::new(String::from("b"), 3, 0);
    let rows: Vec<Vec<i64>> = vec![
        vec![1, 5, 100],
        vec![2, 5, 200],
        vec![3, 7, 300],
        vec![4, 5, 400],
    ];
    with_index.build_index(1);
    for row in rows.iter() {
        with_index.insert(row);
        without_index.insert(row);
    }
    with_index.update(2, &vec![None, Some(7), None]);
    without_index.update(2, &vec![None, Some(7), None]);
    with_index.delete(4);
    without_index.delete(4);

    for v in [5i64, 7, 9] {
        let mut a: Vec<u64> = with_index.find_rows(1, v).iter().map(|r| r.raw()).collect();
        let mut b: Vec<u64> = without_index.find_rows(1, v).iter().map(|r| r.raw()).collect();
        a.sort();
        b.sort();
        assert_eq!(a, b);
    }
    let mut a: Vec<u64> = with_index.find_rows_range(1, 5, 8).iter().map(|r| r.raw()).collect();
    let mut b: Vec<u64> = without_index.find_rows_range(1, 5, 8).iter().map(|r| r.raw()).collect();
    a.sort();
    b.sort();
    assert_eq!(a, b);
    assert_eq!(
        with_index.sum(0, 100, 2),
        without_index.sum(0, 100, 2),
    );
}

#[test]
fn drop_index_falls_back_to_scan() {
    let mut t = Table::new(String::from("tbl"), 2, 0);
    t.build_index(1);
    t.insert(&vec![1, 10]);
    t.insert(&vec![2, 10]);
    t.drop_index(1);
    let mut raws: Vec<u64> = t.find_rows(1, 10).iter().map(|r| r.raw()).collect();
    raws.sort();
    assert_eq!(raws, vec![0, 1]);
}

#[test]
fn concrete_scenario() {
    // Create a table with 3 columns, primary key column 0; insert rows
    // (1,10,100) and (2,20,200); update key 1 setting column 2 to 999 with
    // column 1 left null; select key 1 including columns 1 and 2 returns
    // [10, 999]; sum over key range [1,3) on column 1 returns 30.
    let mut t = Table::new(String::from("grades"), 3, 0);
    t.insert(&vec![1, 10, 100]);
    t.insert(&vec![2, 20, 200]);
    assert!(t.update(1, &vec![None, None, Some(999)]));
    let recs = t.select(1, 0, &vec![0, 1, 1]);
    assert_eq!(recs.len(), 1);
    assert_eq!(recs[0].columns, vec![10, 999]);
    assert_eq!(t.sum(1, 3, 1), 30);
}

#[test]
fn sum_wraps_on_signed_overflow() {
    // The aggregate uses signed 64-bit wraparound semantics.
    let mut t = Table::new(String::from("tbl"), 2, 0);
    t.insert(&vec![1, i64::MAX]);
    t.insert(&vec![2, 1]);
    assert_eq!(t.sum(0, 10, 1), i64::MIN);
    assert_eq!(t.sum(0, 10, 0), 3);
    // No matches sums to zero.
    assert_eq!(t.sum(100, 200, 1), 0);
}

#[test]
fn many_rows_cross_page_boundaries() {
    // More rows than one page holds, so addresses cross pages; more than
    // one range holds crosses ranges.
    let mut t = Table::new(String::from("tbl"), 2, 0);
    for i in 0..1200i64 {
        t.insert(&vec![i, i * 2]);
    }
    for &k in &[0i64, 511, 512, 1024, 1199] {
        let recs = t.select(k, 0, &vec![1, 1]);
        assert_eq!(recs.len(), 1);
        assert_eq!(recs[0].columns, vec![k, k * 2]);
    }
    assert_eq!(t.sum(0, 10, 1), 2 * (0 + 1 + 2 + 3 + 4 + 5 + 6 + 7 + 8 + 9));
}

#[test]
fn disk_manager_blocks_round_trip() {
    let mut disk = DiskManager::new();
    assert_eq!(disk.free_page_pointer(), 1);
    let p1 = disk.reserve_page();
    let p2 = disk.reserve_page();
    assert_eq!(p1, 1);
    assert_eq!(p2, 2);
    let first = disk.reserve_range(4);
    assert_eq!(first, 3);
    assert_eq!(disk.free_page_pointer(), 7);

    let mut page = PhysicalPage::new();
    page.write_slot(0, 42);
    page.write_slot(511, -7);
    disk.write_page(p1, &page);
    disk.flush();
    let mut back = PhysicalPage::new();
    disk.read_page(p1, &mut back);
    assert_eq!(back.slot(0), 42);
    assert_eq!(back.slot(511), -7);
    // An unwritten block reads back as zeroes.
    let mut zero = PhysicalPage::new();
    disk.read_page(p2, &mut zero);
    assert_eq!(zero.slot(0), 0);
}

fn resident_count(pool: &BufferPool) -> usize {
    pool.frames.iter().filter(|f| f.page_id != FRAME_EMPTY).count()
}

#[test]
fn buffer_pool_capacity_bound() {
    // With a pool of 3 frames and 4 distinct pages accessed round-robin,
    // at most 3 page bodies are resident at any time, and evicting a dirty
    // frame writes back exactly the last write to that page.
    let mut disk = DiskManager::new();
    let mut ids = Vec::new();
    for _ in 0..4 {
        ids.push(disk.reserve_page());
    }
    let mut pool = BufferPool::new(disk, 3);
    for round in 0..3 {
        for (k, &id) in ids.iter().enumerate() {
            let f = pool.get_page(id);
            pool.write_slot(f, 0, (100 * round + k) as i64);
            pool.unpin(f);
            assert!(resident_count(&pool) <= 3);
        }
    }
    // Every page reads back the last value written to it, whether it is
    // still cached or was evicted and written back.
    for (k, &id) in ids.iter().enumerate() {
        let f = pool.get_page(id);
        assert_eq!(pool.read_slot(f, 0), (200 + k) as i64);
        pool.unpin(f);
    }
}

#[test]
fn buffer_pool_new_page_reserves_fresh_ids() {
    let disk = DiskManager::new();
    let mut pool = BufferPool::new(disk, 2);
    let (id1, f1) = pool.new_page();
    pool.write_slot(f1, 3, 33);
    pool.unpin(f1);
    let (id2, f2) = pool.new_page();
    assert_ne!(id1, id2);
    pool.unpin(f2);
    let f1b = pool.get_page(id1);
    assert_eq!(pool.read_slot(f1b, 3), 33);
    pool.unpin(f1b);
}

#[test]
fn header_round_trip() {
    // The on-disk table header round-trips exactly.
    let h = TableHeaderPage {
        num_columns: 5,
        primary_key_index: 0,
        indexed_columns: 0b11001,
        next_free_page: 17,
        next_rid: 1000,
        next_tid: 250,
    };
    let mut page = PhysicalPage::new();
    h.encode(&mut page);
    let back = TableHeaderPage::decode(&page).unwrap();
    assert_eq!(back.num_columns, 5);
    assert_eq!(back.primary_key_index, 0);
    assert_eq!(back.indexed_columns, 0b11001);
    assert_eq!(back.next_free_page, 17);
    assert_eq!(back.next_rid, 1000);
    assert_eq!(back.next_tid, 250);
}

#[test]
fn persist_and_load_restore_configuration() {
    let mut disk = DiskManager::new();
    let mut t = Table::new(String::from("grades"), 4, 1);
    t.build_index(2);
    t.insert(&vec![9, 1, 2, 3]);
    disk.set_free_page_pointer(33);
    t.persist(&mut disk);
    let loaded = Table::load(String::from("grades"), &mut disk).unwrap();
    assert_eq!(loaded.num_columns(), 4);
    assert_eq!(loaded.primary_key_index, 1);
    assert_eq!(loaded.next_rid, 0);
    assert_eq!(disk.free_page_pointer(), 33);
    // The recorded indexed columns are rebuilt: the primary key and
    // column 2 carry maps, the others fall back to a scan.
    assert!(loaded.index.get_from_index(1, 0).is_some());
    assert!(loaded.index.get_from_index(2, 0).is_some());
    assert!(loaded.index.get_from_index(0, 0).is_none());
    assert!(loaded.index.get_from_index(3, 0).is_none());
    // A blank disk holds no valid header.
    let mut blank = DiskManager::new();
    assert!(Table::load(String::from("x"), &mut blank).is_none());
}

#[test]
fn decode_rejects_invalid_headers() {
    let mut page = PhysicalPage::new();
    // num_columns of zero is invalid.
    assert!(TableHeaderPage::decode(&page).is_none());
    // A primary key outside the columns is invalid.
    page.write_slot(0, 3);
    page.write_slot(1, 3);
    assert!(TableHeaderPage::decode(&page).is_none());
    page.write_slot(1, 2);
    assert!(TableHeaderPage::decode(&page).is_some());
}

#[test]
fn is_latest_and_find_latest_follow_versions() {
    let mut t = Table::new(String::from("tbl"), 2, 0);
    t.insert(&vec![1, 10]);
    let rid = t.find_row(0, 1).unwrap();
    assert!(t.is_latest(&rid));
    t.update(1, &vec![None, Some(20)]);
    assert!(!t.is_latest(&rid));
    let tail = t.find_latest(&rid);
    assert_eq!(tail.page_range(), rid.page_range());
}

#[test]
fn index_distinguishes_absent_value_from_absent_index() {
    let mut ix = Index::new(0, 3);
    // Column 0 is indexed: an absent value yields an empty set.
    assert_eq!(ix.get_from_index(0, 42).unwrap().len(), 0);
    // Column 1 carries no index: the caller must fall back to a scan.
    assert!(ix.get_from_index(1, 42).is_none());
    ix.update_index(0, 42, BaseRID::new(7));
    ix.update_index(0, 42, BaseRID::new(9));
    // A RID recorded twice under one value stays a single entry.
    ix.update_index(0, 42, BaseRID::new(7));
    let rids = ix.get_from_index(0, 42).unwrap();
    assert_eq!(rids.len(), 2);
    ix.remove_index(0, 42, BaseRID::new(7));
    let rids = ix.get_from_index(0, 42).unwrap();
    assert_eq!(rids.len(), 1);
    assert_eq!(rids[0].raw(), 9);
    // Range lookups cover every bucket whose key lies in the range.
    ix.update_index(0, 50, BaseRID::new(3));
    assert_eq!(ix.range_from_index(0, 40, 51).unwrap().len(), 2);
    assert_eq!(ix.range_from_index(0, 40, 50).unwrap().len(), 1);
    ix.drop_index(0);
    assert!(ix.get_from_index(0, 42).is_none());
}

#[test]
fn updating_the_key_column_moves_the_row() {
    let mut t = Table::new(String::from("tbl"), 2, 0);
    t.insert(&vec![1, 10]);
    assert!(t.update(1, &vec![Some(5), None]));
    assert_eq!(t.select(1, 0, &vec![1, 1]).len(), 0);
    let recs = t.select(5, 0, &vec![1, 1]);
    assert_eq!(recs.len(), 1);
    assert_eq!(recs[0].columns, vec![5, 10]);
}
