use mini_lsm::bound::Bound;
use mini_lsm::compact::simple_leveled::SimpleLeveledCompactionOptions;
use mini_lsm::compact::{CompactionController, CompactionOptions, CompactionTask};
use mini_lsm::error::LsmError;
use mini_lsm::iterators::StorageIterator;
use mini_lsm::lsm_storage::{
    sst_file_name, LsmStorageInner, LsmStorageOptions, LsmStorageState, WriteBatchRecord,
};
use mini_lsm::table::iterator::SsTableIterator;

fn engine() -> LsmStorageInner {
    LsmStorageInner::open(LsmStorageOptions::default_for_week1_test()).unwrap()
}

fn engine_with(target_sst_size: usize, block_size: usize) -> LsmStorageInner {
    let mut options = LsmStorageOptions::default_for_week1_test();
    options.target_sst_size = target_sst_size;
    options.block_size = block_size;
    LsmStorageInner::open(options).unwrap()
}

fn get(e: &LsmStorageInner, key: &str) -> Option<String> {
    e.get(key.as_bytes()).unwrap().map(|b| String::from_utf8(b.to_vec()).unwrap())
}

fn scan(e: &LsmStorageInner, lower: Bound, upper: Bound) -> Vec<(String, String)> {
    let mut iter = e.scan(&lower, &upper).unwrap();
    let mut out = Vec::new();
    while iter.is_valid() {
        out.push((
            String::from_utf8(iter.key().to_vec()).unwrap(),
            String::from_utf8(iter.value().to_vec()).unwrap(),
        ));
        iter.next().unwrap();
    }
    out
}

fn scan_all(e: &LsmStorageInner) -> Vec<(String, String)> {
    scan(e, Bound::Unbounded, Bound::Unbounded)
}

fn pairs(entries: &[(&str, &str)]) -> Vec<(String, String)> {
    entries.iter().map(|(k, v)| (k.to_string(), v.to_string())).collect()
}

fn inc(k: &str) -> Bound {
    Bound::Included(k.as_bytes().to_vec())
}

fn exc(k: &str) -> Bound {
    Bound::Excluded(k.as_bytes().to_vec())
}

#[test]
fn scenario_single_block() {
    let mut e = engine();
    e.put(b"a", b"1").unwrap();
    e.put(b"b", b"2").unwrap();
    e.put(b"c", b"3").unwrap();
    assert_eq!(scan_all(&e), pairs(&[("a", "1"), ("b", "2"), ("c", "3")]));
}

#[test]
fn scenario_delete() {
    let mut e = engine();
    e.put(b"k", b"v").unwrap();
    assert_eq!(get(&e, "k"), Some("v".to_string()));
    e.delete(b"k").unwrap();
    assert_eq!(get(&e, "k"), None);
    assert_eq!(scan_all(&e), pairs(&[]));
}

#[test]
fn scenario_freeze_flush_get() {
    let mut e = engine_with(1024, 4096);
    for i in 0..200 {
        e.put(format!("k{:03}", i).as_bytes(), b"8-bytes!").unwrap();
    }
    assert!(!e.state.imm_memtables.is_empty());
    e.force_flush().unwrap();
    assert!(!e.state.l0_sstables.is_empty());
    assert_eq!(get(&e, "k100"), Some("8-bytes!".to_string()));
    for i in 0..200 {
        assert_eq!(get(&e, &format!("k{:03}", i)), Some("8-bytes!".to_string()));
    }
    assert_eq!(scan_all(&e).len(), 200);
}

#[test]
fn scenario_level0_overlap_precedence() {
    let mut e = engine();
    e.put(b"x", b"old").unwrap();
    e.force_flush().unwrap();
    e.put(b"x", b"new").unwrap();
    e.force_flush().unwrap();
    assert_eq!(e.state.l0_sstables.len(), 2);
    assert!(e.state.memtable.is_empty());
    assert!(e.state.imm_memtables.is_empty());
    assert_eq!(get(&e, "x"), Some("new".to_string()));
    assert_eq!(scan_all(&e), pairs(&[("x", "new")]));
}

#[test]
fn scenario_full_compaction_drops_tombstones() {
    let mut e = engine();
    e.put(b"a", b"1").unwrap();
    e.put(b"b", b"2").unwrap();
    e.force_flush().unwrap();
    e.delete(b"a").unwrap();
    e.force_flush().unwrap();
    let l0_before = e.state.l0_sstables.clone();
    assert_eq!(l0_before.len(), 2);
    let obsolete = e.force_full_compaction().unwrap();
    assert_eq!(obsolete, l0_before);
    assert!(e.state.l0_sstables.is_empty());
    assert_eq!(e.state.levels[0].1.len(), 1);
    assert_eq!(e.state.sstables.len(), 1);
    let table = e.state.sstables[&e.state.levels[0].1[0]].clone();
    let mut iter = SsTableIterator::create_and_seek_to_first(table).unwrap();
    assert_eq!(iter.key(), b"b");
    assert_eq!(iter.value(), b"2");
    iter.next().unwrap();
    assert!(!iter.is_valid());
    assert_eq!(get(&e, "a"), None);
    assert_eq!(get(&e, "b"), Some("2".to_string()));
}

#[test]
fn scenario_range_with_exclusive_bounds() {
    let mut e = engine();
    for k in ["a", "b", "c", "d"] {
        e.put(k.as_bytes(), b"v").unwrap();
    }
    assert_eq!(scan(&e, exc("a"), exc("d")), pairs(&[("b", "v"), ("c", "v")]));
    assert_eq!(scan(&e, inc("a"), inc("d")).len(), 4);
    assert_eq!(scan(&e, inc("b"), exc("d")), pairs(&[("b", "v"), ("c", "v")]));
    assert_eq!(scan(&e, exc("a"), Bound::Unbounded).len(), 3);
}

#[test]
fn engine_open_checks_the_levels() {
    let none = SimpleLeveledCompactionOptions {
        size_ratio_percent: 200,
        level0_file_num_compaction_trigger: 2,
        max_levels: 0,
    };
    let options = LsmStorageOptions::default_for_week2_test(CompactionOptions::Simple(none));
    assert_eq!(LsmStorageInner::open(options).err(), Some(LsmError::InvariantViolated));
    let three = SimpleLeveledCompactionOptions { max_levels: 3, ..none };
    let options = LsmStorageOptions::default_for_week2_test(CompactionOptions::Simple(three));
    let e = LsmStorageInner::open(options).unwrap();
    assert_eq!(e.state.levels, vec![(1, vec![]), (2, vec![]), (3, vec![])]);
    assert_eq!(e.next_sst_id, 1);
    assert_eq!(e.state.memtable.id(), 0);
    assert_eq!(options.target_sst_size, 1 << 20);
    assert_eq!(options.num_memtable_limit, 2);
    let o = LsmStorageOptions::default_for_week1_test();
    assert_eq!((o.block_size, o.target_sst_size, o.num_memtable_limit), (4096, 2 << 20, 50));
    let o = LsmStorageOptions::default_for_week1_day6_test();
    assert_eq!((o.block_size, o.target_sst_size, o.num_memtable_limit), (4096, 2 << 20, 2));
    let s = LsmStorageState::create(&o);
    assert_eq!(s.levels, vec![(1, vec![])]);
}

#[test]
fn engine_refuses_bad_entries() {
    let mut e = engine();
    assert_eq!(e.put(b"", b"v"), Err(LsmError::InvariantViolated));
    assert_eq!(e.delete(b""), Err(LsmError::InvariantViolated));
    let long = vec![0u8; 70000];
    assert_eq!(e.put(&long, b"v"), Err(LsmError::InvariantViolated));
    assert_eq!(e.put(b"k", &long), Err(LsmError::InvariantViolated));
    assert!(e.state.memtable.is_empty());
    assert_eq!(get(&e, "k"), None);
}

#[test]
fn engine_runs_out_of_identifiers() {
    let mut e = engine();
    e.put(b"a", b"1").unwrap();
    e.next_sst_id = usize::MAX;
    assert_eq!(e.put(b"b", b"2"), Err(LsmError::InvariantViolated));
    assert_eq!(e.force_freeze_memtable(), Err(LsmError::InvariantViolated));
    assert_eq!(get(&e, "a"), Some("1".to_string()));
    assert_eq!(get(&e, "b"), None);
}

#[test]
fn engine_put_freezes_at_the_target_size() {
    let mut e = engine_with(10, 4096);
    e.put(b"abc", b"defg").unwrap(); // 7 bytes
    assert!(e.state.imm_memtables.is_empty());
    assert_eq!(e.state.memtable.approximate_size(), 7);
    e.put(b"h", b"ij").unwrap(); // 10 bytes: frozen
    assert_eq!(e.state.imm_memtables.len(), 1);
    assert!(e.state.memtable.is_empty());
    assert_eq!(e.state.memtable.id(), 1);
    assert_eq!(e.state.imm_memtables[0].id(), 0);
    assert_eq!(e.next_sst_id, 2);
    assert_eq!(get(&e, "abc"), Some("defg".to_string()));
    assert_eq!(get(&e, "h"), Some("ij".to_string()));
}

#[test]
fn freeze_keeps_every_key_readable() {
    let mut e = engine();
    e.put(b"a", b"1").unwrap();
    e.put(b"b", b"2").unwrap();
    e.delete(b"b").unwrap();
    e.force_freeze_memtable().unwrap();
    e.put(b"c", b"3").unwrap();
    e.force_freeze_memtable().unwrap();
    e.force_freeze_memtable().unwrap();
    assert_eq!(e.state.imm_memtables.len(), 3);
    assert_eq!(get(&e, "a"), Some("1".to_string()));
    assert_eq!(get(&e, "b"), None);
    assert_eq!(get(&e, "c"), Some("3".to_string()));
    e.put(b"a", b"new").unwrap();
    e.force_freeze_memtable().unwrap();
    assert_eq!(get(&e, "a"), Some("new".to_string()));
    assert_eq!(scan_all(&e), pairs(&[("a", "new"), ("c", "3")]));
}

#[test]
fn flush_keeps_every_key_readable() {
    let mut e = engine();
    e.put(b"a", b"1").unwrap();
    e.force_freeze_memtable().unwrap();
    e.put(b"a", b"2").unwrap();
    e.put(b"b", b"3").unwrap();
    e.force_freeze_memtable().unwrap();
    e.force_flush_next_imm_memtable().unwrap();
    assert_eq!(e.state.l0_sstables, vec![0]);
    assert_eq!(get(&e, "a"), Some("2".to_string()));
    e.force_flush_next_imm_memtable().unwrap();
    assert_eq!(e.state.l0_sstables, vec![1, 0]);
    assert_eq!(get(&e, "a"), Some("2".to_string()));
    assert_eq!(get(&e, "b"), Some("3".to_string()));
    assert_eq!(e.force_flush_next_imm_memtable(), Err(LsmError::InvariantViolated));
    // an empty memtable gives no table
    e.force_freeze_memtable().unwrap();
    e.force_flush_next_imm_memtable().unwrap();
    assert_eq!(e.state.l0_sstables, vec![1, 0]);
    assert!(e.state.imm_memtables.is_empty());
    assert_eq!(
        e.state.sstables[&1].file_contents()[..4],
        [0u8, 0, 0, 1]
    );
}

#[test]
fn flush_of_a_table_that_cannot_be_encoded_changes_nothing() {
    let mut e = engine_with(1 << 30, 1);
    for i in 0..65536u32 {
        e.put(format!("{:08}", i).as_bytes(), b"").unwrap();
    }
    e.force_freeze_memtable().unwrap();
    assert_eq!(e.force_flush_next_imm_memtable(), Err(LsmError::InvariantViolated));
    assert_eq!(e.state.imm_memtables.len(), 1);
    assert!(e.state.l0_sstables.is_empty());
}

#[test]
fn trigger_flush_waits_for_the_limit() {
    let mut options = LsmStorageOptions::default_for_week1_test();
    options.num_memtable_limit = 3;
    let mut e = LsmStorageInner::open(options).unwrap();
    e.trigger_flush().unwrap();
    e.put(b"a", b"1").unwrap();
    e.force_freeze_memtable().unwrap();
    e.trigger_flush().unwrap();
    assert_eq!(e.state.imm_memtables.len(), 1);
    e.put(b"b", b"2").unwrap();
    e.force_freeze_memtable().unwrap();
    e.trigger_flush().unwrap();
    assert_eq!(e.state.imm_memtables.len(), 1);
    assert_eq!(e.state.l0_sstables, vec![0]);
    assert_eq!(get(&e, "a"), Some("1".to_string()));
}

#[test]
fn tombstones_are_never_read() {
    let mut e = engine();
    e.put(b"a", b"").unwrap();
    e.put(b"b", b"2").unwrap();
    e.force_flush().unwrap();
    e.put(b"c", b"").unwrap();
    e.force_freeze_memtable().unwrap();
    e.put(b"d", b"4").unwrap();
    e.delete(b"d").unwrap();
    assert_eq!(get(&e, "a"), None);
    assert_eq!(get(&e, "c"), None);
    assert_eq!(get(&e, "d"), None);
    for (_, v) in scan_all(&e) {
        assert!(!v.is_empty());
    }
    assert_eq!(scan_all(&e), pairs(&[("b", "2")]));
    // a delete in a newer layer hides the value of an older layer from get
    e.delete(b"b").unwrap();
    assert_eq!(get(&e, "b"), None);
}

#[test]
fn get_looks_through_the_layers_in_order() {
    let mut e = engine();
    e.put(b"k", b"level1").unwrap();
    e.put(b"only1", b"x").unwrap();
    e.force_flush().unwrap();
    e.force_full_compaction().unwrap();
    assert_eq!(e.state.levels[0].1.len(), 1);
    e.put(b"k", b"level0-old").unwrap();
    e.force_flush().unwrap();
    e.put(b"k", b"level0-new").unwrap();
    e.put(b"only0", b"y").unwrap();
    e.force_flush().unwrap();
    assert_eq!(get(&e, "k"), Some("level0-new".to_string()));
    e.put(b"k", b"frozen").unwrap();
    e.force_freeze_memtable().unwrap();
    assert_eq!(get(&e, "k"), Some("frozen".to_string()));
    e.put(b"k", b"active").unwrap();
    assert_eq!(get(&e, "k"), Some("active".to_string()));
    assert_eq!(get(&e, "only1"), Some("x".to_string()));
    assert_eq!(get(&e, "only0"), Some("y".to_string()));
    assert_eq!(get(&e, "none"), None);
    assert_eq!(
        scan_all(&e),
        pairs(&[("k", "active"), ("only0", "y"), ("only1", "x")])
    );
    assert_eq!(scan(&e, inc("only0"), inc("only0")), pairs(&[("only0", "y")]));
    assert_eq!(scan(&e, exc("k"), exc("only1")), pairs(&[("only0", "y")]));
}

#[test]
fn full_compaction_keeps_what_is_read() {
    let mut e = engine_with(2 << 20, 64);
    for i in 0..300 {
        e.put(format!("k{:03}", i).as_bytes(), format!("a{}", i).as_bytes()).unwrap();
    }
    e.force_flush().unwrap();
    e.force_full_compaction().unwrap();
    for i in (0..300).step_by(2) {
        e.put(format!("k{:03}", i).as_bytes(), format!("b{}", i).as_bytes()).unwrap();
    }
    e.force_flush().unwrap();
    for i in (0..300).step_by(3) {
        e.put(format!("k{:03}", i).as_bytes(), format!("c{}", i).as_bytes()).unwrap();
    }
    for i in 300..320 {
        e.put(format!("k{:03}", i).as_bytes(), b"").unwrap();
    }
    e.force_flush().unwrap();
    let before: Vec<Option<String>> = (0..330).map(|i| get(&e, &format!("k{:03}", i))).collect();
    let scanned = scan_all(&e);
    let obsolete = e.force_full_compaction().unwrap();
    assert_eq!(obsolete.len(), 3);
    let after: Vec<Option<String>> = (0..330).map(|i| get(&e, &format!("k{:03}", i))).collect();
    assert_eq!(before, after);
    assert_eq!(scan_all(&e), scanned);
    assert_eq!(after[0], Some("c0".to_string()));
    assert_eq!(after[2], Some("b2".to_string()));
    assert_eq!(after[1], Some("a1".to_string()));
    assert_eq!(after[310], None);
    assert!(e.state.l0_sstables.is_empty());
    for id in &obsolete {
        assert!(!e.state.sstables.contains_key(id));
    }
    for id in &e.state.levels[0].1 {
        assert_eq!(e.state.sstables[id].sst_id(), *id);
    }
}

#[test]
fn full_compaction_cuts_tables_at_the_target_size() {
    let mut e = engine_with(512, 64);
    for i in 0..400 {
        e.put(format!("k{:03}", i).as_bytes(), b"vvvvvvvv").unwrap();
    }
    while !e.state.imm_memtables.is_empty() || !e.state.memtable.is_empty() {
        e.force_flush().unwrap();
    }
    let l0 = e.state.l0_sstables.len();
    assert!(l0 > 2);
    let first_new = e.next_sst_id;
    e.force_full_compaction().unwrap();
    let l1 = e.state.levels[0].1.clone();
    assert!(l1.len() > 2);
    for (j, id) in l1.iter().enumerate() {
        assert_eq!(*id, first_new + j);
    }
    assert_eq!(e.next_sst_id, first_new + l1.len());
    assert_eq!(scan_all(&e).len(), 400);
    // the tables of level 1 follow each other in key order
    for w in l1.windows(2) {
        assert!(e.state.sstables[&w[0]].last_key() < e.state.sstables[&w[1]].first_key());
    }
    assert_eq!(get(&e, "k399"), Some("vvvvvvvv".to_string()));
}

#[test]
fn full_compaction_keeps_a_deleted_key_deleted() {
    let mut e = engine();
    e.put(b"a", b"1").unwrap();
    e.force_flush().unwrap();
    e.force_full_compaction().unwrap();
    e.delete(b"a").unwrap();
    e.force_flush().unwrap();
    assert_eq!(get(&e, "a"), None);
    e.force_full_compaction().unwrap();
    assert_eq!(get(&e, "a"), None);
    assert_eq!(scan_all(&e), pairs(&[]));
    // level 1 is the deepest level: the tombstone is dropped with the value
    assert!(e.state.l0_sstables.is_empty());
    assert!(e.state.levels[0].1.is_empty());
    assert!(e.state.sstables.is_empty());
}

#[test]
fn full_compaction_keeps_tombstones_above_deeper_levels() {
    let simple = SimpleLeveledCompactionOptions {
        size_ratio_percent: 200,
        level0_file_num_compaction_trigger: 100,
        max_levels: 2,
    };
    let options = LsmStorageOptions::default_for_week2_test(CompactionOptions::Simple(simple));
    let mut e = LsmStorageInner::open(options).unwrap();
    e.put(b"a", b"1").unwrap();
    e.put(b"b", b"2").unwrap();
    e.force_flush().unwrap();
    e.delete(b"a").unwrap();
    e.force_flush().unwrap();
    e.force_full_compaction().unwrap();
    assert_eq!(get(&e, "a"), None);
    assert_eq!(get(&e, "b"), Some("2".to_string()));
    assert_eq!(e.state.levels[0].1.len(), 1);
    let table = e.state.sstables[&e.state.levels[0].1[0]].clone();
    let mut iter = SsTableIterator::create_and_seek_to_first(table).unwrap();
    assert_eq!((iter.key(), iter.value()), (&b"a"[..], &b""[..]));
    iter.next().unwrap();
    assert_eq!((iter.key(), iter.value()), (&b"b"[..], &b"2"[..]));
    iter.next().unwrap();
    assert!(!iter.is_valid());
}

#[test]
fn compact_leaves_the_state_alone() {
    let mut e = engine();
    e.put(b"a", b"1").unwrap();
    e.force_flush().unwrap();
    e.put(b"b", b"2").unwrap();
    e.force_flush().unwrap();
    let task = CompactionTask::ForceFullCompaction {
        l0_sstables: e.state.l0_sstables.clone(),
        l1_sstables: e.state.levels[0].1.clone(),
    };
    let next = e.next_sst_id;
    let tables = e.compact(&task).unwrap();
    assert_eq!(tables.len(), 1);
    assert_eq!(tables[0].sst_id(), next);
    assert_eq!(e.next_sst_id, next + 1);
    assert_eq!(e.state.l0_sstables.len(), 2);
    assert_eq!(e.state.sstables.len(), 2);
}

#[test]
fn scan_merges_all_layers() {
    let mut e = engine_with(2 << 20, 64);
    for i in 0..50 {
        e.put(format!("k{:02}", i).as_bytes(), b"L1").unwrap();
    }
    e.force_flush().unwrap();
    e.force_full_compaction().unwrap();
    for i in (0..50).step_by(2) {
        e.put(format!("k{:02}", i).as_bytes(), b"L0").unwrap();
    }
    e.force_flush().unwrap();
    for i in (0..50).step_by(4) {
        e.put(format!("k{:02}", i).as_bytes(), b"imm").unwrap();
    }
    e.force_freeze_memtable().unwrap();
    for i in (0..50).step_by(8) {
        e.put(format!("k{:02}", i).as_bytes(), b"mem").unwrap();
    }
    let all = scan_all(&e);
    assert_eq!(all.len(), 50);
    for (i, (k, v)) in all.iter().enumerate() {
        assert_eq!(k, &format!("k{:02}", i));
        let expected = if i % 8 == 0 {
            "mem"
        } else if i % 4 == 0 {
            "imm"
        } else if i % 2 == 0 {
            "L0"
        } else {
            "L1"
        };
        assert_eq!(v, expected);
        assert_eq!(get(&e, k), Some(expected.to_string()));
    }
    let some = scan(&e, exc("k10"), inc("k20"));
    assert_eq!(some.len(), 10);
    assert_eq!(some[0].0, "k11");
    assert_eq!(some[9], ("k20".to_string(), "imm".to_string()));
    assert_eq!(scan(&e, inc("k49"), Bound::Unbounded), pairs(&[("k49", "L1")]));
    assert_eq!(scan(&e, exc("k49"), Bound::Unbounded), pairs(&[]));
    assert_eq!(scan(&e, Bound::Unbounded, exc("k00")), pairs(&[]));
    let mut iter = e.scan(&Bound::Unbounded, &Bound::Unbounded).unwrap();
    assert_eq!(iter.num_active_iterators(), 1);
    while iter.is_valid() {
        iter.next().unwrap();
    }
    iter.next().unwrap();
    assert!(!iter.is_valid());
}

#[test]
fn write_batch_records() {
    let put = WriteBatchRecord::Put(b"k".to_vec(), b"v".to_vec());
    let del = WriteBatchRecord::Del(b"k".to_vec());
    assert!(matches!(put, WriteBatchRecord::Put(k, v) if k == b"k".to_vec() && v == b"v".to_vec()));
    assert!(matches!(del, WriteBatchRecord::Del(k) if k == b"k".to_vec()));
}

#[test]
fn error_messages() {
    assert_eq!(LsmError::Corruption.message(), "corrupted block or table");
    assert_eq!(LsmError::InvariantViolated.message(), "operation not allowed on these arguments");
    assert_eq!(LsmError::IteratorErrored.message(), "iterator has errored");
}

#[test]
fn table_file_names() {
    assert_eq!(sst_file_name(0), b"00000.sst".to_vec());
    assert_eq!(sst_file_name(7), b"00007.sst".to_vec());
    assert_eq!(sst_file_name(40), b"00040.sst".to_vec());
    assert_eq!(sst_file_name(12345), b"12345.sst".to_vec());
    assert_eq!(sst_file_name(99999), b"99999.sst".to_vec());
    assert_eq!(sst_file_name(100000), b"100000.sst".to_vec());
    assert_eq!(sst_file_name(1234567890), b"1234567890.sst".to_vec());
}

#[test]
fn trigger_compaction_follows_the_strategy() {
    let simple = SimpleLeveledCompactionOptions {
        size_ratio_percent: 200,
        level0_file_num_compaction_trigger: 2,
        max_levels: 1,
    };
    let options = LsmStorageOptions::default_for_week2_test(CompactionOptions::Simple(simple));
    let mut e = LsmStorageInner::open(options).unwrap();
    e.put(b"a", b"1").unwrap();
    e.force_flush().unwrap();
    // one table in level 0 is not enough
    assert_eq!(e.trigger_compaction(), Ok(vec![]));
    assert_eq!(e.state.l0_sstables.len(), 1);
    e.put(b"b", b"2").unwrap();
    e.force_flush().unwrap();
    let l0 = e.state.l0_sstables.clone();
    assert_eq!(e.trigger_compaction(), Ok(l0));
    assert!(e.state.l0_sstables.is_empty());
    assert_eq!(e.state.levels[0].1.len(), 1);
    assert_eq!(get(&e, "a"), Some("1".to_string()));
    assert_eq!(get(&e, "b"), Some("2".to_string()));
    assert_eq!(e.trigger_compaction(), Ok(vec![]));
    // without a strategy nothing is done
    let mut e = engine();
    e.put(b"a", b"1").unwrap();
    e.force_flush().unwrap();
    e.put(b"b", b"2").unwrap();
    e.force_flush().unwrap();
    assert_eq!(e.trigger_compaction(), Ok(vec![]));
    assert_eq!(e.state.l0_sstables.len(), 2);
}

#[test]
fn open_gives_an_empty_engine() {
    let e = engine();
    assert!(matches!(e.compaction_controller, CompactionController::NoCompaction));
    assert_eq!(e.next_sst_id, 1);
    assert_eq!(e.state.memtable.id(), 0);
    assert_eq!(e.state.memtable.approximate_size(), 0);
    assert!(e.state.memtable.is_empty());
    assert!(e.state.imm_memtables.is_empty());
    assert!(e.state.l0_sstables.is_empty());
    assert!(e.state.sstables.is_empty());
    assert_eq!(e.state.levels, vec![(1, vec![])]);
    let simple = SimpleLeveledCompactionOptions {
        size_ratio_percent: 200,
        level0_file_num_compaction_trigger: 2,
        max_levels: 2,
    };
    let options = LsmStorageOptions::default_for_week2_test(CompactionOptions::Simple(simple));
    let e = LsmStorageInner::open(options).unwrap();
    assert!(matches!(e.compaction_controller, CompactionController::Simple(_)));
    assert!(e.state.sstables.is_empty());
    assert_eq!(e.state.levels, vec![(1, vec![]), (2, vec![])]);
}

#[test]
fn flush_leaves_the_other_tables_alone() {
    let mut e = engine();
    e.put(b"a", b"1").unwrap();
    e.force_flush().unwrap();
    assert_eq!(e.next_sst_id, 2);
    assert_eq!(e.state.l0_sstables, vec![0]);
    let first = e.state.sstables[&0].clone();
    assert_eq!(first.sst_id(), 0);
    e.put(b"b", b"2").unwrap();
    e.force_freeze_memtable().unwrap();
    assert_eq!(e.next_sst_id, 3);
    e.force_flush_next_imm_memtable().unwrap();
    assert_eq!(e.next_sst_id, 3);
    assert_eq!(e.state.l0_sstables, vec![1, 0]);
    assert_eq!(e.state.sstables.len(), 2);
    assert!(std::sync::Arc::ptr_eq(&first, &e.state.sstables[&0]));
    assert_eq!(e.state.sstables[&1].sst_id(), 1);
    assert_eq!(e.state.sstables[&1].first_key(), b"b");
    // a memtable without entries is dropped and gives no table
    e.force_freeze_memtable().unwrap();
    e.force_flush_next_imm_memtable().unwrap();
    assert_eq!(e.state.l0_sstables, vec![1, 0]);
    assert_eq!(e.state.sstables.len(), 2);
    assert!(e.state.imm_memtables.is_empty());
    assert_eq!(e.force_flush_next_imm_memtable(), Err(LsmError::InvariantViolated));
}

#[test]
fn keys_without_fingerprint_are_read_from_tables() {
    let wide: [u8; 5] = [0xFF, 0xFF, 0xFF, 0xFF, 0x00];
    let other: [u8; 12] = [0xFF; 12];
    let mut e = engine();
    e.put(&wide, b"1").unwrap();
    e.put(b"plain", b"2").unwrap();
    e.force_flush().unwrap();
    assert!(e.state.memtable.is_empty());
    assert_eq!(e.get(&wide).unwrap().map(|b| b.to_vec()), Some(b"1".to_vec()));
    assert_eq!(e.get(b"plain").unwrap().map(|b| b.to_vec()), Some(b"2".to_vec()));
    assert_eq!(e.get(&other).unwrap(), None);
    e.force_full_compaction().unwrap();
    assert_eq!(e.get(&wide).unwrap().map(|b| b.to_vec()), Some(b"1".to_vec()));
    assert_eq!(e.get(&other).unwrap(), None);
}

#[test]
fn freeze_without_an_identifier_changes_nothing() {
    let mut e = engine();
    e.put(b"a", b"1").unwrap();
    e.next_sst_id = usize::MAX;
    assert_eq!(e.force_freeze_memtable(), Err(LsmError::InvariantViolated));
    assert_eq!(e.next_sst_id, usize::MAX);
    assert!(e.state.imm_memtables.is_empty());
    assert_eq!(get(&e, "a"), Some("1".to_string()));
    e.next_sst_id = usize::MAX - 1;
    e.force_freeze_memtable().unwrap();
    assert_eq!(e.state.memtable.id(), usize::MAX - 1);
    assert_eq!(e.state.imm_memtables.len(), 1);
    assert_eq!(get(&e, "a"), Some("1".to_string()));
}

#[test]
fn scan_gives_what_get_gives() {
    let mut e = engine();
    e.put(b"a", b"deep").unwrap();
    e.put(b"b", b"deep").unwrap();
    e.put(b"c", b"deep").unwrap();
    e.force_flush().unwrap();
    e.force_full_compaction().unwrap();
    e.put(b"b", b"level0").unwrap();
    e.put(b"d", b"level0").unwrap();
    e.force_flush().unwrap();
    e.put(b"c", b"frozen").unwrap();
    e.force_freeze_memtable().unwrap();
    e.put(b"e", b"active").unwrap();
    e.put(b"f", b"active").unwrap();
    e.delete(b"f").unwrap();
    let all = scan_all(&e);
    assert_eq!(
        all,
        pairs(&[("a", "deep"), ("b", "level0"), ("c", "frozen"), ("d", "level0"), ("e", "active")])
    );
    for key in ["a", "b", "c", "d", "e", "f", "g", ""] {
        let scanned = all.iter().find(|(k, _)| k == key).map(|(_, v)| v.clone());
        assert_eq!(scanned, get(&e, key));
    }
    // a scan of a range holds nothing for the keys outside it
    let part = scan(&e, exc("a"), inc("c"));
    assert_eq!(part, pairs(&[("b", "level0"), ("c", "frozen")]));
    for key in ["b", "c"] {
        let scanned = part.iter().find(|(k, _)| k == key).map(|(_, v)| v.clone());
        assert_eq!(scanned, get(&e, key));
    }
    // a key deleted in the memtable while level 0 holds a value for it
    // is neither read nor scanned
    e.delete(b"d").unwrap();
    assert_eq!(get(&e, "d"), None);
    assert_eq!(scan(&e, inc("d"), inc("d")), pairs(&[]));
    // nor one deleted in level 0 while level 1 holds a value for it
    e.delete(b"a").unwrap();
    e.force_flush().unwrap();
    e.force_flush().unwrap();
    assert!(e.state.imm_memtables.is_empty());
    assert_eq!(get(&e, "a"), None);
    assert_eq!(
        scan_all(&e),
        pairs(&[("b", "level0"), ("c", "frozen"), ("e", "active")])
    );
}

#[test]
fn a_deleted_key_does_not_come_back_from_level0() {
    let mut e = engine();
    e.put(b"x", b"old").unwrap();
    e.force_flush().unwrap();
    e.delete(b"x").unwrap();
    assert_eq!(get(&e, "x"), None);
    let iter = e.scan(&Bound::Unbounded, &Bound::Unbounded).unwrap();
    assert!(!iter.is_valid());
}

fn entries_of_level(e: &LsmStorageInner, level: usize) -> Vec<(String, String)> {
    let mut out = Vec::new();
    for id in &e.state.levels[level - 1].1 {
        let mut iter = SsTableIterator::create_and_seek_to_first(e.state.sstables[id].clone()).unwrap();
        while iter.is_valid() {
            out.push((
                String::from_utf8(iter.key().to_vec()).unwrap(),
                String::from_utf8(iter.value().to_vec()).unwrap(),
            ));
            iter.next().unwrap();
        }
    }
    out
}

#[test]
fn trigger_compaction_moves_tables_down_the_levels() {
    let simple = SimpleLeveledCompactionOptions {
        size_ratio_percent: 200,
        level0_file_num_compaction_trigger: 2,
        max_levels: 3,
    };
    let options = LsmStorageOptions::default_for_week2_test(CompactionOptions::Simple(simple));
    let mut e = LsmStorageInner::open(options).unwrap();
    e.put(b"a", b"1").unwrap();
    e.put(b"b", b"2").unwrap();
    e.force_flush().unwrap();
    e.delete(b"a").unwrap();
    e.put(b"c", b"3").unwrap();
    e.force_flush().unwrap();
    let reads = |e: &LsmStorageInner| {
        assert_eq!(get(e, "a"), None);
        assert_eq!(get(e, "b"), Some("2".to_string()));
        assert_eq!(get(e, "c"), Some("3".to_string()));
        assert_eq!(scan_all(e), pairs(&[("b", "2"), ("c", "3")]));
    };
    reads(&e);
    // level 0 into level 1: the tombstone stays, since deeper levels follow
    let l0 = e.state.l0_sstables.clone();
    assert_eq!(e.trigger_compaction(), Ok(l0));
    assert!(e.state.l0_sstables.is_empty());
    assert_eq!(entries_of_level(&e, 1), pairs(&[("a", ""), ("b", "2"), ("c", "3")]));
    assert!(e.state.levels[1].1.is_empty() && e.state.levels[2].1.is_empty());
    reads(&e);
    // level 1 into level 2
    let l1 = e.state.levels[0].1.clone();
    let next = e.next_sst_id;
    assert_eq!(e.trigger_compaction(), Ok(l1.clone()));
    assert!(e.state.levels[0].1.is_empty());
    assert_eq!(e.state.levels[1].1, vec![next]);
    assert_eq!(e.next_sst_id, next + 1);
    assert_eq!(entries_of_level(&e, 2), pairs(&[("a", ""), ("b", "2"), ("c", "3")]));
    assert_eq!(e.state.sstables.len(), 1);
    assert!(!e.state.sstables.contains_key(&l1[0]));
    reads(&e);
    // level 2 into level 3, the deepest: the tombstone is dropped
    let l2 = e.state.levels[1].1.clone();
    assert_eq!(e.trigger_compaction(), Ok(l2));
    assert!(e.state.levels[0].1.is_empty() && e.state.levels[1].1.is_empty());
    assert_eq!(entries_of_level(&e, 3), pairs(&[("b", "2"), ("c", "3")]));
    reads(&e);
    // nothing is left to do
    assert_eq!(e.trigger_compaction(), Ok(vec![]));
    // a newer value in an upper level wins over the deeper one
    e.put(b"b", b"new").unwrap();
    e.delete(b"c").unwrap();
    e.force_flush().unwrap();
    e.put(b"d", b"4").unwrap();
    e.force_flush().unwrap();
    e.trigger_compaction().unwrap();
    e.trigger_compaction().unwrap();
    assert_eq!(entries_of_level(&e, 2), pairs(&[("b", "new"), ("c", ""), ("d", "4")]));
    assert_eq!(entries_of_level(&e, 3), pairs(&[("b", "2"), ("c", "3")]));
    assert_eq!(get(&e, "b"), Some("new".to_string()));
    assert_eq!(get(&e, "c"), None);
    assert_eq!(scan_all(&e), pairs(&[("b", "new"), ("d", "4")]));
}

#[test]
fn delete_stores_a_tombstone_as_a_put_does() {
    let mut e = engine_with(12, 4096);
    e.put(b"abc", b"defg").unwrap(); // 7 bytes
    e.delete(b"abc").unwrap(); // 3 bytes more
    assert_eq!(e.state.memtable.approximate_size(), 10);
    assert_eq!(e.state.memtable.get(b"abc").map(|b| b.to_vec()), Some(vec![]));
    assert!(e.state.imm_memtables.is_empty());
    assert_eq!(e.next_sst_id, 1);
    // a delete of a key that was never put stores a tombstone too, and
    // freezes the memtable where it has reached its size
    e.delete(b"zz").unwrap(); // 12 bytes: frozen
    assert_eq!(e.state.memtable.approximate_size(), 0);
    assert!(e.state.memtable.is_empty());
    assert_eq!(e.state.memtable.id(), 1);
    assert_eq!(e.next_sst_id, 2);
    assert_eq!(e.state.imm_memtables.len(), 1);
    assert_eq!(e.state.imm_memtables[0].id(), 0);
    assert_eq!(e.state.imm_memtables[0].get(b"zz").map(|b| b.to_vec()), Some(vec![]));
    assert_eq!(e.state.imm_memtables[0].get(b"abc").map(|b| b.to_vec()), Some(vec![]));
    // the tombstones are written out with the memtable
    e.force_flush().unwrap();
    assert_eq!(e.state.memtable.approximate_size(), 0);
    assert!(e.state.imm_memtables.is_empty());
    let table = e.state.sstables[&0].clone();
    let mut iter = SsTableIterator::create_and_seek_to_first(table).unwrap();
    assert_eq!((iter.key(), iter.value()), (&b"abc"[..], &b""[..]));
    iter.next().unwrap();
    assert_eq!((iter.key(), iter.value()), (&b"zz"[..], &b""[..]));
}

#[test]
fn force_flush_keeps_the_other_frozen_memtables() {
    let mut e = engine();
    e.put(b"a", b"1").unwrap();
    e.force_freeze_memtable().unwrap();
    e.put(b"b", b"2").unwrap();
    e.force_freeze_memtable().unwrap();
    e.put(b"c", b"3").unwrap();
    assert_eq!(e.state.imm_memtables.iter().map(|m| m.id()).collect::<Vec<_>>(), vec![1, 0]);
    // the memtable is frozen and the oldest frozen memtable written out
    e.force_flush().unwrap();
    assert_eq!(e.state.imm_memtables.iter().map(|m| m.id()).collect::<Vec<_>>(), vec![2, 1]);
    assert_eq!(e.state.memtable.id(), 3);
    assert_eq!(e.state.memtable.approximate_size(), 0);
    assert_eq!(e.state.l0_sstables, vec![0]);
    // with an empty memtable nothing is frozen
    e.force_flush().unwrap();
    assert_eq!(e.state.imm_memtables.iter().map(|m| m.id()).collect::<Vec<_>>(), vec![2]);
    assert_eq!(e.state.memtable.id(), 3);
    assert_eq!(e.state.l0_sstables, vec![1, 0]);
}
