use mini_lsm::bound::Bound;
use mini_lsm::compact::simple_leveled::{
    SimpleLeveledCompactionController, SimpleLeveledCompactionOptions,
    SimpleLeveledCompactionTask,
};
use mini_lsm::compact::{
    contains_id, copy_ids, drain_into_tables, remove_ids, CompactionController,
    CompactionOptions, CompactionTask,
};
use mini_lsm::error::LsmError;
use mini_lsm::iterators::StorageIterator;
use mini_lsm::lsm_storage::{LsmStorageOptions, LsmStorageState};
use mini_lsm::mem_table::MemTable;
use mini_lsm::table::iterator::SsTableIterator;

fn options(ratio: usize, trigger: usize, levels: usize) -> SimpleLeveledCompactionOptions {
    SimpleLeveledCompactionOptions {
        size_ratio_percent: ratio,
        level0_file_num_compaction_trigger: trigger,
        max_levels: levels,
    }
}

fn state(l0: &[usize], levels: &[&[usize]]) -> LsmStorageState {
    let mut o = LsmStorageOptions::default_for_week2_test(CompactionOptions::Simple(options(
        200,
        2,
        levels.len(),
    )));
    o.block_size = 64;
    let mut s = LsmStorageState::create(&o);
    s.l0_sstables = l0.to_vec();
    assert_eq!(s.levels.len(), levels.len());
    for (i, ids) in levels.iter().enumerate() {
        assert_eq!(s.levels[i].0, i + 1);
        s.levels[i].1 = ids.to_vec();
    }
    s
}

#[test]
fn id_lists() {
    assert!(contains_id(&[1, 2, 3], 2));
    assert!(!contains_id(&[1, 2, 3], 4));
    assert!(!contains_id(&[], 4));
    assert_eq!(copy_ids(&[3, 1, 2]), vec![3, 1, 2]);
    assert_eq!(remove_ids(&[5, 4, 3, 2, 1], &[4, 2, 9]), vec![5, 3, 1]);
    assert_eq!(remove_ids(&[1, 1, 2], &[1]), vec![2]);
    assert_eq!(remove_ids(&[1, 2], &[]), vec![1, 2]);
}

#[test]
fn simple_leveled_level0_trigger() {
    let ctrl = SimpleLeveledCompactionController::new(options(200, 2, 3));
    let s = state(&[9, 8], &[&[1, 2], &[], &[]]);
    let task = ctrl.generate_compaction_task(&s).unwrap();
    assert_eq!(task.upper_level, None);
    assert_eq!(task.upper_level_sst_ids, vec![9, 8]);
    assert_eq!(task.lower_level, 1);
    assert_eq!(task.lower_level_sst_ids, vec![1, 2]);
    assert!(!task.is_lower_level_bottom_level);
    let s = state(&[9, 8, 7], &[&[1]]);
    let task = ctrl.generate_compaction_task(&s).unwrap();
    assert!(task.is_lower_level_bottom_level);
}

#[test]
fn simple_leveled_ratio_trigger() {
    let ctrl = SimpleLeveledCompactionController::new(options(200, 2, 3));
    // level 2 holds 3 tables for 2 of level 1: 150 for each hundred, below 200
    let s = state(&[9], &[&[1, 2], &[3, 4, 5], &[]]);
    let task = ctrl.generate_compaction_task(&s).unwrap();
    assert_eq!(task.upper_level, Some(1));
    assert_eq!(task.upper_level_sst_ids, vec![1, 2]);
    assert_eq!(task.lower_level, 2);
    assert_eq!(task.lower_level_sst_ids, vec![3, 4, 5]);
    assert!(!task.is_lower_level_bottom_level);
    // exactly 200 for each hundred is enough
    let s = state(&[9], &[&[1, 2], &[3, 4, 5, 6], &[10, 11, 12, 13, 14, 15, 16, 17]]);
    assert!(ctrl.generate_compaction_task(&s).is_none());
    // the first level that is too small is taken
    let s = state(&[], &[&[1], &[3, 4], &[5]]);
    let task = ctrl.generate_compaction_task(&s).unwrap();
    assert_eq!(task.upper_level, Some(2));
    assert_eq!(task.lower_level, 3);
    assert!(task.is_lower_level_bottom_level);
    // an empty level is never merged from
    let s = state(&[], &[&[], &[], &[]]);
    assert!(ctrl.generate_compaction_task(&s).is_none());
}

#[test]
fn simple_leveled_ratio_is_exact() {
    // 29 tables below 100: exactly 29 for each hundred
    let upper: Vec<usize> = (0..100).collect();
    let lower: Vec<usize> = (100..129).collect();
    let s = state(&[], &[&upper, &lower]);
    let at = SimpleLeveledCompactionController::new(options(29, 1000, 2));
    assert!(at.generate_compaction_task(&s).is_none());
    let above = SimpleLeveledCompactionController::new(options(30, 1000, 2));
    assert!(above.generate_compaction_task(&s).is_some());
}

#[test]
fn simple_leveled_apply_from_level0() {
    let ctrl = SimpleLeveledCompactionController::new(options(200, 2, 2));
    let s = state(&[9, 8], &[&[1, 2], &[3]]);
    let task = ctrl.generate_compaction_task(&s).unwrap();
    // a table came to level 0 while the merge ran
    let mut s = s;
    s.l0_sstables.insert(0, 10);
    let (after, obsolete) = ctrl.apply_compaction_result(s, &task, &[20, 21]);
    assert_eq!(after.l0_sstables, vec![10]);
    assert_eq!(after.levels[0], (1, vec![20, 21]));
    assert_eq!(after.levels[1], (2, vec![3]));
    assert_eq!(obsolete, vec![9, 8, 1, 2]);
    assert!(after.imm_memtables.is_empty());
    assert!(after.sstables.is_empty());
}

#[test]
fn simple_leveled_apply_between_levels() {
    let ctrl = SimpleLeveledCompactionController::new(options(200, 5, 3));
    let s = state(&[9], &[&[1, 2], &[3], &[4]]);
    let task = SimpleLeveledCompactionTask {
        upper_level: Some(1),
        upper_level_sst_ids: vec![1, 2],
        lower_level: 2,
        lower_level_sst_ids: vec![3],
        is_lower_level_bottom_level: false,
    };
    let (after, obsolete) = ctrl.apply_compaction_result(s, &task, &[30]);
    assert_eq!(after.l0_sstables, vec![9]);
    assert_eq!(after.levels[0], (1, vec![]));
    assert_eq!(after.levels[1], (2, vec![30]));
    assert_eq!(after.levels[2], (3, vec![4]));
    assert_eq!(obsolete, vec![1, 2, 3]);
}

#[test]
fn compaction_controller_forwards() {
    let ctrl =
        CompactionController::Simple(SimpleLeveledCompactionController::new(options(200, 1, 1)));
    assert!(ctrl.flush_to_l0());
    assert!(CompactionController::NoCompaction.flush_to_l0());
    let s = state(&[5], &[&[]]);
    let task = ctrl.generate_compaction_task(&s).unwrap();
    assert!(task.compact_to_bottom_level());
    assert!(matches!(&task, CompactionTask::Simple(t) if t.upper_level_sst_ids == vec![5]));
    let (after, obsolete) = ctrl.apply_compaction_result(s, &task, &[6], false);
    assert!(after.l0_sstables.is_empty());
    assert_eq!(after.levels[0].1, vec![6]);
    assert_eq!(obsolete, vec![5]);
    let full = CompactionTask::ForceFullCompaction { l0_sstables: vec![], l1_sstables: vec![] };
    assert!(full.compact_to_bottom_level());
    let s = state(&[], &[&[1], &[2, 3]]);
    assert!(ctrl.generate_compaction_task(&s).is_none());
}

#[test]
fn drain_cuts_tables_at_the_target() {
    let mut table = MemTable::create(0);
    for i in 0..200 {
        table.put(format!("k{:03}", i).as_bytes(), b"0123456789").unwrap();
    }
    let iter = table.scan(&Bound::Unbounded, &Bound::Unbounded);
    let tables = drain_into_tables(iter, 64, 256, 40, false).unwrap();
    assert!(tables.len() > 2);
    let mut seen = 0;
    for (j, t) in tables.iter().enumerate() {
        assert_eq!(t.sst_id(), 40 + j);
        let mut it = SsTableIterator::create_and_seek_to_first(t.clone()).unwrap();
        while it.is_valid() {
            assert_eq!(it.key(), format!("k{:03}", seen).as_bytes());
            seen += 1;
            it.next().unwrap();
        }
    }
    assert_eq!(seen, 200);
    let iter = table.scan(&Bound::Unbounded, &Bound::Unbounded);
    assert_eq!(
        drain_into_tables(iter, 64, 256, usize::MAX - 1, false).err(),
        Some(LsmError::InvariantViolated)
    );
    let none = MemTable::create(0).scan(&Bound::Unbounded, &Bound::Unbounded);
    assert!(drain_into_tables(none, 64, 256, 0, true).unwrap().is_empty());
}

#[test]
fn drain_drops_tombstones_only_if_asked() {
    let mut table = MemTable::create(0);
    table.put(b"a", b"").unwrap();
    table.put(b"b", b"2").unwrap();
    table.put(b"c", b"").unwrap();
    let entries_of = |tables: Vec<std::sync::Arc<mini_lsm::table::SsTable>>| {
        let mut out = Vec::new();
        for t in tables {
            let mut it = SsTableIterator::create_and_seek_to_first(t).unwrap();
            while it.is_valid() {
                out.push((it.key().to_vec(), it.value().to_vec()));
                it.next().unwrap();
            }
        }
        out
    };
    let kept = drain_into_tables(table.scan(&Bound::Unbounded, &Bound::Unbounded), 64, 256, 0, false);
    assert_eq!(
        entries_of(kept.unwrap()),
        vec![
            (b"a".to_vec(), vec![]),
            (b"b".to_vec(), b"2".to_vec()),
            (b"c".to_vec(), vec![]),
        ]
    );
    let dropped = drain_into_tables(table.scan(&Bound::Unbounded, &Bound::Unbounded), 64, 256, 0, true);
    assert_eq!(entries_of(dropped.unwrap()), vec![(b"b".to_vec(), b"2".to_vec())]);
    // where nothing is left to write, no table is made
    let mut gone = MemTable::create(0);
    gone.put(b"a", b"").unwrap();
    let none = drain_into_tables(gone.scan(&Bound::Unbounded, &Bound::Unbounded), 64, 256, 0, true);
    assert!(none.unwrap().is_empty());
}
