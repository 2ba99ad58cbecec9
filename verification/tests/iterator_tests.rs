use mini_lsm::bound::Bound;
use mini_lsm::error::LsmError;
use mini_lsm::iterators::concat_iterator::SstConcatIterator;
use mini_lsm::iterators::merge_iterator::{find_winner, MergeIterator};
use mini_lsm::iterators::two_merge_iterator::TwoMergeIterator;
use mini_lsm::iterators::StorageIterator;
use mini_lsm::lsm_iterator::FusedIterator;
use mini_lsm::mem_table::{MemTable, MemTableIterator};
use mini_lsm::table::builder::SsTableBuilder;
use mini_lsm::table::SsTable;
use std::sync::Arc;

fn mem_iter(entries: &[(&str, &str)]) -> MemTableIterator {
    let mut table = MemTable::create(0);
    for (k, v) in entries {
        table.put(k.as_bytes(), v.as_bytes()).unwrap();
    }
    table.scan(&Bound::Unbounded, &Bound::Unbounded)
}

fn drain<I: StorageIterator>(iter: &mut I) -> Vec<(String, String)> {
    let mut out = Vec::new();
    while iter.is_valid() {
        out.push((
            String::from_utf8(iter.key().to_vec()).unwrap(),
            String::from_utf8(iter.value().to_vec()).unwrap(),
        ));
        iter.next().unwrap();
    }
    out
}

fn pairs(entries: &[(&str, &str)]) -> Vec<(String, String)> {
    entries.iter().map(|(k, v)| (k.to_string(), v.to_string())).collect()
}

fn table(entries: &[(&str, &str)], id: usize) -> Arc<SsTable> {
    let mut builder = SsTableBuilder::new(32);
    for (k, v) in entries {
        builder.add(k.as_bytes(), v.as_bytes());
    }
    Arc::new(builder.build(id).unwrap())
}

/// Gives its entries and then reports an error.
struct Failing {
    entries: Vec<(Vec<u8>, Vec<u8>)>,
    pos: usize,
}

impl StorageIterator for Failing {
    fn wf(&self) -> bool {
        unreachable!()
    }

    fn remaining(&self) -> vstd::seq::Seq<(vstd::seq::Seq<u8>, vstd::seq::Seq<u8>)> {
        unreachable!()
    }

    fn can_fail() -> bool {
        unreachable!()
    }

    fn active_iterators(&self) -> usize {
        unreachable!()
    }

    fn is_valid(&self) -> bool {
        self.pos < self.entries.len()
    }

    fn key(&self) -> &[u8] {
        &self.entries[self.pos].0
    }

    fn value(&self) -> &[u8] {
        &self.entries[self.pos].1
    }

    fn next(&mut self) -> Result<(), LsmError> {
        if self.pos + 1 >= self.entries.len() {
            return Err(LsmError::Corruption);
        }
        self.pos += 1;
        Ok(())
    }

    fn num_active_iterators(&self) -> usize {
        1
    }
}

#[test]
fn merge_iterator_smaller_index_wins() {
    let a = mem_iter(&[("a", "1.1"), ("b", "2.1"), ("c", "3.1")]);
    let b = mem_iter(&[("a", "1.2"), ("b", "2.2"), ("c", "3.2"), ("d", "4.2")]);
    let c = mem_iter(&[("b", "2.3"), ("c", "3.3"), ("d", "4.3"), ("e", "5.3")]);
    let mut merged = MergeIterator::create(vec![a, b, c]);
    assert_eq!(
        drain(&mut merged),
        pairs(&[("a", "1.1"), ("b", "2.1"), ("c", "3.1"), ("d", "4.2"), ("e", "5.3")])
    );
    let a = mem_iter(&[("a", "1.1"), ("b", "2.1"), ("c", "3.1")]);
    let b = mem_iter(&[("a", "1.2"), ("b", "2.2"), ("c", "3.2"), ("d", "4.2")]);
    let c = mem_iter(&[("b", "2.3"), ("c", "3.3"), ("d", "4.3"), ("e", "5.3")]);
    let mut merged = MergeIterator::create(vec![c, b, a]);
    assert_eq!(
        drain(&mut merged),
        pairs(&[("a", "1.2"), ("b", "2.3"), ("c", "3.3"), ("d", "4.3"), ("e", "5.3")])
    );
}

#[test]
fn merge_iterator_keeps_tombstones() {
    let a = mem_iter(&[("a", ""), ("c", "3")]);
    let b = mem_iter(&[("a", "1"), ("b", "2")]);
    let mut merged = MergeIterator::create(vec![a, b]);
    assert_eq!(merged.num_active_iterators(), 1);
    assert_eq!(drain(&mut merged), pairs(&[("a", ""), ("b", "2"), ("c", "3")]));
}

#[test]
fn merge_iterator_of_nothing() {
    let mut merged: MergeIterator<MemTableIterator> = MergeIterator::create(vec![]);
    assert!(!merged.is_valid());
    merged.next().unwrap();
    assert!(!merged.is_valid());
    let mut merged = MergeIterator::create(vec![mem_iter(&[]), mem_iter(&[])]);
    assert!(!merged.is_valid());
    assert_eq!(drain(&mut merged), pairs(&[]));
}

#[test]
fn find_winner_takes_the_first_of_the_smallest() {
    let iters = vec![mem_iter(&[("b", "1")]), mem_iter(&[("a", "2")]), mem_iter(&[("a", "3")])];
    assert_eq!(find_winner(&iters), Some(1));
    let iters = vec![mem_iter(&[]), mem_iter(&[])];
    assert_eq!(find_winner(&iters), None);
}

#[test]
fn two_merge_iterator_first_wins() {
    let a = mem_iter(&[("a", "1.1"), ("b", "2.1"), ("c", "3.1")]);
    let b = mem_iter(&[("a", "1.2"), ("b", "2.2"), ("c", "3.2"), ("d", "4.2")]);
    let mut merged = TwoMergeIterator::create(a, b).unwrap();
    assert_eq!(
        drain(&mut merged),
        pairs(&[("a", "1.1"), ("b", "2.1"), ("c", "3.1"), ("d", "4.2")])
    );
    let a = mem_iter(&[("a", "1.1"), ("b", "2.1"), ("c", "3.1")]);
    let b = mem_iter(&[("a", "1.2"), ("b", "2.2"), ("c", "3.2"), ("d", "4.2")]);
    let mut merged = TwoMergeIterator::create(b, a).unwrap();
    assert_eq!(
        drain(&mut merged),
        pairs(&[("a", "1.2"), ("b", "2.2"), ("c", "3.2"), ("d", "4.2")])
    );
}

#[test]
fn two_merge_iterator_lets_tombstones_win() {
    let a = mem_iter(&[("a", ""), ("b", "2.1"), ("c", ""), ("e", "")]);
    let b = mem_iter(&[("b", ""), ("c", "3.2"), ("d", ""), ("f", "6.2")]);
    let mut merged = TwoMergeIterator::create(a, b).unwrap();
    assert_eq!(
        drain(&mut merged),
        pairs(&[("a", ""), ("b", "2.1"), ("c", ""), ("d", ""), ("e", ""), ("f", "6.2")])
    );
    // a tombstone of the first hides the value of the second
    let mut merged =
        TwoMergeIterator::create(mem_iter(&[("k", "")]), mem_iter(&[("k", "old")])).unwrap();
    assert!(merged.is_valid());
    assert_eq!(merged.key(), b"k");
    assert_eq!(merged.value(), b"");
    merged.next().unwrap();
    assert!(!merged.is_valid());
    let mut merged = TwoMergeIterator::create(mem_iter(&[("a", "")]), mem_iter(&[])).unwrap();
    assert!(merged.is_valid());
    merged.next().unwrap();
    assert!(!merged.is_valid());
    assert_eq!(merged.num_active_iterators(), 1);
}

#[test]
fn two_merge_iterator_with_one_side_empty() {
    let mut merged =
        TwoMergeIterator::create(mem_iter(&[]), mem_iter(&[("a", "1"), ("b", "2")])).unwrap();
    assert_eq!(drain(&mut merged), pairs(&[("a", "1"), ("b", "2")]));
    let mut merged =
        TwoMergeIterator::create(mem_iter(&[("a", "1"), ("b", "2")]), mem_iter(&[])).unwrap();
    assert_eq!(drain(&mut merged), pairs(&[("a", "1"), ("b", "2")]));
}

#[test]
fn two_merge_move_to_exist_settles_again() {
    let a = mem_iter(&[("a", "1")]);
    let b = mem_iter(&[("b", "2")]);
    let mut merged = TwoMergeIterator::create(a, b).unwrap();
    merged.move_to_exist().unwrap();
    assert_eq!(drain(&mut merged), pairs(&[("a", "1"), ("b", "2")]));
}

#[test]
fn concat_iterator_walks_table_after_table() {
    let tables = vec![
        table(&[("a", "1"), ("b", "2")], 1),
        table(&[("c", "3")], 2),
        table(&[("d", "4"), ("e", "5"), ("f", "6")], 3),
    ];
    let mut iter = SstConcatIterator::create_and_seek_to_first(tables.clone()).unwrap();
    assert_eq!(iter.num_active_iterators(), 1);
    assert_eq!(
        drain(&mut iter),
        pairs(&[("a", "1"), ("b", "2"), ("c", "3"), ("d", "4"), ("e", "5"), ("f", "6")])
    );
    iter.next().unwrap();
    assert!(!iter.is_valid());
    let mut iter = SstConcatIterator::create_and_seek_to_key(tables.clone(), b"c").unwrap();
    assert_eq!(drain(&mut iter), pairs(&[("c", "3"), ("d", "4"), ("e", "5"), ("f", "6")]));
    let mut iter = SstConcatIterator::create_and_seek_to_key(tables.clone(), b"bb").unwrap();
    assert_eq!(iter.key(), b"c");
    assert_eq!(drain(&mut iter).len(), 4);
    let mut iter = SstConcatIterator::create_and_seek_to_key(tables.clone(), b"e").unwrap();
    assert_eq!(drain(&mut iter), pairs(&[("e", "5"), ("f", "6")]));
    let iter = SstConcatIterator::create_and_seek_to_key(tables.clone(), b"g").unwrap();
    assert!(!iter.is_valid());
    let mut iter = SstConcatIterator::create_and_seek_to_key(tables, b"").unwrap();
    assert_eq!(drain(&mut iter).len(), 6);
    let iter = SstConcatIterator::create_and_seek_to_first(vec![]).unwrap();
    assert!(!iter.is_valid());
    let iter = SstConcatIterator::create_and_seek_to_key(vec![], b"a").unwrap();
    assert!(!iter.is_valid());
}

#[test]
fn fused_iterator_stays_failed() {
    let inner = Failing {
        entries: vec![(b"a".to_vec(), b"1".to_vec()), (b"b".to_vec(), b"2".to_vec())],
        pos: 0,
    };
    let mut fused = FusedIterator::new(inner);
    assert!(fused.is_valid());
    assert_eq!(fused.key(), b"a");
    assert_eq!(fused.num_active_iterators(), 1);
    fused.next().unwrap();
    assert_eq!(fused.key(), b"b");
    assert_eq!(fused.value(), b"2");
    assert_eq!(fused.next(), Err(LsmError::Corruption));
    assert!(!fused.is_valid());
    assert_eq!(fused.next(), Err(LsmError::IteratorErrored));
    assert_eq!(fused.next(), Err(LsmError::IteratorErrored));
    assert!(!fused.is_valid());
    // the count is that of the wrapped iterator, also after an error
    assert_eq!(fused.num_active_iterators(), 1);
}

#[test]
fn fused_iterator_at_its_end_does_nothing() {
    let mut fused = FusedIterator::new(mem_iter(&[("a", "1")]));
    assert!(fused.is_valid());
    fused.next().unwrap();
    assert!(!fused.is_valid());
    fused.next().unwrap();
    fused.next().unwrap();
    assert!(!fused.is_valid());
}

#[test]
fn merge_iterator_hands_errors_on() {
    let failing = Failing { entries: vec![(b"a".to_vec(), b"1".to_vec())], pos: 0 };
    let mut merged = MergeIterator::create(vec![failing]);
    assert!(merged.is_valid());
    assert_eq!(merged.next(), Err(LsmError::Corruption));
    // after the error the merge is at its end
    assert!(!merged.is_valid());
    assert_eq!(merged.next(), Ok(()));
    assert!(!merged.is_valid());
}

#[test]
fn merges_at_their_end_ask_nothing_of_their_inputs() {
    // each of these inputs reports an error wherever it is moved
    let spent = || Failing { entries: vec![], pos: 0 };
    let mut merged = MergeIterator::create(vec![spent(), spent()]);
    assert!(!merged.is_valid());
    assert_eq!(merged.next(), Ok(()));
    assert_eq!(merged.next(), Ok(()));
    let mut two = TwoMergeIterator::create(spent(), spent()).unwrap();
    assert!(!two.is_valid());
    assert_eq!(two.next(), Ok(()));
    assert_eq!(two.move_to_exist(), Ok(()));
    assert!(!two.is_valid());
}

#[test]
fn two_merge_at_rest_moves_no_input() {
    let a = Failing { entries: vec![(b"a".to_vec(), b"1".to_vec())], pos: 0 };
    let b = Failing { entries: vec![(b"b".to_vec(), b"2".to_vec())], pos: 0 };
    let mut two = TwoMergeIterator::create(a, b).unwrap();
    assert_eq!(two.key(), b"a");
    assert_eq!(two.value(), b"1");
    assert_eq!(two.move_to_exist(), Ok(()));
    assert_eq!(two.key(), b"a");
    // the step from the last entry of an input is where these inputs fail
    assert_eq!(two.next(), Err(LsmError::Corruption));
    // after the error the merge is at its end, until it is settled again
    assert!(!two.is_valid());
    assert_eq!(two.next(), Ok(()));
    assert!(!two.is_valid());
    assert_eq!(two.move_to_exist(), Ok(()));
    assert!(two.is_valid());
    assert_eq!(two.key(), b"a");
    // inputs at the same key: the second has to be moved
    let a = Failing { entries: vec![(b"a".to_vec(), b"1".to_vec())], pos: 0 };
    let b = Failing { entries: vec![(b"a".to_vec(), b"2".to_vec())], pos: 0 };
    assert!(TwoMergeIterator::create(a, b).is_err());
    // an input at a tombstone stays where it is
    let a = Failing { entries: vec![(b"a".to_vec(), vec![])], pos: 0 };
    let b = Failing { entries: vec![], pos: 0 };
    let two = TwoMergeIterator::create(a, b).unwrap();
    assert!(two.is_valid());
    assert_eq!(two.value(), b"");
}

#[test]
fn fused_iterator_leaves_a_failed_input_alone() {
    let inner = Failing { entries: vec![(b"a".to_vec(), b"1".to_vec())], pos: 0 };
    let mut fused = FusedIterator::new(inner);
    assert!(fused.is_valid());
    assert_eq!(fused.next(), Err(LsmError::Corruption));
    assert!(!fused.is_valid());
    for _ in 0..3 {
        assert_eq!(fused.next(), Err(LsmError::IteratorErrored));
        assert!(!fused.is_valid());
        assert_eq!(fused.num_active_iterators(), 1);
    }
    // without an error, a wrapper at its end does nothing and succeeds
    let mut fused = FusedIterator::new(Failing { entries: vec![], pos: 0 });
    assert!(!fused.is_valid());
    assert_eq!(fused.next(), Ok(()));
    assert_eq!(fused.next(), Ok(()));
}
