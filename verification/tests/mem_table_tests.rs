use mini_lsm::bound::Bound;
use mini_lsm::error::LsmError;
use mini_lsm::iterators::StorageIterator;
use mini_lsm::mem_table::MemTable;
use mini_lsm::table::builder::SsTableBuilder;
use mini_lsm::table::iterator::SsTableIterator;
use std::sync::Arc;

fn scan(table: &MemTable, lower: Bound, upper: Bound) -> Vec<(Vec<u8>, Vec<u8>)> {
    let mut iter = table.scan(&lower, &upper);
    let mut out = Vec::new();
    while iter.is_valid() {
        out.push((iter.key().to_vec(), iter.value().to_vec()));
        iter.next().unwrap();
    }
    out
}

fn keys(entries: &[(Vec<u8>, Vec<u8>)]) -> Vec<Vec<u8>> {
    entries.iter().map(|e| e.0.clone()).collect()
}

#[test]
fn memtable_put_and_get() {
    let mut table = MemTable::create(5);
    assert_eq!(table.id(), 5);
    assert!(table.is_empty());
    assert_eq!(table.approximate_size(), 0);
    table.put(b"key2", b"value2").unwrap();
    table.put(b"key1", b"value1").unwrap();
    table.put(b"key3", b"value3").unwrap();
    assert!(!table.is_empty());
    assert_eq!(table.get(b"key1").unwrap().to_vec(), b"value1".to_vec());
    assert_eq!(table.get(b"key2").unwrap().to_vec(), b"value2".to_vec());
    assert_eq!(table.get(b"key3").unwrap().to_vec(), b"value3".to_vec());
    assert!(table.get(b"key0").is_none());
    assert!(table.get(b"key4").is_none());
    assert_eq!(table.approximate_size(), 30);
}

#[test]
fn memtable_overwrite_and_tombstone() {
    let mut table = MemTable::create(0);
    table.put(b"k", b"one").unwrap();
    table.put(b"k", b"two").unwrap();
    assert_eq!(table.get(b"k").unwrap().to_vec(), b"two".to_vec());
    table.put(b"k", b"").unwrap();
    assert_eq!(table.get(b"k").unwrap().to_vec(), Vec::<u8>::new());
    // the size counts every put
    assert_eq!(table.approximate_size(), 4 + 4 + 1);
    assert_eq!(scan(&table, Bound::Unbounded, Bound::Unbounded).len(), 1);
}

#[test]
fn memtable_refuses_what_a_block_cannot_hold() {
    let mut table = MemTable::create(0);
    assert_eq!(table.put(b"", b"v"), Err(LsmError::InvariantViolated));
    let long = vec![b'x'; 65536];
    assert_eq!(table.put(&long, b"v"), Err(LsmError::InvariantViolated));
    assert_eq!(table.put(b"k", &long), Err(LsmError::InvariantViolated));
    assert!(table.is_empty());
    assert_eq!(table.approximate_size(), 0);
    let fits = vec![b'x'; 65535];
    assert_eq!(table.put(&fits, &fits), Ok(()));
    assert_eq!(table.approximate_size(), 131070);
}

#[test]
fn memtable_scan_ranges() {
    let mut table = MemTable::create(0);
    for k in ["a", "b", "c", "d", "e"] {
        table.put(k.as_bytes(), k.to_uppercase().as_bytes()).unwrap();
    }
    let inc = |k: &str| Bound::Included(k.as_bytes().to_vec());
    let exc = |k: &str| Bound::Excluded(k.as_bytes().to_vec());
    let ks = |v: &[&str]| -> Vec<Vec<u8>> { v.iter().map(|k| k.as_bytes().to_vec()).collect() };
    assert_eq!(keys(&scan(&table, Bound::Unbounded, Bound::Unbounded)), ks(&["a", "b", "c", "d", "e"]));
    assert_eq!(keys(&scan(&table, inc("b"), inc("d"))), ks(&["b", "c", "d"]));
    assert_eq!(keys(&scan(&table, exc("b"), exc("d"))), ks(&["c"]));
    assert_eq!(keys(&scan(&table, inc("bb"), Bound::Unbounded)), ks(&["c", "d", "e"]));
    assert_eq!(keys(&scan(&table, exc("bb"), inc("dd"))), ks(&["c", "d"]));
    assert_eq!(keys(&scan(&table, Bound::Unbounded, exc("a"))), ks(&[]));
    assert_eq!(keys(&scan(&table, exc("e"), Bound::Unbounded)), ks(&[]));
    assert_eq!(keys(&scan(&table, inc("d"), inc("b"))), ks(&[]));
    assert_eq!(scan(&table, inc("c"), inc("c")), vec![(b"c".to_vec(), b"C".to_vec())]);
}

#[test]
fn memtable_flush_fills_a_table_builder() {
    let mut table = MemTable::create(3);
    for i in (0..100).rev() {
        table.put(format!("k{:03}", i).as_bytes(), format!("v{}", i).as_bytes()).unwrap();
    }
    let mut builder = SsTableBuilder::new(128);
    table.flush(&mut builder).unwrap();
    let sst = Arc::new(builder.build(table.id()).unwrap());
    assert_eq!(sst.sst_id(), 3);
    let mut iter = SsTableIterator::create_and_seek_to_first(sst).unwrap();
    for i in 0..100 {
        assert_eq!(iter.key(), format!("k{:03}", i).as_bytes());
        assert_eq!(iter.value(), format!("v{}", i).as_bytes());
        iter.next().unwrap();
    }
    assert!(!iter.is_valid());
}

#[test]
fn bound_admits_and_duplicates() {
    let upper = Bound::Included(b"m".to_vec());
    assert!(upper.admits(b"m"));
    assert!(upper.admits(b"a"));
    assert!(!upper.admits(b"ma"));
    let upper = Bound::Excluded(b"m".to_vec());
    assert!(!upper.admits(b"m"));
    assert!(upper.admits(b"l"));
    assert!(Bound::Unbounded.admits(b"zzzz"));
    assert!(matches!(upper.duplicate(), Bound::Excluded(k) if k == b"m".to_vec()));
    assert!(matches!(Bound::Unbounded.duplicate(), Bound::Unbounded));
}
