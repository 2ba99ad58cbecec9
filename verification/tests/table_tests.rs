use mini_lsm::error::LsmError;
use mini_lsm::iterators::StorageIterator;
use mini_lsm::table::bloom::{can_fingerprint, try_fingerprint, Bloom};
use mini_lsm::table::builder::SsTableBuilder;
use mini_lsm::table::iterator::SsTableIterator;
use mini_lsm::table::{BlockMeta, FileObject, SsTable};
use std::sync::Arc;

fn key_of(i: usize) -> Vec<u8> {
    format!("key_{:04}", i).into_bytes()
}

fn value_of(i: usize) -> Vec<u8> {
    format!("value_{:08}", i).into_bytes()
}

fn table_of(n: usize, block_size: usize, id: usize) -> SsTable {
    let mut builder = SsTableBuilder::new(block_size);
    for i in 0..n {
        builder.add(&key_of(i), &value_of(i));
    }
    builder.build(id).unwrap()
}

fn drain(mut iter: SsTableIterator) -> Vec<(Vec<u8>, Vec<u8>)> {
    let mut out = Vec::new();
    while iter.is_valid() {
        out.push((iter.key().to_vec(), iter.value().to_vec()));
        iter.next().unwrap();
    }
    out
}

#[test]
fn table_builder_splits_blocks() {
    let table = table_of(100, 128, 7);
    assert_eq!(table.sst_id(), 7);
    assert!(table.num_of_blocks() > 1);
    assert_eq!(table.first_key(), key_of(0).as_slice());
    assert_eq!(table.last_key(), key_of(99).as_slice());
    let entries = drain(SsTableIterator::create_and_seek_to_first(Arc::new(table)).unwrap());
    assert_eq!(entries.len(), 100);
    for (i, (k, v)) in entries.iter().enumerate() {
        assert_eq!(k, &key_of(i));
        assert_eq!(v, &value_of(i));
    }
}

#[test]
fn table_file_is_byte_exact() {
    let mut builder = SsTableBuilder::new(4096);
    builder.add(b"a", b"1");
    builder.add(b"b", b"2");
    assert_eq!(builder.estimated_size(), 0);
    let bytes = builder.encode().unwrap();
    let expected: Vec<u8> = vec![
        0, 0, 0, 1, b'a', 0, 1, b'1', // entry a
        0, 0, 0, 1, b'b', 0, 1, b'2', // entry b
        0, 0, 0, 8, 0, 2, // offsets and number of entries
        0, 1, // number of blocks
        0, 0, 0, 0, 0, 1, b'a', 0, 1, b'b', // offset, first key, last key
        0, 0, 0, 22, // where the index starts
    ];
    assert_eq!(bytes, expected);
    assert_eq!(builder.estimated_size(), 22);
}

#[test]
fn table_open_reads_what_build_wrote() {
    let table = table_of(300, 256, 3);
    let bytes = table.file_contents().to_vec();
    assert_eq!(table.table_size(), bytes.len());
    let opened = SsTable::open(9, FileObject::create(bytes)).unwrap();
    assert_eq!(opened.sst_id(), 9);
    assert_eq!(opened.num_of_blocks(), table.num_of_blocks());
    assert_eq!(opened.first_key(), table.first_key());
    assert_eq!(opened.last_key(), table.last_key());
    let a = drain(SsTableIterator::create_and_seek_to_first(Arc::new(opened)).unwrap());
    let b = drain(SsTableIterator::create_and_seek_to_first(Arc::new(table)).unwrap());
    assert_eq!(a, b);
    assert_eq!(a.len(), 300);
}

#[test]
fn table_open_reports_corruption() {
    assert_eq!(SsTable::open(1, FileObject::create(vec![])).err(), Some(LsmError::Corruption));
    assert_eq!(
        SsTable::open(1, FileObject::create(vec![0, 0, 0, 9])).err(),
        Some(LsmError::Corruption)
    );
    // a table without blocks
    assert_eq!(
        SsTable::open(1, FileObject::create(vec![0, 0, 0, 0, 0, 0])).err(),
        Some(LsmError::Corruption)
    );
    let table = table_of(50, 128, 1);
    let good = table.file_contents().to_vec();
    // a flipped byte in the first key of the index
    let meta_offset = u32::from_be_bytes([
        good[good.len() - 4],
        good[good.len() - 3],
        good[good.len() - 2],
        good[good.len() - 1],
    ]) as usize;
    let mut bad = good.clone();
    bad[meta_offset + 2 + 4 + 2] ^= 0xff;
    assert_eq!(SsTable::open(1, FileObject::create(bad)).err(), Some(LsmError::Corruption));
    // a truncated file
    let mut cut = good.clone();
    cut.truncate(good.len() - 5);
    assert_eq!(SsTable::open(1, FileObject::create(cut)).err(), Some(LsmError::Corruption));
    assert!(SsTable::open(1, FileObject::create(good)).is_ok());
}

#[test]
fn table_build_of_nothing_is_refused() {
    let builder = SsTableBuilder::new(64);
    assert!(builder.is_empty());
    assert_eq!(builder.build(1).err(), Some(LsmError::InvariantViolated));
}

#[test]
fn table_with_too_many_blocks_cannot_be_encoded() {
    // every block holds one entry, and the index counts blocks in 16 bits
    let mut builder = SsTableBuilder::new(1);
    for i in 0..65536u32 {
        builder.add(format!("{:08}", i).as_bytes(), b"");
    }
    assert_eq!(builder.encode().err(), Some(LsmError::InvariantViolated));
    let mut fits = SsTableBuilder::new(1);
    for i in 0..65535u32 {
        fits.add(format!("{:08}", i).as_bytes(), b"");
    }
    assert!(fits.encode().is_ok());
}

#[test]
fn table_split_block_closes_the_block() {
    let mut builder = SsTableBuilder::new(4096);
    builder.add(b"a", b"1");
    builder.split_block();
    builder.split_block();
    assert_eq!(builder.meta.len(), 1);
    assert_eq!(builder.estimated_size(), 8 + 2 + 2);
    builder.add(b"b", b"2");
    let table = builder.build(1).unwrap();
    assert_eq!(table.num_of_blocks(), 2);
    assert_eq!(table.first_key(), b"a");
    assert_eq!(table.last_key(), b"b");
}

#[test]
fn table_iterator_seek_to_key() {
    let table = Arc::new(table_of(200, 100, 1));
    assert!(table.num_of_blocks() > 10);
    for i in 0..200 {
        let iter = SsTableIterator::create_and_seek_to_key(table.clone(), &key_of(i)).unwrap();
        assert!(iter.is_valid());
        assert_eq!(iter.key(), key_of(i).as_slice());
        assert_eq!(iter.value(), value_of(i).as_slice());
    }
    // between two keys: the next one
    let mut probe = key_of(41);
    probe.push(b'!');
    let iter = SsTableIterator::create_and_seek_to_key(table.clone(), &probe).unwrap();
    assert_eq!(iter.key(), key_of(42).as_slice());
    // before the first and after the last
    let iter = SsTableIterator::create_and_seek_to_key(table.clone(), b"a").unwrap();
    assert_eq!(iter.key(), key_of(0).as_slice());
    let iter = SsTableIterator::create_and_seek_to_key(table.clone(), b"z").unwrap();
    assert!(!iter.is_valid());
    let mut iter = SsTableIterator::create_and_seek_to_first(table.clone()).unwrap();
    iter.seek_to_key(&key_of(150)).unwrap();
    assert_eq!(drain(iter).len(), 50);
    let mut iter = SsTableIterator::create_and_seek_to_key(table.clone(), b"z").unwrap();
    iter.next().unwrap();
    assert!(!iter.is_valid());
    iter.seek_to_first().unwrap();
    assert_eq!(iter.key(), key_of(0).as_slice());
    assert_eq!(iter.num_active_iterators(), 1);
}

#[test]
fn table_find_block_idx() {
    let table = table_of(100, 64, 1);
    let blocks = table.num_of_blocks();
    assert_eq!(table.find_block_idx(b"a"), 0);
    assert_eq!(table.find_block_idx(&key_of(0)), 0);
    assert_eq!(table.find_block_idx(b"z"), blocks - 1);
    let mut last = 0;
    for i in 0..100 {
        let idx = table.find_block_idx(&key_of(i));
        assert!(idx >= last);
        let block = table.read_block(idx).unwrap();
        assert!(block.first_key() <= key_of(i).as_slice());
        last = idx;
    }
}

#[test]
fn block_meta_round_trip() {
    let metas = vec![
        BlockMeta { offset: 0, first_key: b"a".to_vec(), last_key: b"c".to_vec() },
        BlockMeta { offset: 0x01020304, first_key: b"d".to_vec(), last_key: b"zz".to_vec() },
    ];
    let mut buf = vec![0xeeu8];
    BlockMeta::encode_block_meta(&metas, &mut buf);
    let expected: Vec<u8> = vec![
        0xee, 0, 2, 0, 0, 0, 0, 0, 1, b'a', 0, 1, b'c', 1, 2, 3, 4, 0, 1, b'd', 0, 2, b'z', b'z',
    ];
    assert_eq!(buf, expected);
    let decoded = BlockMeta::decode_block_meta(&buf[1..]).unwrap();
    assert_eq!(decoded.len(), 2);
    assert_eq!(decoded[1].offset, 0x01020304);
    assert_eq!(decoded[1].first_key, b"d".to_vec());
    assert_eq!(decoded[1].last_key, b"zz".to_vec());
    assert_eq!(BlockMeta::decode_block_meta(&buf).err(), Some(LsmError::Corruption));
    assert_eq!(BlockMeta::decode_block_meta(&[0]).err(), Some(LsmError::Corruption));
    assert_eq!(
        BlockMeta::decode_block_meta(&buf[1..buf.len() - 1]).err(),
        Some(LsmError::Corruption)
    );
}

#[test]
fn file_object_reads_ranges() {
    let file = FileObject::create(vec![1, 2, 3, 4, 5]);
    assert_eq!(file.size(), 5);
    assert_eq!(file.read(1, 3), vec![2, 3, 4]);
    assert_eq!(file.read(5, 0), Vec::<u8>::new());
    assert_eq!(file.bytes(), &[1, 2, 3, 4, 5]);
}

#[test]
fn bloom_filter_lets_its_keys_through() {
    let hashes: Vec<u32> = (0..1000u32).map(|i| i.wrapping_mul(2654435761)).collect();
    let bloom = Bloom::build_from_key_hashes(&hashes, 10);
    for h in &hashes {
        assert!(bloom.may_contain(*h));
    }
    // of a thousand other fingerprints nearly all are turned away
    let turned_away = (0..1000u32)
        .map(|i| i.wrapping_mul(2654435761).wrapping_add(0x9e3779b9))
        .filter(|h| !bloom.may_contain(*h))
        .count();
    assert!(turned_away > 900);
    // a filter made from nothing turns everything away
    let empty = Bloom::build_from_key_hashes(&[], 10);
    assert!(!empty.may_contain(0));
    assert!(!empty.may_contain(12345));
    // with few bits per key there is one place per key
    let small = Bloom::build_from_key_hashes(&[1, 2, 3], 1);
    assert!(small.may_contain(1) && small.may_contain(2) && small.may_contain(3));
}

#[test]
fn table_filter_turns_absent_keys_away() {
    let table = table_of(200, 128, 1);
    for i in 0..200 {
        assert!(table.may_hold(&key_of(i)));
    }
    let turned_away = (200..1200).filter(|i| !table.may_hold(&key_of(*i))).count();
    assert!(turned_away > 900);
    // an opened table has no filter and turns nothing away
    let opened = SsTable::open(2, FileObject::create(table.file_contents().to_vec())).unwrap();
    for i in 0..1200 {
        assert!(opened.may_hold(&key_of(i)));
    }
}

/// Five bytes on which the sum of the length and the first four bytes
/// passes 32 bits.
const WIDE_SHORT_KEY: [u8; 5] = [0xFF, 0xFF, 0xFF, 0xFF, 0x00];

/// Thirteen bytes whose four bytes at half the length, times the factor of
/// the middle, give the largest 32-bit number.
const WIDE_MIDDLE_KEY: [u8; 13] = [b'a', b'b', b'c', b'd', b'e', b'f', 79, 196, 30, 33, b'x', b'y', b'z'];

#[test]
fn fingerprint_is_taken_where_it_can_be() {
    // up to 4 bytes and from 25 bytes on every key has a fingerprint
    assert!(can_fingerprint(b""));
    assert!(can_fingerprint(&[0xFF, 0xFF, 0xFF, 0xFF]));
    assert!(can_fingerprint(&[0xFF; 25]));
    assert!(can_fingerprint(&[0xFF; 100]));
    // between them the sums decide
    assert!(can_fingerprint(b"key_0"));
    assert!(can_fingerprint(b"key_0000"));
    assert!(can_fingerprint(b"a key of 13 b"));
    assert!(!can_fingerprint(&WIDE_SHORT_KEY));
    assert!(!can_fingerprint(&[0x00, 0xFF, 0xFF, 0xFF, 0xFF]));
    assert!(!can_fingerprint(&[0, 0, 0, 0, 0xF7, 0xFF, 0xFF, 0xFF]));
    assert!(can_fingerprint(&[0, 0, 0, 0, 0xF6, 0xFF, 0xFF, 0xFE]));
    assert!(!can_fingerprint(&[0xFF; 12]));
    assert!(!can_fingerprint(&WIDE_MIDDLE_KEY));
    let mut narrow = WIDE_MIDDLE_KEY;
    narrow[6] = 80;
    assert!(can_fingerprint(&narrow));
    // the fingerprint is the one of the hash function
    assert_eq!(try_fingerprint(b"key_0000"), Some(farmhash::fingerprint32(b"key_0000")));
    assert_eq!(try_fingerprint(b""), Some(farmhash::fingerprint32(b"")));
    assert_eq!(try_fingerprint(&[7; 40]), Some(farmhash::fingerprint32(&[7; 40])));
    assert_ne!(try_fingerprint(b"key_0000"), try_fingerprint(b"key_0001"));
    assert_eq!(try_fingerprint(&WIDE_SHORT_KEY), None);
    assert_eq!(try_fingerprint(&WIDE_MIDDLE_KEY), None);
}

#[test]
fn table_takes_keys_without_fingerprint() {
    let mut builder = SsTableBuilder::new(4096);
    builder.add(b"a", b"1");
    builder.add(&WIDE_MIDDLE_KEY, b"2");
    builder.add(&WIDE_SHORT_KEY, b"3");
    let table = builder.build(4).unwrap();
    assert!(table.may_hold(b"a"));
    assert!(table.may_hold(&WIDE_MIDDLE_KEY));
    assert!(table.may_hold(&WIDE_SHORT_KEY));
    // a key without fingerprint is never turned away, in the table or not
    assert!(table.may_hold(&[0xFF; 12]));
    let entries = drain(SsTableIterator::create_and_seek_to_first(Arc::new(table)).unwrap());
    assert_eq!(
        entries,
        vec![
            (b"a".to_vec(), b"1".to_vec()),
            (WIDE_MIDDLE_KEY.to_vec(), b"2".to_vec()),
            (WIDE_SHORT_KEY.to_vec(), b"3".to_vec()),
        ]
    );
}

fn index_of(builder: &SsTableBuilder) -> Vec<(usize, Vec<u8>, Vec<u8>)> {
    builder
        .block_meta()
        .iter()
        .map(|m| (m.offset, m.first_key.clone(), m.last_key.clone()))
        .collect()
}

#[test]
fn table_builder_records_each_closed_block() {
    // a block of 32 bytes takes two of these entries of 12 bytes
    let mut builder = SsTableBuilder::new(32);
    assert_eq!(index_of(&builder), vec![]);
    assert_eq!(builder.estimated_size(), 0);
    builder.add(b"aa", b"1111");
    builder.add(b"bb", b"2222");
    assert_eq!(index_of(&builder), vec![]);
    assert_eq!(builder.estimated_size(), 0);
    builder.add(b"cc", b"3333");
    assert_eq!(index_of(&builder), vec![(0, b"aa".to_vec(), b"bb".to_vec())]);
    assert_eq!(builder.estimated_size(), 30);
    builder.add(b"dd", b"4444");
    assert_eq!(index_of(&builder).len(), 1);
    builder.add(b"ee", b"5555");
    assert_eq!(
        index_of(&builder),
        vec![(0, b"aa".to_vec(), b"bb".to_vec()), (30, b"cc".to_vec(), b"dd".to_vec())]
    );
    assert_eq!(builder.estimated_size(), 60);
    let table = builder.build(9).unwrap();
    assert_eq!(table.num_of_blocks(), 3);
    // the file is the data region, the index and where the index starts
    let bytes = table.file_contents().to_vec();
    assert_eq!(&bytes[bytes.len() - 4..], &[0, 0, 0, 76]);
    assert_eq!(&bytes[60..72], &[0, 0, 0, 2, b'e', b'e', 0, 4, b'5', b'5', b'5', b'5']);
    let opened = SsTable::open(9, FileObject::create(bytes)).unwrap();
    assert_eq!(opened.first_key(), b"aa");
    assert_eq!(opened.last_key(), b"ee");
    assert_eq!(opened.num_of_blocks(), 3);
}
