use mini_lsm::block::builder::BlockBuilder;
use mini_lsm::block::iterator::BlockIterator;
use mini_lsm::block::Block;
use mini_lsm::error::LsmError;
use std::sync::Arc;

fn build(entries: &[(&[u8], &[u8])], block_size: usize) -> Block {
    let mut builder = BlockBuilder::new(block_size);
    for (k, v) in entries {
        assert!(builder.add(k, v));
    }
    builder.build()
}

fn collect(block: Block) -> Vec<(Vec<u8>, Vec<u8>)> {
    let mut iter = BlockIterator::create_and_seek_to_first(Arc::new(block));
    let mut out = Vec::new();
    while iter.is_valid() {
        out.push((iter.key().to_vec(), iter.value().to_vec()));
        iter.next();
    }
    out
}

#[test]
fn block_encode_decode_round_trip() {
    let block = build(&[(b"apple", b"1"), (b"apricot", b"22"), (b"banana", b"")], 4096);
    let encoded = block.encode();
    let decoded = Block::decode(&encoded).unwrap();
    assert_eq!(decoded.data, block.data);
    assert_eq!(decoded.offsets, block.offsets);
    assert_eq!(
        collect(decoded),
        vec![
            (b"apple".to_vec(), b"1".to_vec()),
            (b"apricot".to_vec(), b"22".to_vec()),
            (b"banana".to_vec(), b"".to_vec()),
        ]
    );
}

#[test]
fn block_encoding_is_byte_exact() {
    let block = build(&[(b"ab", b"x"), (b"ac", b"yz")], 4096);
    let expected: Vec<u8> = vec![
        0, 0, 0, 2, b'a', b'b', 0, 1, b'x', // first entry: shares nothing
        0, 1, 0, 1, b'c', 0, 2, b'y', b'z', // second entry: shares "a"
        0, 0, 0, 9, // offsets
        0, 2, // number of entries
    ];
    assert_eq!(block.encode().to_vec(), expected);
    assert_eq!(block.encode_to_vec(), expected);
    assert_eq!(block.data.len(), 18);
    assert_eq!(block.offsets, vec![0u16, 9u16]);
}

#[test]
fn block_first_key_is_the_suffix_of_the_first_entry() {
    let block = build(&[(b"key_one", b"1"), (b"key_two", b"2")], 4096);
    assert_eq!(&block.data[0..2], &[0u8, 0u8]);
    assert_eq!(&block.data[2..4], &[0u8, 7u8]);
    assert_eq!(&block.data[4..11], b"key_one");
    assert_eq!(block.first_key(), b"key_one");
    assert_eq!(block.last_key(), b"key_two".to_vec());
    assert_eq!(block.len(), 2);
}

#[test]
fn block_decode_of_empty_input_is_the_empty_block() {
    let block = Block::decode(&[]).unwrap();
    assert!(block.data.is_empty());
    assert!(block.offsets.is_empty());
    let iter = BlockIterator::create_and_seek_to_first(Arc::new(block));
    assert!(!iter.is_valid());
}

#[test]
fn block_decode_reports_corruption() {
    // one byte cannot hold the number of entries
    assert_eq!(Block::decode(&[7]).err(), Some(LsmError::Corruption));
    // announces more offsets than there are bytes
    assert_eq!(Block::decode(&[0, 0, 0, 3]).err(), Some(LsmError::Corruption));
    // an entry that runs past the end of the data region
    let bad: Vec<u8> = vec![0, 0, 0, 9, b'a', 0, 0, 0, 0, 0, 1];
    assert_eq!(Block::decode(&bad).err(), Some(LsmError::Corruption));
    // keys out of order
    let block = build(&[(b"a", b"1"), (b"b", b"2")], 4096);
    let mut swapped = Vec::new();
    assert_eq!(block.data.len(), 16);
    swapped.extend_from_slice(&block.data[8..16]);
    swapped.extend_from_slice(&block.data[0..8]);
    swapped.extend_from_slice(&[0, 0, 0, 8, 0, 2]);
    assert_eq!(Block::decode(&swapped).err(), Some(LsmError::Corruption));
    // a first entry that claims to share a prefix
    let shares: Vec<u8> = vec![0, 1, 0, 1, b'a', 0, 0, 0, 0, 0, 1];
    assert_eq!(Block::decode(&shares).err(), Some(LsmError::Corruption));
}

#[test]
fn block_builder_first_entry_is_always_taken() {
    let mut builder = BlockBuilder::new(4);
    assert!(builder.is_empty());
    assert!(builder.add(b"a-rather-long-key", b"and-a-long-value"));
    assert!(!builder.is_empty());
    assert!(!builder.add(b"b", b""));
    let block = builder.build();
    assert_eq!(block.len(), 1);
    assert!(block.encode().len() > 4);
}

#[test]
fn block_builder_size_bound() {
    // an entry with a key of 1 byte and a value of 1 byte takes 10 bytes
    // in the encoded block, whose empty form takes 2
    let mut builder = BlockBuilder::new(32);
    assert!(builder.add(b"a", b"1")); // 12
    assert!(builder.add(b"b", b"2")); // 22
    assert!(builder.add(b"c", b"3")); // 32
    assert!(!builder.add(b"d", b"4")); // 42 > 32
    assert_eq!(builder.first_key(), b"a".to_vec());
    assert_eq!(builder.last_key(), b"c".to_vec());
    let block = builder.build();
    assert_eq!(block.len(), 3);
    assert_eq!(block.encode().len(), 32);
}

#[test]
fn block_builder_counts_the_shared_prefix() {
    // the second key shares 3 bytes with the first: 8 + 1 + 1 more bytes
    let mut builder = BlockBuilder::new(2 + 8 + 4 + 1 + 8 + 1 + 1);
    assert!(builder.add(b"abcd", b"1"));
    assert!(builder.add(b"abce", b"2"));
    assert!(!builder.add(b"abcf", b""));
    assert_eq!(builder.build().encode().len(), 25);
}

#[test]
fn block_builder_refusal_changes_nothing() {
    let mut builder = BlockBuilder::new(12);
    assert!(builder.add(b"a", b"1"));
    assert!(!builder.add(b"b", b"2"));
    assert_eq!(builder.last_key(), b"a".to_vec());
    let block = builder.build();
    assert_eq!(collect(block), vec![(b"a".to_vec(), b"1".to_vec())]);
}

#[test]
fn block_iterator_walks_in_order() {
    let block = build(&[(b"k1", b"v1"), (b"k2", b"v2"), (b"k3", b"v3")], 4096);
    let mut iter = BlockIterator::create_and_seek_to_first(Arc::new(block));
    assert!(iter.is_valid());
    assert_eq!(iter.key(), b"k1");
    assert_eq!(iter.value(), b"v1");
    iter.next();
    assert_eq!(iter.key(), b"k2");
    iter.next();
    assert_eq!(iter.key(), b"k3");
    assert_eq!(iter.value(), b"v3");
    iter.next();
    assert!(!iter.is_valid());
    assert!(iter.key().is_empty());
    assert!(iter.value().is_empty());
    iter.next();
    assert!(!iter.is_valid());
    iter.seek_to_first();
    assert_eq!(iter.key(), b"k1");
}

#[test]
fn block_iterator_seek_to_key() {
    let block = Arc::new(build(&[(b"b", b"1"), (b"d", b"2"), (b"f", b"3"), (b"fa", b"4")], 4096));
    let probe = |k: &[u8]| -> Option<Vec<u8>> {
        let it = BlockIterator::create_and_seek_to_key(block.clone(), k);
        if it.is_valid() {
            Some(it.key().to_vec())
        } else {
            None
        }
    };
    assert_eq!(probe(b"a"), Some(b"b".to_vec()));
    assert_eq!(probe(b"b"), Some(b"b".to_vec()));
    assert_eq!(probe(b"c"), Some(b"d".to_vec()));
    assert_eq!(probe(b"d"), Some(b"d".to_vec()));
    assert_eq!(probe(b"e"), Some(b"f".to_vec()));
    assert_eq!(probe(b"f"), Some(b"f".to_vec()));
    assert_eq!(probe(b"f0"), Some(b"fa".to_vec()));
    assert_eq!(probe(b"fa"), Some(b"fa".to_vec()));
    assert_eq!(probe(b"fb"), None);
    assert_eq!(probe(b"z"), None);
    assert_eq!(probe(b""), Some(b"b".to_vec()));
    let mut it = BlockIterator::create_and_seek_to_first(block.clone());
    it.seek_to_key(b"e");
    assert_eq!(it.value(), b"3");
    it.seek_to_key(b"a");
    assert_eq!(it.value(), b"1");
}

#[test]
fn block_round_trip_of_many_entries() {
    let mut builder = BlockBuilder::new(1 << 16);
    let mut expected = Vec::new();
    for i in 0..500u32 {
        let key = format!("key_{:05}", i).into_bytes();
        let value = format!("value_{}", i * 7).into_bytes();
        assert!(builder.add(&key, &value));
        expected.push((key, value));
    }
    let block = builder.build();
    let decoded = Block::decode(&block.encode()).unwrap();
    assert_eq!(collect(decoded), expected);
}
