use std::sync::Arc;

use mini_lsm::block::{Block, BlockBuilder, BlockIterator};
use mini_lsm::error::Error;

fn sample_block() -> Block {
    let mut builder = BlockBuilder::new(4096);
    assert!(builder.add(b"apple", b"1"));
    assert!(builder.add(b"banana", b"22"));
    assert!(builder.add(b"cherry", b""));
    builder.build()
}

#[test]
fn block_round_trips_through_its_encoding() {
    let block = sample_block();
    let encoded = block.encode();
    let decoded = Block::decode(&encoded);
    assert_eq!(decoded.num_entries(), 3);
    assert_eq!(decoded.key_at_index(0), b"apple");
    assert_eq!(decoded.key_at_index(1), b"banana");
    assert_eq!(decoded.value_at_index(1), b"22");
    assert_eq!(decoded.value_at_index(2), b"");
    assert_eq!(&decoded.encode()[..], &encoded[..]);
}

#[test]
fn block_encoding_is_entries_then_offsets_then_count() {
    let mut builder = BlockBuilder::new(100);
    assert!(builder.add(b"k", b"vw"));
    assert!(builder.add(b"l", b""));
    let encoded = builder.build().encode();
    let expected: Vec<u8> = vec![
        1, 0, b'k', 2, 0, b'v', b'w', // first entry
        1, 0, b'l', 0, 0, // second entry
        0, 0, 7, 0, // offsets
        2, 0, // count
    ];
    assert_eq!(&encoded[..], &expected[..]);
}

#[test]
fn block_builder_reports_its_size() {
    let mut builder = BlockBuilder::new(100);
    assert!(builder.is_empty());
    assert_eq!(builder.current_size(), 2);
    assert!(builder.add(b"k", b"vw"));
    assert!(!builder.is_empty());
    assert_eq!(builder.current_size(), 2 + 7 + 2);
    let encoded = builder.build().encode();
    assert_eq!(encoded.len(), 11);
}

#[test]
fn block_builder_refuses_an_entry_that_does_not_fit() {
    let mut builder = BlockBuilder::new(20);
    assert!(builder.add(b"aa", b"11"));
    // 12 bytes so far; the next entry takes 4 + 2 + 2 + 2 more.
    assert!(!builder.add(b"bb", b"22"));
    assert_eq!(builder.current_size(), 12);
    // An entry that fits exactly is taken.
    assert!(builder.add(b"b", b"2"));
    assert_eq!(builder.current_size(), 20);
    assert_eq!(builder.build().num_entries(), 2);
}

#[test]
fn block_builder_takes_a_first_entry_of_any_size() {
    let mut builder = BlockBuilder::new(8);
    let value = vec![7u8; 1000];
    assert!(builder.add(b"big", &value));
    assert!(!builder.add(b"c", b""));
    let block = builder.build();
    assert_eq!(block.num_entries(), 1);
    assert_eq!(block.value_at_index(0), &value[..]);
}

#[test]
fn block_try_decode_rejects_malformed_bytes() {
    assert_eq!(Block::try_decode(&[]).err(), Some(Error::Corruption));
    assert_eq!(Block::try_decode(&[1]).err(), Some(Error::Corruption));
    // A count of 3 without room for three offsets.
    assert_eq!(Block::try_decode(&[0, 0, 3, 0]).err(), Some(Error::Corruption));
    // An entry whose key length reaches past the data.
    assert_eq!(Block::try_decode(&[9, 0, b'k', 0, 0, 0, 0, 1, 0]).err(), Some(Error::Corruption));
    // An empty key.
    assert_eq!(Block::try_decode(&[0, 0, 0, 0, 0, 0, 1, 0]).err(), Some(Error::Corruption));
    // Keys out of order.
    let unsorted = [1, 0, b'b', 0, 0, 1, 0, b'a', 0, 0, 0, 0, 5, 0, 2, 0];
    assert_eq!(Block::try_decode(&unsorted).err(), Some(Error::Corruption));
    assert!(!Block::is_valid_encoding(&unsorted));
    // The same keys in order.
    let sorted = [1, 0, b'a', 0, 0, 1, 0, b'b', 0, 0, 0, 0, 5, 0, 2, 0];
    assert!(Block::is_valid_encoding(&sorted));
    let block = Block::try_decode(&sorted).unwrap();
    assert_eq!(block.num_entries(), 2);
    assert_eq!(block.key_at_index(1), b"b");
}

#[test]
fn block_try_decode_accepts_the_empty_block() {
    let encoded = Block::empty().encode();
    assert_eq!(&encoded[..], &[0u8, 0][..]);
    let block = Block::try_decode(&encoded).unwrap();
    assert_eq!(block.num_entries(), 0);
}

#[test]
fn block_iterator_walks_the_entries_in_order() {
    let mut iter = BlockIterator::create_and_seek_to_first(Arc::new(sample_block()));
    let mut seen = Vec::new();
    while iter.is_valid() {
        seen.push((iter.key().to_vec(), iter.value().to_vec()));
        iter.next();
    }
    assert_eq!(
        seen,
        vec![
            (b"apple".to_vec(), b"1".to_vec()),
            (b"banana".to_vec(), b"22".to_vec()),
            (b"cherry".to_vec(), b"".to_vec()),
        ]
    );
    // `next` on an iterator that is not valid does nothing.
    iter.next();
    assert!(!iter.is_valid());
    assert_eq!(iter.key(), b"");
    assert_eq!(iter.value(), b"");
}

#[test]
fn block_iterator_seeks_to_the_first_key_not_below() {
    let block = Arc::new(sample_block());
    let iter = BlockIterator::create_and_seek_to_key(block.clone(), b"banana");
    assert_eq!(iter.key(), b"banana");
    let iter = BlockIterator::create_and_seek_to_key(block.clone(), b"b");
    assert_eq!(iter.key(), b"banana");
    let iter = BlockIterator::create_and_seek_to_key(block.clone(), b"");
    assert_eq!(iter.key(), b"apple");
    let iter = BlockIterator::create_and_seek_to_key(block.clone(), b"bananas");
    assert_eq!(iter.key(), b"cherry");
    let mut iter = BlockIterator::create_and_seek_to_key(block.clone(), b"d");
    assert!(!iter.is_valid());
    iter.seek_to_first();
    assert_eq!(iter.key(), b"apple");
    iter.seek_to_key(b"cherry");
    assert_eq!(iter.key(), b"cherry");
    assert_eq!(iter.value(), b"");
}

#[test]
fn block_iterator_on_the_empty_block_is_not_valid() {
    let iter = BlockIterator::create_and_seek_to_first(Arc::new(Block::empty()));
    assert!(!iter.is_valid());
}
