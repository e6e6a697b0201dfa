use std::sync::Arc;

use mini_lsm::cache::BlockCache;
use mini_lsm::error::Error;
use mini_lsm::iterators::{Bound, StorageIterator};
use mini_lsm::table::bloom::{key_hash, Bloom};
use mini_lsm::table::iterator::table_get;
use mini_lsm::table::{BlockMeta, FileObject, SsTable, SsTableBuilder, SsTableIterator};

fn key_of(i: usize) -> Vec<u8> {
    format!("key_{:05}", i).into_bytes()
}

fn value_of(i: usize) -> Vec<u8> {
    format!("value_{:08}", i).into_bytes()
}

fn sample_table(n: usize) -> SsTable {
    let mut builder = SsTableBuilder::new(128);
    for i in 0..n {
        builder.add(&key_of(i), &value_of(i));
    }
    assert_eq!(builder.num_of_kvs(), n);
    builder.build(7).unwrap()
}

fn collect(iter: &mut SsTableIterator) -> Vec<(Vec<u8>, Vec<u8>)> {
    let mut seen = Vec::new();
    while iter.is_valid() {
        seen.push((iter.key().to_vec(), iter.value().to_vec()));
        iter.next().unwrap();
    }
    seen
}

#[test]
fn block_meta_round_trips_through_its_encoding() {
    let metas = vec![
        BlockMeta { offset: 0, first_key: b"a".to_vec(), last_key: b"c".to_vec() },
        BlockMeta { offset: 0x01020304, first_key: b"d".to_vec(), last_key: b"zz".to_vec() },
    ];
    let mut buf = vec![9u8];
    BlockMeta::encode_block_meta(&metas, &mut buf);
    let expected: Vec<u8> = vec![
        9, 0, 0, 0, 0, 1, 0, b'a', 1, 0, b'c', 4, 3, 2, 1, 1, 0, b'd', 2, 0, b'z', b'z',
    ];
    assert_eq!(buf, expected);
    assert_eq!(BlockMeta::decode_block_meta(&buf[1..]), metas);
    assert_eq!(BlockMeta::try_decode_block_meta(&buf[1..]), Ok(metas));
    assert_eq!(BlockMeta::try_decode_block_meta(&[]), Ok(vec![]));
}

#[test]
fn block_meta_decode_rejects_a_record_cut_short() {
    assert_eq!(BlockMeta::try_decode_block_meta(&[0, 0, 0]), Err(Error::Corruption));
    assert_eq!(
        BlockMeta::try_decode_block_meta(&[0, 0, 0, 0, 2, 0, b'a', 0, 0]),
        Err(Error::Corruption)
    );
    assert_eq!(
        BlockMeta::try_decode_block_meta(&[0, 0, 0, 0, 1, 0, b'a', 3, 0, b'b']),
        Err(Error::Corruption)
    );
}

#[test]
fn file_object_reads_ranges_of_its_bytes() {
    let file = FileObject::create(vec![1, 2, 3, 4, 5]);
    assert_eq!(file.size(), 5);
    assert!(file.holds_data());
    assert_eq!(file.read(1, 3), Ok(vec![2, 3, 4]));
    assert_eq!(file.read(5, 0), Ok(vec![]));
    assert_eq!(file.read(3, 3), Err(Error::Io));
    assert_eq!(file.read(6, 0), Err(Error::Io));
    assert_eq!(file.read(u64::MAX, 2), Err(Error::Io));
    assert_eq!(file.as_slice(), &[1, 2, 3, 4, 5]);
    let bare = FileObject::without_data(10);
    assert_eq!(bare.size(), 10);
    assert!(!bare.holds_data());
    assert_eq!(bare.read(0, 1), Err(Error::Io));
}

#[test]
fn table_builder_splits_entries_into_blocks() {
    let table = sample_table(100);
    assert!(table.num_of_blocks() > 1);
    assert_eq!(table.sst_id(), 7);
    assert_eq!(table.max_ts(), 0);
    assert_eq!(table.first_key(), &key_of(0)[..]);
    assert_eq!(table.last_key(), &key_of(99)[..]);
    assert_eq!(table.table_size(), table.file().size());
    let mut count = 0;
    for i in 0..table.num_of_blocks() {
        let block = table.read_block(i);
        assert!(block.num_entries() > 0);
        assert_eq!(block.key_at_index(0), &key_of(count)[..]);
        count += block.num_entries();
    }
    assert_eq!(count, 100);
}

#[test]
fn blocks_read_through_the_cache_are_the_blocks_of_the_table() {
    let table = sample_table(100);
    let other = sample_table(5);
    assert!(table.num_of_blocks() >= 4);
    let mut cache = BlockCache::new(3);
    assert_eq!(cache.capacity(), 3);
    for round in 0..2 {
        for i in 0..table.num_of_blocks() {
            let block = table.read_block(i);
            let cached = table.read_block_cached(i, &mut cache);
            assert_eq!(&cached.encode()[..], &block.encode()[..]);
            assert!(cache.len() <= 3);
            assert!(round == 0 || cache.len() == 3);
        }
    }
    // The three blocks read last are held, the others are not.
    let n = table.num_of_blocks();
    assert!(cache.get(7, n - 1).is_some());
    assert!(cache.get(7, n - 2).is_some());
    assert!(cache.get(7, n - 3).is_some());
    assert!(cache.get(7, n - 4).is_none());
    assert!(cache.get(8, n - 1).is_none());
    // A block that was used stays when others leave.
    assert!(cache.get(7, n - 3).is_some());
    let _ = table.read_block_cached(0, &mut cache);
    let _ = table.read_block_cached(1, &mut cache);
    assert!(cache.get(7, n - 3).is_some());
    assert!(cache.get(7, n - 1).is_none());
    assert!(cache.get(7, n - 2).is_none());
    assert_eq!(cache.len(), 3);
    // A block that is put again replaces the one that was held.
    cache.insert(99, 0, other.read_block(0));
    assert_eq!(cache.len(), 3);
    cache.insert(99, 0, other.read_block(0));
    assert_eq!(cache.len(), 3);
    assert!(cache.get(99, 0).is_some());
    // Block 0 was the one used least recently, and has left.
    assert!(cache.get(7, 0).is_none());
    assert!(cache.get(7, n - 3).is_some());
    assert!(cache.get(7, 1).is_some());
    // A cache without capacity holds nothing.
    let mut none = BlockCache::new(0);
    let block = table.read_block_cached(2, &mut none);
    assert_eq!(&block.encode()[..], &table.read_block(2).encode()[..]);
    assert_eq!(none.len(), 0);
    assert!(none.get(7, 2).is_none());
}

#[test]
fn table_builder_estimates_its_size_by_the_full_blocks() {
    let mut builder = SsTableBuilder::new(64);
    assert!(builder.is_empty());
    assert_eq!(builder.estimated_size(), 0);
    builder.add(&key_of(0), &value_of(0));
    assert!(!builder.is_empty());
    assert_eq!(builder.estimated_size(), 0);
    for i in 1..10 {
        builder.add(&key_of(i), &value_of(i));
    }
    assert!(builder.estimated_size() > 0);
    assert_eq!(builder.num_of_kvs(), 10);
}

#[test]
fn table_file_ends_with_the_two_offsets() {
    let table = sample_table(3);
    let bytes = table.file().as_slice().to_vec();
    let len = bytes.len();
    let bloom_offset = u32::from_le_bytes(bytes[len - 4..].try_into().unwrap()) as usize;
    let meta_offset =
        u32::from_le_bytes(bytes[bloom_offset - 4..bloom_offset].try_into().unwrap()) as usize;
    let metas = BlockMeta::decode_block_meta(&bytes[meta_offset..bloom_offset - 4]);
    assert_eq!(metas.len(), table.num_of_blocks());
    assert_eq!(metas[0].offset, 0);
    assert_eq!(metas[0].first_key, key_of(0));
    let bloom = Bloom::decode(&bytes[bloom_offset..len - 4]).unwrap();
    for i in 0..3 {
        assert!(bloom.may_contain_key(&key_of(i)));
    }
}

#[test]
fn table_opens_from_the_bytes_that_the_builder_wrote() {
    let table = sample_table(50);
    let bytes = table.file().as_slice().to_vec();
    let opened = SsTable::open(3, FileObject::create(bytes)).unwrap();
    assert_eq!(opened.sst_id(), 3);
    assert_eq!(opened.num_of_blocks(), table.num_of_blocks());
    assert_eq!(opened.first_key(), table.first_key());
    assert_eq!(opened.last_key(), table.last_key());
    let mut iter = SsTableIterator::create_and_seek_to_first(Arc::new(opened));
    let seen = collect(&mut iter);
    assert_eq!(seen.len(), 50);
    for (i, (key, value)) in seen.iter().enumerate() {
        assert_eq!(key, &key_of(i));
        assert_eq!(value, &value_of(i));
    }
}

#[test]
fn table_open_fails_on_corrupted_trailer() {
    let table = sample_table(20);
    let mut bytes = table.file().as_slice().to_vec();
    let len = bytes.len();
    for byte in &mut bytes[len - 4..] {
        *byte = 0xff;
    }
    assert_eq!(SsTable::open(1, FileObject::create(bytes)).err(), Some(Error::Corruption));
}

#[test]
fn table_open_fails_on_a_corrupted_block() {
    let table = sample_table(20);
    let mut bytes = table.file().as_slice().to_vec();
    // The key length of the first entry.
    bytes[0] = 0xff;
    bytes[1] = 0xff;
    assert_eq!(SsTable::open(1, FileObject::create(bytes)).err(), Some(Error::Corruption));
}

#[test]
fn table_open_fails_on_a_short_file_and_without_data() {
    assert_eq!(
        SsTable::open(1, FileObject::create(vec![0, 0, 0])).err(),
        Some(Error::Corruption)
    );
    assert_eq!(SsTable::open(1, FileObject::without_data(100)).err(), Some(Error::Io));
}

#[test]
fn table_open_accepts_a_table_without_filter() {
    let table = sample_table(10);
    let bytes = table.file().as_slice().to_vec();
    let len = bytes.len();
    let bloom_offset = u32::from_le_bytes(bytes[len - 4..].try_into().unwrap()) as usize;
    let mut bare = bytes[..bloom_offset].to_vec();
    bare.extend_from_slice(&(bloom_offset as u32).to_le_bytes());
    let opened = SsTable::open(2, FileObject::create(bare)).unwrap();
    // Without a filter every key may be there.
    assert!(opened.may_contain(b"no such key"));
    assert_eq!(table_get(&Arc::new(opened), &key_of(4)), Some(value_of(4)));
}

#[test]
fn empty_table_builds_and_opens() {
    let table = SsTableBuilder::new(64).build(0).unwrap();
    assert_eq!(table.num_of_blocks(), 0);
    assert_eq!(table.first_key(), b"");
    let opened = SsTable::open(0, FileObject::create(table.file().as_slice().to_vec())).unwrap();
    let iter = SsTableIterator::create_and_seek_to_first(Arc::new(opened));
    assert!(!iter.is_valid());
}

#[test]
fn meta_only_table_holds_its_range_and_size() {
    let table = SsTable::create_meta_only(9, 1000, b"a".to_vec(), b"m".to_vec());
    assert_eq!(table.sst_id(), 9);
    assert_eq!(table.table_size(), 1000);
    assert_eq!(table.first_key(), b"a");
    assert_eq!(table.last_key(), b"m");
    assert_eq!(table.num_of_blocks(), 0);
    assert_eq!(table.find_block_idx(b"c"), 0);
}

#[test]
fn find_block_idx_names_the_last_block_that_begins_at_or_before_the_key() {
    let table = sample_table(100);
    assert_eq!(table.find_block_idx(b""), 0);
    assert_eq!(table.find_block_idx(&key_of(0)), 0);
    for i in 0..table.num_of_blocks() {
        let block = table.read_block(i);
        let first = block.key_at_index(0).to_vec();
        let last = block.key_at_index(block.num_entries() - 1).to_vec();
        assert_eq!(table.find_block_idx(&first), i);
        assert_eq!(table.find_block_idx(&last), i);
        let mut between = last.clone();
        between.push(b'x');
        assert_eq!(table.find_block_idx(&between), i);
    }
    assert_eq!(table.find_block_idx(b"zzz"), table.num_of_blocks() - 1);
}

#[test]
fn table_filter_admits_every_key_of_the_table() {
    let table = sample_table(200);
    for i in 0..200 {
        assert!(table.may_contain(&key_of(i)));
    }
    let misses = (1000..2000).filter(|i| !table.may_contain(&key_of(*i))).count();
    assert!(misses > 900);
}

#[test]
fn table_get_finds_the_value_of_a_key() {
    let table = Arc::new(sample_table(100));
    assert_eq!(table_get(&table, &key_of(42)), Some(value_of(42)));
    assert_eq!(table_get(&table, &key_of(99)), Some(value_of(99)));
    assert_eq!(table_get(&table, b"key_"), None);
    assert_eq!(table_get(&table, &key_of(100)), None);
}

#[test]
fn table_iterator_seeks_across_blocks() {
    let table = Arc::new(sample_table(100));
    let iter = SsTableIterator::create_and_seek_to_key(table.clone(), &key_of(57));
    assert_eq!(iter.key(), &key_of(57)[..]);
    assert_eq!(iter.value(), &value_of(57)[..]);
    assert_eq!(iter.num_active_iterators(), 1);
    let mut between = key_of(57);
    between.push(0);
    let mut iter = SsTableIterator::create_and_seek_to_key(table.clone(), &between);
    assert_eq!(iter.key(), &key_of(58)[..]);
    iter.seek_to_key(b"");
    assert_eq!(iter.key(), &key_of(0)[..]);
    iter.seek_to_key(b"zzz");
    assert!(!iter.is_valid());
    iter.next().unwrap();
    assert!(!iter.is_valid());
    iter.seek_to_first();
    assert_eq!(collect(&mut iter).len(), 100);
    // Seeking to the last key of each block and one past it.
    for i in 0..table.num_of_blocks() {
        let block = table.read_block(i);
        let last = block.key_at_index(block.num_entries() - 1).to_vec();
        let iter = SsTableIterator::create_and_seek_to_key(table.clone(), &last);
        assert_eq!(iter.key(), &last[..]);
    }
}

#[test]
fn table_scan_respects_both_bounds() {
    let table = Arc::new(sample_table(30));
    let keys = |lower: Bound, upper: Bound| -> Vec<Vec<u8>> {
        let mut iter = SsTableIterator::scan(table.clone(), &lower, upper);
        collect(&mut iter).into_iter().map(|e| e.0).collect()
    };
    let range = |from: usize, to: usize| -> Vec<Vec<u8>> { (from..to).map(key_of).collect() };
    assert_eq!(keys(Bound::Unbounded, Bound::Unbounded), range(0, 30));
    assert_eq!(keys(Bound::Included(key_of(5)), Bound::Included(key_of(9))), range(5, 10));
    assert_eq!(keys(Bound::Excluded(key_of(5)), Bound::Excluded(key_of(9))), range(6, 9));
    assert_eq!(keys(Bound::Included(b"key_000045".to_vec()), Bound::Unbounded), range(5, 30));
    assert_eq!(keys(Bound::Excluded(b"key_000045".to_vec()), Bound::Unbounded), range(5, 30));
    assert_eq!(keys(Bound::Unbounded, Bound::Excluded(key_of(0))), range(0, 0));
    assert_eq!(keys(Bound::Included(key_of(29)), Bound::Unbounded), range(29, 30));
    assert_eq!(keys(Bound::Excluded(key_of(29)), Bound::Unbounded), range(0, 0));
}

#[test]
fn bloom_filter_holds_the_hashes_it_was_built_from() {
    let hashes: Vec<u32> = (0..500u32).map(|i| i.wrapping_mul(0x9e3779b1)).collect();
    let bloom = Bloom::build_from_key_hashes(&hashes, 10);
    for h in &hashes {
        assert!(bloom.may_contain(*h));
    }
    let mut buf = Vec::new();
    bloom.encode(&mut buf);
    // 5000 bits, and the number of probes: 0.69 * 10, rounded down.
    assert_eq!(buf.len(), 625 + 1);
    assert_eq!(buf[625], 6);
    let decoded = Bloom::decode(&buf).unwrap();
    for h in &hashes {
        assert!(decoded.may_contain(*h));
    }
    let misses = (0..1000u32).filter(|i| !decoded.may_contain(i.wrapping_mul(7) + 3)).count();
    assert!(misses > 900);
    assert_eq!(Bloom::decode(&[]).err(), Some(Error::Corruption));
}

#[test]
fn bloom_filter_has_at_least_64_bits_and_1_to_30_probes() {
    let mut buf = Vec::new();
    Bloom::build_from_key_hashes(&[1, 2], 1).encode(&mut buf);
    assert_eq!(buf.len(), 9);
    assert_eq!(buf[8], 1);
    let mut buf = Vec::new();
    Bloom::build_from_key_hashes(&[], 100).encode(&mut buf);
    assert_eq!(buf, vec![0, 0, 0, 0, 0, 0, 0, 0, 30]);
    let mut buf = Vec::new();
    Bloom::build_from_key_hashes(&[5], 20).encode(&mut buf);
    assert_eq!(buf[8], 13);
    // One hash sets at most 13 bits.
    let bits: u32 = buf[..8].iter().map(|b| b.count_ones()).sum();
    assert!(bits >= 1 && bits <= 13);
}

#[test]
fn bloom_with_more_than_30_probes_or_no_bits_admits_everything() {
    let all = Bloom::decode(&[0, 0, 31]).unwrap();
    assert!(all.may_contain(12345));
    let none = Bloom::decode(&[0, 0, 3]).unwrap();
    assert!(!none.may_contain(12345));
    let empty = Bloom::decode(&[3]).unwrap();
    assert!(empty.may_contain(12345));
}

#[test]
fn key_hash_is_the_farmhash_of_the_key() {
    assert_eq!(key_hash(b"hello world"), Some(430397466));
    assert_eq!(key_hash(b"hello world"), Some(farmhash::hash32(b"hello world")));
    assert_eq!(key_hash(b""), Some(farmhash::hash32(b"")));
    assert_eq!(key_hash(b"key_00001"), Some(farmhash::hash32(b"key_00001")));
    let long = vec![0xffu8; 100];
    assert_eq!(key_hash(&long), Some(farmhash::hash32(&long)));
    assert_ne!(key_hash(b"a"), key_hash(b"b"));
}

#[test]
fn key_hash_leaves_out_the_keys_on_which_the_hash_overflows() {
    // Five to twelve bytes: the words of the key are added to small numbers.
    assert_eq!(key_hash(&[0xff; 5]), None);
    assert_eq!(key_hash(&[0xff; 12]), None);
    assert_eq!(key_hash(&[0xf7, 0xff, 0xff, 0xff, 0]), None);
    let fits = [0xf6, 0xff, 0xff, 0xff, 0];
    assert_eq!(key_hash(&fits), Some(farmhash::hash32(&fits)));
    // Thirteen to 24 bytes: the length is added to a product that wraps.
    let mut some = 0;
    let mut none = 0;
    for i in 0..=255u8 {
        let key = [i; 16];
        match key_hash(&key) {
            Some(h) => {
                assert_eq!(h, farmhash::hash32(&key));
                some += 1;
            }
            None => none += 1,
        }
    }
    assert_eq!(some + none, 256);
    assert!(some > 200);
    // A table takes such keys, and its filter admits them.
    let mut builder = SsTableBuilder::new(64);
    builder.add(&[0xff; 5], b"v");
    builder.add(&[0xff; 12], b"w");
    let table = Arc::new(builder.build(1).unwrap());
    assert!(table.may_contain(&[0xff; 5]));
    assert_eq!(table_get(&table, &[0xff; 12]), Some(b"w".to_vec()));
}

#[test]
fn table_builder_fills_each_block_up_to_the_target_size() {
    // An entry with a key and a value of one byte takes 8 bytes, and an
    // empty block 2: a block of the target size 20 takes two entries.
    let mut builder = SsTableBuilder::new(20);
    let keys = [b"a", b"b", b"c", b"d", b"e"];
    let mut sizes = Vec::new();
    for key in keys.iter() {
        builder.add(&key[..], b"v");
        sizes.push(builder.estimated_size());
    }
    assert_eq!(sizes, vec![0, 0, 18, 18, 36]);
    let table = builder.build(1).unwrap();
    assert_eq!(table.num_of_blocks(), 3);
    assert_eq!(table.read_block(0).num_entries(), 2);
    assert_eq!(table.read_block(1).num_entries(), 2);
    assert_eq!(table.read_block(2).num_entries(), 1);
    assert_eq!(table.read_block(2).key_at_index(0), b"e");
    let bytes = table.file().as_slice().to_vec();
    let len = bytes.len();
    let bloom_offset = u32::from_le_bytes(bytes[len - 4..].try_into().unwrap()) as usize;
    let meta_offset =
        u32::from_le_bytes(bytes[bloom_offset - 4..bloom_offset].try_into().unwrap()) as usize;
    // Three blocks of 18, 18 and 10 bytes, three records of 10 bytes, and
    // the offset of the records.
    assert_eq!(meta_offset, 46);
    assert_eq!(bloom_offset, 80);
}

#[test]
fn table_builder_takes_an_entry_larger_than_a_block() {
    let mut builder = SsTableBuilder::new(16);
    builder.add(b"a", &[7u8; 100]);
    assert_eq!(builder.estimated_size(), 0);
    builder.add(b"b", b"v");
    assert_eq!(builder.estimated_size(), 109);
    builder.add(b"c", b"w");
    assert_eq!(builder.estimated_size(), 119);
    let table = builder.build(1).unwrap();
    assert_eq!(table.num_of_blocks(), 3);
    assert_eq!(table.read_block(0).num_entries(), 1);
    assert_eq!(table.read_block(0).value_at_index(0), &[7u8; 100][..]);
}

#[test]
fn table_file_is_blocks_records_filter_and_the_two_offsets() {
    let mut builder = SsTableBuilder::new(20);
    builder.add(b"a", b"v");
    builder.add(b"b", b"w");
    builder.add(b"c", b"x");
    let table = builder.build(3).unwrap();
    let mut expected: Vec<u8> = Vec::new();
    // The first block: two entries, their offsets 0 and 6, the count 2.
    expected.extend_from_slice(&[1, 0, b'a', 1, 0, b'v', 1, 0, b'b', 1, 0, b'w', 0, 0, 6, 0, 2, 0]);
    // The second block: one entry at offset 0, the count 1.
    expected.extend_from_slice(&[1, 0, b'c', 1, 0, b'x', 0, 0, 1, 0]);
    // The records: offset, first key and last key of each block.
    expected.extend_from_slice(&[0, 0, 0, 0, 1, 0, b'a', 1, 0, b'b']);
    expected.extend_from_slice(&[18, 0, 0, 0, 1, 0, b'c', 1, 0, b'c']);
    // The offset of the records.
    expected.extend_from_slice(&[28, 0, 0, 0]);
    // The filter over the hashes of the three keys.
    let hashes: Vec<u32> =
        [b"a", b"b", b"c"].iter().map(|k| key_hash(&k[..]).unwrap()).collect();
    let filter = Bloom::build_from_key_hashes(&hashes, 10);
    let mut filter_bytes = Vec::new();
    filter.encode(&mut filter_bytes);
    assert_eq!(filter_bytes.len(), 9);
    assert_eq!(filter_bytes[8], 6);
    expected.extend_from_slice(&filter_bytes);
    // The offset of the filter.
    expected.extend_from_slice(&[52, 0, 0, 0]);
    assert_eq!(table.file().as_slice(), &expected[..]);
    assert_eq!(table.table_size(), 65);
    // The table that is opened from these bytes has the same filter.
    let opened = SsTable::open(3, FileObject::create(expected)).unwrap();
    assert!(opened.may_contain(b"a") && opened.may_contain(b"b") && opened.may_contain(b"c"));
    let absent: Vec<Vec<u8>> = (0..200u32).map(|i| format!("none{}", i).into_bytes()).collect();
    assert!(absent.iter().any(|k| !table.may_contain(k)));
    for k in &absent {
        assert_eq!(table.may_contain(k), opened.may_contain(k));
        assert_eq!(table.may_contain(k), filter.may_contain_key(k));
    }
}

#[test]
fn table_without_entries_has_empty_keys_and_a_filter() {
    let table = SsTableBuilder::new(64).build(1).unwrap();
    assert_eq!(table.num_of_blocks(), 0);
    assert!(table.first_key().is_empty());
    assert!(table.last_key().is_empty());
    // No block, no record, the offset 0, a filter of 8 bytes with its
    // number of probes, and the offset 4.
    let mut expected = vec![0u8, 0, 0, 0];
    expected.extend_from_slice(&[0, 0, 0, 0, 0, 0, 0, 0, 6]);
    expected.extend_from_slice(&[4, 0, 0, 0]);
    assert_eq!(table.file().as_slice(), &expected[..]);
    assert!(!table.may_contain(b"a"));
}
