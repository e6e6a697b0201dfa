use std::sync::Arc;

use mini_lsm::compact::writer::build_tables;
use mini_lsm::error::Error;
use mini_lsm::iterators::concat_iterator::{tables_get, SstConcatIterator};
use mini_lsm::iterators::merge_iterator::MergeIterator;
use mini_lsm::iterators::two_merge_iterator::TwoMergeIterator;
use mini_lsm::iterators::{Bound, StorageIterator};
use mini_lsm::lsm_iterator::FusedIterator;
use mini_lsm::mem_table::{MemTable, MemTableIterator};
use mini_lsm::table::{SsTable, SsTableBuilder, SsTableIterator};

type Pairs = Vec<(Vec<u8>, Vec<u8>)>;

fn pairs(items: &[(&str, &str)]) -> Pairs {
    items.iter().map(|(k, v)| (k.as_bytes().to_vec(), v.as_bytes().to_vec())).collect()
}

fn mem_iter(items: &[(&str, &str)]) -> MemTableIterator {
    let mut table = MemTable::create(0);
    for (k, v) in items {
        table.put(k.as_bytes(), v.as_bytes()).unwrap();
    }
    MemTableIterator::create(Arc::new(table), &Bound::Unbounded, Bound::Unbounded)
}

fn table_of(id: usize, items: &[(&str, &str)]) -> Arc<SsTable> {
    let mut builder = SsTableBuilder::new(32);
    for (k, v) in items {
        builder.add(k.as_bytes(), v.as_bytes());
    }
    Arc::new(builder.build(id).unwrap())
}

fn drain<I: StorageIterator>(iter: &mut I) -> Pairs {
    let mut seen = Vec::new();
    while iter.is_valid() {
        seen.push((iter.key().to_vec(), iter.value().to_vec()));
        iter.next().unwrap();
    }
    seen
}

fn assert_ascending(seen: &Pairs) {
    for pair in seen.windows(2) {
        assert!(pair[0].0 < pair[1].0);
    }
}

#[test]
fn merge_iterator_prefers_the_iterator_with_the_smaller_index() {
    let a = mem_iter(&[("a", "a1"), ("c", "c1"), ("e", "e1")]);
    let b = mem_iter(&[("a", "a2"), ("b", "b2"), ("c", "c2")]);
    let c = mem_iter(&[("b", "b3"), ("c", "c3"), ("d", "d3"), ("f", "f3")]);
    let mut merged = MergeIterator::create(vec![a, b, c]);
    assert_eq!(merged.num_active_iterators(), 3);
    let seen = drain(&mut merged);
    assert_eq!(
        seen,
        pairs(&[("a", "a1"), ("b", "b2"), ("c", "c1"), ("d", "d3"), ("e", "e1"), ("f", "f3")])
    );
    assert_ascending(&seen);
    assert!(!merged.is_valid());
    assert_eq!(merged.key(), b"");
    assert_eq!(merged.value(), b"");
    assert_eq!(merged.num_active_iterators(), 1);
    merged.next().unwrap();
    assert!(!merged.is_valid());
}

#[test]
fn merge_iterator_counts_the_iterators_that_hold_an_entry() {
    let a = mem_iter(&[("a", "1")]);
    let b = mem_iter(&[]);
    let c = mem_iter(&[("a", "3"), ("b", "3")]);
    let mut merged = MergeIterator::create(vec![a, b, c]);
    assert_eq!(merged.num_active_iterators(), 2);
    assert_eq!(merged.key(), b"a");
    assert_eq!(merged.value(), b"1");
    merged.next().unwrap();
    assert_eq!(merged.key(), b"b");
    assert_eq!(merged.num_active_iterators(), 1);
}

#[test]
fn merge_iterator_of_nothing_is_not_valid() {
    let mut merged: MergeIterator<MemTableIterator> = MergeIterator::create(vec![]);
    assert!(!merged.is_valid());
    assert_eq!(merged.num_active_iterators(), 1);
    merged.next().unwrap();
    let mut merged = MergeIterator::create(vec![mem_iter(&[]), mem_iter(&[])]);
    assert!(!merged.is_valid());
    merged.next().unwrap();
    assert!(!merged.is_valid());
}

#[test]
fn two_merge_iterator_prefers_its_first_iterator() {
    let a = mem_iter(&[("a", "a1"), ("c", "c1")]);
    let b = mem_iter(&[("a", "a2"), ("b", "b2"), ("c", "c2"), ("d", "d2")]);
    let mut merged = TwoMergeIterator::create(a, b);
    assert_eq!(merged.num_active_iterators(), 2);
    let seen = drain(&mut merged);
    assert_eq!(seen, pairs(&[("a", "a1"), ("b", "b2"), ("c", "c1"), ("d", "d2")]));
    let a = mem_iter(&[("x", "1")]);
    let b = mem_iter(&[]);
    assert_eq!(drain(&mut TwoMergeIterator::create(a, b)), pairs(&[("x", "1")]));
    let a = mem_iter(&[]);
    let b = mem_iter(&[("y", "2")]);
    assert_eq!(drain(&mut TwoMergeIterator::create(a, b)), pairs(&[("y", "2")]));
    let mut none = TwoMergeIterator::create(mem_iter(&[]), mem_iter(&[]));
    assert!(!none.is_valid());
    none.next().unwrap();
}

#[test]
fn two_merge_iterator_merges_iterators_of_different_types() {
    let table = table_of(1, &[("b", "table"), ("c", "table")]);
    let a = mem_iter(&[("a", "mem"), ("b", "mem")]);
    let b = SsTableIterator::create_and_seek_to_first(table);
    let seen = drain(&mut TwoMergeIterator::create(a, b));
    assert_eq!(seen, pairs(&[("a", "mem"), ("b", "mem"), ("c", "table")]));
}

#[test]
fn concat_iterator_walks_the_tables_one_after_the_other() {
    let tables = vec![
        table_of(1, &[("a", "1"), ("b", "2"), ("c", "3")]),
        table_of(2, &[("d", "4")]),
        table_of(3, &[("e", "5"), ("f", "6")]),
    ];
    let mut iter = SstConcatIterator::create_and_seek_to_first(tables.clone());
    assert_eq!(iter.num_active_iterators(), 1);
    let seen = drain(&mut iter);
    assert_eq!(
        seen,
        pairs(&[("a", "1"), ("b", "2"), ("c", "3"), ("d", "4"), ("e", "5"), ("f", "6")])
    );
    assert!(!iter.is_valid());
    iter.next().unwrap();
    assert!(!iter.is_valid());
    let mut none = SstConcatIterator::create_and_seek_to_first(vec![]);
    assert!(!none.is_valid());
    none.next().unwrap();
}

#[test]
fn concat_iterator_seeks_to_the_table_that_may_hold_the_key() {
    let tables = vec![
        table_of(1, &[("b", "1"), ("c", "2")]),
        table_of(2, &[("e", "3"), ("f", "4")]),
        table_of(3, &[("h", "5")]),
    ];
    let first_from = |key: &str| -> Option<Vec<u8>> {
        let iter = SstConcatIterator::create_and_seek_to_key(tables.clone(), key.as_bytes());
        if iter.is_valid() {
            Some(iter.key().to_vec())
        } else {
            None
        }
    };
    assert_eq!(first_from("a"), Some(b"b".to_vec()));
    assert_eq!(first_from("b"), Some(b"b".to_vec()));
    assert_eq!(first_from("c"), Some(b"c".to_vec()));
    assert_eq!(first_from("d"), Some(b"e".to_vec()));
    assert_eq!(first_from("f"), Some(b"f".to_vec()));
    assert_eq!(first_from("g"), Some(b"h".to_vec()));
    assert_eq!(first_from("h"), Some(b"h".to_vec()));
    assert_eq!(first_from("i"), None);
    let mut iter = SstConcatIterator::create_and_seek_to_key(tables.clone(), b"c");
    assert_eq!(drain(&mut iter), pairs(&[("c", "2"), ("e", "3"), ("f", "4"), ("h", "5")]));
    assert_eq!(tables_get(tables.clone(), b"f"), Some(b"4".to_vec()));
    assert_eq!(tables_get(tables.clone(), b"g"), None);
    assert_eq!(tables_get(vec![], b"g"), None);
}

#[test]
fn concat_iterator_seeks_to_a_lower_bound() {
    let tables = vec![table_of(1, &[("b", "1"), ("c", "2")]), table_of(2, &[("e", "3")])];
    let keys = |lower: Bound| -> Vec<Vec<u8>> {
        let mut iter = SstConcatIterator::create_and_seek_to_lower(tables.clone(), &lower);
        drain(&mut iter).into_iter().map(|e| e.0).collect()
    };
    let all: Vec<Vec<u8>> = vec![b"b".to_vec(), b"c".to_vec(), b"e".to_vec()];
    assert_eq!(keys(Bound::Unbounded), all);
    assert_eq!(keys(Bound::Included(b"c".to_vec())), all[1..].to_vec());
    assert_eq!(keys(Bound::Excluded(b"c".to_vec())), all[2..].to_vec());
    assert_eq!(keys(Bound::Excluded(b"d".to_vec())), all[2..].to_vec());
    assert_eq!(keys(Bound::Excluded(b"e".to_vec())), all[3..].to_vec());
}

#[test]
fn memtable_iterator_respects_both_bounds() {
    let mut table = MemTable::create(3);
    for key in ["a", "b", "c", "d", "e"] {
        table.put(key.as_bytes(), b"v").unwrap();
    }
    let table = Arc::new(table);
    let keys = |lower: Bound, upper: Bound| -> String {
        let mut iter = MemTableIterator::create(table.clone(), &lower, upper);
        assert_eq!(iter.num_active_iterators(), 1);
        let seen = drain(&mut iter);
        seen.iter().map(|e| e.0[0] as char).collect()
    };
    let inc = |k: &str| Bound::Included(k.as_bytes().to_vec());
    let exc = |k: &str| Bound::Excluded(k.as_bytes().to_vec());
    assert_eq!(keys(Bound::Unbounded, Bound::Unbounded), "abcde");
    assert_eq!(keys(inc("b"), inc("d")), "bcd");
    assert_eq!(keys(exc("b"), exc("d")), "c");
    assert_eq!(keys(inc("bb"), Bound::Unbounded), "cde");
    assert_eq!(keys(exc("bb"), inc("z")), "cde");
    assert_eq!(keys(Bound::Unbounded, exc("a")), "");
    assert_eq!(keys(exc("e"), Bound::Unbounded), "");
    assert_eq!(keys(inc("d"), inc("b")), "");
}

#[test]
fn bounds_admit_the_keys_below_them() {
    let inc = Bound::Included(b"m".to_vec());
    let exc = Bound::Excluded(b"m".to_vec());
    assert!(inc.holds_below(b"a"));
    assert!(inc.holds_below(b"m"));
    assert!(!inc.holds_below(b"ma"));
    assert!(exc.holds_below(b"l"));
    assert!(!exc.holds_below(b"m"));
    assert!(Bound::Unbounded.holds_below(b"zzz"));
    assert!(matches!(inc.duplicate(), Bound::Included(k) if k == b"m"));
    assert!(matches!(exc.duplicate(), Bound::Excluded(k) if k == b"m"));
    assert!(matches!(Bound::Unbounded.duplicate(), Bound::Unbounded));
}

#[test]
fn fused_iterator_does_nothing_past_the_end() {
    let mut fused = FusedIterator::new(mem_iter(&[("a", "1"), ("b", "2")]));
    assert!(fused.is_valid());
    assert!(!fused.has_errored());
    assert_eq!(fused.key(), b"a");
    assert_eq!(fused.value(), b"1");
    assert_eq!(fused.num_active_iterators(), 1);
    assert_eq!(fused.next(), Ok(()));
    assert_eq!(fused.key(), b"b");
    assert_eq!(fused.next(), Ok(()));
    assert!(!fused.is_valid());
    assert_eq!(fused.next(), Ok(()));
    assert_eq!(fused.next(), Ok(()));
    assert!(!fused.is_valid());
    assert!(!fused.has_errored());
}

#[test]
fn fused_iterator_wraps_a_merge_of_tables() {
    let a = SsTableIterator::create_and_seek_to_first(table_of(1, &[("a", "1"), ("c", "1")]));
    let b = SsTableIterator::create_and_seek_to_first(table_of(2, &[("b", "2"), ("c", "2")]));
    let mut fused = FusedIterator::new(MergeIterator::create(vec![a, b]));
    assert_eq!(fused.num_active_iterators(), 2);
    assert_eq!(drain(&mut fused), pairs(&[("a", "1"), ("b", "2"), ("c", "1")]));
    assert_eq!(fused.next(), Ok(()));
    assert_ne!(fused.next(), Err(Error::Fused));
}

#[test]
fn memtable_replaces_the_value_of_a_key() {
    let mut table = MemTable::create(9);
    assert!(table.is_empty());
    assert_eq!(table.id(), 9);
    assert_eq!(table.put(b"b", b"2"), Ok(()));
    assert_eq!(table.put(b"a", b"1"), Ok(()));
    assert_eq!(table.put(b"c", b"3"), Ok(()));
    assert_eq!(table.put(b"b", b"22"), Ok(()));
    assert_eq!(table.put(b"a", b""), Ok(()));
    assert_eq!(table.len(), 3);
    assert_eq!(table.get(b"a"), Some(vec![]));
    assert_eq!(table.get(b"b"), Some(b"22".to_vec()));
    assert_eq!(table.get(b"c"), Some(b"3".to_vec()));
    assert_eq!(table.get(b"d"), None);
    assert_eq!(table.get(b""), None);
    assert_eq!(table.key_at(0), b"a");
    assert_eq!(table.value_at(1), b"22");
    // Two bytes per put, and one more for the longer value.
    assert_eq!(table.approximate_size(), 2 + 2 + 2 + 3 + 1);
    let copy = table.duplicate();
    assert_eq!(copy.get(b"b"), Some(b"22".to_vec()));
    assert_eq!(copy.id(), 9);
    assert_eq!(copy.approximate_size(), table.approximate_size());
}

#[test]
fn memtable_refuses_what_the_table_format_cannot_hold() {
    let mut table = MemTable::create(0);
    assert_eq!(table.put(b"", b"v"), Err(Error::InvalidEntry));
    assert_eq!(table.put(&vec![1u8; 65536], b"v"), Err(Error::InvalidEntry));
    assert_eq!(table.put(b"k", &vec![1u8; 65536]), Err(Error::InvalidEntry));
    assert!(table.is_empty());
    assert_eq!(table.approximate_size(), 0);
    assert_eq!(table.put(&vec![1u8; 65535], &vec![2u8; 65535]), Ok(()));
    assert_eq!(table.len(), 1);
}

#[test]
fn memtable_flushes_into_a_table() {
    let mut table = MemTable::create(0);
    for i in 0..50u32 {
        table.put(format!("k{:03}", i).as_bytes(), format!("v{}", i).as_bytes()).unwrap();
    }
    let mut builder = SsTableBuilder::new(64);
    table.flush(&mut builder);
    let sst = Arc::new(builder.build(1).unwrap());
    let mut iter = SsTableIterator::create_and_seek_to_first(sst);
    let seen = drain(&mut iter);
    assert_eq!(seen.len(), 50);
    assert_eq!(seen[7], (b"k007".to_vec(), b"v7".to_vec()));
    assert_ascending(&seen);
}

#[test]
fn build_tables_begins_a_table_once_the_full_blocks_reach_the_target() {
    // With blocks of the target size 20 two entries of 8 bytes fill a
    // block of 18 bytes; a table is closed with the entry that closes its
    // second block.
    let items: Vec<(String, String)> =
        (b'a'..=b'l').map(|c| ((c as char).to_string(), "v".to_string())).collect();
    let borrowed: Vec<(&str, &str)> = items.iter().map(|(k, v)| (k.as_str(), v.as_str())).collect();
    let mut next_id = 40;
    let tables = build_tables(mem_iter(&borrowed), 20, 36, false, &mut next_id).unwrap();
    assert_eq!(next_id, 43);
    assert_eq!(tables.len(), 3);
    let ids: Vec<usize> = tables.iter().map(|t| t.sst_id()).collect();
    assert_eq!(ids, vec![40, 41, 42]);
    assert_eq!(tables[0].first_key(), b"a");
    assert_eq!(tables[0].last_key(), b"e");
    assert_eq!(tables[0].num_of_blocks(), 3);
    assert_eq!(tables[1].first_key(), b"f");
    assert_eq!(tables[1].last_key(), b"j");
    assert_eq!(tables[2].first_key(), b"k");
    assert_eq!(tables[2].last_key(), b"l");
    assert_eq!(tables[2].num_of_blocks(), 1);
}

#[test]
fn build_tables_leaves_tombstones_out_where_asked() {
    let items = [("a", "1"), ("b", ""), ("c", "3")];
    let mut next_id = 0;
    let kept = build_tables(mem_iter(&items), 64, 1024, false, &mut next_id).unwrap();
    assert_eq!(kept.len(), 1);
    let mut all = SsTableIterator::create_and_seek_to_first(kept[0].clone());
    let mut seen = Vec::new();
    while all.is_valid() {
        seen.push((all.key().to_vec(), all.value().to_vec()));
        all.next().unwrap();
    }
    assert_eq!(seen, pairs(&items));
    let live = build_tables(mem_iter(&items), 64, 1024, true, &mut next_id).unwrap();
    assert_eq!(next_id, 2);
    let mut rest = SsTableIterator::create_and_seek_to_first(live[0].clone());
    let mut seen = Vec::new();
    while rest.is_valid() {
        seen.push((rest.key().to_vec(), rest.value().to_vec()));
        rest.next().unwrap();
    }
    assert_eq!(seen, pairs(&[("a", "1"), ("c", "3")]));
}

#[test]
fn build_tables_fails_where_no_id_is_left() {
    let mut next_id = usize::MAX;
    let r = build_tables(mem_iter(&[("a", "1")]), 64, 1024, false, &mut next_id);
    assert!(matches!(r, Err(Error::TooLarge)));
    let mut next_id = usize::MAX;
    let none = build_tables(mem_iter(&[]), 64, 1024, false, &mut next_id).unwrap();
    assert!(none.is_empty());
}
