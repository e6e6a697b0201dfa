use mini_lsm::compact::leveled::{
    LeveledCompactionController, LeveledCompactionOptions, LeveledCompactionTask,
};
use mini_lsm::compact::simple_leveled::SimpleLeveledCompactionOptions;
use mini_lsm::compact::tiered::TieredCompactionOptions;
use mini_lsm::compact::{CompactionOptions, CompactionTask};
use mini_lsm::error::Error;
use mini_lsm::iterators::{Bound, StorageIterator};
use mini_lsm::lsm_storage::{LsmStorageInner, LsmStorageOptions};
use mini_lsm::table::SsTableIterator;

type Pairs = Vec<(Vec<u8>, Vec<u8>)>;

fn options(compaction_options: CompactionOptions) -> LsmStorageOptions {
    LsmStorageOptions {
        block_size: 4096,
        target_sst_size: 1 << 20,
        num_memtable_limit: 3,
        compaction_options,
    }
}

fn simple_options() -> CompactionOptions {
    CompactionOptions::Simple(SimpleLeveledCompactionOptions {
        size_ratio_percent: 200,
        level0_file_num_compaction_trigger: 2,
        max_levels: 3,
    })
}

fn tiered_options() -> CompactionOptions {
    CompactionOptions::Tiered(TieredCompactionOptions {
        num_tiers: 3,
        max_size_amplification_percent: 200,
        size_ratio: 1,
        min_merge_width: 2,
    })
}

fn scan_all(store: &LsmStorageInner) -> Pairs {
    scan(store, Bound::Unbounded, Bound::Unbounded)
}

fn scan(store: &LsmStorageInner, lower: Bound, upper: Bound) -> Pairs {
    let mut iter = store.scan(&lower, upper).unwrap();
    let mut seen = Vec::new();
    while iter.is_valid() {
        seen.push((iter.key().to_vec(), iter.value().to_vec()));
        iter.next().unwrap();
    }
    seen
}

fn pairs(items: &[(&str, &str)]) -> Pairs {
    items.iter().map(|(k, v)| (k.as_bytes().to_vec(), v.as_bytes().to_vec())).collect()
}

fn get(store: &LsmStorageInner, key: &str) -> Option<String> {
    store.get(key.as_bytes()).map(|v| String::from_utf8(v).unwrap())
}

fn flush_all(store: &mut LsmStorageInner) {
    store.force_freeze_memtable();
    while !store.state().imm_memtables.is_empty() {
        store.force_flush_next_imm_memtable().unwrap();
    }
}

fn table_keys(store: &LsmStorageInner, id: usize) -> Vec<Vec<u8>> {
    let table = store.state().sstables[&id].clone();
    let mut iter = SsTableIterator::create_and_seek_to_first(table);
    let mut keys = Vec::new();
    while iter.is_valid() {
        keys.push(iter.key().to_vec());
        iter.next().unwrap();
    }
    keys
}

#[test]
fn the_newest_put_wins() {
    let mut store = LsmStorageInner::open(options(CompactionOptions::NoCompaction));
    store.put(b"a", b"1").unwrap();
    store.put(b"b", b"2").unwrap();
    store.put(b"a", b"3").unwrap();
    assert_eq!(get(&store, "a"), Some("3".to_string()));
    assert_eq!(get(&store, "b"), Some("2".to_string()));
    assert_eq!(get(&store, "c"), None);
    assert_eq!(scan_all(&store), pairs(&[("a", "3"), ("b", "2")]));
}

#[test]
fn a_deleted_key_stays_deleted_through_flush_and_compaction() {
    let mut store = LsmStorageInner::open(options(CompactionOptions::NoCompaction));
    store.put(b"x", b"1").unwrap();
    store.delete(b"x").unwrap();
    assert_eq!(get(&store, "x"), None);
    flush_all(&mut store);
    assert_eq!(store.state().l0_sstables.len(), 1);
    assert_eq!(get(&store, "x"), None);
    store.force_full_compaction().unwrap();
    assert_eq!(get(&store, "x"), None);
    // The tombstone was dropped: level 1 holds no table, and none is open.
    assert_eq!(store.state().l0_sstables, Vec::<usize>::new());
    assert_eq!(store.state().levels, vec![(1, vec![])]);
    assert!(store.state().sstables.is_empty());
    assert_eq!(scan_all(&store), pairs(&[]));
}

#[test]
fn a_tombstone_hides_older_values_in_every_layer() {
    let mut store = LsmStorageInner::open(options(simple_options()));
    store.put(b"k", b"old").unwrap();
    store.put(b"m", b"kept").unwrap();
    flush_all(&mut store);
    store.force_full_compaction().unwrap();
    store.delete(b"k").unwrap();
    assert_eq!(get(&store, "k"), None);
    flush_all(&mut store);
    assert_eq!(get(&store, "k"), None);
    assert_eq!(get(&store, "m"), Some("kept".to_string()));
    assert_eq!(scan_all(&store), pairs(&[("m", "kept")]));
    store.put(b"k", b"new").unwrap();
    assert_eq!(get(&store, "k"), Some("new".to_string()));
    assert_eq!(scan_all(&store), pairs(&[("k", "new"), ("m", "kept")]));
}

#[test]
fn put_refuses_what_the_table_format_cannot_hold() {
    let mut store = LsmStorageInner::open(options(CompactionOptions::NoCompaction));
    assert_eq!(store.put(b"", b"v"), Err(Error::InvalidEntry));
    assert_eq!(store.put(&vec![0u8; 65536], b"v"), Err(Error::InvalidEntry));
    assert_eq!(store.put(b"k", &vec![0u8; 65536]), Err(Error::InvalidEntry));
    assert_eq!(store.delete(b""), Err(Error::InvalidEntry));
    assert_eq!(scan_all(&store), pairs(&[]));
    assert!(store.options().is_usable());
}

#[test]
fn a_large_store_scans_in_order_after_flush() {
    let mut store = LsmStorageInner::open(LsmStorageOptions {
        block_size: 4096,
        target_sst_size: 64 * 1024,
        num_memtable_limit: 100,
        compaction_options: CompactionOptions::NoCompaction,
    });
    let value_of = |i: usize| -> Vec<u8> { vec![(i % 251) as u8 + 1; 1024] };
    for i in 0..1024 {
        store.put(format!("k{:04}", i).as_bytes(), &value_of(i)).unwrap();
    }
    // The memtable was frozen whenever it reached the target size.
    assert!(store.state().imm_memtables.len() >= 15);
    flush_all(&mut store);
    assert!(store.state().imm_memtables.is_empty());
    assert!(store.state().l0_sstables.len() >= 15);
    let seen = scan_all(&store);
    assert_eq!(seen.len(), 1024);
    for (i, (key, value)) in seen.iter().enumerate() {
        assert_eq!(key, format!("k{:04}", i).as_bytes());
        assert_eq!(value, &value_of(i));
    }
    for id in store.state().l0_sstables.clone() {
        let table = store.state().sstables[&id].clone();
        let keys = table_keys(&store, id);
        assert_eq!(table.sst_id(), id);
        assert_eq!(table.first_key(), &keys[0][..]);
        assert_eq!(table.last_key(), &keys[keys.len() - 1][..]);
        assert!(table.num_of_blocks() > 1);
    }
    assert_eq!(store.get(b"k0512"), Some(value_of(512)));
    // A full compaction rolls over at the target size, and changes nothing
    // for a reader.
    store.force_full_compaction().unwrap();
    assert!(store.state().l0_sstables.is_empty());
    let ids = store.state().levels[0].1.clone();
    assert!(ids.len() >= 8);
    assert_eq!(store.state().sstables.len(), ids.len());
    let mut all_keys = Vec::new();
    for id in ids {
        all_keys.extend(table_keys(&store, id));
    }
    assert_eq!(all_keys.len(), 1024);
    assert!(all_keys.windows(2).all(|pair| pair[0] < pair[1]));
    assert_eq!(scan_all(&store), seen);
}

#[test]
fn scan_respects_both_bounds_across_layers() {
    let mut store = LsmStorageInner::open(options(simple_options()));
    for key in ["a", "c", "e", "g"] {
        store.put(key.as_bytes(), b"level").unwrap();
    }
    flush_all(&mut store);
    store.force_full_compaction().unwrap();
    for key in ["b", "c", "f"] {
        store.put(key.as_bytes(), b"l0").unwrap();
    }
    flush_all(&mut store);
    store.put(b"d", b"mem").unwrap();
    store.delete(b"e").unwrap();
    store.put(b"f", b"mem").unwrap();
    let keys = |lower: Bound, upper: Bound| -> String {
        scan(&store, lower, upper).iter().map(|e| e.0[0] as char).collect()
    };
    let inc = |k: &str| Bound::Included(k.as_bytes().to_vec());
    let exc = |k: &str| Bound::Excluded(k.as_bytes().to_vec());
    assert_eq!(
        scan_all(&store),
        pairs(&[("a", "level"), ("b", "l0"), ("c", "l0"), ("d", "mem"), ("f", "mem"), ("g", "level")])
    );
    assert_eq!(keys(inc("b"), inc("f")), "bcdf");
    assert_eq!(keys(exc("b"), exc("f")), "cd");
    assert_eq!(keys(inc("e"), Bound::Unbounded), "fg");
    assert_eq!(keys(exc("d"), inc("e")), "");
    assert_eq!(keys(Bound::Unbounded, exc("a")), "");
    assert_eq!(keys(exc("g"), Bound::Unbounded), "");
    let iter = store.scan(&Bound::Unbounded, Bound::Unbounded).unwrap();
    // The memtable, the table of level 0 and the one level that holds tables.
    assert_eq!(iter.num_active_iterators(), 1 + 1 + 1);
}

#[test]
fn a_scan_is_not_changed_by_later_puts() {
    let mut store = LsmStorageInner::open(options(CompactionOptions::NoCompaction));
    store.put(b"a", b"1").unwrap();
    store.put(b"b", b"2").unwrap();
    let mut iter = store.scan(&Bound::Unbounded, Bound::Unbounded).unwrap();
    store.put(b"a", b"changed").unwrap();
    store.put(b"c", b"3").unwrap();
    let mut seen = Vec::new();
    while iter.is_valid() {
        seen.push((iter.key().to_vec(), iter.value().to_vec()));
        iter.next().unwrap();
    }
    assert_eq!(seen, pairs(&[("a", "1"), ("b", "2")]));
    assert_eq!(scan_all(&store), pairs(&[("a", "changed"), ("b", "2"), ("c", "3")]));
}

#[test]
fn flush_keeps_what_a_reader_sees() {
    let mut store = LsmStorageInner::open(options(CompactionOptions::NoCompaction));
    store.put(b"a", b"1").unwrap();
    store.put(b"b", b"2").unwrap();
    store.force_freeze_memtable();
    store.put(b"b", b"3").unwrap();
    store.delete(b"a").unwrap();
    store.force_freeze_memtable();
    store.put(b"c", b"4").unwrap();
    let before = scan_all(&store);
    assert_eq!(before, pairs(&[("b", "3"), ("c", "4")]));
    assert_eq!(store.state().imm_memtables.len(), 2);
    // The oldest frozen memtable goes first.
    store.force_flush_next_imm_memtable().unwrap();
    assert_eq!(store.state().imm_memtables.len(), 1);
    assert_eq!(store.state().l0_sstables.len(), 1);
    assert_eq!(table_keys(&store, store.state().l0_sstables[0]), vec![b"a".to_vec(), b"b".to_vec()]);
    assert_eq!(scan_all(&store), before);
    store.force_flush_next_imm_memtable().unwrap();
    assert_eq!(store.state().l0_sstables.len(), 2);
    assert_eq!(scan_all(&store), before);
    assert_eq!(get(&store, "a"), None);
    assert_eq!(get(&store, "b"), Some("3".to_string()));
    // Without a frozen memtable nothing is done.
    store.force_flush_next_imm_memtable().unwrap();
    assert_eq!(store.state().l0_sstables.len(), 2);
}

#[test]
fn an_empty_frozen_memtable_leaves_without_a_table() {
    let mut store = LsmStorageInner::open(options(CompactionOptions::NoCompaction));
    store.force_freeze_memtable();
    assert_eq!(store.state().imm_memtables.len(), 1);
    store.force_flush_next_imm_memtable().unwrap();
    assert!(store.state().imm_memtables.is_empty());
    assert!(store.state().l0_sstables.is_empty());
    assert!(store.state().sstables.is_empty());
}

#[test]
fn trigger_flush_goes_by_the_number_of_memtables() {
    let mut store = LsmStorageInner::open(options(CompactionOptions::NoCompaction));
    store.put(b"a", b"1").unwrap();
    store.force_freeze_memtable();
    store.put(b"b", b"2").unwrap();
    store.force_freeze_memtable();
    // Two frozen memtables and the memtable: the limit of three is kept.
    store.trigger_flush().unwrap();
    assert_eq!(store.state().imm_memtables.len(), 2);
    store.put(b"c", b"3").unwrap();
    store.force_freeze_memtable();
    store.trigger_flush().unwrap();
    assert_eq!(store.state().imm_memtables.len(), 2);
    assert_eq!(store.state().l0_sstables.len(), 1);
    assert_eq!(scan_all(&store), pairs(&[("a", "1"), ("b", "2"), ("c", "3")]));
}

#[test]
fn full_compaction_keeps_what_a_reader_sees_and_is_idempotent() {
    let mut store = LsmStorageInner::open(options(simple_options()));
    store.put(b"a", b"1").unwrap();
    store.put(b"b", b"1").unwrap();
    flush_all(&mut store);
    store.put(b"b", b"2").unwrap();
    store.delete(b"a").unwrap();
    store.put(b"c", b"2").unwrap();
    flush_all(&mut store);
    store.put(b"d", b"3").unwrap();
    let before = scan_all(&store);
    assert_eq!(before, pairs(&[("b", "2"), ("c", "2"), ("d", "3")]));
    let old_ids = store.state().l0_sstables.clone();
    store.force_full_compaction().unwrap();
    assert_eq!(scan_all(&store), before);
    assert_eq!(get(&store, "a"), None);
    assert!(store.state().l0_sstables.is_empty());
    assert_eq!(store.state().levels[0].1.len(), 1);
    let id = store.state().levels[0].1[0];
    // The lower levels hold nothing, so the tombstone of "a" was dropped.
    assert_eq!(table_keys(&store, id), vec![b"b".to_vec(), b"c".to_vec()]);
    for old in old_ids {
        assert!(!store.state().sstables.contains_key(&old));
    }
    assert_eq!(store.state().sstables.len(), 1);
    store.force_full_compaction().unwrap();
    assert_eq!(scan_all(&store), before);
    assert_eq!(store.state().levels[0].1.len(), 1);
    assert_eq!(table_keys(&store, store.state().levels[0].1[0]), vec![b"b".to_vec(), b"c".to_vec()]);
}

#[test]
fn full_compaction_keeps_tombstones_above_levels_with_tables() {
    let mut store = LsmStorageInner::open(options(simple_options()));
    // A table with "a" reaches level 2.
    store.put(b"a", b"old").unwrap();
    flush_all(&mut store);
    store.force_full_compaction().unwrap();
    store.trigger_compaction().unwrap();
    assert_eq!(store.state().levels[0].1.len(), 0);
    assert_eq!(store.state().levels[1].1.len(), 1);
    assert_eq!(get(&store, "a"), Some("old".to_string()));
    store.delete(b"a").unwrap();
    flush_all(&mut store);
    store.force_full_compaction().unwrap();
    assert_eq!(get(&store, "a"), None);
    // The tombstone is still there, in level 1.
    let id = store.state().levels[0].1[0];
    assert_eq!(table_keys(&store, id), vec![b"a".to_vec()]);
}

#[test]
fn simple_leveled_compaction_merges_level_0_into_level_1() {
    let mut store = LsmStorageInner::open(options(simple_options()));
    for round in 0..3 {
        for i in 0..10 {
            store
                .put(format!("key{}", i).as_bytes(), format!("round{}", round).as_bytes())
                .unwrap();
        }
        flush_all(&mut store);
    }
    let l0 = store.state().l0_sstables.clone();
    assert_eq!(l0.len(), 3);
    let task = store.state().l0_sstables.clone();
    let before = scan_all(&store);
    assert_eq!(before.len(), 10);
    assert!(before.iter().all(|e| e.1 == b"round2"));
    store.trigger_compaction().unwrap();
    assert!(store.state().l0_sstables.is_empty());
    let outputs = store.state().levels[0].1.clone();
    assert_eq!(outputs.len(), 1);
    assert_eq!(store.state().sstables.len(), 1);
    assert!(store.state().sstables.contains_key(&outputs[0]));
    for id in task {
        assert!(!store.state().sstables.contains_key(&id));
    }
    assert_eq!(scan_all(&store), before);
    // Level 2 is empty, and so too small for level 1: level 1 moves down.
    store.trigger_compaction().unwrap();
    assert!(store.state().levels[0].1.is_empty());
    assert_eq!(store.state().levels[1].1.len(), 1);
    assert_eq!(scan_all(&store), before);
    store.trigger_compaction().unwrap();
    assert!(store.state().levels[1].1.is_empty());
    assert_eq!(store.state().levels[2].1.len(), 1);
    assert_eq!(scan_all(&store), before);
    // Now nothing is left to do.
    let ids = store.state().levels[2].1.clone();
    store.trigger_compaction().unwrap();
    assert_eq!(store.state().levels[2].1, ids);
}

#[test]
fn compact_merges_the_tables_of_a_task_without_changing_the_state() {
    let mut store = LsmStorageInner::open(options(simple_options()));
    store.put(b"a", b"1").unwrap();
    store.put(b"b", b"1").unwrap();
    flush_all(&mut store);
    store.put(b"b", b"2").unwrap();
    store.put(b"c", b"").unwrap();
    flush_all(&mut store);
    let l0 = store.state().l0_sstables.clone();
    let task = CompactionTask::ForceFullCompaction { sstables: l0.clone() };
    let tables = store.compact(&task).unwrap();
    assert_eq!(store.state().l0_sstables, l0);
    assert_eq!(tables.len(), 1);
    let mut iter = SsTableIterator::create_and_seek_to_first(tables[0].clone());
    let mut seen = Vec::new();
    while iter.is_valid() {
        seen.push((iter.key().to_vec(), iter.value().to_vec()));
        iter.next().unwrap();
    }
    assert_eq!(seen, pairs(&[("a", "1"), ("b", "2")]));
    assert!(!store.state().sstables.contains_key(&tables[0].sst_id()));
}

#[test]
fn tiered_compaction_flushes_to_tiers_and_merges_them() {
    let mut store = LsmStorageInner::open(options(tiered_options()));
    assert!(store.state().levels.is_empty());
    for round in 0..3 {
        store.put(format!("key{}", round).as_bytes(), b"v").unwrap();
        store.put(b"shared", format!("round{}", round).as_bytes()).unwrap();
        flush_all(&mut store);
    }
    assert!(store.state().l0_sstables.is_empty());
    assert_eq!(store.state().levels.len(), 3);
    let newest = store.state().levels[0].clone();
    assert_eq!(newest.1, vec![newest.0]);
    let before = scan_all(&store);
    assert_eq!(
        before,
        pairs(&[("key0", "v"), ("key1", "v"), ("key2", "v"), ("shared", "round2")])
    );
    // Two upper tables for one in the last tier: all tiers are merged.
    store.trigger_compaction().unwrap();
    assert_eq!(store.state().levels.len(), 1);
    let tier = store.state().levels[0].clone();
    assert_eq!(tier.0, tier.1[0]);
    assert_eq!(store.state().sstables.len(), tier.1.len());
    assert_eq!(scan_all(&store), before);
    store.trigger_compaction().unwrap();
    assert_eq!(store.state().levels.len(), 1);
    // A full compaction of the one tier changes nothing for a reader.
    store.force_full_compaction().unwrap();
    assert_eq!(scan_all(&store), before);
}

#[test]
fn without_compaction_nothing_is_triggered() {
    let mut store = LsmStorageInner::open(options(CompactionOptions::NoCompaction));
    for round in 0..4 {
        store.put(b"k", format!("{}", round).as_bytes()).unwrap();
        flush_all(&mut store);
    }
    store.trigger_compaction().unwrap();
    assert_eq!(store.state().l0_sstables.len(), 4);
    assert_eq!(get(&store, "k"), Some("3".to_string()));
}

fn leveled_store() -> LsmStorageInner {
    LsmStorageInner::open(LsmStorageOptions {
        block_size: 256,
        target_sst_size: 2048,
        num_memtable_limit: 3,
        compaction_options: CompactionOptions::Leveled(LeveledCompactionOptions {
            level_size_multiplier: 4,
            level0_file_num_compaction_trigger: 2,
            max_levels: 3,
            base_level_size_mb: 0,
        }),
    })
}

fn assert_levels_in_order(store: &LsmStorageInner) {
    for (_, ids) in &store.state().levels {
        let mut last: Option<Vec<u8>> = None;
        for id in ids {
            let table = &store.state().sstables[id];
            assert!(table.num_of_blocks() > 0);
            if let Some(last) = &last {
                assert!(&last[..] < table.first_key());
            }
            assert!(table.first_key() <= table.last_key());
            last = Some(table.last_key().to_vec());
        }
    }
    let named: usize =
        store.state().l0_sstables.len() + store.state().levels.iter().map(|l| l.1.len()).sum::<usize>();
    assert_eq!(store.state().sstables.len(), named);
}

#[test]
fn leveled_compaction_moves_tables_down_and_keeps_what_a_reader_sees() {
    let mut store = leveled_store();
    assert_eq!(store.state().levels.len(), 3);
    let mut expected = std::collections::BTreeMap::new();
    let mut moved = 0;
    for round in 0..12usize {
        for i in 0..60usize {
            let n = (i * 7 + round * 13) % 200;
            let key = format!("key{:04}", n).into_bytes();
            if (i + round) % 5 == 0 {
                store.delete(&key).unwrap();
                expected.remove(&key);
            } else {
                let value = format!("value-{}-{}", round, i).into_bytes();
                store.put(&key, &value).unwrap();
                expected.insert(key, value);
            }
        }
        flush_all(&mut store);
        for _ in 0..4 {
            let before = store.state().levels.clone();
            store.trigger_compaction().unwrap();
            if store.state().levels != before {
                moved += 1;
            }
            assert_levels_in_order(&store);
            let seen = scan_all(&store);
            let want: Pairs = expected.iter().map(|(k, v)| (k.clone(), v.clone())).collect();
            assert_eq!(seen, want);
        }
    }
    assert!(moved > 10);
    // Tables have reached the lower levels.
    assert!(!store.state().levels[2].1.is_empty());
    for (key, value) in &expected {
        assert_eq!(store.get(key), Some(value.clone()));
    }
    assert_eq!(store.get(b"key9999"), None);
}

#[test]
fn leveled_compaction_sends_level_0_to_the_last_level_of_an_empty_store() {
    let mut store = leveled_store();
    store.put(b"a", b"1").unwrap();
    flush_all(&mut store);
    store.put(b"b", b"2").unwrap();
    store.delete(b"a").unwrap();
    flush_all(&mut store);
    assert_eq!(store.state().l0_sstables.len(), 2);
    // Without data no level above the last is in use.
    store.trigger_compaction().unwrap();
    assert!(store.state().l0_sstables.is_empty());
    assert!(store.state().levels[0].1.is_empty());
    assert!(store.state().levels[1].1.is_empty());
    assert_eq!(store.state().levels[2].1.len(), 1);
    // The last level is the bottom: the tombstone of "a" was dropped.
    assert_eq!(table_keys(&store, store.state().levels[2].1[0]), vec![b"b".to_vec()]);
    assert_eq!(scan_all(&store), pairs(&[("b", "2")]));
    assert_eq!(store.state().sstables.len(), 1);
}

#[test]
fn compact_carries_out_a_task_of_leveled_compaction() {
    let mut store = leveled_store();
    store.put(b"a", b"1").unwrap();
    store.put(b"b", b"1").unwrap();
    flush_all(&mut store);
    store.put(b"b", b"2").unwrap();
    store.delete(b"a").unwrap();
    flush_all(&mut store);
    let controller = LeveledCompactionController::new(LeveledCompactionOptions {
        level_size_multiplier: 4,
        level0_file_num_compaction_trigger: 2,
        max_levels: 3,
        base_level_size_mb: 0,
    });
    let task = controller.generate_compaction_task(store.state()).unwrap();
    assert_eq!(task.upper_level, None);
    assert_eq!(task.lower_level, 3);
    assert!(task.is_lower_level_bottom_level);
    let plan = store.state().plan_of(&task).unwrap();
    assert!(plan.from_l0);
    assert_eq!((plan.lower, plan.from, plan.to), (2, 0, 0));
    let l0 = store.state().l0_sstables.clone();
    let tables = store.compact(&CompactionTask::Leveled(task)).unwrap();
    assert_eq!(store.state().l0_sstables, l0);
    assert_eq!(tables.len(), 1);
    let mut iter = SsTableIterator::create_and_seek_to_first(tables[0].clone());
    let mut seen = Vec::new();
    while iter.is_valid() {
        seen.push((iter.key().to_vec(), iter.value().to_vec()));
        iter.next().unwrap();
    }
    assert_eq!(seen, pairs(&[("b", "2")]));
}

#[test]
fn a_task_that_names_other_tables_than_the_store_has_no_plan() {
    let mut store = leveled_store();
    store.put(b"a", b"1").unwrap();
    flush_all(&mut store);
    let l0 = store.state().l0_sstables.clone();
    let task = |upper: Vec<usize>, lower_level: usize, lower: Vec<usize>| LeveledCompactionTask {
        upper_level: None,
        upper_level_sst_ids: upper,
        lower_level,
        lower_level_sst_ids: lower,
        is_lower_level_bottom_level: false,
    };
    assert!(store.state().plan_of(&task(l0.clone(), 1, vec![])).is_some());
    assert!(store.state().plan_of(&task(vec![], 1, vec![])).is_none());
    assert!(store.state().plan_of(&task(l0.clone(), 0, vec![])).is_none());
    assert!(store.state().plan_of(&task(l0.clone(), 4, vec![])).is_none());
    assert!(store.state().plan_of(&task(l0.clone(), 1, vec![77])).is_none());
}

fn store_with_three_tables(compaction_options: CompactionOptions) -> LsmStorageInner {
    let mut store = LsmStorageInner::open(options(compaction_options));
    for round in 0..3 {
        for i in 0..10 {
            store
                .put(format!("key{}", i).as_bytes(), format!("round{}", round).as_bytes())
                .unwrap();
        }
        flush_all(&mut store);
    }
    store
}

#[test]
fn a_compaction_on_a_copy_is_installed_in_the_store_that_went_on() {
    for compaction_options in [simple_options(), tiered_options()] {
        let mut store = store_with_three_tables(compaction_options);
        let mut copy = store.duplicate();
        assert_eq!(scan_all(&copy), scan_all(&store));
        let task = copy.next_compaction_task().unwrap();
        let first = copy.next_sst_id();
        let outputs = copy.compact(&task).unwrap();
        assert_eq!(outputs.len(), 1);
        assert_eq!(outputs[0].sst_id(), first);
        // The store takes writes and freezes its memtable meanwhile.
        store.put(b"key3", b"later").unwrap();
        store.put(b"zzz", b"new").unwrap();
        store.force_freeze_memtable();
        store.delete(b"key4").unwrap();
        let before = scan_all(&store);
        let tables: Vec<usize> = store.state().sstables.keys().copied().collect();
        let mut removed = store.install_from(&copy, &task, &outputs, first).unwrap();
        removed.sort();
        let mut gone = tables.clone();
        gone.sort();
        assert_eq!(removed, gone);
        assert_eq!(scan_all(&store), before);
        assert_eq!(get(&store, "key3"), Some("later".to_string()));
        assert_eq!(get(&store, "key4"), None);
        assert_eq!(get(&store, "key5"), Some("round2".to_string()));
        assert_eq!(store.state().sstables.len(), 1);
        assert!(store.state().sstables.contains_key(&first));
        assert!(store.next_sst_id() > first);
        assert_eq!(store.state().imm_memtables.len(), 1);
        // The copy is as it was.
        assert_eq!(copy.state().sstables.len(), 3);
    }
}

#[test]
fn a_compaction_on_a_copy_is_stale_once_the_tables_have_changed() {
    let mut store = store_with_three_tables(simple_options());
    let mut copy = store.duplicate();
    let task = copy.next_compaction_task().unwrap();
    let first = copy.next_sst_id();
    let outputs = copy.compact(&task).unwrap();
    store.put(b"other", b"1").unwrap();
    flush_all(&mut store);
    let l0 = store.state().l0_sstables.clone();
    let before = scan_all(&store);
    let r = store.install_from(&copy, &task, &outputs, first);
    assert!(matches!(r, Err(Error::Stale)));
    assert_eq!(Error::Stale.message(), "the tables of the store have changed");
    assert_eq!(store.state().l0_sstables, l0);
    assert_eq!(scan_all(&store), before);
    // A store that was opened apart shares no table with the copy.
    let mut apart = store_with_three_tables(simple_options());
    let r = apart.install_from(&copy, &task, &outputs, first);
    assert!(matches!(r, Err(Error::Stale)));
}

#[test]
fn no_task_is_next_where_nothing_is_due() {
    let mut store = LsmStorageInner::open(options(simple_options()));
    assert!(store.next_compaction_task().is_none());
    store.put(b"a", b"1").unwrap();
    flush_all(&mut store);
    assert!(store.next_compaction_task().is_none());
    let store = store_with_three_tables(CompactionOptions::NoCompaction);
    assert!(store.next_compaction_task().is_none());
    let store = store_with_three_tables(simple_options());
    let task = store.next_compaction_task().unwrap();
    assert!(matches!(task, CompactionTask::Simple(_)));
    assert!(matches!(
        store.compaction_controller(),
        mini_lsm::compact::CompactionController::Simple(_)
    ));
}

#[test]
fn a_flush_on_a_copy_is_installed_in_the_store_that_went_on() {
    for compaction_options in [simple_options(), tiered_options()] {
        let mut store = LsmStorageInner::open(options(compaction_options));
        store.put(b"a", b"1").unwrap();
        store.put(b"b", b"2").unwrap();
        store.force_freeze_memtable();
        let mut copy = store.duplicate();
        let first = copy.next_sst_id();
        let (memtable, table) = copy.write_frozen().unwrap().unwrap();
        let table = table.unwrap();
        assert_eq!(table.sst_id(), first);
        assert_eq!(copy.next_sst_id(), first + 1);
        assert_eq!(copy.state().imm_memtables.len(), 1);
        assert!(copy.state().sstables.is_empty());
        // The store takes writes and freezes its memtable meanwhile.
        store.put(b"a", b"3").unwrap();
        store.force_freeze_memtable();
        store.put(b"c", b"4").unwrap();
        let before = scan_all(&store);
        store.install_flush(&memtable, Some(table.clone())).unwrap();
        assert_eq!(scan_all(&store), before);
        assert_eq!(scan_all(&store), pairs(&[("a", "3"), ("b", "2"), ("c", "4")]));
        assert_eq!(store.state().imm_memtables.len(), 1);
        assert_eq!(store.state().sstables.len(), 1);
        assert_eq!(table_keys(&store, first), vec![b"a".to_vec(), b"b".to_vec()]);
        assert!(store.next_sst_id() > first);
        // The memtable is no longer the oldest frozen memtable.
        let again = store.install_flush(&memtable, Some(table));
        assert!(matches!(again, Err(Error::Stale)));
        assert_eq!(scan_all(&store), before);
    }
}

#[test]
fn an_empty_frozen_memtable_is_written_without_a_table() {
    let mut store = LsmStorageInner::open(options(simple_options()));
    assert!(store.write_frozen().unwrap().is_none());
    store.force_freeze_memtable();
    let mut copy = store.duplicate();
    let first = copy.next_sst_id();
    let (memtable, table) = copy.write_frozen().unwrap().unwrap();
    assert!(table.is_none());
    assert_eq!(copy.next_sst_id(), first);
    store.install_flush(&memtable, None).unwrap();
    assert!(store.state().imm_memtables.is_empty());
    assert!(store.state().sstables.is_empty());
    assert!(matches!(store.install_flush(&memtable, None), Err(Error::Stale)));
}

#[test]
fn a_new_store_is_empty_and_numbers_from_1() {
    let store = LsmStorageInner::open(options(simple_options()));
    assert_eq!(store.next_sst_id(), 1);
    assert_eq!(store.state().memtable.id(), 0);
    assert_eq!(store.state().levels.len(), 3);
    let mut store = store;
    store.force_freeze_memtable();
    assert_eq!(store.state().memtable.id(), 1);
    assert_eq!(store.next_sst_id(), 2);
}

#[test]
fn compact_refuses_a_task_that_does_not_name_whole_levels() {
    let mut store = store_with_three_tables(simple_options());
    let l0 = store.state().l0_sstables.clone();
    let fits = CompactionTask::ForceFullCompaction { sstables: l0.clone() };
    assert!(store.state().can_compact(&fits));
    let part = CompactionTask::ForceFullCompaction { sstables: l0[1..].to_vec() };
    assert!(!store.state().can_compact(&part));
    let before = store.next_sst_id();
    assert!(matches!(store.compact(&part), Err(Error::Stale)));
    assert_eq!(store.next_sst_id(), before);
    let tiers = CompactionTask::Tiered(mini_lsm::compact::tiered::TieredCompactionTask {
        tiers: vec![(1, vec![])],
        bottom_tier_included: false,
    });
    assert!(store.state().can_compact(&tiers));
    let tiers = CompactionTask::Tiered(mini_lsm::compact::tiered::TieredCompactionTask {
        tiers: vec![(2, vec![])],
        bottom_tier_included: false,
    });
    assert!(!store.state().can_compact(&tiers));
    assert!(matches!(store.compact(&tiers), Err(Error::Stale)));
    assert_eq!(store.compact(&fits).unwrap().len(), 1);
}
