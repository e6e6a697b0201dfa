use std::collections::HashMap;
use std::sync::Arc;

use mini_lsm::compact::leveled::{
    LeveledCompactionController, LeveledCompactionOptions, LeveledCompactionTask,
};
use mini_lsm::compact::simple_leveled::{
    SimpleLeveledCompactionController, SimpleLeveledCompactionOptions,
    SimpleLeveledCompactionTask,
};
use mini_lsm::compact::tiered::{
    TieredCompactionController, TieredCompactionOptions, TieredCompactionTask,
};
use mini_lsm::compact::{
    contains_id, split_ids, CompactionController, CompactionOptions, CompactionTask,
};
use mini_lsm::lsm_storage::LsmStorageState;
use mini_lsm::mem_table::MemTable;
use mini_lsm::table::SsTable;

const MIB: u64 = 1024 * 1024;

fn state(l0: &[usize], levels: &[(usize, &[usize])]) -> LsmStorageState {
    LsmStorageState {
        memtable: Arc::new(MemTable::create(0)),
        imm_memtables: vec![],
        l0_sstables: l0.to_vec(),
        levels: levels.iter().map(|(n, ids)| (*n, ids.to_vec())).collect(),
        sstables: HashMap::new(),
    }
}

fn with_table(state: &mut LsmStorageState, id: usize, size: u64, first: &str, last: &str) {
    let table = SsTable::create_meta_only(
        id,
        size,
        first.as_bytes().to_vec(),
        last.as_bytes().to_vec(),
    );
    state.sstables.insert(id, Arc::new(table));
}

fn simple() -> SimpleLeveledCompactionController {
    SimpleLeveledCompactionController::new(SimpleLeveledCompactionOptions {
        size_ratio_percent: 200,
        level0_file_num_compaction_trigger: 2,
        max_levels: 3,
    })
}

#[test]
fn ids_are_split_by_membership() {
    assert!(contains_id(&vec![3, 1, 2], 1));
    assert!(!contains_id(&vec![3, 1, 2], 4));
    let (kept, gone) = split_ids(&vec![5, 4, 3, 2, 1], &vec![2, 4, 9]);
    assert_eq!(kept, vec![5, 3, 1]);
    assert_eq!(gone, vec![4, 2]);
}

#[test]
fn simple_leveled_compacts_level_0_when_it_holds_enough_tables() {
    let snapshot = state(&[5, 4, 3], &[(1, &[1, 2]), (2, &[]), (3, &[])]);
    let task = simple().generate_compaction_task(&snapshot).unwrap();
    assert_eq!(task.upper_level, None);
    assert_eq!(task.upper_level_sst_ids, vec![5, 4, 3]);
    assert_eq!(task.lower_level, 1);
    assert_eq!(task.lower_level_sst_ids, vec![1, 2]);
    assert!(!task.is_lower_level_bottom_level);
}

#[test]
fn simple_leveled_compacts_the_first_level_whose_next_is_too_small() {
    // Level 2 holds 50 tables for every hundred of level 1.
    let snapshot = state(&[9], &[(1, &[1, 2]), (2, &[3]), (3, &[4, 5, 6, 7])]);
    let task = simple().generate_compaction_task(&snapshot).unwrap();
    assert_eq!(task.upper_level, Some(1));
    assert_eq!(task.upper_level_sst_ids, vec![1, 2]);
    assert_eq!(task.lower_level, 2);
    assert_eq!(task.lower_level_sst_ids, vec![3]);
    assert!(!task.is_lower_level_bottom_level);
    // Level 1 is in order; level 3 holds 150 for every hundred of level 2.
    let snapshot = state(&[9], &[(1, &[1]), (2, &[2, 3]), (3, &[4, 5, 6])]);
    let task = simple().generate_compaction_task(&snapshot).unwrap();
    assert_eq!(task.upper_level, Some(2));
    assert_eq!(task.lower_level, 3);
    assert_eq!(task.lower_level_sst_ids, vec![4, 5, 6]);
    assert!(task.is_lower_level_bottom_level);
}

#[test]
fn simple_leveled_has_no_task_for_levels_in_order() {
    // Exactly 200 for every hundred is enough; an empty level asks nothing.
    let snapshot = state(&[9], &[(1, &[1]), (2, &[2, 3]), (3, &[4, 5, 6, 7])]);
    assert!(simple().generate_compaction_task(&snapshot).is_none());
    let snapshot = state(&[], &[(1, &[]), (2, &[]), (3, &[4])]);
    assert!(simple().generate_compaction_task(&snapshot).is_none());
}

#[test]
fn simple_leveled_applies_a_result_to_level_0_and_level_1() {
    // Table 6 was flushed while the compaction ran.
    let snapshot = state(&[6, 5, 4, 3], &[(1, &[1, 2]), (2, &[7]), (3, &[])]);
    let task = SimpleLeveledCompactionTask {
        upper_level: None,
        upper_level_sst_ids: vec![5, 4, 3],
        lower_level: 1,
        lower_level_sst_ids: vec![1, 2],
        is_lower_level_bottom_level: false,
    };
    let (next, removed) = simple().apply_compaction_result(&snapshot, &task, &[10, 11]);
    assert_eq!(next.l0_sstables, vec![6]);
    assert_eq!(next.levels, vec![(1, vec![10, 11]), (2, vec![7]), (3, vec![])]);
    assert_eq!(removed, vec![5, 4, 3, 1, 2]);
}

#[test]
fn simple_leveled_applies_a_result_to_two_levels() {
    let snapshot = state(&[9], &[(1, &[1, 2]), (2, &[3]), (3, &[4])]);
    let task = SimpleLeveledCompactionTask {
        upper_level: Some(1),
        upper_level_sst_ids: vec![1, 2],
        lower_level: 2,
        lower_level_sst_ids: vec![3],
        is_lower_level_bottom_level: false,
    };
    let (next, removed) = simple().apply_compaction_result(&snapshot, &task, &[12]);
    assert_eq!(next.l0_sstables, vec![9]);
    assert_eq!(next.levels, vec![(1, vec![]), (2, vec![12]), (3, vec![4])]);
    assert_eq!(removed, vec![1, 2, 3]);
}

fn tiered(num_tiers: usize, percent: usize, size_ratio: usize) -> TieredCompactionController {
    TieredCompactionController::new(TieredCompactionOptions {
        num_tiers,
        max_size_amplification_percent: percent,
        size_ratio,
        min_merge_width: 2,
    })
}

#[test]
fn tiered_merges_all_tiers_when_the_last_is_outgrown() {
    let snapshot = state(&[], &[(3, &[3]), (2, &[2]), (1, &[1])]);
    let task = tiered(3, 200, 1).generate_compaction_task(&snapshot).unwrap();
    assert_eq!(task.tiers, vec![(3, vec![3]), (2, vec![2]), (1, vec![1])]);
    assert!(task.bottom_tier_included);
}

#[test]
fn tiered_merges_down_to_the_first_tier_that_is_outweighed() {
    let snapshot =
        state(&[], &[(9, &[9, 10, 11]), (5, &[5]), (1, &[1, 2, 3, 4, 6, 7, 8, 12])]);
    let task = tiered(3, 200, 1).generate_compaction_task(&snapshot).unwrap();
    assert_eq!(task.tiers, vec![(9, vec![9, 10, 11]), (5, vec![5])]);
    assert!(!task.bottom_tier_included);
}

#[test]
fn tiered_merges_the_upper_tiers_when_there_are_too_many() {
    let snapshot = state(&[], &[(4, &[4]), (3, &[3]), (2, &[2]), (1, &[1])]);
    let task = tiered(2, 1000, 1000).generate_compaction_task(&snapshot).unwrap();
    assert_eq!(task.tiers, vec![(4, vec![4]), (3, vec![3]), (2, vec![2])]);
    assert!(!task.bottom_tier_included);
    let task = tiered(1, 1000, 1000).generate_compaction_task(&snapshot).unwrap();
    assert_eq!(task.tiers.len(), 4);
    assert!(task.bottom_tier_included);
}

#[test]
fn tiered_compares_ratios_exactly() {
    // Three tables above two: 300 for every 200. The trigger is a ratio of
    // more than 100 + 49 to 100, and not of more than 100 + 50.
    let snapshot = state(&[], &[(9, &[9, 10, 11]), (5, &[5, 6])]);
    let task = tiered(9, 1000, 49).generate_compaction_task(&snapshot).unwrap();
    assert_eq!(task.tiers.len(), 2);
    assert!(tiered(9, 1000, 50).generate_compaction_task(&snapshot).is_none());
    // 150 for every hundred of the last tier reach 150 percent, not 151.
    let task = tiered(9, 150, 1000).generate_compaction_task(&snapshot).unwrap();
    assert!(task.bottom_tier_included);
    assert!(tiered(9, 151, 1000).generate_compaction_task(&snapshot).is_none());
}

#[test]
fn tiered_takes_the_largest_ratios() {
    let snapshot = state(&[], &[(9, &[9, 10, 11]), (5, &[5, 6])]);
    assert!(tiered(9, usize::MAX, usize::MAX).generate_compaction_task(&snapshot).is_none());
    let task = tiered(1, usize::MAX, usize::MAX).generate_compaction_task(&snapshot).unwrap();
    assert_eq!(task.tiers.len(), 2);
    // Nothing in the last tier: no ratio is reached.
    let snapshot = state(&[], &[(9, &[9]), (5, &[])]);
    assert!(tiered(9, 0, usize::MAX).generate_compaction_task(&snapshot).is_none());
}

#[test]
fn tiered_has_no_task_for_few_tiers_in_order() {
    let snapshot = state(&[], &[(2, &[5]), (1, &[1, 2, 3, 4])]);
    assert!(tiered(3, 200, 1).generate_compaction_task(&snapshot).is_none());
    let snapshot = state(&[], &[]);
    assert!(tiered(3, 200, 1).generate_compaction_task(&snapshot).is_none());
}

#[test]
fn tiered_applies_a_result_in_the_place_of_the_merged_tiers() {
    // Tier 7 was flushed while the compaction ran.
    let snapshot = state(&[], &[(7, &[7]), (1, &[1]), (2, &[2, 5]), (3, &[3])]);
    let task = TieredCompactionTask {
        tiers: vec![(1, vec![1]), (2, vec![2, 5])],
        bottom_tier_included: false,
    };
    let (next, removed) = tiered(3, 200, 1).apply_compaction_result(&snapshot, &task, &[10, 11]);
    assert_eq!(next.levels, vec![(7, vec![7]), (10, vec![10, 11]), (3, vec![3])]);
    assert_eq!(removed, vec![1, 2, 5]);
    let (next, removed) = tiered(3, 200, 1).apply_compaction_result(&snapshot, &task, &[]);
    assert_eq!(next.levels, vec![(7, vec![7]), (3, vec![3])]);
    assert_eq!(removed, vec![1, 2, 5]);
}

fn leveled(multiplier: usize) -> LeveledCompactionController {
    LeveledCompactionController::new(LeveledCompactionOptions {
        level_size_multiplier: multiplier,
        level0_file_num_compaction_trigger: 2,
        max_levels: 3,
        base_level_size_mb: 1,
    })
}

#[test]
fn leveled_sends_level_0_to_the_first_level_in_use() {
    // The last level holds 200 MiB: the targets are 2, 20 and 200 MiB.
    let mut snapshot = state(&[10, 11], &[(1, &[1, 2, 3, 4]), (2, &[5]), (3, &[6])]);
    with_table(&mut snapshot, 10, MIB, "c", "f");
    with_table(&mut snapshot, 11, MIB, "e", "k");
    with_table(&mut snapshot, 1, MIB / 4, "a", "b");
    with_table(&mut snapshot, 2, MIB / 4, "d", "g");
    with_table(&mut snapshot, 3, MIB / 4, "k", "m");
    with_table(&mut snapshot, 4, MIB / 4, "n", "z");
    with_table(&mut snapshot, 5, 10 * MIB, "a", "z");
    with_table(&mut snapshot, 6, 200 * MIB, "a", "z");
    let task = leveled(10).generate_compaction_task(&snapshot).unwrap();
    assert_eq!(task.upper_level, None);
    assert_eq!(task.upper_level_sst_ids, vec![10, 11]);
    assert_eq!(task.lower_level, 1);
    assert_eq!(task.lower_level_sst_ids, vec![2, 3]);
    assert!(!task.is_lower_level_bottom_level);
}

#[test]
fn leveled_sends_level_0_to_the_last_level_of_a_small_store() {
    // The last level gets the least target size of 1 MiB; a millionth of
    // that, and less, is nothing.
    let mut snapshot = state(&[10, 11], &[(1, &[]), (2, &[]), (3, &[6])]);
    with_table(&mut snapshot, 10, 1000, "c", "f");
    with_table(&mut snapshot, 11, 1000, "e", "k");
    with_table(&mut snapshot, 6, 1000, "l", "z");
    let task = leveled(2_000_000).generate_compaction_task(&snapshot).unwrap();
    assert_eq!(task.upper_level, None);
    assert_eq!(task.lower_level, 3);
    assert_eq!(task.lower_level_sst_ids, Vec::<usize>::new());
    assert!(task.is_lower_level_bottom_level);
    // With a tenth each the targets are 1 MiB, 102 KiB and 10 KiB.
    let task = leveled(10).generate_compaction_task(&snapshot).unwrap();
    assert_eq!(task.lower_level, 1);
}

#[test]
fn leveled_moves_the_oldest_table_of_the_most_outgrown_level() {
    // Targets of 2, 20 and 200 MiB; level 1 holds 15 times its target,
    // level 2 one and a half times.
    let mut snapshot = state(&[10], &[(1, &[8, 7, 9]), (2, &[4, 5]), (3, &[6])]);
    with_table(&mut snapshot, 10, MIB, "a", "z");
    with_table(&mut snapshot, 8, 10 * MIB, "a", "f");
    with_table(&mut snapshot, 7, 10 * MIB, "g", "m");
    with_table(&mut snapshot, 9, 10 * MIB, "n", "z");
    with_table(&mut snapshot, 4, 15 * MIB, "a", "h");
    with_table(&mut snapshot, 5, 15 * MIB, "n", "z");
    with_table(&mut snapshot, 6, 200 * MIB, "a", "z");
    let task = leveled(10).generate_compaction_task(&snapshot).unwrap();
    assert_eq!(task.upper_level, Some(1));
    assert_eq!(task.upper_level_sst_ids, vec![7]);
    assert_eq!(task.lower_level, 2);
    assert_eq!(task.lower_level_sst_ids, vec![4]);
    assert!(!task.is_lower_level_bottom_level);
    // Without the outgrown level 1, level 2 is next.
    snapshot.levels[0].1 = vec![];
    let task = leveled(10).generate_compaction_task(&snapshot).unwrap();
    assert_eq!(task.upper_level, Some(2));
    assert_eq!(task.upper_level_sst_ids, vec![4]);
    assert_eq!(task.lower_level, 3);
    assert_eq!(task.lower_level_sst_ids, vec![6]);
    assert!(task.is_lower_level_bottom_level);
}

#[test]
fn leveled_has_no_task_for_levels_within_their_targets() {
    let mut snapshot = state(&[10], &[(1, &[1]), (2, &[2]), (3, &[3])]);
    with_table(&mut snapshot, 10, MIB, "a", "z");
    with_table(&mut snapshot, 1, 2 * MIB, "a", "z");
    with_table(&mut snapshot, 2, 20 * MIB, "a", "z");
    with_table(&mut snapshot, 3, 200 * MIB, "a", "z");
    assert!(leveled(10).generate_compaction_task(&snapshot).is_none());
    let empty = state(&[1, 2, 3], &[]);
    assert!(leveled(10).generate_compaction_task(&empty).is_none());
}

#[test]
fn leveled_applies_a_result_and_orders_the_lower_level_by_first_key() {
    let mut snapshot = state(&[10], &[(1, &[7, 8]), (2, &[1, 2, 3]), (3, &[])]);
    with_table(&mut snapshot, 1, MIB, "a", "c");
    with_table(&mut snapshot, 2, MIB, "f", "h");
    with_table(&mut snapshot, 3, MIB, "p", "r");
    with_table(&mut snapshot, 20, MIB, "d", "g");
    with_table(&mut snapshot, 21, MIB, "h", "k");
    let task = LeveledCompactionTask {
        upper_level: Some(1),
        upper_level_sst_ids: vec![7],
        lower_level: 2,
        lower_level_sst_ids: vec![2],
        is_lower_level_bottom_level: false,
    };
    let (next, removed) = leveled(10).apply_compaction_result(&snapshot, &task, &[20, 21], false);
    assert_eq!(next.l0_sstables, vec![10]);
    assert_eq!(next.levels, vec![(1, vec![8]), (2, vec![1, 20, 21, 3]), (3, vec![])]);
    assert_eq!(removed, vec![7, 2]);
    // In recovery the tables are not open, and the new ones come last.
    let (next, removed) = leveled(10).apply_compaction_result(&snapshot, &task, &[20, 21], true);
    assert_eq!(next.levels, vec![(1, vec![8]), (2, vec![1, 3, 20, 21]), (3, vec![])]);
    assert_eq!(removed, vec![7, 2]);
}

#[test]
fn compaction_controller_goes_by_its_kind() {
    let snapshot = state(&[5, 4, 3], &[(1, &[1, 2]), (2, &[]), (3, &[])]);
    let controller = CompactionController::Simple(simple());
    assert!(controller.flush_to_l0());
    let task = controller.generate_compaction_task(&snapshot).unwrap();
    assert!(!task.compact_to_bottom_level());
    assert!(matches!(&task, CompactionTask::Simple(t) if t.upper_level_sst_ids == vec![5, 4, 3]));
    let (next, removed) = controller.apply_compaction_result(&snapshot, &task, &[10], false);
    assert_eq!(next.l0_sstables, Vec::<usize>::new());
    assert_eq!(next.levels[0], (1, vec![10]));
    assert_eq!(removed, vec![5, 4, 3, 1, 2]);

    let snapshot = state(&[], &[(3, &[3]), (2, &[2]), (1, &[1])]);
    let controller = CompactionController::Tiered(tiered(3, 200, 1));
    assert!(!controller.flush_to_l0());
    let task = controller.generate_compaction_task(&snapshot).unwrap();
    assert!(task.compact_to_bottom_level());
    let (next, removed) = controller.apply_compaction_result(&snapshot, &task, &[9], false);
    assert_eq!(next.levels, vec![(9, vec![9])]);
    assert_eq!(removed, vec![3, 2, 1]);

    assert!(CompactionController::Leveled(leveled(10)).flush_to_l0());
    assert!(CompactionController::NoCompaction.flush_to_l0());
    assert!(CompactionController::NoCompaction.generate_compaction_task(&snapshot).is_none());
    assert!(CompactionTask::ForceFullCompaction { sstables: vec![] }.compact_to_bottom_level());
    assert!(matches!(CompactionOptions::NoCompaction, CompactionOptions::NoCompaction));
}
