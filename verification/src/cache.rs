//! The block cache: a bounded store of blocks by table id and block index,
//! from which the block that was used least recently leaves first.

use std::sync::Arc;
use vstd::prelude::*;
use crate::block::Block;
use crate::handle::share;

verus! {

/// A block with the id of its table and its index in the table.
pub struct Slot {
    /// The id of the table.
    pub sst_id: usize,
    /// The index of the block in the table.
    pub block_idx: usize,
    /// The block.
    pub block: Arc<Block>,
}

/// The index of the slot for the block `block_idx` of the table `sst_id`
/// among `slots`, or their number where there is none.
pub open spec fn slot_index(slots: Seq<Slot>, sst_id: usize, block_idx: usize) -> int
    decreases slots.len(),
{
    if slots.len() == 0 || (slots[0].sst_id == sst_id && slots[0].block_idx == block_idx) {
        0
    } else {
        1 + slot_index(slots.skip(1), sst_id, block_idx)
    }
}

/// The index of a slot lies within the slots, or is their number; the slot
/// at the index is the first for the block.
pub proof fn lemma_slot_index(slots: Seq<Slot>, sst_id: usize, block_idx: usize)
    ensures
        0 <= slot_index(slots, sst_id, block_idx) <= slots.len(),
        slot_index(slots, sst_id, block_idx) < slots.len() ==> slots[slot_index(
            slots,
            sst_id,
            block_idx,
        )].sst_id == sst_id && slots[slot_index(slots, sst_id, block_idx)].block_idx == block_idx,
        forall|i: int|
            0 <= i < slot_index(slots, sst_id, block_idx) ==> !((#[trigger] slots[i]).sst_id
                == sst_id && slots[i].block_idx == block_idx),
    decreases slots.len(),
{
    if !(slots.len() == 0 || (slots[0].sst_id == sst_id && slots[0].block_idx == block_idx)) {
        let rest = slots.skip(1);
        lemma_slot_index(rest, sst_id, block_idx);
        assert forall|i: int| 0 <= i < slot_index(slots, sst_id, block_idx) implies !((
        #[trigger] slots[i]).sst_id == sst_id && slots[i].block_idx == block_idx) by {
            if i > 0 {
                assert(rest[i - 1] == slots[i]);
            }
        }
    }
}

/// The slots after the block `block_idx` of the table `sst_id` was used:
/// its slot has moved to the end, where the slots used most recently are.
pub open spec fn touched(slots: Seq<Slot>, sst_id: usize, block_idx: usize) -> Seq<Slot> {
    let at = slot_index(slots, sst_id, block_idx);
    if at < slots.len() {
        slots.remove(at).push(slots[at])
    } else {
        slots
    }
}

/// The slots after a block was put into a cache of `capacity` slots: a
/// slot for the same block has left; where the cache was full, the slot
/// used least recently has left; the new slot stands at the end.
pub open spec fn placed(slots: Seq<Slot>, capacity: usize, slot: Slot) -> Seq<Slot> {
    let at = slot_index(slots, slot.sst_id, slot.block_idx);
    if capacity == 0 {
        slots
    } else if at < slots.len() {
        slots.remove(at).push(slot)
    } else if slots.len() >= capacity {
        slots.skip(1).push(slot)
    } else {
        slots.push(slot)
    }
}

/// A bounded cache of blocks.
pub struct BlockCache {
    /// The largest number of blocks that the cache holds.
    capacity: usize,
    /// The blocks, the one used least recently first.
    slots: Vec<Slot>,
}

impl BlockCache {
    /// The blocks of the cache, the one used least recently first.
    pub closed spec fn slots(&self) -> Seq<Slot> {
        self.slots@
    }

    /// The largest number of blocks that the cache holds.
    pub closed spec fn limit(&self) -> usize {
        self.capacity
    }

    /// The cache's invariant: it holds no more blocks than its capacity,
    /// and every block is well-formed.
    pub open spec fn wf(&self) -> bool {
        &&& self.slots().len() <= self.limit()
        &&& forall|i: int| 0 <= i < self.slots().len() ==> (#[trigger] self.slots()[i]).block.wf()
    }

    /// Creates an empty cache for `capacity` blocks.
    pub fn new(capacity: usize) -> (r: Self)
        ensures
            r.wf(),
            r.limit() == capacity,
            r.slots().len() == 0,
    {
        Self { capacity, slots: Vec::new() }
    }

    /// The number of blocks in the cache.
    pub fn len(&self) -> (n: usize)
        ensures
            n == self.slots().len(),
    {
        self.slots.len()
    }

    /// The largest number of blocks that the cache holds.
    pub fn capacity(&self) -> (n: usize)
        ensures
            n == self.limit(),
    {
        self.capacity
    }

    /// The index of the slot for a block, or the number of slots.
    fn find(&self, sst_id: usize, block_idx: usize) -> (at: usize)
        ensures
            at == slot_index(self.slots(), sst_id, block_idx),
            at <= self.slots().len(),
    {
        let mut at: usize = 0;
        assert(self.slots@.skip(0) =~= self.slots@);
        while at < self.slots.len() && !(self.slots[at].sst_id == sst_id
            && self.slots[at].block_idx == block_idx)
            invariant
                at <= self.slots@.len(),
                slot_index(self.slots@, sst_id, block_idx) == at + slot_index(
                    self.slots@.skip(at as int),
                    sst_id,
                    block_idx,
                ),
            decreases self.slots@.len() - at,
        {
            assert(self.slots@.skip(at as int).skip(1) =~= self.slots@.skip(at + 1));
            assert(self.slots@.skip(at as int)[0] == self.slots@[at as int]);
            at += 1;
        }
        proof {
            if at < self.slots@.len() {
                assert(self.slots@.skip(at as int)[0] == self.slots@[at as int]);
            }
        }
        at
    }

    /// The block `block_idx` of the table `sst_id`, if the cache holds it.
    /// The block then counts as the one used most recently.
    pub fn get(&mut self, sst_id: usize, block_idx: usize) -> (r: Option<Arc<Block>>)
        requires
            old(self).wf(),
        ensures
            final(self).wf(),
            final(self).limit() == old(self).limit(),
            final(self).slots() == touched(old(self).slots(), sst_id, block_idx),
            r == if slot_index(old(self).slots(), sst_id, block_idx) < old(self).slots().len() {
                Some(old(self).slots()[slot_index(old(self).slots(), sst_id, block_idx)].block)
            } else {
                None
            },
    {
        let at = self.find(sst_id, block_idx);
        if at >= self.slots.len() {
            return None;
        }
        let ghost before = self.slots@;
        let slot = self.slots.remove(at);
        let block = share(&slot.block);
        self.slots.push(slot);
        proof {
            assert forall|i: int| 0 <= i < self.slots@.len() implies (#[trigger] self.slots@[i]).block.wf() by {
                if i < at {
                    assert(self.slots@[i] == before[i]);
                } else if i < self.slots@.len() - 1 {
                    assert(self.slots@[i] == before[i + 1]);
                } else {
                    assert(self.slots@[i] == before[at as int]);
                }
            }
        }
        Some(block)
    }

    /// Puts the block `block_idx` of the table `sst_id` into the cache, in
    /// the place of a block that the cache held for it. Where the cache is
    /// full, the block used least recently leaves. A cache without capacity
    /// holds nothing.
    pub fn insert(&mut self, sst_id: usize, block_idx: usize, block: Arc<Block>)
        requires
            old(self).wf(),
            block.wf(),
        ensures
            final(self).wf(),
            final(self).limit() == old(self).limit(),
            final(self).slots() == placed(
                old(self).slots(),
                old(self).limit(),
                (Slot { sst_id, block_idx, block }),
            ),
    {
        if self.capacity == 0 {
            return;
        }
        let ghost before = self.slots@;
        let at = self.find(sst_id, block_idx);
        if at < self.slots.len() {
            self.slots.remove(at);
        } else if self.slots.len() >= self.capacity {
            self.slots.remove(0);
            assert(self.slots@ =~= before.skip(1));
        }
        let ghost mid = self.slots@;
        self.slots.push(Slot { sst_id, block_idx, block });
        proof {
            assert forall|i: int| 0 <= i < mid.len() implies (#[trigger] mid[i]).block.wf() by {
                if at < before.len() {
                    if i < at {
                        assert(mid[i] == before[i]);
                    } else {
                        assert(mid[i] == before[i + 1]);
                    }
                } else if before.len() >= self.capacity {
                    assert(mid[i] == before[i + 1]);
                } else {
                    assert(mid[i] == before[i]);
                }
            }
            assert forall|i: int| 0 <= i < self.slots@.len() implies (#[trigger] self.slots@[i]).block.wf() by {
                if i < mid.len() {
                    assert(self.slots@[i] == mid[i]);
                }
            }
        }
    }
}

} // verus!
