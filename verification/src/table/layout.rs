//! How a table builder lays the entries of a table out in blocks, and the
//! sizes that follow from it.

use vstd::prelude::*;
use crate::block::builder::takes;
use crate::block::{block_image, block_len};
use crate::run::Entry;
use crate::table::bloom::{farmhash32, filter_image, hash_defined};
use crate::table::{table_file, BlockMetaView};

verus! {

/// The block that is being filled once the entries `es` were added to a
/// table of blocks of the target size `target`: an entry goes to the block
/// of the entry before it where that block takes it, and else begins a new
/// block.
pub open spec fn open_block(es: Seq<Entry>, target: int) -> Seq<Entry>
    decreases es.len(),
{
    if es.len() == 0 {
        Seq::empty()
    } else {
        let held = open_block(es.drop_last(), target);
        if takes(held, es.last(), target) {
            held.push(es.last())
        } else {
            seq![es.last()]
        }
    }
}

/// The blocks that are full once the entries `es` were added, in order.
pub open spec fn full_blocks(es: Seq<Entry>, target: int) -> Seq<Seq<Entry>>
    decreases es.len(),
{
    if es.len() == 0 {
        Seq::empty()
    } else {
        let held = open_block(es.drop_last(), target);
        if takes(held, es.last(), target) {
            full_blocks(es.drop_last(), target)
        } else {
            full_blocks(es.drop_last(), target).push(held)
        }
    }
}

/// The blocks of the table that holds the entries `es`.
pub open spec fn blocks_of(es: Seq<Entry>, target: int) -> Seq<Seq<Entry>> {
    if es.len() == 0 {
        full_blocks(es, target)
    } else {
        full_blocks(es, target).push(open_block(es, target))
    }
}

/// The size of the encodings of `blocks` together.
pub open spec fn blocks_len(blocks: Seq<Seq<Entry>>) -> int
    decreases blocks.len(),
{
    if blocks.len() == 0 {
        0
    } else {
        blocks_len(blocks.drop_last()) + block_len(blocks.last())
    }
}

/// The size of the record of a block: its offset, and its first and last
/// key, each behind its length.
pub open spec fn record_len(block: Seq<Entry>) -> int {
    (8 + block[0].0.len() + block.last().0.len()) as int
}

/// The size of the records of `blocks` together.
pub open spec fn records_len(blocks: Seq<Seq<Entry>>) -> int
    decreases blocks.len(),
{
    if blocks.len() == 0 {
        0
    } else {
        records_len(blocks.drop_last()) + record_len(blocks.last())
    }
}

/// The size of the full blocks once the entries `es` were added: what a
/// builder gives as the estimated size of its table.
pub open spec fn full_len(es: Seq<Entry>, target: int) -> int {
    blocks_len(full_blocks(es, target))
}

/// Where the filter starts in the file of the table that holds the
/// entries `es`: behind the blocks, their records and the offset of the
/// records.
pub open spec fn filter_start(es: Seq<Entry>, target: int) -> int {
    blocks_len(blocks_of(es, target)) + records_len(blocks_of(es, target)) + 4
}

/// The encodings of `blocks`, one behind the other.
pub open spec fn blocks_image(blocks: Seq<Seq<Entry>>) -> Seq<u8>
    decreases blocks.len(),
{
    if blocks.len() == 0 {
        Seq::empty()
    } else {
        blocks_image(blocks.drop_last()) + block_image(blocks.last())
    }
}

/// The record of each of `blocks`: where it starts among the encodings,
/// and its first and last key.
pub open spec fn records_of(blocks: Seq<Seq<Entry>>) -> Seq<BlockMetaView>
    decreases blocks.len(),
{
    if blocks.len() == 0 {
        Seq::empty()
    } else {
        records_of(blocks.drop_last()).push(
            BlockMetaView {
                offset: blocks_len(blocks.drop_last()),
                first_key: blocks.last()[0].0,
                last_key: blocks.last().last().0,
            },
        )
    }
}

/// The hash of each key of `es` that can be hashed, in order.
pub open spec fn hashes_of(es: Seq<Entry>) -> Seq<u32>
    decreases es.len(),
{
    if es.len() == 0 {
        Seq::empty()
    } else if hash_defined(es.last().0) {
        hashes_of(es.drop_last()).push(farmhash32(es.last().0))
    } else {
        hashes_of(es.drop_last())
    }
}

/// The bytes of the file of the table that holds the entries `es` in
/// blocks of the target size `target`, with a filter of `bits_per_key` bits
/// per key: the blocks from offset 0, their records, the offset of the
/// records, the filter, and the offset of the filter.
pub open spec fn table_image(es: Seq<Entry>, target: int, bits_per_key: usize) -> Seq<u8> {
    table_file(
        blocks_image(blocks_of(es, target)),
        records_of(blocks_of(es, target)),
        filter_image(hashes_of(es), bits_per_key),
    )
}

/// The images and records with one more block.
pub proof fn lemma_image_push(blocks: Seq<Seq<Entry>>, block: Seq<Entry>)
    ensures
        blocks_image(blocks.push(block)) == blocks_image(blocks) + block_image(block),
        records_of(blocks.push(block)) == records_of(blocks).push(
            BlockMetaView {
                offset: blocks_len(blocks),
                first_key: block[0].0,
                last_key: block.last().0,
            },
        ),
{
    assert(blocks.push(block).drop_last() =~= blocks);
}

/// The hashes with one more entry.
pub proof fn lemma_hashes_push(es: Seq<Entry>, e: Entry)
    ensures
        hashes_of(es.push(e)) == if hash_defined(e.0) {
            hashes_of(es).push(farmhash32(e.0))
        } else {
            hashes_of(es)
        },
        hashes_of(es).len() <= es.len(),
    decreases es.len(),
{
    assert(es.push(e).drop_last() =~= es);
    if es.len() > 0 {
        lemma_hashes_push(es.drop_last(), es.last());
        assert(es.drop_last().push(es.last()) =~= es);
    }
}

/// The hashes hold the hash of every key that can be hashed.
pub proof fn lemma_hashes_hold(es: Seq<Entry>, i: int)
    requires
        0 <= i < es.len(),
        hash_defined(es[i].0),
    ensures
        hashes_of(es).contains(farmhash32(es[i].0)),
    decreases es.len(),
{
    let front = es.drop_last();
    let rest = hashes_of(front);
    if i == es.len() - 1 {
        assert(hashes_of(es).last() == farmhash32(es[i].0));
    } else {
        lemma_hashes_hold(front, i);
        let j = choose|j: int| 0 <= j < rest.len() && rest[j] == farmhash32(front[i].0);
        assert(hashes_of(es)[j] == farmhash32(es[i].0));
    }
}

/// The first record starts at offset 0.
pub proof fn lemma_first_record(blocks: Seq<Seq<Entry>>)
    requires
        blocks.len() > 0,
    ensures
        records_of(blocks).len() == blocks.len(),
        records_of(blocks)[0].offset == 0,
    decreases blocks.len(),
{
    let front = blocks.drop_last();
    if blocks.len() > 1 {
        lemma_first_record(front);
        assert(records_of(blocks)[0] == records_of(front)[0]);
    } else {
        assert(front.len() == 0);
        assert(records_of(front) =~= Seq::<BlockMetaView>::empty());
        assert(blocks_len(front) == 0);
    }
}

/// The layout with one more entry.
pub proof fn lemma_layout_push(es: Seq<Entry>, e: Entry, target: int)
    ensures
        takes(open_block(es, target), e, target) ==> open_block(es.push(e), target) == open_block(
            es,
            target,
        ).push(e) && full_blocks(es.push(e), target) == full_blocks(es, target),
        !takes(open_block(es, target), e, target) ==> open_block(es.push(e), target) == seq![e]
            && full_blocks(es.push(e), target) == full_blocks(es, target).push(
            open_block(es, target),
        ),
{
    assert(es.push(e).drop_last() =~= es);
}

/// One more block adds its size and the size of its record.
pub proof fn lemma_blocks_len_push(blocks: Seq<Seq<Entry>>, block: Seq<Entry>)
    ensures
        blocks_len(blocks.push(block)) == blocks_len(blocks) + block_len(block),
        records_len(blocks.push(block)) == records_len(blocks) + record_len(block),
{
    assert(blocks.push(block).drop_last() =~= blocks);
}

/// Sizes are not negative.
pub proof fn lemma_lens(blocks: Seq<Seq<Entry>>)
    ensures
        blocks_len(blocks) >= 0,
        records_len(blocks) >= 0,
    decreases blocks.len(),
{
    if blocks.len() > 0 {
        lemma_lens(blocks.drop_last());
        lemma_block_len(blocks.last());
    }
}

/// The size of a block is not negative.
pub proof fn lemma_block_len(es: Seq<Entry>)
    ensures
        block_len(es) >= 2,
    decreases es.len(),
{
    if es.len() > 0 {
        lemma_block_len(es.drop_last());
    }
}

/// While a table holds an entry, a block is being filled.
pub proof fn lemma_open_block(es: Seq<Entry>, target: int)
    ensures
        es.len() > 0 ==> open_block(es, target).len() > 0,
        es.len() == 0 ==> open_block(es, target).len() == 0 && full_blocks(es, target).len() == 0,
{
}

} // verus!
