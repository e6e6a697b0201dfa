//! Writing the entries of an iterator to tables of a target size.

use std::sync::Arc;
use vstd::prelude::*;
use crate::block::builder::MAX_BLOCK_SIZE;
use crate::error::Error;
use crate::iterators::concat_iterator::{table_runs, tables_ordered};
use crate::iterators::{kept, lemma_live_push, StorageIterator};
use crate::table::layout::{filter_start, full_len};
use crate::key::key_lt;
use crate::run::{
    concat_runs, entry_storable, is_run, lemma_concat_push, lemma_runs_ordered_push, Entry,
};
use crate::table::builder::SsTableBuilder;
use crate::table::SsTable;

verus! {

/// The tables `tables` have the ids from `first` on, in order.
pub open spec fn ids_from(tables: Seq<Arc<SsTable>>, first: int) -> bool {
    forall|i: int| 0 <= i < tables.len() ==> (#[trigger] tables[i]).id_spec() == first + i
}

/// The entries of the table that is being filled once the entries `es`
/// were written to tables of blocks of the target size `block`: an entry
/// goes to the table of the entry before it, and the table is closed once
/// its full blocks have reached the size `target`.
pub open spec fn open_table(es: Seq<Entry>, block: int, target: int) -> Seq<Entry>
    decreases es.len(),
{
    if es.len() == 0 {
        Seq::empty()
    } else {
        let held = open_table(es.drop_last(), block, target).push(es.last());
        if full_len(held, block) >= target {
            Seq::empty()
        } else {
            held
        }
    }
}

/// The entries of each table that is closed once the entries `es` were
/// written, in order.
pub open spec fn closed_tables(es: Seq<Entry>, block: int, target: int) -> Seq<Seq<Entry>>
    decreases es.len(),
{
    if es.len() == 0 {
        Seq::empty()
    } else {
        let held = open_table(es.drop_last(), block, target).push(es.last());
        if full_len(held, block) >= target {
            closed_tables(es.drop_last(), block, target).push(held)
        } else {
            closed_tables(es.drop_last(), block, target)
        }
    }
}

/// The entries of each table to which the entries `es` are written.
pub open spec fn tables_split(es: Seq<Entry>, block: int, target: int) -> Seq<Seq<Entry>> {
    if open_table(es, block, target).len() == 0 {
        closed_tables(es, block, target)
    } else {
        closed_tables(es, block, target).push(open_table(es, block, target))
    }
}

/// Whether the entries `es` can be written to tables with the ids from
/// `next_id` on: an id is left for each table, and the offsets of each
/// table fit the file format.
pub open spec fn writable(es: Seq<Entry>, block: int, target: int, next_id: int) -> bool {
    let runs = tables_split(es, block, target);
    &&& next_id + runs.len() <= usize::MAX
    &&& forall|i: int| 0 <= i < runs.len() ==> filter_start(#[trigger] runs[i], block) <= u32::MAX
}

/// `a` is the beginning of `b`.
pub open spec fn begins<T>(a: Seq<T>, b: Seq<T>) -> bool {
    a.len() <= b.len() && a == b.take(a.len() as int)
}

/// The split with one more entry.
pub proof fn lemma_split_push(es: Seq<Entry>, e: Entry, block: int, target: int)
    ensures
        full_len(open_table(es, block, target).push(e), block) >= target ==> open_table(
            es.push(e),
            block,
            target,
        ) == Seq::<Entry>::empty() && closed_tables(es.push(e), block, target) == closed_tables(
            es,
            block,
            target,
        ).push(open_table(es, block, target).push(e)),
        full_len(open_table(es, block, target).push(e), block) < target ==> open_table(
            es.push(e),
            block,
            target,
        ) == open_table(es, block, target).push(e) && closed_tables(es.push(e), block, target)
            == closed_tables(es, block, target),
{
    assert(es.push(e).drop_last() =~= es);
}

/// The tables that are closed once the beginning of a sequence of entries
/// was written are the first tables of the whole sequence.
pub proof fn lemma_split_begins(a: Seq<Entry>, b: Seq<Entry>, block: int, target: int)
    requires
        begins(a, b),
    ensures
        begins(closed_tables(a, block, target), closed_tables(b, block, target)),
        begins(closed_tables(a, block, target), tables_split(b, block, target)),
    decreases b.len(),
{
    let whole = closed_tables(b, block, target);
    let part = closed_tables(a, block, target);
    if a.len() == b.len() {
        assert(a =~= b);
        assert(part =~= whole.take(part.len() as int));
    } else {
        let rest = b.drop_last();
        assert(a =~= rest.take(a.len() as int));
        lemma_split_begins(a, rest, block, target);
        let less = closed_tables(rest, block, target);
        assert(less =~= whole.take(less.len() as int));
        assert(part =~= whole.take(part.len() as int));
    }
    assert(part =~= tables_split(b, block, target).take(part.len() as int));
}

/// What a compaction keeps of the beginning of a sequence of entries is
/// the beginning of what it keeps of the whole.
pub proof fn lemma_kept_begins(es: Seq<Entry>, n: int, drop_tombstones: bool)
    requires
        0 <= n <= es.len(),
    ensures
        begins(kept(es.take(n), drop_tombstones), kept(es, drop_tombstones)),
    decreases es.len(),
{
    let part = kept(es.take(n), drop_tombstones);
    let whole = kept(es, drop_tombstones);
    if n == es.len() {
        assert(es.take(n) =~= es);
        assert(part =~= whole.take(part.len() as int));
    } else {
        let rest = es.drop_last();
        assert(rest.take(n) =~= es.take(n));
        lemma_kept_begins(rest, n, drop_tombstones);
        assert(rest.push(es.last()) =~= es);
        lemma_live_push(rest, es.last());
        let less = kept(rest, drop_tombstones);
        assert(less =~= whole.take(less.len() as int));
        assert(part =~= whole.take(part.len() as int));
    }
}

/// Where a table that is closed once the first `n` entries of `es` were
/// handled has no id left or does not fit the file format, what is kept of
/// `es` cannot be written.
pub proof fn lemma_unwritable(
    es: Seq<Entry>,
    n: int,
    drop_tombstones: bool,
    block: int,
    target: int,
    next_id: int,
)
    requires
        0 <= n <= es.len(),
        ({
            let closed = closed_tables(kept(es.take(n), drop_tombstones), block, target);
            closed.len() > 0 && (next_id + closed.len() > usize::MAX || filter_start(
                closed.last(),
                block,
            ) > u32::MAX)
        }),
    ensures
        !writable(kept(es, drop_tombstones), block, target, next_id),
{
    let part = kept(es.take(n), drop_tombstones);
    let whole = kept(es, drop_tombstones);
    lemma_kept_begins(es, n, drop_tombstones);
    lemma_split_begins(part, whole, block, target);
    let closed = closed_tables(part, block, target);
    let runs = tables_split(whole, block, target);
    assert(runs[closed.len() - 1] == runs.take(closed.len() as int)[closed.len() - 1]);
}

/// Closes the table that `builder` holds, under the next id, and adds it to
/// `tables`; `builder` is then empty.
fn close_table(
    builder: &mut SsTableBuilder,
    tables: &mut Vec<Arc<SsTable>>,
    next_id: &mut usize,
    block_size: usize,
    Ghost(first): Ghost<int>,
) -> (r: Result<(), Error>)
    requires
        old(builder).wf(),
        old(builder).entries().len() > 0,
        old(builder).target_block_size() == block_size,
        block_size <= MAX_BLOCK_SIZE,
        tables_ordered(old(tables)@),
        ids_from(old(tables)@, first),
        *old(next_id) == first + old(tables)@.len(),
        old(tables)@.len() > 0 ==> key_lt(
            table_runs(old(tables)@).last().last().0,
            old(builder).entries()[0].0,
        ),
    ensures
        r is Ok <==> *old(next_id) < usize::MAX && filter_start(
            old(builder).entries(),
            block_size as int,
        ) <= u32::MAX,
        r is Ok ==> {
            &&& final(builder).wf()
            &&& final(builder).entries().len() == 0
            &&& final(builder).target_block_size() == block_size
            &&& tables_ordered(final(tables)@)
            &&& ids_from(final(tables)@, first)
            &&& final(tables)@.len() == old(tables)@.len() + 1
            &&& *final(next_id) == first + final(tables)@.len()
            &&& concat_runs(table_runs(final(tables)@)) == concat_runs(table_runs(old(tables)@))
                + old(builder).entries()
            &&& table_runs(final(tables)@) == table_runs(old(tables)@).push(old(builder).entries())
        },
        r matches Err(e) ==> e == Error::TooLarge && *final(next_id) == *old(next_id),
{
    if *next_id == usize::MAX {
        return Err(Error::TooLarge);
    }
    let ghost run = builder.entries();
    let ghost before = tables@;
    proof {
        builder.lemma_entries();
    }
    let mut full = SsTableBuilder::new(block_size);
    std::mem::swap(builder, &mut full);
    let table = match full.build(*next_id) {
        Ok(table) => table,
        Err(e) => {
            return Err(e);
        },
    };
    *next_id = *next_id + 1;
    tables.push(Arc::new(table));
    proof {
        assert(table_runs(tables@) =~= table_runs(before).push(run));
        lemma_runs_ordered_push(table_runs(before), run);
        lemma_concat_push(table_runs(before), run);
        assert forall|i: int| 0 <= i < tables@.len() implies (#[trigger] tables@[i]).wf() by {
            if i < before.len() {
                assert(before[i].wf());
            }
        }
        assert forall|i: int| 0 <= i < tables@.len() implies (#[trigger] tables@[i]).id_spec()
            == first + i by {
            if i < before.len() {
                assert(before[i].id_spec() == first + i);
            }
        }
    }
    Ok(())
}

/// Writes the entries that are left of `iter` to new tables, and begins a
/// new table wherever one has reached `target_sst_size`. With
/// `drop_tombstones`, tombstones are left out. The tables get the ids from
/// `next_id` on. It fails where the iterator fails, and is `TooLarge` where
/// the ids run out or a table would exceed the file format.
pub fn build_tables<I: StorageIterator>(
    iter: I,
    block_size: usize,
    target_sst_size: usize,
    drop_tombstones: bool,
    next_id: &mut usize,
) -> (r: Result<Vec<Arc<SsTable>>, Error>)
    requires
        iter.wf(),
        block_size <= MAX_BLOCK_SIZE,
    ensures
        *final(next_id) >= *old(next_id),
        I::infallible() ==> (r is Ok <==> writable(
            kept(iter.remaining(), drop_tombstones),
            block_size as int,
            target_sst_size as int,
            *old(next_id) as int,
        )),
        r matches Err(e) ==> I::infallible() ==> e == Error::TooLarge,
        r matches Ok(tables) ==> {
            &&& tables_ordered(tables@)
            &&& table_runs(tables@) == tables_split(
                kept(iter.remaining(), drop_tombstones),
                block_size as int,
                target_sst_size as int,
            )
            &&& concat_runs(table_runs(tables@)) == kept(iter.remaining(), drop_tombstones)
            &&& ids_from(tables@, *old(next_id) as int)
            &&& *final(next_id) == *old(next_id) + tables@.len()
        },
{
    let ghost all = iter.remaining();
    let ghost first = *next_id as int;
    proof {
        iter.lemma_remaining();
    }
    let mut source = iter;
    let mut tables: Vec<Arc<SsTable>> = Vec::new();
    let mut builder = SsTableBuilder::new(block_size);
    let ghost mut count: int = 0;
    proof {
        assert(all.take(0) =~= Seq::<Entry>::empty());
        assert(all.skip(0) =~= all);
        assert(table_runs(tables@) =~= Seq::<Seq<Entry>>::empty());
    }
    loop
        invariant
            source.wf(),
            all == iter.remaining(),
            is_run(all),
            block_size <= MAX_BLOCK_SIZE,
            0 <= count <= all.len(),
            source.remaining() == all.skip(count),
            builder.wf(),
            builder.target_block_size() == block_size,
            tables_ordered(tables@),
            ids_from(tables@, first),
            *next_id == first + tables@.len(),
            first == *old(next_id),
            table_runs(tables@) == closed_tables(
                kept(all.take(count), drop_tombstones),
                block_size as int,
                target_sst_size as int,
            ),
            builder.entries() == open_table(
                kept(all.take(count), drop_tombstones),
                block_size as int,
                target_sst_size as int,
            ),
            forall|i: int|
                0 <= i < tables@.len() ==> filter_start(
                    #[trigger] table_runs(tables@)[i],
                    block_size as int,
                ) <= u32::MAX,
            concat_runs(table_runs(tables@)) + builder.entries() == kept(
                all.take(count),
                drop_tombstones,
            ),
            tables@.len() > 0 && builder.entries().len() > 0 ==> key_lt(
                table_runs(tables@).last().last().0,
                builder.entries()[0].0,
            ),
            kept(all.take(count), drop_tombstones).len() > 0 && count < all.len() ==> key_lt(
                kept(all.take(count), drop_tombstones).last().0,
                all[count].0,
            ),
        ensures
            count == all.len(),
            builder.wf(),
            builder.target_block_size() == block_size,
            tables_ordered(tables@),
            ids_from(tables@, first),
            *next_id == first + tables@.len(),
            table_runs(tables@) == closed_tables(
                kept(all.take(count), drop_tombstones),
                block_size as int,
                target_sst_size as int,
            ),
            builder.entries() == open_table(
                kept(all.take(count), drop_tombstones),
                block_size as int,
                target_sst_size as int,
            ),
            forall|i: int|
                0 <= i < tables@.len() ==> filter_start(
                    #[trigger] table_runs(tables@)[i],
                    block_size as int,
                ) <= u32::MAX,
            concat_runs(table_runs(tables@)) + builder.entries() == kept(
                all.take(count),
                drop_tombstones,
            ),
            tables@.len() > 0 && builder.entries().len() > 0 ==> key_lt(
                table_runs(tables@).last().last().0,
                builder.entries()[0].0,
            ),
        decreases all.len() - count,
    {
        if !source.is_valid() {
            break;
        }
        let ghost entry = all[count];
        let ghost out = kept(all.take(count), drop_tombstones);
        proof {
            assert(all.skip(count)[0] == entry);
            assert(entry_storable(entry));
            assert(all.take(count + 1) =~= all.take(count).push(entry));
            lemma_live_push(all.take(count), entry);
            if count + 1 < all.len() {
                assert(key_lt(all[count].0, all[count + 1].0));
                if out.len() > 0 {
                    crate::key::lemma_key_lt_transitive(out.last().0, entry.0, all[count + 1].0);
                }
            }
            crate::run::lemma_concat_is_run(table_runs(tables@));
        }
        if !(drop_tombstones && source.value().len() == 0) {
            proof {
                builder.lemma_entries();
                let done = concat_runs(table_runs(tables@));
                if builder.entries().len() > 0 {
                    assert(out.last() == builder.entries().last());
                } else if tables@.len() > 0 {
                    assert(out =~= done);
                    assert(done.last() == table_runs(tables@).last().last());
                }
            }
            let ghost held = builder.entries();
            builder.add(source.key(), source.value());
            proof {
                let done = concat_runs(table_runs(tables@));
                assert(done + held.push(entry) =~= (done + held).push(entry));
                if held.len() == 0 && tables@.len() > 0 {
                    assert(out =~= done);
                }
                lemma_split_push(out, entry, block_size as int, target_sst_size as int);
            }
            if builder.estimated_size() >= target_sst_size {
                let ghost run = builder.entries();
                let ghost done = concat_runs(table_runs(tables@));
                let ghost closed = table_runs(tables@);
                match close_table(&mut builder, &mut tables, next_id, block_size, Ghost(first)) {
                    Ok(()) => {},
                    Err(e) => {
                        proof {
                            lemma_unwritable(
                                all,
                                count + 1,
                                drop_tombstones,
                                block_size as int,
                                target_sst_size as int,
                                first,
                            );
                        }
                        return Err(e);
                    },
                }
                proof {
                    assert(done + run + builder.entries() =~= done + run);
                    assert(concat_runs(table_runs(tables@)) + builder.entries() =~= done + run);
                    assert forall|i: int| 0 <= i < tables@.len() implies filter_start(
                        #[trigger] table_runs(tables@)[i],
                        block_size as int,
                    ) <= u32::MAX by {
                        if i < closed.len() {
                            assert(table_runs(tables@)[i] == closed[i]);
                        }
                    }
                }
            }
        }
        match source.next() {
            Ok(()) => {},
            Err(e) => {
                return Err(e);
            },
        }
        proof {
            assert(all.skip(count).skip(1) =~= all.skip(count + 1));
            count = count + 1;
        }
    }
    assert(all.take(all.len() as int) =~= all);
    if !builder.is_empty() {
        let ghost run = builder.entries();
        let ghost done = concat_runs(table_runs(tables@));
        let ghost closed = table_runs(tables@);
        match close_table(&mut builder, &mut tables, next_id, block_size, Ghost(first)) {
            Ok(()) => {},
            Err(e) => {
                proof {
                    let runs = tables_split(
                        kept(all, drop_tombstones),
                        block_size as int,
                        target_sst_size as int,
                    );
                    assert(runs == closed.push(run));
                    assert(runs[closed.len() as int] == run);
                    assert(first + runs.len() > usize::MAX || filter_start(
                        runs[closed.len() as int],
                        block_size as int,
                    ) > u32::MAX);
                }
                return Err(e);
            },
        }
        proof {
            assert forall|i: int| 0 <= i < tables@.len() implies filter_start(
                #[trigger] table_runs(tables@)[i],
                block_size as int,
            ) <= u32::MAX by {
                if i < closed.len() {
                    assert(table_runs(tables@)[i] == closed[i]);
                }
            }
        }
    } else {
        assert(concat_runs(table_runs(tables@)) + builder.entries() =~= concat_runs(
            table_runs(tables@),
        ));
    }
    assert(all.take(all.len() as int) =~= all);
    Ok(tables)
}

} // verus!
