//! Building a table entry by entry.

use vstd::prelude::*;
use vstd::slice::slice_to_vec;
use crate::block::builder::{BlockBuilder, MAX_BLOCK_SIZE};
use crate::block::{block_len, decoded_data, decoded_offsets, entries_of, lemma_decode_encoding};
use crate::block::block_image;
use crate::table::bloom::filter_image;
use crate::table::layout::{
    blocks_image, blocks_len, blocks_of, filter_start, full_blocks, full_len, hashes_of,
    lemma_blocks_len_push, lemma_first_record, lemma_hashes_hold, lemma_hashes_push,
    lemma_image_push, lemma_layout_push, lemma_lens, lemma_open_block, open_block, record_len,
    records_len, records_of, table_image,
};
use crate::table::{bloom_region, meta_offset, BlockMetaView};
use crate::error::Error;
use crate::key::key_lt;
use crate::run::{entry_storable, is_run, lemma_run_concat, Entry};
use crate::table::bloom::{farmhash32, hash_defined, key_hash, Bloom, BITS_PER_KEY};
use crate::table::{
    block_ok, block_runs, blocks_ok, file_metas, file_run, filter_admits_all,
    lemma_block_runs_ordered,
    lemma_blocks_push, lemma_metas_bytes_push, lemma_table_file,
    lemma_table_run_ends, meta_storable, metas_bytes,
    metas_view, table_file, table_run, valid_table, BlockMeta, FileObject, SsTable,
};
use crate::wire::{bytes_as_slice, bytes_view, put_slice, put_u32_le};

verus! {

/// `hashes` holds the hash of every key of `es` that can be hashed.
pub open spec fn hashes_cover(es: Seq<Entry>, hashes: Seq<u32>) -> bool {
    forall|i: int|
        0 <= i < es.len() && hash_defined((#[trigger] es[i]).0) ==> hashes.contains(
            farmhash32(es[i].0),
        )
}

/// A filter built from hashes that cover the keys of `es` admits every key
/// of `es`.
pub proof fn lemma_filter_covers(es: Seq<Entry>, hashes: Seq<u32>, bloom: Bloom)
    requires
        hashes_cover(es, hashes),
        forall|i: int| 0 <= i < hashes.len() ==> bloom.admits_hash(#[trigger] hashes[i]),
    ensures
        filter_admits_all(bloom.filter_view(), bloom.probes(), es),
{
    assert forall|i: int| 0 <= i < es.len() implies bloom.admits_key((#[trigger] es[i]).0) by {
        if hash_defined(es[i].0) {
            assert(hashes.contains(farmhash32(es[i].0)));
            let j = choose|j: int| 0 <= j < hashes.len() && hashes[j] == farmhash32(es[i].0);
            assert(bloom.admits_hash(hashes[j]));
        }
    }
}

/// Builds a table from entries added in ascending key order.
pub struct SsTableBuilder {
    /// The block that is being filled.
    builder: BlockBuilder,
    /// The first key of the block that is being filled.
    first_key: Vec<u8>,
    /// The last key added.
    last_key: Vec<u8>,
    /// The blocks that are full, encoded.
    data: Vec<u8>,
    /// The record of each full block.
    pub(crate) meta: Vec<BlockMeta>,
    /// The target size of a block.
    block_size: usize,
    /// The number of entries added.
    num_of_kvs: usize,
    /// The hash of each key added that can be hashed.
    key_hashes: Vec<u32>,
}

impl SsTableBuilder {
    /// The entries of the full blocks.
    pub closed spec fn flushed(&self) -> Seq<Entry> {
        table_run(self.data@, metas_view(self.meta@), self.data@.len() as int)
    }

    /// The entries added so far.
    pub closed spec fn entries(&self) -> Seq<Entry> {
        self.flushed() + self.builder.entries()
    }

    /// The target size of a block.
    pub closed spec fn target_block_size(&self) -> int {
        self.block_size as int
    }

    /// The blocks hold the entries as `full_blocks` and `open_block` lay
    /// them out, and the sizes are those of that layout.
    pub closed spec fn laid_out(&self) -> bool {
        let es = self.entries();
        let target = self.block_size as int;
        let ms = metas_view(self.meta@);
        &&& block_runs(self.data@, ms, self.data@.len() as int) == full_blocks(es, target)
        &&& self.builder.entries() == open_block(es, target)
        &&& self.data@.len() == blocks_len(full_blocks(es, target))
        &&& metas_bytes(ms).len() == records_len(full_blocks(es, target))
    }

    /// The bytes of the full blocks, their records and the hashes are
    /// those of the entries added.
    pub closed spec fn imaged(&self) -> bool {
        let es = self.entries();
        let target = self.block_size as int;
        &&& self.data@ == blocks_image(full_blocks(es, target))
        &&& metas_view(self.meta@) == records_of(full_blocks(es, target))
        &&& self.key_hashes@ == hashes_of(es)
    }

    /// The builder's invariant.
    pub closed spec fn wf(&self) -> bool {
        self.sound() && self.laid_out() && self.imaged()
    }

    /// The full blocks are in order, and the builder's fields fit them.
    pub closed spec fn sound(&self) -> bool {
        &&& self.builder.wf()
        &&& self.builder.target_size() == self.block_size
        &&& blocks_ok(self.data@, metas_view(self.meta@), self.data@.len() as int)
        &&& self.builder.entries().len() > 0 ==> self.first_key@ == self.builder.entries()[0].0
        &&& self.entries().len() > 0 ==> self.last_key@ == self.entries().last().0
        &&& self.meta@.len() > 0 && self.builder.entries().len() > 0 ==> key_lt(
            metas_view(self.meta@).last().last_key,
            self.builder.entries()[0].0,
        )
        &&& self.num_of_kvs <= self.entries().len()
        &&& self.num_of_kvs < usize::MAX ==> self.num_of_kvs == self.entries().len()
    }

    /// The entries added so far are a run.
    pub proof fn lemma_entries(&self)
        requires
            self.wf(),
        ensures
            is_run(self.entries()),
    {
        let ms = metas_view(self.meta@);
        let end = self.data@.len() as int;
        lemma_block_runs_ordered(self.data@, ms, end);
        self.builder.lemma_entries();
        if ms.len() > 0 {
            lemma_table_run_ends(self.data@, ms, end);
        } else {
            assert(block_runs(self.data@, ms, end) =~= Seq::<Seq<Entry>>::empty());
        }
        lemma_run_concat(self.flushed(), self.builder.entries());
    }

    /// Creates a builder for a table of blocks of the target size
    /// `block_size`.
    pub fn new(block_size: usize) -> (r: Self)
        requires
            block_size <= MAX_BLOCK_SIZE,
        ensures
            r.wf(),
            r.entries().len() == 0,
            r.target_block_size() == block_size,
    {
        let r = Self {
            builder: BlockBuilder::new(block_size),
            first_key: Vec::new(),
            last_key: Vec::new(),
            data: Vec::new(),
            meta: Vec::new(),
            block_size,
            num_of_kvs: 0,
            key_hashes: Vec::new(),
        };
        proof {
            assert(block_runs(r.data@, metas_view(r.meta@), 0) =~= Seq::<Seq<Entry>>::empty());
            assert(r.entries() =~= Seq::<Entry>::empty());
            assert(metas_bytes(metas_view(r.meta@)) =~= Seq::<u8>::empty());
            assert(metas_view(r.meta@) =~= Seq::<BlockMetaView>::empty());
            assert(full_blocks(r.entries(), block_size as int) =~= Seq::<Seq<Entry>>::empty());
            assert(r.data@ =~= blocks_image(Seq::<Seq<Entry>>::empty()));
            assert(r.key_hashes@ =~= hashes_of(Seq::<Entry>::empty()));
        }
        r
    }

    /// Adds an entry to the table. The key must come after the last key
    /// added. A block that is full is closed, and a new one begun.
    pub fn add(&mut self, key: &[u8], value: &[u8])
        requires
            old(self).wf(),
            entry_storable((key@, value@)),
            old(self).entries().len() > 0 ==> key_lt(old(self).entries().last().0, key@),
        ensures
            final(self).wf(),
            final(self).entries() == old(self).entries().push((key@, value@)),
            final(self).target_block_size() == old(self).target_block_size(),
    {
        let ghost es0 = self.entries();
        let ghost held = self.builder.entries();
        let ghost full = block_runs(self.data@, metas_view(self.meta@), self.data@.len() as int);
        let ghost size0 = self.data@.len();
        let ghost records0 = metas_bytes(metas_view(self.meta@)).len();
        proof {
            self.lemma_entries();
            self.builder.lemma_entries();
            lemma_layout_push(es0, (key@, value@), self.block_size as int);
        }
        let was_empty = self.builder.is_empty();
        proof {
            if !was_empty {
                assert(es0.last() == self.builder.entries().last());
            } else {
                assert(es0 =~= self.flushed());
                if self.meta@.len() > 0 {
                    lemma_table_run_ends(
                        self.data@,
                        metas_view(self.meta@),
                        self.data@.len() as int,
                    );
                }
            }
        }
        if !self.builder.add(key, value) {
            self.flush_current_block();
            let added = self.builder.add(key, value);
            assert(added);
            assert(self.builder.entries() =~= seq![(key@, value@)]);
            self.first_key = slice_to_vec(key);
            proof {
                lemma_blocks_len_push(full, held);
                lemma_image_push(full, held);
            }
        } else if was_empty {
            self.first_key = slice_to_vec(key);
        }
        self.last_key = slice_to_vec(key);
        if self.num_of_kvs < usize::MAX {
            self.num_of_kvs += 1;
        }
        let ghost hashes0 = self.key_hashes@;
        match key_hash(key) {
            Some(h) => {
                self.key_hashes.push(h);
                assert(self.key_hashes@.last() == h);
            },
            None => {},
        }
        proof {
            assert(self.entries() =~= es0.push((key@, value@)));
            lemma_hashes_push(es0, (key@, value@));
        }
    }

    /// Whether no entry was added yet.
    pub fn is_empty(&self) -> (b: bool)
        requires
            self.wf(),
        ensures
            b == (self.entries().len() == 0),
    {
        proof {
            self.lemma_entries();
            if self.meta@.len() > 0 {
                lemma_table_run_ends(self.data@, metas_view(self.meta@), self.data@.len() as int);
            } else {
                assert(block_runs(self.data@, metas_view(self.meta@), self.data@.len() as int)
                    =~= Seq::<Seq<Entry>>::empty());
            }
        }
        self.meta.len() == 0 && self.builder.is_empty()
    }

    /// The number of entries added, as far as a `usize` counts.
    pub fn num_of_kvs(&self) -> (n: usize)
        requires
            self.wf(),
        ensures
            n == if self.entries().len() <= usize::MAX {
                self.entries().len() as usize
            } else {
                usize::MAX
            },
    {
        self.num_of_kvs
    }

    /// Closes the block that is being filled: its encoding goes to the
    /// data, its record to the records, and a new block is begun.
    #[verifier::rlimit(100)]
    fn flush_current_block(&mut self)
        requires
            old(self).sound(),
            old(self).builder.entries().len() > 0,
        ensures
            final(self).sound(),
            final(self).entries() == old(self).entries(),
            final(self).builder.entries().len() == 0,
            final(self).block_size == old(self).block_size,
            final(self).key_hashes == old(self).key_hashes,
            final(self).meta@.len() == old(self).meta@.len() + 1,
            metas_view(final(self).meta@).last().last_key == old(self).entries().last().0,
            block_runs(
                final(self).data@,
                metas_view(final(self).meta@),
                final(self).data@.len() as int,
            ) == block_runs(
                old(self).data@,
                metas_view(old(self).meta@),
                old(self).data@.len() as int,
            ).push(old(self).builder.entries()),
            final(self).data@.len() == old(self).data@.len() + block_len(
                old(self).builder.entries(),
            ),
            metas_bytes(metas_view(final(self).meta@)).len() == metas_bytes(
                metas_view(old(self).meta@),
            ).len() + record_len(old(self).builder.entries()),
            final(self).data@ == old(self).data@ + block_image(old(self).builder.entries()),
            metas_view(final(self).meta@) == metas_view(old(self).meta@).push(
                BlockMetaView {
                    offset: old(self).data@.len() as int,
                    first_key: old(self).builder.entries()[0].0,
                    last_key: old(self).builder.entries().last().0,
                },
            ),
    {
        let ghost ms0 = metas_view(self.meta@);
        let ghost data0 = self.data@;
        let ghost run = self.builder.entries();
        let ghost es0 = self.entries();
        proof {
            self.builder.lemma_entries();
            assert(es0.last() == run.last());
        }
        let old_metadata = BlockMeta {
            offset: self.data.len(),
            first_key: slice_to_vec(self.first_key.as_slice()),
            last_key: slice_to_vec(self.last_key.as_slice()),
        };
        self.meta.push(old_metadata);
        let mut old_builder = BlockBuilder::new(self.block_size);
        std::mem::swap(&mut self.builder, &mut old_builder);
        let block = old_builder.build();
        let encoded = block.encode();
        put_slice(&mut self.data, bytes_as_slice(&encoded));
        proof {
            let enc = bytes_view(encoded);
            lemma_decode_encoding(block.data_view(), block.offsets_view());
            assert(entries_of(decoded_data(enc), decoded_offsets(enc)) == run);
            assert(metas_view(self.meta@) =~= ms0.push(old_metadata@));
            lemma_blocks_push(data0, ms0, enc, old_metadata@);
            assert(self.flushed() == table_run(data0, ms0, data0.len() as int) + run);
            assert(self.entries() =~= es0);
            assert(self.data@ =~= data0 + enc);
            lemma_metas_bytes_push(ms0, old_metadata@);
            assert(enc == block_image(run));
            assert(old_metadata@ == (BlockMetaView {
                offset: data0.len() as int,
                first_key: run[0].0,
                last_key: run.last().0,
            }));
        }
    }

    /// Closes the block that is being filled, if it holds an entry: the
    /// blocks are then those of the table.
    fn close_blocks(&mut self)
        requires
            old(self).wf(),
        ensures
            final(self).sound(),
            final(self).entries() == old(self).entries(),
            final(self).entries() == final(self).flushed(),
            final(self).block_size == old(self).block_size,
            final(self).key_hashes == old(self).key_hashes,
            block_runs(
                final(self).data@,
                metas_view(final(self).meta@),
                final(self).data@.len() as int,
            ) == blocks_of(old(self).entries(), old(self).block_size as int),
            final(self).data@.len() == blocks_len(
                blocks_of(old(self).entries(), old(self).block_size as int),
            ),
            metas_bytes(metas_view(final(self).meta@)).len() == records_len(
                blocks_of(old(self).entries(), old(self).block_size as int),
            ),
            final(self).data@ == blocks_image(
                blocks_of(old(self).entries(), old(self).block_size as int),
            ),
            metas_view(final(self).meta@) == records_of(
                blocks_of(old(self).entries(), old(self).block_size as int),
            ),
            final(self).key_hashes@ == hashes_of(old(self).entries()),
    {
        let ghost es = self.entries();
        let ghost held = self.builder.entries();
        let ghost full = block_runs(self.data@, metas_view(self.meta@), self.data@.len() as int);
        proof {
            self.builder.lemma_entries();
            lemma_open_block(es, self.block_size as int);
            lemma_blocks_len_push(full, held);
            lemma_image_push(full, held);
        }
        if !self.builder.is_empty() {
            self.flush_current_block();
        }
        assert(self.entries() =~= self.flushed());
    }

    /// The size of the full blocks: an estimate of the size of the table.
    pub fn estimated_size(&self) -> (n: usize)
        requires
            self.wf(),
        ensures
            n == full_len(self.entries(), self.target_block_size()),
    {
        self.data.len()
    }

    /// Finishes the table: its file holds the blocks from offset 0, their
    /// records, the offset of the records, the filter over the keys added,
    /// and the offset of the filter. It is `TooLarge` where the offsets of
    /// the file would not fit a `u32`.
    #[verifier::rlimit(100)]
    pub fn build(self, id: usize) -> (r: Result<SsTable, Error>)
        requires
            self.wf(),
        ensures
            r is Ok <==> filter_start(self.entries(), self.target_block_size()) <= u32::MAX,
            r matches Ok(t) ==> t.wf() && t.id_spec() == id && t.entries() == self.entries()
                && valid_table(t.file_bytes()) && t.has_file_data() && file_run(t.file_bytes())
                == self.entries() && t.runs() == blocks_of(
                self.entries(),
                self.target_block_size(),
            ) && t.metas() == file_metas(t.file_bytes()) && t.size_spec() == t.file_bytes().len()
                && t.max_ts_spec() == 0,
            r matches Ok(t) ==> {
                &&& t.file_bytes() == table_image(
                    self.entries(),
                    self.target_block_size(),
                    BITS_PER_KEY,
                )
                &&& t.metas() == records_of(blocks_of(self.entries(), self.target_block_size()))
                &&& t.metas().len() > 0 ==> t.metas()[0].offset == 0
                &&& t.metas().len() == 0 ==> t.first_key_spec().len() == 0
                    && t.last_key_spec().len() == 0
                &&& t.meta_offset_spec() == meta_offset(t.file_bytes())
                &&& t.filter_bytes() == Some(bloom_region(t.file_bytes()))
                &&& t.filter_bytes() == Some(filter_image(hashes_of(self.entries()), BITS_PER_KEY))
            },
            r matches Err(e) ==> e == Error::TooLarge,
    {
        let mut this = self;
        let ghost es = this.entries();
        let ghost blocks = blocks_of(es, this.block_size as int);
        this.close_blocks();
        proof {
            lemma_lens(blocks);
        }
        let ghost ms = metas_view(this.meta@);
        let ghost data = this.data@;
        let meta_at = this.data.len();
        if meta_at > 0xFFFF_FFFF {
            return Err(Error::TooLarge);
        }
        proof {
            lemma_block_runs_ordered(data, ms, data.len() as int);
            assert forall|i: int| 0 <= i < ms.len() implies meta_storable(#[trigger] ms[i]) by {
                assert(block_ok(data, ms, data.len() as int, i));
                let run = crate::table::block_run(data, ms, data.len() as int, i);
                assert(entry_storable(run[0]));
                assert(entry_storable(run[run.len() - 1]));
            }
        }
        let mut buf: Vec<u8> = this.data;
        BlockMeta::encode_block_meta(this.meta.as_slice(), &mut buf);
        put_u32_le(&mut buf, meta_at as u32);
        let bloom_at = buf.len();
        if bloom_at > 0xFFFF_FFFF {
            return Err(Error::TooLarge);
        }
        let bloom = Bloom::build_from_key_hashes(this.key_hashes.as_slice(), BITS_PER_KEY);
        bloom.encode(&mut buf);
        put_u32_le(&mut buf, bloom_at as u32);
        proof {
            let filter = bloom.encoded();
            assert(buf@ =~= table_file(data, ms, filter));
            assert(filter.drop_last() =~= bloom.filter_view());
            assert(filter.last() == bloom.probes());
            assert forall|i: int|
                0 <= i < es.len() && hash_defined((#[trigger] es[i]).0) implies this.key_hashes@.contains(
                farmhash32(es[i].0),
            ) by {
                lemma_hashes_hold(es, i);
            }
            lemma_filter_covers(es, this.key_hashes@, bloom);
            lemma_table_file(data, ms, filter);
            if blocks.len() > 0 {
                lemma_first_record(blocks);
            }
        }
        let (first_key, last_key) = if this.meta.len() > 0 {
            (
                slice_to_vec(this.meta[0].first_key.as_slice()),
                slice_to_vec(this.meta[this.meta.len() - 1].last_key.as_slice()),
            )
        } else {
            (Vec::new(), Vec::new())
        };
        let file = FileObject::create(buf);
        let table = SsTable {
            file,
            block_meta_offset: meta_at,
            id,
            first_key,
            last_key,
            block_meta: this.meta,
            bloom: Some(bloom),
            max_ts: 0,
        };
        proof {
            table.lemma_admitted();
            assert(table.runs() == blocks);
        }
        Ok(table)
    }
}

} // verus!
