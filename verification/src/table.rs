//! Sorted-string tables.
//!
//! A table file holds its data blocks, then one block-meta record per block,
//! the offset of the meta region, the Bloom filter and the offset of the
//! filter:
//!
//! ```text
//! | blocks | meta region | meta offset (u32) | filter | filter offset (u32) |
//! ```
//!
//! A table is validated in full when it is opened, so that reading a block
//! of an open table cannot fail.

pub mod bloom;
pub mod builder;
pub mod iterator;
pub mod layout;

use std::sync::Arc;
use vstd::prelude::*;
use vstd::slice::{slice_subrange, slice_to_vec};
use crate::block::{decoded_data, decoded_offsets, entries_of, valid_encoding, Block};
use crate::cache::{lemma_slot_index, placed, slot_index, touched, BlockCache, Slot};
use crate::handle::share;
use crate::error::Error;
use crate::key::{
    key_equal, key_le, key_less, key_less_eq, key_lt, lemma_key_le_lt, lemma_key_lt_transitive,
};
use crate::run::{
    concat_runs, has_key, is_run, lemma_concat_index, lemma_concat_is_run, lemma_concat_member,
    rank, runs_ordered, Entry,
};
use crate::table::bloom::{Bloom, MAX_FILTER_BYTES};
use crate::wire::{
    get_u16_le, get_u32_le, le16, le32, lemma_le16_of_u16_le, lemma_le32_of_u32_le, put_slice,
    put_u16_le, put_u32_le, u16_le, u32_le,
};

pub use builder::SsTableBuilder;
pub use iterator::SsTableIterator;

verus! {

/// Where a data block lies in its file, and the range of its keys.
#[derive(Clone, Debug, PartialEq, Eq)]
pub struct BlockMeta {
    /// The offset of the block in the file.
    pub offset: usize,
    /// The first key of the block.
    pub first_key: Vec<u8>,
    /// The last key of the block.
    pub last_key: Vec<u8>,
}

/// A block-meta record as plain values.
pub struct BlockMetaView {
    /// The offset of the block in the file.
    pub offset: int,
    /// The first key of the block.
    pub first_key: Seq<u8>,
    /// The last key of the block.
    pub last_key: Seq<u8>,
}

impl View for BlockMeta {
    type V = BlockMetaView;

    open spec fn view(&self) -> BlockMetaView {
        BlockMetaView {
            offset: self.offset as int,
            first_key: self.first_key@,
            last_key: self.last_key@,
        }
    }
}

/// The records of `ms` as plain values.
pub open spec fn metas_view(ms: Seq<BlockMeta>) -> Seq<BlockMetaView> {
    Seq::new(ms.len(), |i: int| ms[i]@)
}

/// The record can be encoded: its offset fits a `u32` and the lengths of its
/// keys fit a `u16`.
pub open spec fn meta_storable(m: BlockMetaView) -> bool {
    &&& 0 <= m.offset <= u32::MAX
    &&& m.first_key.len() <= u16::MAX
    &&& m.last_key.len() <= u16::MAX
}

/// Every record of `ms` can be encoded.
pub open spec fn metas_storable(ms: Seq<BlockMetaView>) -> bool {
    forall|i: int| 0 <= i < ms.len() ==> meta_storable(#[trigger] ms[i])
}

/// The encoding of one record: the offset as `u32`, then each key behind its
/// length as `u16`, all little-endian.
pub open spec fn meta_bytes(m: BlockMetaView) -> Seq<u8> {
    u32_le(m.offset as u32) + u16_le(m.first_key.len() as u16) + m.first_key + u16_le(
        m.last_key.len() as u16,
    ) + m.last_key
}

/// The encoding of a sequence of records.
pub open spec fn metas_bytes(ms: Seq<BlockMetaView>) -> Seq<u8>
    decreases ms.len(),
{
    if ms.len() == 0 {
        Seq::empty()
    } else {
        meta_bytes(ms[0]) + metas_bytes(ms.skip(1))
    }
}

/// The length of the first key of the record at the front of `buf`.
pub open spec fn first_key_len(buf: Seq<u8>) -> int {
    le16(buf, 4)
}

/// The length of the last key of the record at the front of `buf`.
pub open spec fn last_key_len(buf: Seq<u8>) -> int {
    le16(buf, 6 + first_key_len(buf))
}

/// A whole record lies at the front of `buf`.
pub open spec fn meta_fits(buf: Seq<u8>) -> bool {
    &&& buf.len() >= 6
    &&& 8 + first_key_len(buf) <= buf.len()
    &&& 8 + first_key_len(buf) + last_key_len(buf) <= buf.len()
}

/// The length of the record at the front of `buf`.
pub open spec fn first_meta_len(buf: Seq<u8>) -> int {
    8 + first_key_len(buf) + last_key_len(buf)
}

/// The record at the front of `buf`.
pub open spec fn first_meta(buf: Seq<u8>) -> BlockMetaView {
    BlockMetaView {
        offset: le32(buf, 0),
        first_key: buf.subrange(6, 6 + first_key_len(buf)),
        last_key: buf.subrange(8 + first_key_len(buf), first_meta_len(buf)),
    }
}

/// `done` followed by `rest`, if there is a `rest`.
pub open spec fn prepend(done: Seq<BlockMetaView>, rest: Option<Seq<BlockMetaView>>) -> Option<
    Seq<BlockMetaView>,
> {
    match rest {
        Some(r) => Some(done + r),
        None => None,
    }
}

/// The records that `buf` encodes, if it is made of whole records.
pub open spec fn parse_metas(buf: Seq<u8>) -> Option<Seq<BlockMetaView>>
    decreases buf.len(),
{
    if buf.len() == 0 {
        Some(Seq::empty())
    } else if !meta_fits(buf) {
        None
    } else {
        prepend(seq![first_meta(buf)], parse_metas(buf.skip(first_meta_len(buf))))
    }
}

/// A record written at the front of a buffer is read back as it was written.
pub proof fn lemma_first_meta(m: BlockMetaView, rest: Seq<u8>)
    requires
        meta_storable(m),
    ensures
        meta_fits(meta_bytes(m) + rest),
        first_meta(meta_bytes(m) + rest) == m,
        first_meta_len(meta_bytes(m) + rest) == meta_bytes(m).len(),
        (meta_bytes(m) + rest).skip(meta_bytes(m).len() as int) == rest,
{
    let buf = meta_bytes(m) + rest;
    let fk = m.first_key.len() as int;
    assert(buf.subrange(0, 4) =~= u32_le(m.offset as u32));
    lemma_le32_of_u32_le(buf, 0, m.offset as u32);
    assert(buf.subrange(4, 6) =~= u16_le(m.first_key.len() as u16));
    lemma_le16_of_u16_le(buf, 4, m.first_key.len() as u16);
    assert(buf.subrange(6 + fk, 8 + fk) =~= u16_le(m.last_key.len() as u16));
    lemma_le16_of_u16_le(buf, 6 + fk, m.last_key.len() as u16);
    assert(first_meta(buf).first_key =~= m.first_key);
    assert(first_meta(buf).last_key =~= m.last_key);
    assert(buf.skip(meta_bytes(m).len() as int) =~= rest);
}

/// Decoding the encoding of records gives the records back.
pub proof fn lemma_parse_metas_bytes(ms: Seq<BlockMetaView>)
    requires
        metas_storable(ms),
    ensures
        parse_metas(metas_bytes(ms)) == Some(ms),
    decreases ms.len(),
{
    if ms.len() > 0 {
        let rest = ms.skip(1);
        assert forall|i: int| 0 <= i < rest.len() implies meta_storable(#[trigger] rest[i]) by {
            assert(meta_storable(ms[i + 1]));
        }
        lemma_parse_metas_bytes(rest);
        assert(meta_storable(ms[0]));
        lemma_first_meta(ms[0], metas_bytes(rest));
        assert(seq![ms[0]] + rest =~= ms);
    }
}

/// The encoding of records with one more at the end.
pub proof fn lemma_metas_bytes_push(ms: Seq<BlockMetaView>, m: BlockMetaView)
    ensures
        metas_bytes(ms.push(m)) == metas_bytes(ms) + meta_bytes(m),
    decreases ms.len(),
{
    let all = ms.push(m);
    assert(metas_bytes(all) == meta_bytes(all[0]) + metas_bytes(all.skip(1)));
    if ms.len() == 0 {
        assert(all.skip(1) =~= Seq::<BlockMetaView>::empty());
        assert(metas_bytes(all.skip(1)) =~= Seq::<u8>::empty());
        assert(metas_bytes(ms) =~= Seq::<u8>::empty());
        assert(metas_bytes(all) =~= metas_bytes(ms) + meta_bytes(m));
    } else {
        lemma_metas_bytes_push(ms.skip(1), m);
        assert(all.skip(1) =~= ms.skip(1).push(m));
        assert(metas_bytes(ms) == meta_bytes(ms[0]) + metas_bytes(ms.skip(1)));
        assert(metas_bytes(all) =~= metas_bytes(ms) + meta_bytes(m));
    }
}

impl BlockMeta {
    /// Appends the encoding of `block_meta` to `buf`.
    pub fn encode_block_meta(block_meta: &[BlockMeta], buf: &mut Vec<u8>)
        requires
            metas_storable(metas_view(block_meta@)),
        ensures
            final(buf)@ == old(buf)@ + metas_bytes(metas_view(block_meta@)),
    {
        let ghost ms = metas_view(block_meta@);
        let mut i: usize = 0;
        assert(ms.take(0) =~= Seq::<BlockMetaView>::empty());
        while i < block_meta.len()
            invariant
                i <= block_meta@.len(),
                ms == metas_view(block_meta@),
                metas_storable(ms),
                buf@ == old(buf)@ + metas_bytes(ms.take(i as int)),
            decreases block_meta@.len() - i,
        {
            let meta = &block_meta[i];
            assert(meta_storable(ms[i as int]));
            assert(ms[i as int] == meta@);
            let ghost before = buf@;
            put_u32_le(buf, meta.offset as u32);
            put_u16_le(buf, meta.first_key.len() as u16);
            put_slice(buf, meta.first_key.as_slice());
            put_u16_le(buf, meta.last_key.len() as u16);
            put_slice(buf, meta.last_key.as_slice());
            proof {
                assert(buf@ =~= before + meta_bytes(meta@));
                lemma_metas_bytes_push(ms.take(i as int), meta@);
                assert(ms.take(i as int).push(meta@) =~= ms.take(i + 1));
                assert(buf@ =~= old(buf)@ + metas_bytes(ms.take(i + 1)));
            }
            i += 1;
        }
        assert(ms.take(block_meta@.len() as int) =~= ms);
    }

    /// Decodes block-meta records from bytes that may be anything:
    /// `Corruption` unless they are made of whole records.
    pub fn try_decode_block_meta(buf: &[u8]) -> (r: Result<Vec<BlockMeta>, Error>)
        ensures
            r is Ok <==> parse_metas(buf@) is Some,
            r matches Ok(v) ==> parse_metas(buf@) == Some(metas_view(v@)),
            r matches Err(e) ==> e == Error::Corruption,
    {
        let len = buf.len();
        let mut metas: Vec<BlockMeta> = Vec::new();
        let mut pos: usize = 0;
        assert(buf@.skip(0) =~= buf@);
        assert(Seq::<BlockMetaView>::empty() + parse_metas(buf@).unwrap() =~= parse_metas(
            buf@,
        ).unwrap());
        while pos < len
            invariant
                len == buf@.len(),
                pos <= len,
                parse_metas(buf@) == prepend(
                    metas_view(metas@),
                    parse_metas(buf@.skip(pos as int)),
                ),
            decreases len - pos,
        {
            let rest = slice_subrange(buf, pos, len);
            assert(rest@ =~= buf@.skip(pos as int));
            if len - pos < 6 {
                return Err(Error::Corruption);
            }
            let offset = get_u32_le(slice_subrange(rest, 0, 4)) as usize;
            let fk_len = get_u16_le(slice_subrange(rest, 4, 6)) as usize;
            assert(offset == le32(rest@, 0));
            assert(fk_len == first_key_len(rest@));
            if len - pos - 6 < fk_len + 2 {
                return Err(Error::Corruption);
            }
            let lk_len = get_u16_le(slice_subrange(rest, 6 + fk_len, 8 + fk_len)) as usize;
            assert(lk_len == last_key_len(rest@));
            if len - pos - 8 - fk_len < lk_len {
                return Err(Error::Corruption);
            }
            let first_key = slice_to_vec(slice_subrange(rest, 6, 6 + fk_len));
            let last_key = slice_to_vec(slice_subrange(rest, 8 + fk_len, 8 + fk_len + lk_len));
            let meta = BlockMeta { offset, first_key, last_key };
            let ghost done = metas_view(metas@);
            metas.push(meta);
            proof {
                let step = first_meta_len(rest@);
                assert(meta@.first_key == first_meta(rest@).first_key);
                assert(meta@.last_key == first_meta(rest@).last_key);
                assert(meta@ == first_meta(rest@));
                assert(metas_view(metas@) =~= done + seq![first_meta(rest@)]);
                assert(rest@.skip(step) =~= buf@.skip(pos + step));
                let tail = parse_metas(buf@.skip(pos + step));
                if tail is Some {
                    assert(done + (seq![first_meta(rest@)] + tail.unwrap()) =~= (done
                        + seq![first_meta(rest@)]) + tail.unwrap());
                }
            }
            pos += 8 + fk_len + lk_len;
        }
        assert(buf@.skip(len as int) =~= Seq::<u8>::empty());
        assert(metas_view(metas@) + Seq::<BlockMetaView>::empty() =~= metas_view(metas@));
        Ok(metas)
    }

    /// Decodes block-meta records from their encoding.
    pub fn decode_block_meta(buf: &[u8]) -> (v: Vec<BlockMeta>)
        requires
            parse_metas(buf@) is Some,
        ensures
            parse_metas(buf@) == Some(metas_view(v@)),
    {
        match Self::try_decode_block_meta(buf) {
            Ok(v) => v,
            Err(_) => Vec::new(),
        }
    }
}

/// The bytes of a table file, held in memory.
///
/// Reading a file from disk and writing it there are left to the caller;
/// a file object without data stands for a file of which only the size is
/// known.
#[derive(Debug)]
pub struct FileObject {
    data: Option<Vec<u8>>,
    size: u64,
}

impl FileObject {
    /// The object's invariant: the size is that of the data.
    pub closed spec fn wf(&self) -> bool {
        self.data matches Some(d) ==> d@.len() == self.size
    }

    /// Whether the object holds the bytes of its file.
    pub closed spec fn has_data(&self) -> bool {
        self.data is Some
    }

    /// The bytes of the file; none when the object holds no data.
    pub closed spec fn bytes(&self) -> Seq<u8> {
        match self.data {
            Some(d) => d@,
            None => Seq::empty(),
        }
    }

    /// The size of the file.
    pub closed spec fn len(&self) -> u64 {
        self.size
    }

    /// The data, where there is any, has the size of the file.
    pub proof fn lemma_len(&self)
        requires
            self.wf(),
        ensures
            self.has_data() ==> self.bytes().len() == self.len(),
            !self.has_data() ==> self.bytes().len() == 0,
    {
    }

    /// Reads `len` bytes at `offset`: `Io` when the object holds no data or
    /// the range reaches past the end of the file.
    pub fn read(&self, offset: u64, len: u64) -> (r: Result<Vec<u8>, Error>)
        requires
            self.wf(),
        ensures
            r is Ok <==> self.has_data() && offset + len <= self.len(),
            r matches Ok(v) ==> v@ == self.bytes().subrange(offset as int, offset + len),
            r matches Err(e) ==> e == Error::Io,
    {
        match &self.data {
            Some(d) => {
                let size = d.len();
                if offset > self.size || len > self.size - offset {
                    return Err(Error::Io);
                }
                Ok(slice_to_vec(slice_subrange(d.as_slice(), offset as usize, (offset + len) as usize)))
            },
            None => Err(Error::Io),
        }
    }

    /// The bytes of the file as a slice; empty when the object holds no data.
    pub fn as_slice(&self) -> (s: &[u8])
        ensures
            s@ == self.bytes(),
    {
        match &self.data {
            Some(d) => d.as_slice(),
            None => {
                let s: &[u8] = &[];
                assert(s@ =~= Seq::<u8>::empty());
                s
            },
        }
    }

    /// Whether the object holds the bytes of its file.
    pub fn holds_data(&self) -> (b: bool)
        ensures
            b == self.has_data(),
    {
        self.data.is_some()
    }

    /// The size of the file.
    pub fn size(&self) -> (n: u64)
        ensures
            n == self.len(),
    {
        self.size
    }

    /// Creates a file object that holds `data`.
    pub fn create(data: Vec<u8>) -> (r: Self)
        ensures
            r.wf(),
            r.has_data(),
            r.bytes() == data@,
            r.len() == data@.len(),
    {
        let size = data.len() as u64;
        FileObject { data: Some(data), size }
    }

    /// Creates a file object for a file of `size` bytes of which no data is
    /// held.
    pub fn without_data(size: u64) -> (r: Self)
        ensures
            r.wf(),
            !r.has_data(),
            r.len() == size,
    {
        FileObject { data: None, size }
    }
}

/// Where block `i` ends: at the next block, or at `end` for the last.
pub open spec fn block_end(metas: Seq<BlockMetaView>, end: int, i: int) -> int {
    if i + 1 < metas.len() {
        metas[i + 1].offset
    } else {
        end
    }
}

/// The bytes of block `i`.
pub open spec fn block_bytes(bytes: Seq<u8>, metas: Seq<BlockMetaView>, end: int, i: int) -> Seq<
    u8,
> {
    bytes.subrange(metas[i].offset, block_end(metas, end, i))
}

/// The entries of block `i`.
pub open spec fn block_run(bytes: Seq<u8>, metas: Seq<BlockMetaView>, end: int, i: int) -> Seq<
    Entry,
> {
    entries_of(
        decoded_data(block_bytes(bytes, metas, end, i)),
        decoded_offsets(block_bytes(bytes, metas, end, i)),
    )
}

/// Block `i` lies before `end`, is the encoding of a well-formed block that
/// is not empty, begins and ends with the keys that its record names, and
/// ends before the next block begins.
pub open spec fn block_ok(bytes: Seq<u8>, metas: Seq<BlockMetaView>, end: int, i: int) -> bool {
    &&& 0 <= metas[i].offset <= block_end(metas, end, i) <= end
    &&& valid_encoding(block_bytes(bytes, metas, end, i))
    &&& block_run(bytes, metas, end, i).len() > 0
    &&& metas[i].first_key == block_run(bytes, metas, end, i)[0].0
    &&& metas[i].last_key == block_run(bytes, metas, end, i).last().0
    &&& i + 1 < metas.len() ==> key_lt(metas[i].last_key, metas[i + 1].first_key)
}

/// Every block that `metas` names is in order.
pub open spec fn blocks_ok(bytes: Seq<u8>, metas: Seq<BlockMetaView>, end: int) -> bool {
    &&& 0 <= end <= bytes.len()
    &&& forall|i: int| 0 <= i < metas.len() ==> #[trigger] block_ok(bytes, metas, end, i)
}

/// The entries of each block.
pub open spec fn block_runs(bytes: Seq<u8>, metas: Seq<BlockMetaView>, end: int) -> Seq<
    Seq<Entry>,
> {
    Seq::new(metas.len(), |i: int| block_run(bytes, metas, end, i))
}

/// The entries of all blocks, in order.
pub open spec fn table_run(bytes: Seq<u8>, metas: Seq<BlockMetaView>, end: int) -> Seq<Entry> {
    concat_runs(block_runs(bytes, metas, end))
}

/// Where the filter starts, as the last four bytes of the file say.
pub open spec fn bloom_offset(bytes: Seq<u8>) -> int {
    le32(bytes, bytes.len() - 4)
}

/// Where the meta region starts, as the four bytes before the filter say.
pub open spec fn meta_offset(bytes: Seq<u8>) -> int {
    le32(bytes, bloom_offset(bytes) - 4)
}

/// The two offsets lie in the file, in order.
pub open spec fn layout_ok(bytes: Seq<u8>) -> bool {
    &&& bytes.len() >= 8
    &&& 4 <= bloom_offset(bytes) <= bytes.len() - 4
    &&& meta_offset(bytes) <= bloom_offset(bytes) - 4
}

/// The bytes of the meta region.
pub open spec fn meta_region(bytes: Seq<u8>) -> Seq<u8> {
    bytes.subrange(meta_offset(bytes), bloom_offset(bytes) - 4)
}

/// The bytes of the filter.
pub open spec fn bloom_region(bytes: Seq<u8>) -> Seq<u8> {
    bytes.subrange(bloom_offset(bytes), bytes.len() - 4)
}

/// The records of the meta region.
pub open spec fn file_metas(bytes: Seq<u8>) -> Seq<BlockMetaView> {
    parse_metas(meta_region(bytes)).unwrap()
}

/// The entries of a table file.
pub open spec fn file_run(bytes: Seq<u8>) -> Seq<Entry> {
    table_run(bytes, file_metas(bytes), meta_offset(bytes))
}

/// A filter with the bits `filter` and `k` probes admits every key of `es`.
pub open spec fn filter_admits_all(filter: Seq<u8>, k: u8, es: Seq<Entry>) -> bool {
    forall|i: int|
        0 <= i < es.len() ==> (crate::table::bloom::hash_defined((#[trigger] es[i]).0)
            ==> crate::table::bloom::admits(
            filter,
            k,
            crate::table::bloom::farmhash32(es[i].0),
        ))
}

/// The filter of a table file is absent (no bytes), or it decodes and
/// admits every key of the table.
pub open spec fn bloom_ok(bytes: Seq<u8>) -> bool {
    let region = bloom_region(bytes);
    region.len() == 0 || (region.len() <= MAX_FILTER_BYTES + 1 && filter_admits_all(
        region.drop_last(),
        region.last(),
        file_run(bytes),
    ))
}

/// `bytes` is a table file: its layout, its meta region, each of its blocks
/// and its filter are in order.
pub open spec fn valid_table(bytes: Seq<u8>) -> bool {
    &&& layout_ok(bytes)
    &&& parse_metas(meta_region(bytes)) is Some
    &&& blocks_ok(bytes, file_metas(bytes), meta_offset(bytes))
    &&& bloom_ok(bytes)
}

/// The bytes of a table file with the blocks `data`, the records `ms` and
/// the filter `filter`.
pub open spec fn table_file(data: Seq<u8>, ms: Seq<BlockMetaView>, filter: Seq<u8>) -> Seq<u8> {
    data + metas_bytes(ms) + u32_le(data.len() as u32) + filter + u32_le(
        (data.len() + metas_bytes(ms).len() + 4) as u32,
    )
}

/// The layout of a file made of blocks, a meta region and a filter with
/// their two offsets.
pub proof fn lemma_table_layout(data: Seq<u8>, mb: Seq<u8>, filter: Seq<u8>)
    requires
        data.len() + mb.len() + 4 <= u32::MAX,
    ensures
        ({
            let bytes = data + mb + u32_le(data.len() as u32) + filter + u32_le(
                (data.len() + mb.len() + 4) as u32,
            );
            &&& layout_ok(bytes)
            &&& meta_offset(bytes) == data.len()
            &&& bloom_offset(bytes) == data.len() + mb.len() + 4
            &&& meta_region(bytes) == mb
            &&& bloom_region(bytes) == filter
            &&& bytes == data + (mb + u32_le(data.len() as u32) + filter + u32_le(
                (data.len() + mb.len() + 4) as u32,
            ))
        }),
{
    let meta_at = data.len() as u32;
    let bloom_at = (data.len() + mb.len() + 4) as u32;
    let bytes = data + mb + u32_le(meta_at) + filter + u32_le(bloom_at);
    assert(bytes.subrange(bytes.len() - 4, bytes.len() as int) =~= u32_le(bloom_at));
    lemma_le32_of_u32_le(bytes, bytes.len() - 4, bloom_at);
    assert(bytes.subrange(bloom_at - 4, bloom_at as int) =~= u32_le(meta_at));
    lemma_le32_of_u32_le(bytes, bloom_at - 4, meta_at);
    assert(meta_region(bytes) =~= mb);
    assert(bloom_region(bytes) =~= filter);
    assert(bytes =~= data + (mb + u32_le(meta_at) + filter + u32_le(bloom_at)));
}

/// Blocks, their records and a filter that admits their keys, laid out as a
/// table file, are a table that holds the entries of the blocks.
pub proof fn lemma_table_file(data: Seq<u8>, ms: Seq<BlockMetaView>, filter: Seq<u8>)
    requires
        blocks_ok(data, ms, data.len() as int),
        metas_storable(ms),
        data.len() + metas_bytes(ms).len() + 4 <= u32::MAX,
        0 < filter.len() <= MAX_FILTER_BYTES + 1,
        filter_admits_all(filter.drop_last(), filter.last(), table_run(data, ms, data.len() as int)),
    ensures
        valid_table(table_file(data, ms, filter)),
        file_metas(table_file(data, ms, filter)) == ms,
        meta_offset(table_file(data, ms, filter)) == data.len(),
        file_run(table_file(data, ms, filter)) == table_run(data, ms, data.len() as int),
        block_runs(table_file(data, ms, filter), ms, data.len() as int) == block_runs(
            data,
            ms,
            data.len() as int,
        ),
        bloom_region(table_file(data, ms, filter)) == filter,
{
    let bytes = table_file(data, ms, filter);
    let mb = metas_bytes(ms);
    lemma_table_layout(data, mb, filter);
    lemma_parse_metas_bytes(ms);
    let rest = mb + u32_le(data.len() as u32) + filter + u32_le((data.len() + mb.len() + 4) as u32);
    lemma_blocks_extend(data, ms, data.len() as int, rest);
    assert(file_metas(bytes) == ms);
    assert(blocks_ok(bytes, ms, data.len() as int));
    assert(file_run(bytes) == table_run(data, ms, data.len() as int));
    assert(bloom_ok(bytes));
}

/// The blocks of a table are ordered runs.
pub proof fn lemma_block_runs_ordered(bytes: Seq<u8>, metas: Seq<BlockMetaView>, end: int)
    requires
        blocks_ok(bytes, metas, end),
    ensures
        runs_ordered(block_runs(bytes, metas, end)),
        is_run(table_run(bytes, metas, end)),
{
    let runs = block_runs(bytes, metas, end);
    assert forall|i: int| 0 <= i < runs.len() implies is_run(#[trigger] runs[i]) && runs[i].len()
        > 0 by {
        assert(block_ok(bytes, metas, end, i));
    }
    assert forall|i: int| 0 <= i < runs.len() - 1 implies key_lt(
        (#[trigger] runs[i]).last().0,
        runs[i + 1][0].0,
    ) by {
        assert(block_ok(bytes, metas, end, i));
        assert(block_ok(bytes, metas, end, i + 1));
    }
    lemma_concat_is_run(runs);
}

/// A table with blocks begins with the first key of its first block and ends
/// with the last key of its last.
pub proof fn lemma_table_run_ends(bytes: Seq<u8>, metas: Seq<BlockMetaView>, end: int)
    requires
        blocks_ok(bytes, metas, end),
        metas.len() > 0,
    ensures
        table_run(bytes, metas, end).len() > 0,
        table_run(bytes, metas, end)[0].0 == metas[0].first_key,
        table_run(bytes, metas, end).last().0 == metas.last().last_key,
{
    let runs = block_runs(bytes, metas, end);
    lemma_block_runs_ordered(bytes, metas, end);
    lemma_concat_is_run(runs);
    let n = metas.len() as int;
    assert(block_ok(bytes, metas, end, 0));
    assert(block_ok(bytes, metas, end, n - 1));
    assert(runs[0] == block_run(bytes, metas, end, 0));
    assert(runs[n - 1] == block_run(bytes, metas, end, n - 1));
}

/// Bytes added behind the blocks of a table leave the blocks as they were.
pub proof fn lemma_blocks_extend(
    bytes: Seq<u8>,
    metas: Seq<BlockMetaView>,
    end: int,
    more: Seq<u8>,
)
    requires
        blocks_ok(bytes, metas, end),
    ensures
        blocks_ok(bytes + more, metas, end),
        block_runs(bytes + more, metas, end) == block_runs(bytes, metas, end),
        table_run(bytes + more, metas, end) == table_run(bytes, metas, end),
{
    let wide = bytes + more;
    assert forall|i: int| 0 <= i < metas.len() implies #[trigger] block_bytes(wide, metas, end, i)
        == block_bytes(bytes, metas, end, i) by {
        assert(block_ok(bytes, metas, end, i));
        assert(block_bytes(wide, metas, end, i) =~= block_bytes(bytes, metas, end, i));
    }
    assert forall|i: int| 0 <= i < metas.len() implies #[trigger] block_ok(wide, metas, end, i) by {
        assert(block_ok(bytes, metas, end, i));
        assert(block_bytes(wide, metas, end, i) == block_bytes(bytes, metas, end, i));
    }
    assert forall|i: int| 0 <= i < metas.len() implies block_runs(wide, metas, end)[i]
        == block_runs(bytes, metas, end)[i] by {
        assert(block_bytes(wide, metas, end, i) == block_bytes(bytes, metas, end, i));
    }
    assert(block_runs(wide, metas, end) =~= block_runs(bytes, metas, end));
}

/// A block written behind the blocks of a table, with its record, makes a
/// table with one more block.
pub proof fn lemma_blocks_push(
    bytes: Seq<u8>,
    metas: Seq<BlockMetaView>,
    block: Seq<u8>,
    m: BlockMetaView,
)
    requires
        blocks_ok(bytes, metas, bytes.len() as int),
        m.offset == bytes.len(),
        valid_encoding(block),
        entries_of(decoded_data(block), decoded_offsets(block)).len() > 0,
        m.first_key == entries_of(decoded_data(block), decoded_offsets(block))[0].0,
        m.last_key == entries_of(decoded_data(block), decoded_offsets(block)).last().0,
        metas.len() > 0 ==> key_lt(metas.last().last_key, m.first_key),
    ensures
        blocks_ok(bytes + block, metas.push(m), (bytes.len() + block.len()) as int),
        block_runs(bytes + block, metas.push(m), (bytes.len() + block.len()) as int) == block_runs(
            bytes,
            metas,
            bytes.len() as int,
        ).push(entries_of(decoded_data(block), decoded_offsets(block))),
        table_run(bytes + block, metas.push(m), (bytes.len() + block.len()) as int) == table_run(
            bytes,
            metas,
            bytes.len() as int,
        ) + entries_of(decoded_data(block), decoded_offsets(block)),
{
    let wide = bytes + block;
    let all = metas.push(m);
    let end0 = bytes.len() as int;
    let end1 = (bytes.len() + block.len()) as int;
    let n = metas.len() as int;
    let run = entries_of(decoded_data(block), decoded_offsets(block));
    assert forall|i: int| 0 <= i < n implies #[trigger] block_bytes(wide, all, end1, i)
        == block_bytes(bytes, metas, end0, i) by {
        assert(block_ok(bytes, metas, end0, i));
        assert(block_end(all, end1, i) == block_end(metas, end0, i));
        assert(block_bytes(wide, all, end1, i) =~= block_bytes(bytes, metas, end0, i));
    }
    assert forall|i: int| 0 <= i < n implies #[trigger] block_ok(wide, all, end1, i) by {
        assert(block_ok(bytes, metas, end0, i));
        assert(block_end(all, end1, i) == block_end(metas, end0, i));
        assert(block_bytes(wide, all, end1, i) == block_bytes(bytes, metas, end0, i));
    }
    assert(block_bytes(wide, all, end1, n) =~= block);
    assert(block_ok(wide, all, end1, n));
    let runs1 = block_runs(wide, all, end1);
    let runs0 = block_runs(bytes, metas, end0).push(run);
    assert forall|i: int| 0 <= i < runs1.len() implies runs1[i] == runs0[i] by {
        if i < n {
            assert(block_bytes(wide, all, end1, i) == block_bytes(bytes, metas, end0, i));
        }
    }
    assert(runs1 =~= runs0);
    crate::run::lemma_concat_push(block_runs(bytes, metas, end0), run);
}

/// The first keys of the blocks of a table ascend.
pub proof fn lemma_first_keys_ascend(
    bytes: Seq<u8>,
    metas: Seq<BlockMetaView>,
    end: int,
    i: int,
    j: int,
)
    requires
        blocks_ok(bytes, metas, end),
        0 <= i < j < metas.len(),
    ensures
        key_lt(metas[i].first_key, metas[j].first_key),
        key_lt(metas[i].last_key, metas[j].first_key),
        key_le(metas[i].first_key, metas[i].last_key),
    decreases j - i,
{
    assert(block_ok(bytes, metas, end, i));
    let run = block_run(bytes, metas, end, i);
    if run.len() > 1 {
        assert(key_lt(run[0].0, run[run.len() - 1].0));
    }
    if i + 1 < j {
        lemma_first_keys_ascend(bytes, metas, end, i + 1, j);
        lemma_key_le_lt(metas[i].first_key, metas[i].last_key, metas[i + 1].first_key);
        lemma_key_lt_transitive(metas[i].first_key, metas[i + 1].first_key, metas[j].first_key);
        lemma_key_lt_transitive(metas[i].last_key, metas[i + 1].first_key, metas[j].first_key);
    } else {
        lemma_key_le_lt(metas[i].first_key, metas[i].last_key, metas[j].first_key);
    }
}

/// Whether `bloom` admits every key of `block`.
fn check_block_keys(block: &Block, bloom: &Bloom) -> (ok: bool)
    requires
        block.wf(),
        bloom.wf(),
    ensures
        ok == (forall|t: int|
            0 <= t < block.entries().len() ==> bloom.admits_key((#[trigger] block.entries()[t]).0)),
{
    let n = block.num_entries();
    let mut t: usize = 0;
    while t < n
        invariant
            block.wf(),
            bloom.wf(),
            n == block.entries().len(),
            t <= n,
            forall|u: int| 0 <= u < t ==> bloom.admits_key((#[trigger] block.entries()[u]).0),
        decreases n - t,
    {
        if !bloom.may_contain_key(block.key_at_index(t)) {
            return false;
        }
        t += 1;
    }
    true
}

/// Whether the block that record `i` names is in order, and admitted by the
/// filter where there is one.
fn check_block(
    bytes: &[u8],
    metas: &Vec<BlockMeta>,
    end: usize,
    bloom: &Option<Bloom>,
    i: usize,
) -> (ok: bool)
    requires
        end <= bytes@.len(),
        i < metas@.len(),
        bloom matches Some(b) ==> b.wf(),
    ensures
        ok == (block_ok(bytes@, metas_view(metas@), end as int, i as int) && (bloom matches Some(b)
            ==> forall|t: int|
            0 <= t < block_run(bytes@, metas_view(metas@), end as int, i as int).len()
                ==> b.admits_key(
                (#[trigger] block_run(bytes@, metas_view(metas@), end as int, i as int)[t]).0,
            ))),
{
    let ghost ms = metas_view(metas@);
    let n = metas.len();
    let begin = metas[i].offset;
    let stop = if i + 1 < n {
        metas[i + 1].offset
    } else {
        end
    };
    assert(ms[i as int].offset == begin);
    assert(stop == block_end(ms, end as int, i as int));
    if begin > stop || stop > end {
        return false;
    }
    let block = match Block::try_decode(slice_subrange(bytes, begin, stop)) {
        Ok(block) => block,
        Err(_) => {
            return false;
        },
    };
    assert(block.entries() == block_run(bytes@, ms, end as int, i as int));
    let count = block.num_entries();
    if count == 0 {
        return false;
    }
    assert(ms[i as int].first_key == metas@[i as int].first_key@);
    assert(ms[i as int].last_key == metas@[i as int].last_key@);
    if !key_equal(block.key_at_index(0), metas[i].first_key.as_slice()) {
        return false;
    }
    if !key_equal(block.key_at_index(count - 1), metas[i].last_key.as_slice()) {
        return false;
    }
    if i + 1 < n {
        assert(ms[i + 1].first_key == metas@[i + 1].first_key@);
        if !key_less(metas[i].last_key.as_slice(), metas[i + 1].first_key.as_slice()) {
            return false;
        }
    }
    match bloom {
        Some(b) => check_block_keys(&block, b),
        None => true,
    }
}

/// Whether every block that `metas` names is in order, and every key
/// admitted by the filter where there is one.
fn check_blocks(bytes: &[u8], metas: &Vec<BlockMeta>, end: usize, bloom: &Option<Bloom>) -> (ok:
    bool)
    requires
        end <= bytes@.len(),
        bloom matches Some(b) ==> b.wf(),
    ensures
        ok == (blocks_ok(bytes@, metas_view(metas@), end as int) && (bloom matches Some(b)
            ==> filter_admits_all(
            b.filter_view(),
            b.probes(),
            table_run(bytes@, metas_view(metas@), end as int),
        ))),
{
    let ghost ms = metas_view(metas@);
    let ghost runs = block_runs(bytes@, ms, end as int);
    let n = metas.len();
    let mut i: usize = 0;
    while i < n
        invariant
            end <= bytes@.len(),
            bloom matches Some(b) ==> b.wf(),
            ms == metas_view(metas@),
            runs == block_runs(bytes@, ms, end as int),
            n == metas@.len(),
            i <= n,
            forall|j: int| 0 <= j < i ==> #[trigger] block_ok(bytes@, ms, end as int, j),
            bloom matches Some(b) ==> forall|j: int, t: int|
                0 <= j < i && 0 <= t < runs[j].len() ==> b.admits_key((#[trigger] runs[j][t]).0),
        decreases n - i,
    {
        if !check_block(bytes, metas, end, bloom, i) {
            proof {
                if block_ok(bytes@, ms, end as int, i as int) {
                    let b = bloom->Some_0;
                    let run = block_run(bytes@, ms, end as int, i as int);
                    let t = choose|t: int| 0 <= t < run.len() && !b.admits_key((#[trigger] run[t]).0);
                    assert(runs[i as int] == run);
                    lemma_concat_index(runs, i as int, t);
                }
            }
            return false;
        }
        assert(runs[i as int] == block_run(bytes@, ms, end as int, i as int));
        i += 1;
    }
    proof {
        if bloom is Some {
            let b = bloom->Some_0;
            let all = table_run(bytes@, ms, end as int);
            assert forall|g: int| 0 <= g < all.len() implies b.admits_key((#[trigger] all[g]).0) by {
                lemma_concat_member(runs, g);
                let (j, t) = choose|j: int, t: int|
                    0 <= j < runs.len() && 0 <= t < runs[j].len() && concat_runs(runs)[g]
                        == #[trigger] runs[j][t];
                assert(b.admits_key(runs[j][t].0));
            }
        }
    }
    true
}

/// A sorted-string table.
#[derive(Debug)]
pub struct SsTable {
    /// The file of the table.
    pub(crate) file: FileObject,
    /// The record of each data block.
    pub(crate) block_meta: Vec<BlockMeta>,
    /// Where the meta region starts in the file.
    pub(crate) block_meta_offset: usize,
    /// The id of the table.
    pub(crate) id: usize,
    /// The first key of the table.
    pub(crate) first_key: Vec<u8>,
    /// The last key of the table.
    pub(crate) last_key: Vec<u8>,
    /// The filter over the keys of the table.
    pub(crate) bloom: Option<Bloom>,
    /// The largest timestamp stored in the table.
    pub(crate) max_ts: u64,
}

impl SsTable {
    /// The records of the blocks, as plain values.
    pub open(crate) spec fn metas(&self) -> Seq<BlockMetaView> {
        metas_view(self.block_meta@)
    }

    /// The entries of each block.
    pub open(crate) spec fn runs(&self) -> Seq<Seq<Entry>> {
        block_runs(self.file.bytes(), self.metas(), self.block_meta_offset as int)
    }

    /// The entries of the table, in order.
    pub open(crate) spec fn entries(&self) -> Seq<Entry> {
        table_run(self.file.bytes(), self.metas(), self.block_meta_offset as int)
    }

    /// The id of the table.
    pub open(crate) spec fn id_spec(&self) -> usize {
        self.id
    }

    /// The first key of the table.
    pub open(crate) spec fn first_key_spec(&self) -> Seq<u8> {
        self.first_key@
    }

    /// The last key of the table.
    pub open(crate) spec fn last_key_spec(&self) -> Seq<u8> {
        self.last_key@
    }

    /// The size of the table's file.
    pub open(crate) spec fn size_spec(&self) -> u64 {
        self.file.len()
    }

    /// The bytes of the table's file.
    pub open(crate) spec fn file_bytes(&self) -> Seq<u8> {
        self.file.bytes()
    }

    /// Whether the table holds the bytes of its file.
    pub open(crate) spec fn has_file_data(&self) -> bool {
        self.file.has_data()
    }

    /// The largest timestamp stored in the table.
    pub open(crate) spec fn max_ts_spec(&self) -> u64 {
        self.max_ts
    }

    /// Where the meta region starts in the file.
    pub open(crate) spec fn meta_offset_spec(&self) -> usize {
        self.block_meta_offset
    }

    /// The encoding of the table's filter, where it has one.
    pub open(crate) spec fn filter_bytes(&self) -> Option<Seq<u8>> {
        match self.bloom {
            Some(b) => Some(b.encoded()),
            None => None,
        }
    }

    /// Whether the table's filter admits `key`; a table without a filter
    /// admits every key.
    pub open(crate) spec fn admits(&self, key: Seq<u8>) -> bool {
        match self.bloom {
            Some(b) => b.admits_key(key),
            None => true,
        }
    }

    /// The table's invariant: every block is a well-formed run between the
    /// keys that its record names, the blocks ascend, and the filter admits
    /// every key of the table.
    pub open(crate) spec fn wf(&self) -> bool {
        &&& self.file.wf()
        &&& blocks_ok(self.file.bytes(), self.metas(), self.block_meta_offset as int)
        &&& self.block_meta@.len() > 0 ==> self.first_key@ == self.metas()[0].first_key
            && self.last_key@ == self.metas().last().last_key
        &&& self.bloom matches Some(b) ==> b.wf()
        &&& self.keys_admitted()
    }

    /// The filter admits every key of the table.
    #[verifier::opaque]
    pub open(crate) spec fn keys_admitted(&self) -> bool {
        forall|i: int|
            0 <= i < self.entries().len() ==> self.admits((#[trigger] self.entries()[i]).0)
    }

    /// The entries of a table are a run that begins with the table's first
    /// key and ends with its last.
    pub proof fn lemma_entries(&self)
        requires
            self.wf(),
        ensures
            is_run(self.entries()),
            runs_ordered(self.runs()),
            self.entries() == concat_runs(self.runs()),
            self.runs().len() == self.metas().len(),
            self.entries().len() > 0 <==> self.metas().len() > 0,
            self.entries().len() > 0 ==> self.entries()[0].0 == self.first_key_spec()
                && self.entries().last().0 == self.last_key_spec(),
    {
        let bytes = self.file.bytes();
        let end = self.block_meta_offset as int;
        lemma_block_runs_ordered(bytes, self.metas(), end);
        if self.metas().len() > 0 {
            lemma_table_run_ends(bytes, self.metas(), end);
        }
    }

    /// A filter that admits every key of the entries admits every key of
    /// the table.
    pub(crate) proof fn lemma_admitted(&self)
        requires
            self.bloom matches Some(b) ==> filter_admits_all(
                b.filter_view(),
                b.probes(),
                self.entries(),
            ),
        ensures
            self.keys_admitted(),
    {
        reveal(SsTable::keys_admitted);
    }

    /// The rank of a key in the table is its rank in the block that
    /// `find_block_idx` names, behind the entries of the blocks before.
    pub proof fn lemma_rank(&self, idx: int, key: Seq<u8>)
        requires
            self.wf(),
            0 <= idx < self.metas().len(),
            idx == 0 || key_le(self.metas()[idx].first_key, key),
            forall|j: int|
                idx < j < self.metas().len() ==> !key_le((#[trigger] self.metas()[j]).first_key, key),
        ensures
            rank(self.entries(), key) == crate::run::prefix_len(self.runs(), idx) + rank(
                self.runs()[idx],
                key,
            ),
    {
        crate::table::iterator::lemma_seek(
            self.file.bytes(),
            self.metas(),
            self.block_meta_offset as int,
            idx,
            key,
        );
    }

    /// Every key of the table is admitted by its filter.
    pub proof fn lemma_keys_admitted(&self, key: Seq<u8>)
        requires
            self.wf(),
            has_key(self.entries(), key),
        ensures
            self.admits(key),
    {
        reveal(SsTable::keys_admitted);
        let i = choose|i: int| 0 <= i < self.entries().len() && (#[trigger] self.entries()[i]).0 == key;
        assert(self.admits(self.entries()[i].0));
    }

    /// Opens a table from its file and validates it in full: `Io` for a
    /// file object without data, `Corruption` for bytes that are no table.
    pub fn open(id: usize, file: FileObject) -> (r: Result<Self, Error>)
        requires
            file.wf(),
        ensures
            r is Ok <==> file.has_data() && valid_table(file.bytes()),
            r matches Ok(t) ==> t.wf() && t.id_spec() == id && t.size_spec() == file.len()
                && t.file_bytes() == file.bytes() && t.has_file_data() && t.metas() == file_metas(
                file.bytes(),
            ) && t.entries() == file_run(file.bytes()) && t.max_ts_spec() == 0 && (t.metas().len()
                == 0 ==> t.first_key_spec().len() == 0 && t.last_key_spec().len() == 0),
            r matches Ok(t) ==> t.meta_offset_spec() == meta_offset(file.bytes()) && t.filter_bytes()
                == if bloom_region(file.bytes()).len() == 0 {
                None::<Seq<u8>>
            } else {
                Some(bloom_region(file.bytes()))
            },
            r matches Err(e) ==> e == if file.has_data() {
                Error::Corruption
            } else {
                Error::Io
            },
    {
        if !file.holds_data() {
            return Err(Error::Io);
        }
        let ghost bytes = file.bytes();
        proof {
            file.lemma_len();
        }
        let size = file.size();
        if size < 8 {
            return Err(Error::Corruption);
        }
        let bloom_off = match file.read(size - 4, 4) {
            Ok(word) => {
                assert(word@[0] == bytes[size - 4] && word@[1] == bytes[size - 3] && word@[2]
                    == bytes[size - 2] && word@[3] == bytes[size - 1]);
                get_u32_le(word.as_slice()) as u64
            },
            Err(e) => {
                return Err(e);
            },
        };
        assert(bloom_off == bloom_offset(bytes));
        if bloom_off < 4 || bloom_off > size - 4 {
            return Err(Error::Corruption);
        }
        let meta_off = match file.read(bloom_off - 4, 4) {
            Ok(word) => {
                assert(word@[0] == bytes[bloom_off - 4] && word@[1] == bytes[bloom_off - 3]
                    && word@[2] == bytes[bloom_off - 2] && word@[3] == bytes[bloom_off - 1]);
                get_u32_le(word.as_slice()) as u64
            },
            Err(e) => {
                return Err(e);
            },
        };
        assert(meta_off == meta_offset(bytes));
        if meta_off > bloom_off - 4 {
            return Err(Error::Corruption);
        }
        let meta_buf = match file.read(meta_off, bloom_off - 4 - meta_off) {
            Ok(buf) => buf,
            Err(e) => {
                return Err(e);
            },
        };
        assert(meta_buf@ == meta_region(bytes));
        let block_meta = match BlockMeta::try_decode_block_meta(meta_buf.as_slice()) {
            Ok(metas) => metas,
            Err(e) => {
                return Err(e);
            },
        };
        let bloom_len = size - 4 - bloom_off;
        let bloom = if bloom_len == 0 {
            None
        } else {
            let region = match file.read(bloom_off, bloom_len) {
                Ok(buf) => buf,
                Err(e) => {
                    return Err(e);
                },
            };
            assert(region@ == bloom_region(bytes));
            match Bloom::decode(region.as_slice()) {
                Ok(b) => {
                    assert(b.filter_view() =~= region@.drop_last());
                    assert(b.probes() == region@.last());
                    Some(b)
                },
                Err(e) => {
                    return Err(e);
                },
            }
        };
        if !check_blocks(file.as_slice(), &block_meta, meta_off as usize, &bloom) {
            return Err(Error::Corruption);
        }
        let (first_key, last_key) = if block_meta.len() > 0 {
            (
                slice_to_vec(block_meta[0].first_key.as_slice()),
                slice_to_vec(block_meta[block_meta.len() - 1].last_key.as_slice()),
            )
        } else {
            (Vec::new(), Vec::new())
        };
        let table = Self {
            file,
            block_meta,
            block_meta_offset: meta_off as usize,
            id,
            first_key,
            last_key,
            bloom,
            max_ts: 0,
        };
        proof {
            table.lemma_admitted();
        }
        Ok(table)
    }

    /// Creates a table that holds no blocks, only an id, a file size and a
    /// range of keys.
    pub fn create_meta_only(id: usize, file_size: u64, first_key: Vec<u8>, last_key: Vec<u8>) -> (r:
        Self)
        ensures
            r.wf(),
            r.entries().len() == 0,
            r.metas().len() == 0,
            r.id_spec() == id,
            r.size_spec() == file_size,
            r.first_key_spec() == first_key@,
            r.last_key_spec() == last_key@,
    {
        let r = Self {
            file: FileObject::without_data(file_size),
            block_meta: Vec::new(),
            block_meta_offset: 0,
            id,
            first_key,
            last_key,
            bloom: None,
            max_ts: 0,
        };
        proof {
            r.file.lemma_len();
            r.lemma_admitted();
        }
        r
    }

    /// Reads block `block_idx` from the file.
    pub fn read_block(&self, block_idx: usize) -> (r: Arc<Block>)
        requires
            self.wf(),
            block_idx < self.metas().len(),
        ensures
            r.wf(),
            r.entries() == self.runs()[block_idx as int],
            r.entries().len() > 0,
    {
        let ghost bytes = self.file.bytes();
        let ghost end = self.block_meta_offset as int;
        proof {
            assert(block_ok(bytes, self.metas(), end, block_idx as int));
            self.file.lemma_len();
        }
        let n = self.block_meta.len();
        assert(n == self.metas().len());
        let begin_offset = self.block_meta[block_idx].offset;
        let end_offset = if block_idx + 1 >= n {
            self.block_meta_offset
        } else {
            self.block_meta[block_idx + 1].offset
        };
        assert(self.metas()[block_idx as int].offset == begin_offset);
        assert(end_offset == block_end(self.metas(), end, block_idx as int));
        let data = slice_subrange(self.file.as_slice(), begin_offset, end_offset);
        Arc::new(Block::decode(data))
    }

    /// Reads block `block_idx` through the cache: the block comes from the
    /// cache where the cache holds it, and else from the file and is put
    /// into the cache. The result is that of `read_block`.
    pub fn read_block_cached(&self, block_idx: usize, cache: &mut BlockCache) -> (r: Arc<Block>)
        requires
            self.wf(),
            block_idx < self.metas().len(),
            old(cache).wf(),
            self.cached_in(*old(cache)),
        ensures
            r.wf(),
            r.entries() == self.runs()[block_idx as int],
            r.entries().len() > 0,
            final(cache).wf(),
            final(cache).limit() == old(cache).limit(),
            self.cached_in(*final(cache)),
            final(cache).slots() == if slot_index(old(cache).slots(), self.id_spec(), block_idx)
                < old(cache).slots().len() {
                touched(old(cache).slots(), self.id_spec(), block_idx)
            } else {
                placed(
                    old(cache).slots(),
                    old(cache).limit(),
                    (Slot { sst_id: self.id_spec(), block_idx, block: r }),
                )
            },
    {
        proof {
            lemma_slot_index(cache.slots(), self.id, block_idx);
            assert(block_ok(
                self.file.bytes(),
                self.metas(),
                self.block_meta_offset as int,
                block_idx as int,
            ));
        }
        let ghost before = cache.slots();
        let ghost at = slot_index(before, self.id, block_idx);
        match cache.get(self.id, block_idx) {
            Some(block) => {
                proof {
                    let after = cache.slots();
                    assert forall|i: int| 0 <= i < after.len() implies self.holds(
                        #[trigger] after[i],
                    ) by {
                        if i < at {
                            assert(after[i] == before[i]);
                        } else if i < after.len() - 1 {
                            assert(after[i] == before[i + 1]);
                        } else {
                            assert(after[i] == before[at]);
                        }
                    }
                    assert(self.holds(before[at]));
                }
                block
            },
            None => {
                let block = self.read_block(block_idx);
                let ghost limit = cache.limit();
                cache.insert(self.id, block_idx, share(&block));
                proof {
                    let after = cache.slots();
                    assert forall|i: int| 0 <= i < after.len() implies self.holds(
                        #[trigger] after[i],
                    ) by {
                        if limit == 0 {
                            assert(after[i] == before[i]);
                        } else if i == after.len() - 1 {
                        } else if before.len() >= limit {
                            assert(after[i] == before[i + 1]);
                        } else {
                            assert(after[i] == before[i]);
                        }
                    }
                }
                block
            },
        }
    }

    /// The slot holds a block of another table, or the block of this table
    /// that it names.
    pub open(crate) spec fn holds(&self, slot: Slot) -> bool {
        slot.sst_id == self.id ==> slot.block_idx < self.runs().len() && slot.block.entries()
            == self.runs()[slot.block_idx as int]
    }

    /// Every block that the cache holds under the id of this table is that
    /// block of this table.
    pub open(crate) spec fn cached_in(&self, cache: BlockCache) -> bool {
        forall|i: int| 0 <= i < cache.slots().len() ==> self.holds(#[trigger] cache.slots()[i])
    }

    /// Finds the block that may hold `key`: the last block whose first key
    /// is `<= key`, or block 0 when there is none.
    pub fn find_block_idx(&self, key: &[u8]) -> (idx: usize)
        requires
            self.wf(),
        ensures
            idx == 0 || (idx < self.metas().len() && key_le(
                self.metas()[idx as int].first_key,
                key@,
            )),
            forall|j: int|
                idx < j < self.metas().len() ==> !key_le((#[trigger] self.metas()[j]).first_key, key@),
    {
        let ghost bytes = self.file.bytes();
        let ghost end = self.block_meta_offset as int;
        let ghost metas = self.metas();
        // The number of blocks whose first key is `<= key`.
        let mut lo: usize = 0;
        let mut hi: usize = self.block_meta.len();
        while lo < hi
            invariant
                metas == self.metas(),
                blocks_ok(bytes, metas, end),
                lo <= hi <= metas.len(),
                forall|j: int| 0 <= j < lo ==> key_le((#[trigger] metas[j]).first_key, key@),
                forall|j: int| hi <= j < metas.len() ==> !key_le((#[trigger] metas[j]).first_key, key@),
            decreases hi - lo,
        {
            let mid = lo + (hi - lo) / 2;
            assert(metas[mid as int].first_key == self.block_meta@[mid as int].first_key@);
            if key_less_eq(self.block_meta[mid].first_key.as_slice(), key) {
                assert forall|j: int| 0 <= j < mid + 1 implies key_le(
                    (#[trigger] metas[j]).first_key,
                    key@,
                ) by {
                    if j < mid {
                        lemma_first_keys_ascend(bytes, metas, end, j, mid as int);
                        lemma_key_le_lt(metas[j].first_key, metas[mid as int].first_key, key@);
                        lemma_key_le_lt(metas[j].first_key, metas[mid as int].first_key, metas[mid as int].first_key);
                        if metas[mid as int].first_key != key@ {
                            lemma_key_lt_transitive(
                                metas[j].first_key,
                                metas[mid as int].first_key,
                                key@,
                            );
                        }
                    }
                }
                lo = mid + 1;
            } else {
                assert forall|j: int| mid <= j < metas.len() implies !key_le(
                    (#[trigger] metas[j]).first_key,
                    key@,
                ) by {
                    if j > mid {
                        lemma_first_keys_ascend(bytes, metas, end, mid as int, j);
                        lemma_key_le_lt(metas[mid as int].first_key, metas[j].first_key, key@);
                        if key_le(metas[j].first_key, key@) {
                            if metas[j].first_key != key@ {
                                lemma_key_lt_transitive(
                                    metas[mid as int].first_key,
                                    metas[j].first_key,
                                    key@,
                                );
                            }
                        }
                    }
                }
                hi = mid;
            }
        }
        if lo == 0 {
            0
        } else {
            lo - 1
        }
    }

    /// The file of the table.
    pub fn file(&self) -> (f: &FileObject)
        ensures
            f.bytes() == self.file_bytes(),
            f.has_data() == self.has_file_data(),
            f.len() == self.size_spec(),
            self.wf() ==> f.wf(),
    {
        &self.file
    }

    /// The number of data blocks.
    pub fn num_of_blocks(&self) -> (n: usize)
        ensures
            n == self.metas().len(),
    {
        self.block_meta.len()
    }

    /// The first key of the table.
    pub fn first_key(&self) -> (k: &[u8])
        ensures
            k@ == self.first_key_spec(),
    {
        self.first_key.as_slice()
    }

    /// The last key of the table.
    pub fn last_key(&self) -> (k: &[u8])
        ensures
            k@ == self.last_key_spec(),
    {
        self.last_key.as_slice()
    }

    /// The size of the table's file.
    pub fn table_size(&self) -> (n: u64)
        ensures
            n == self.size_spec(),
    {
        self.file.size()
    }

    /// The id of the table.
    pub fn sst_id(&self) -> (id: usize)
        ensures
            id == self.id_spec(),
    {
        self.id
    }

    /// The largest timestamp stored in the table.
    pub fn max_ts(&self) -> (ts: u64)
        ensures
            ts == self.max_ts_spec(),
    {
        self.max_ts
    }

    /// Whether the table may hold `key`: false only when the filter rules
    /// the key out, so true for every key that the table holds.
    pub fn may_contain(&self, key: &[u8]) -> (b: bool)
        requires
            self.wf(),
        ensures
            b == self.admits(key@),
            has_key(self.entries(), key@) ==> b,
    {
        proof {
            if has_key(self.entries(), key@) {
                self.lemma_keys_admitted(key@);
            }
        }
        match &self.bloom {
            Some(bloom) => bloom.may_contain_key(key),
            None => true,
        }
    }
}

} // verus!
