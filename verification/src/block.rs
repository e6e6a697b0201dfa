//! Blocks: the smallest unit of reading.
//!
//! A block is a run of entries laid out back to back, each as
//! `key_len | key | value_len | value` with the lengths as little-endian
//! `u16`, and one offset per entry. Encoded, the entries are followed by the
//! offsets and by their count, all little-endian `u16`.

pub mod builder;
pub mod iterator;

use vstd::prelude::*;
use vstd::slice::slice_subrange;
use crate::error::Error;
use crate::key::{key_less, key_lt};
use crate::run::{is_run, Entry};
use crate::wire::{
    bytes_copy_from_slice, bytes_view, get_u16_le, le16, lemma_le16_of_u16_le, lemma_u16_le_of_le16,
    put_u16_le, u16_le,
};

pub use builder::BlockBuilder;
pub use iterator::BlockIterator;

verus! {

/// The length of the key of the entry that starts at `off`.
pub open spec fn key_len_at(data: Seq<u8>, off: int) -> int {
    le16(data, off)
}

/// The key of the entry that starts at `off`.
pub open spec fn key_at(data: Seq<u8>, off: int) -> Seq<u8> {
    data.subrange(off + 2, off + 2 + key_len_at(data, off))
}

/// Where the value of the entry that starts at `off` begins.
pub open spec fn value_start(data: Seq<u8>, off: int) -> int {
    off + 4 + key_len_at(data, off)
}

/// The length of the value of the entry that starts at `off`.
pub open spec fn value_len_at(data: Seq<u8>, off: int) -> int {
    le16(data, off + 2 + key_len_at(data, off))
}

/// Where the entry that starts at `off` ends.
pub open spec fn entry_end(data: Seq<u8>, off: int) -> int {
    value_start(data, off) + value_len_at(data, off)
}

/// The value of the entry that starts at `off`.
pub open spec fn value_at(data: Seq<u8>, off: int) -> Seq<u8> {
    data.subrange(value_start(data, off), entry_end(data, off))
}

/// An entry starts at `off` and lies within `data`.
pub open spec fn entry_fits(data: Seq<u8>, off: int) -> bool {
    &&& 0 <= off
    &&& off + 2 <= data.len()
    &&& value_start(data, off) <= data.len()
    &&& entry_end(data, off) <= data.len()
}

/// The bytes of one entry.
pub open spec fn entry_bytes(key: Seq<u8>, value: Seq<u8>) -> Seq<u8> {
    u16_le(key.len() as u16) + key + u16_le(value.len() as u16) + value
}

/// Where the entry after entry `i` starts, or the end of the data.
pub open spec fn next_offset(data: Seq<u8>, offsets: Seq<u16>, i: int) -> int {
    if i + 1 < offsets.len() {
        offsets[i + 1] as int
    } else {
        data.len() as int
    }
}

/// Entry `i` lies within the data, has a non-empty key and ends where the
/// next one starts.
pub open spec fn entry_ok(data: Seq<u8>, offsets: Seq<u16>, i: int) -> bool {
    &&& entry_fits(data, offsets[i] as int)
    &&& key_len_at(data, offsets[i] as int) > 0
    &&& entry_end(data, offsets[i] as int) == next_offset(data, offsets, i)
}

/// The entries that `data` holds at `offsets`.
pub open spec fn entries_of(data: Seq<u8>, offsets: Seq<u16>) -> Seq<Entry> {
    Seq::new(
        offsets.len(),
        |i: int| (key_at(data, offsets[i] as int), value_at(data, offsets[i] as int)),
    )
}

/// The entries tile `data` exactly, in order, and their keys ascend.
pub open spec fn well_formed(data: Seq<u8>, offsets: Seq<u16>) -> bool {
    &&& offsets.len() <= u16::MAX
    &&& offsets.len() == 0 ==> data.len() == 0
    &&& offsets.len() > 0 ==> offsets[0] == 0
    &&& forall|i: int| 0 <= i < offsets.len() ==> #[trigger] entry_ok(data, offsets, i)
    &&& is_run(entries_of(data, offsets))
}

/// The offsets as bytes, each a little-endian `u16`.
pub open spec fn offsets_bytes(offsets: Seq<u16>) -> Seq<u8>
    decreases offsets.len(),
{
    if offsets.len() == 0 {
        Seq::empty()
    } else {
        offsets_bytes(offsets.drop_last()) + u16_le(offsets.last())
    }
}

/// The encoding of a block: entries, offsets, count.
pub open spec fn encoding(data: Seq<u8>, offsets: Seq<u16>) -> Seq<u8> {
    data + offsets_bytes(offsets) + u16_le(offsets.len() as u16)
}

/// The count that the last two bytes of an encoding give.
pub open spec fn encoded_count(bytes: Seq<u8>) -> int {
    le16(bytes, bytes.len() - 2)
}

/// The last two bytes give a count whose offsets fit before them.
pub open spec fn trailer_fits(bytes: Seq<u8>) -> bool {
    bytes.len() >= 2 && 2 * encoded_count(bytes) + 2 <= bytes.len()
}

/// Where the offsets start in an encoding.
pub open spec fn offsets_start(bytes: Seq<u8>) -> int {
    bytes.len() - 2 - 2 * encoded_count(bytes)
}

/// The entry bytes of an encoding.
pub open spec fn decoded_data(bytes: Seq<u8>) -> Seq<u8> {
    bytes.subrange(0, offsets_start(bytes))
}

/// The offsets of an encoding.
pub open spec fn decoded_offsets(bytes: Seq<u8>) -> Seq<u16> {
    Seq::new(encoded_count(bytes) as nat, |i: int| le16(bytes, offsets_start(bytes) + 2 * i) as u16)
}

/// `bytes` is the encoding of a well-formed block.
pub open spec fn valid_encoding(bytes: Seq<u8>) -> bool {
    trailer_fits(bytes) && well_formed(decoded_data(bytes), decoded_offsets(bytes))
}

/// The offsets take two bytes each, and each can be read back.
pub proof fn lemma_offsets_bytes(offsets: Seq<u16>)
    ensures
        offsets_bytes(offsets).len() == 2 * offsets.len(),
        forall|i: int|
            0 <= i < offsets.len() ==> le16(offsets_bytes(offsets), 2 * i) == #[trigger] offsets[i],
    decreases offsets.len(),
{
    if offsets.len() > 0 {
        let front = offsets.drop_last();
        lemma_offsets_bytes(front);
        let b = offsets_bytes(offsets);
        assert forall|i: int| 0 <= i < offsets.len() implies le16(b, 2 * i)
            == #[trigger] offsets[i] by {
            if i < front.len() {
                assert(le16(offsets_bytes(front), 2 * i) == front[i]);
            }
        }
    }
}

/// Offsets written one after the other are the offsets written at once.
pub proof fn lemma_offsets_bytes_take(offsets: Seq<u16>, i: int)
    requires
        0 <= i < offsets.len(),
    ensures
        offsets_bytes(offsets.take(i + 1)) == offsets_bytes(offsets.take(i)) + u16_le(offsets[i]),
{
    assert(offsets.take(i + 1).drop_last() =~= offsets.take(i));
}

/// Decoding the encoding of a block gives its entry bytes and offsets back.
pub proof fn lemma_decode_encoding(data: Seq<u8>, offsets: Seq<u16>)
    requires
        offsets.len() <= u16::MAX,
    ensures
        trailer_fits(encoding(data, offsets)),
        decoded_data(encoding(data, offsets)) == data,
        decoded_offsets(encoding(data, offsets)) == offsets,
{
    let bytes = encoding(data, offsets);
    let n = offsets.len() as u16;
    lemma_offsets_bytes(offsets);
    assert(bytes.subrange(bytes.len() - 2, bytes.len() as int) =~= u16_le(n));
    lemma_le16_of_u16_le(bytes, bytes.len() - 2, n);
    assert(decoded_data(bytes) =~= data);
    let ob = offsets_bytes(offsets);
    assert forall|i: int| 0 <= i < offsets.len() implies decoded_offsets(bytes)[i] == offsets[i] by {
        assert(le16(ob, 2 * i) == offsets[i]);
        assert(bytes[data.len() + 2 * i] == ob[2 * i]);
        assert(bytes[data.len() + 2 * i + 1] == ob[2 * i + 1]);
    }
    assert(decoded_offsets(bytes) =~= offsets);
}

/// Encoding what was decoded gives the bytes back.
pub proof fn lemma_encoding_decoded(bytes: Seq<u8>)
    requires
        trailer_fits(bytes),
    ensures
        0 <= encoded_count(bytes) <= u16::MAX,
        encoding(decoded_data(bytes), decoded_offsets(bytes)) == bytes,
{
    let offsets = decoded_offsets(bytes);
    let start = offsets_start(bytes);
    lemma_u16_le_of_le16(bytes, bytes.len() - 2);
    lemma_offsets_bytes(offsets);
    let ob = offsets_bytes(offsets);
    assert forall|j: int| 0 <= j < ob.len() implies ob[j] == bytes[start + j] by {
        let i = j / 2;
        assert(le16(ob, 2 * i) == offsets[i]);
        assert(offsets[i] == le16(bytes, start + 2 * i) as u16);
        lemma_u16_le_of_le16(bytes, start + 2 * i);
        lemma_u16_le_of_le16(ob, 2 * i);
        assert(ob.subrange(2 * i, 2 * i + 2) == bytes.subrange(start + 2 * i, start + 2 * i + 2));
        assert(ob.subrange(2 * i, 2 * i + 2)[j - 2 * i] == ob[j]);
        assert(bytes.subrange(start + 2 * i, start + 2 * i + 2)[j - 2 * i] == bytes[start + j]);
    }
    assert(encoding(decoded_data(bytes), offsets) =~= bytes);
}

/// Bytes added behind an entry leave it as it was.
pub proof fn lemma_entry_prefix(data: Seq<u8>, more: Seq<u8>, off: int)
    requires
        entry_fits(data, off),
    ensures
        entry_fits(data + more, off),
        key_len_at(data + more, off) == key_len_at(data, off),
        key_at(data + more, off) == key_at(data, off),
        value_start(data + more, off) == value_start(data, off),
        entry_end(data + more, off) == entry_end(data, off),
        value_at(data + more, off) == value_at(data, off),
{
    let d = data + more;
    assert(d[off] == data[off] && d[off + 1] == data[off + 1]);
    let v = off + 2 + key_len_at(data, off);
    assert(d[v] == data[v] && d[v + 1] == data[v + 1]);
    assert(key_at(d, off) =~= key_at(data, off));
    assert(value_at(d, off) =~= value_at(data, off));
}

/// An entry written at the end of `data` is read back as it was written.
pub proof fn lemma_entry_appended(data: Seq<u8>, key: Seq<u8>, value: Seq<u8>)
    requires
        key.len() <= u16::MAX,
        value.len() <= u16::MAX,
    ensures
        entry_fits(data + entry_bytes(key, value), data.len() as int),
        key_at(data + entry_bytes(key, value), data.len() as int) == key,
        value_at(data + entry_bytes(key, value), data.len() as int) == value,
        entry_end(data + entry_bytes(key, value), data.len() as int) == data.len() + 4 + key.len()
            + value.len(),
        (data + entry_bytes(key, value)).len() == data.len() + 4 + key.len() + value.len(),
{
    let eb = entry_bytes(key, value);
    let d = data + eb;
    let off = data.len() as int;
    assert(d.subrange(off, off + 2) =~= u16_le(key.len() as u16));
    lemma_le16_of_u16_le(d, off, key.len() as u16);
    let v = off + 2 + key.len();
    assert(d.subrange(v, v + 2) =~= u16_le(value.len() as u16));
    lemma_le16_of_u16_le(d, v, value.len() as u16);
    assert(key_at(d, off) =~= key);
    assert(value_at(d, off) =~= value);
}

/// Parts an encoding into its entry bytes and its offsets.
fn split_encoding(data: &[u8]) -> (r: (&[u8], Vec<u16>))
    requires
        trailer_fits(data@),
    ensures
        r.0@ == decoded_data(data@),
        r.1@ == decoded_offsets(data@),
{
    let len = data.len();
    let n = get_u16_le(slice_subrange(data, len - 2, len)) as usize;
    let start = len - 2 - 2 * n;
    let mut offsets: Vec<u16> = Vec::new();
    let mut i: usize = 0;
    while i < n
        invariant
            len == data@.len(),
            trailer_fits(data@),
            n == encoded_count(data@),
            start == offsets_start(data@),
            i <= n,
            offsets@ == decoded_offsets(data@).take(i as int),
        decreases n - i,
    {
        let off = get_u16_le(slice_subrange(data, start + 2 * i, start + 2 * i + 2));
        offsets.push(off);
        assert(offsets@ =~= decoded_offsets(data@).take(i + 1));
        i += 1;
    }
    assert(decoded_offsets(data@).take(n as int) =~= decoded_offsets(data@));
    (slice_subrange(data, 0, start), offsets)
}

/// The lengths of the key and the value of the entry that starts at `off`,
/// if an entry fits there.
fn entry_lengths(body: &[u8], off: usize) -> (r: Option<(usize, usize)>)
    ensures
        r is Some <==> entry_fits(body@, off as int),
        r matches Some((k, v)) ==> k == key_len_at(body@, off as int) && v == value_len_at(
            body@,
            off as int,
        ),
{
    let len = body.len();
    if len < 2 || off > len - 2 {
        return None;
    }
    let key_len = get_u16_le(slice_subrange(body, off, off + 2)) as usize;
    if len - off - 2 < key_len || len - off - 2 - key_len < 2 {
        return None;
    }
    let vpos = off + 2 + key_len;
    let value_len = get_u16_le(slice_subrange(body, vpos, vpos + 2)) as usize;
    if len - vpos - 2 < value_len {
        return None;
    }
    Some((key_len, value_len))
}

/// Keys that ascend from each entry to the next ascend throughout.
pub proof fn lemma_adjacent_ascending(es: Seq<Entry>, i: int, j: int)
    requires
        forall|a: int| 0 <= a < es.len() - 1 ==> key_lt(#[trigger] es[a].0, es[a + 1].0),
        0 <= i < j < es.len(),
    ensures
        key_lt(es[i].0, es[j].0),
    decreases j - i,
{
    if i + 1 < j {
        lemma_adjacent_ascending(es, i, j - 1);
        assert(key_lt(es[j - 1].0, es[j - 1 + 1].0));
        crate::key::lemma_key_lt_transitive(es[i].0, es[j - 1].0, es[j].0);
    } else {
        assert(key_lt(es[i].0, es[i + 1].0));
    }
}

/// Whether the entries at `offsets` tile `body` and form a run.
fn check_well_formed(body: &[u8], offsets: &Vec<u16>) -> (ok: bool)
    requires
        offsets@.len() <= u16::MAX,
    ensures
        ok == well_formed(body@, offsets@),
{
    let n = offsets.len();
    if n == 0 {
        return body.len() == 0;
    }
    let len = body.len();
    let ghost es = entries_of(body@, offsets@);
    let mut i: usize = 0;
    let mut at: usize = 0;
    let mut prev_key: usize = 0;
    let mut prev_len: usize = 0;
    while i < n
        invariant
            n == offsets@.len(),
            len == body@.len(),
            0 < n <= u16::MAX,
            es == entries_of(body@, offsets@),
            i <= n,
            at <= body@.len(),
            i == 0 ==> at == 0,
            i > 0 ==> offsets@[0] == 0,
            i > 0 ==> at == entry_end(body@, offsets@[i - 1] as int),
            i > 0 ==> prev_key + prev_len <= body@.len() && body@.subrange(
                prev_key as int,
                prev_key + prev_len,
            ) == es[i - 1].0,
            forall|j: int| 0 <= j < i ==> entry_fits(body@, #[trigger] offsets@[j] as int),
            forall|j: int| 0 <= j < i ==> key_len_at(body@, #[trigger] offsets@[j] as int) > 0,
            forall|j: int|
                0 <= j < i - 1 ==> entry_end(body@, #[trigger] offsets@[j] as int) == offsets@[j
                    + 1],
            forall|j: int| 0 <= j < i - 1 ==> key_lt(#[trigger] es[j].0, es[j + 1].0),
        decreases n - i,
    {
        let off = offsets[i] as usize;
        if off != at {
            proof {
                if i > 0 {
                    assert(!entry_ok(body@, offsets@, i - 1));
                }
            }
            return false;
        }
        let (key_len, value_len) = match entry_lengths(body, off) {
            Some(lengths) => lengths,
            None => {
                assert(!entry_ok(body@, offsets@, i as int));
                return false;
            },
        };
        if key_len == 0 {
            assert(!entry_ok(body@, offsets@, i as int));
            return false;
        }
        let key = slice_subrange(body, off + 2, off + 2 + key_len);
        assert(key@ == es[i as int].0);
        if i > 0 {
            let prev = slice_subrange(body, prev_key, prev_key + prev_len);
            if !key_less(prev, key) {
                proof {
                    if is_run(es) {
                        assert(key_lt(es[i - 1].0, es[i as int].0));
                    }
                }
                return false;
            }
        }
        prev_key = off + 2;
        prev_len = key_len;
        at = off + 4 + key_len + value_len;
        i += 1;
    }
    proof {
        if at == body@.len() {
            assert forall|j: int| 0 <= j < offsets@.len() implies #[trigger] entry_ok(
                body@,
                offsets@,
                j,
            ) by {
                assert(entry_fits(body@, offsets@[j] as int));
                assert(key_len_at(body@, offsets@[j] as int) > 0);
                if j + 1 < n {
                    assert(entry_end(body@, offsets@[j] as int) == offsets@[j + 1]);
                }
            }
            assert forall|a: int, b: int| 0 <= a < b < es.len() implies key_lt(
                #[trigger] es[a].0,
                #[trigger] es[b].0,
            ) by {
                lemma_adjacent_ascending(es, a, b);
            }
            assert forall|j: int| 0 <= j < es.len() implies crate::run::entry_storable(
                #[trigger] es[j],
            ) by {
                assert(entry_fits(body@, offsets@[j] as int));
                assert(key_len_at(body@, offsets@[j] as int) > 0);
            }
        } else {
            assert(!entry_ok(body@, offsets@, n - 1));
        }
    }
    at == len
}

/// A block: entry bytes and the offset at which each entry starts.
#[derive(Debug)]
pub struct Block {
    pub(crate) data: Vec<u8>,
    pub(crate) offsets: Vec<u16>,
}

impl Block {
    /// The block's invariant: the entries tile the data and form a run.
    pub open(crate) spec fn wf(&self) -> bool {
        well_formed(self.data@, self.offsets@)
    }

    /// The entry bytes.
    pub open(crate) spec fn data_view(&self) -> Seq<u8> {
        self.data@
    }

    /// The offset of each entry.
    pub open(crate) spec fn offsets_view(&self) -> Seq<u16> {
        self.offsets@
    }

    /// The entries of the block, in order.
    pub open(crate) spec fn entries(&self) -> Seq<Entry> {
        entries_of(self.data@, self.offsets@)
    }

    /// The bytes that `encode` gives.
    pub open(crate) spec fn encoded(&self) -> Seq<u8> {
        encoding(self.data@, self.offsets@)
    }

    /// A block without entries.
    pub fn empty() -> (r: Self)
        ensures
            r.wf(),
            r.entries().len() == 0,
    {
        Block { data: Vec::new(), offsets: Vec::new() }
    }

    /// The number of entries.
    pub fn num_entries(&self) -> (n: usize)
        ensures
            n == self.entries().len(),
    {
        self.offsets.len()
    }

    /// The key of entry `i`.
    pub fn key_at_index(&self, i: usize) -> (k: &[u8])
        requires
            self.wf(),
            i < self.entries().len(),
        ensures
            k@ == self.entries()[i as int].0,
            0 < k@.len() <= u16::MAX,
    {
        assert(entry_ok(self.data@, self.offsets@, i as int));
        assert(crate::run::entry_storable(self.entries()[i as int]));
        let data = self.data.as_slice();
        let offset = self.offsets[i] as usize;
        let key_len = get_u16_le(slice_subrange(data, offset, offset + 2)) as usize;
        slice_subrange(data, offset + 2, offset + 2 + key_len)
    }

    /// The value of entry `i`.
    pub fn value_at_index(&self, i: usize) -> (v: &[u8])
        requires
            self.wf(),
            i < self.entries().len(),
        ensures
            v@ == self.entries()[i as int].1,
            v@.len() <= u16::MAX,
    {
        assert(entry_ok(self.data@, self.offsets@, i as int));
        assert(crate::run::entry_storable(self.entries()[i as int]));
        let data = self.data.as_slice();
        let offset = self.offsets[i] as usize;
        let key_len = get_u16_le(slice_subrange(data, offset, offset + 2)) as usize;
        let at = offset + 2 + key_len;
        let value_len = get_u16_le(slice_subrange(data, at, at + 2)) as usize;
        slice_subrange(data, at + 2, at + 2 + value_len)
    }

    /// Encodes the block: the entry bytes, then each offset and the number of
    /// entries as little-endian `u16`.
    pub fn encode(&self) -> (r: bytes::Bytes)
        requires
            self.wf(),
        ensures
            bytes_view(r) == self.encoded(),
            valid_encoding(bytes_view(r)),
    {
        let mut data = self.data.clone();
        let n = self.offsets.len();
        let mut i: usize = 0;
        while i < n
            invariant
                n == self.offsets.len(),
                i <= n,
                data@ == self.data@ + offsets_bytes(self.offsets@.take(i as int)),
            decreases n - i,
        {
            proof {
                lemma_offsets_bytes_take(self.offsets@, i as int);
            }
            put_u16_le(&mut data, self.offsets[i]);
            i += 1;
        }
        assert(self.offsets@.take(n as int) =~= self.offsets@);
        put_u16_le(&mut data, n as u16);
        proof {
            lemma_decode_encoding(self.data@, self.offsets@);
        }
        bytes_copy_from_slice(data.as_slice())
    }

    /// Whether `data` is the encoding of a well-formed block.
    pub fn is_valid_encoding(data: &[u8]) -> (ok: bool)
        ensures
            ok == valid_encoding(data@),
    {
        let len = data.len();
        if len < 2 {
            return false;
        }
        let n = get_u16_le(slice_subrange(data, len - 2, len)) as usize;
        if 2 * n + 2 > len {
            return false;
        }
        let (body, offsets) = split_encoding(data);
        check_well_formed(body, &offsets)
    }

    /// Decodes a block from its encoding.
    pub fn decode(data: &[u8]) -> (r: Self)
        requires
            valid_encoding(data@),
        ensures
            r.wf(),
            r.data_view() == decoded_data(data@),
            r.offsets_view() == decoded_offsets(data@),
            r.encoded() == data@,
    {
        let (body, offsets) = split_encoding(data);
        proof {
            lemma_encoding_decoded(data@);
        }
        Block { data: vstd::slice::slice_to_vec(body), offsets }
    }

    /// Decodes a block from bytes that may be anything: `Corruption` unless
    /// they are the encoding of a well-formed block.
    pub fn try_decode(data: &[u8]) -> (r: Result<Self, Error>)
        ensures
            r is Ok <==> valid_encoding(data@),
            r matches Ok(b) ==> b.wf() && b.encoded() == data@ && b.data_view() == decoded_data(
                data@,
            ) && b.offsets_view() == decoded_offsets(data@),
            r matches Err(e) ==> e == Error::Corruption,
    {
        if Self::is_valid_encoding(data) {
            Ok(Self::decode(data))
        } else {
            Err(Error::Corruption)
        }
    }
}

/// The size that an entry takes in an encoded block: its two lengths, its
/// key, its value and its offset.
pub open spec fn entry_len(e: Entry) -> int {
    (e.0.len() + e.1.len() + 6) as int
}

/// The size of the encoding of a block that holds the entries `es`: two
/// bytes for the count, and the size of each entry.
pub open spec fn block_len(es: Seq<Entry>) -> int
    decreases es.len(),
{
    if es.len() == 0 {
        2
    } else {
        block_len(es.drop_last()) + entry_len(es.last())
    }
}

/// The bytes of the entries `es`, one behind the other.
pub open spec fn body_of(es: Seq<Entry>) -> Seq<u8>
    decreases es.len(),
{
    if es.len() == 0 {
        Seq::empty()
    } else {
        body_of(es.drop_last()) + entry_bytes(es.last().0, es.last().1)
    }
}

/// Where each of the entries `es` starts among their bytes.
pub open spec fn offsets_of(es: Seq<Entry>) -> Seq<u16>
    decreases es.len(),
{
    if es.len() == 0 {
        Seq::empty()
    } else {
        offsets_of(es.drop_last()).push(body_of(es.drop_last()).len() as u16)
    }
}

/// The encoding of the block that holds the entries `es`: the entries,
/// the offset of each, and their number.
pub open spec fn block_image(es: Seq<Entry>) -> Seq<u8> {
    encoding(body_of(es), offsets_of(es))
}

/// The bytes and offsets with one more entry.
pub proof fn lemma_body_push(es: Seq<Entry>, e: Entry)
    ensures
        body_of(es.push(e)) == body_of(es) + entry_bytes(e.0, e.1),
        offsets_of(es.push(e)) == offsets_of(es).push(body_of(es).len() as u16),
{
    assert(es.push(e).drop_last() =~= es);
}

/// One more entry adds its size.
pub proof fn lemma_block_len_push(es: Seq<Entry>, e: Entry)
    ensures
        block_len(es.push(e)) == block_len(es) + entry_len(e),
{
    assert(es.push(e).drop_last() =~= es);
}

/// Decoding an encoded block gives the same block: the same entry bytes, the
/// same offsets and so the same entries.
pub proof fn lemma_block_round_trip(b: Block)
    requires
        b.wf(),
    ensures
        valid_encoding(b.encoded()),
        decoded_data(b.encoded()) == b.data_view(),
        decoded_offsets(b.encoded()) == b.offsets_view(),
        entries_of(decoded_data(b.encoded()), decoded_offsets(b.encoded())) == b.entries(),
{
    lemma_decode_encoding(b.data@, b.offsets@);
}

} // verus!
