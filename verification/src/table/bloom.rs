//! Bloom filters over key hashes.
//!
//! A filter is an array of bits and a number of probes. A hash is inserted by
//! setting one bit per probe; a hash is admitted when all its probe bits are
//! set. Encoded, the bit array is followed by the number of probes.

use vstd::prelude::*;
use vstd::slice::slice_subrange;
use crate::error::Error;
use crate::wire::{get_u32_le, le32, put_slice};

verus! {

/// The bits spent per key for a false-positive rate of 0.01: the least whole
/// number not below `-ln(0.01) / ln(2)^2`.
pub const BITS_PER_KEY: usize = 10;

/// The largest bit array, in bytes: its bit count must fit a `u32`.
pub const MAX_FILTER_BYTES: usize = 0x1000_0000;

/// The hash of a key, as `farmhash::hash32` computes it.
pub uninterp spec fn farmhash32(key: Seq<u8>) -> u32;

/// The four bytes of `s` at `i` as a number, low byte first.
pub open spec fn word_at(s: Seq<u8>, i: int) -> int {
    le32(s, i)
}

/// The keys that `farmhash::hash32` hashes without overflow in its unchecked
/// additions. For 5 to 12 bytes it adds the length, five times the length
/// and 9 to words of the key; for 13 to 24 bytes it adds the length to a
/// word of the key multiplied, wrapping, by a constant. Other lengths use
/// wrapping arithmetic throughout.
pub open spec fn hash_defined(key: Seq<u8>) -> bool {
    let n = key.len() as int;
    if 5 <= n <= 12 {
        &&& n + word_at(key, 0) <= u32::MAX
        &&& 5 * n + word_at(key, n - 4) <= u32::MAX
        &&& 9 + word_at(key, if n >= 8 { 4 } else { 0 }) <= u32::MAX
    } else if 13 <= n <= 24 {
        (word_at(key, n / 2) * 0xcc9e2d51) % 0x1_0000_0000 + n <= u32::MAX
    } else {
        true
    }
}

/// Hashes `key` by `farmhash::hash32`. The hash is a function of the bytes
/// alone; on the keys that the precondition leaves out the call overflows
/// where overflow is checked.
#[verifier::external_body]
fn hash32(key: &[u8]) -> (h: u32)
    requires
        hash_defined(key@),
    ensures
        h == farmhash32(key@),
{
    farmhash::hash32(key)
}

/// Whether `key` can be hashed.
fn hash_is_defined(key: &[u8]) -> (b: bool)
    ensures
        b == hash_defined(key@),
{
    let n = key.len();
    if 5 <= n && n <= 12 {
        let first = get_u32_le(slice_subrange(key, 0, 4)) as u64;
        let last = get_u32_le(slice_subrange(key, n - 4, n)) as u64;
        let at: usize = if n >= 8 { 4 } else { 0 };
        let mid = get_u32_le(slice_subrange(key, at, at + 4)) as u64;
        assert(first == word_at(key@, 0));
        assert(last == word_at(key@, n - 4));
        assert(mid == word_at(key@, at as int));
        n as u64 + first <= 0xFFFF_FFFF && 5 * (n as u64) + last <= 0xFFFF_FFFF && 9 + mid
            <= 0xFFFF_FFFF
    } else if 13 <= n && n <= 24 {
        let at = n / 2;
        let word = get_u32_le(slice_subrange(key, at, at + 4)) as u64;
        assert(word == word_at(key@, at as int));
        (word * 0xcc9e2d51u64) % 0x1_0000_0000u64 + n as u64 <= 0xFFFF_FFFF
    } else {
        true
    }
}

/// The hash of `key`, or `None` for a key that cannot be hashed.
pub fn key_hash(key: &[u8]) -> (r: Option<u32>)
    ensures
        r == if hash_defined(key@) {
            Some(farmhash32(key@))
        } else {
            None::<u32>
        },
{
    if hash_is_defined(key) {
        Some(hash32(key))
    } else {
        None
    }
}

/// The step from one probe of a hash to the next.
pub open spec fn probe_step(h: u32) -> u32 {
    (h >> 17) | (h << 15)
}

/// Whether bit `pos` of `filter` is set.
pub open spec fn bit_at(filter: Seq<u8>, pos: int) -> bool {
    filter[pos / 8] & (1u8 << ((pos % 8) as u8)) != 0
}

/// `filter` with bit `pos` set.
pub open spec fn with_bit(filter: Seq<u8>, pos: int) -> Seq<u8> {
    filter.update(pos / 8, filter[pos / 8] | (1u8 << ((pos % 8) as u8)))
}

/// The bit that a probe with hash `h` falls on.
pub open spec fn probe_pos(filter_len: nat, h: u32) -> int {
    (h as int) % (8 * filter_len as int)
}

/// Whether the bits of `k` probes that start at `h` are all set.
pub open spec fn probes_hit(filter: Seq<u8>, h: u32, step: u32, k: nat) -> bool
    decreases k,
{
    k == 0 || (bit_at(filter, probe_pos(filter.len(), h)) && probes_hit(
        filter,
        h.wrapping_add(step),
        step,
        (k - 1) as nat,
    ))
}

/// `filter` with the bits of `k` probes that start at `h` set.
pub open spec fn insert_probes(filter: Seq<u8>, h: u32, step: u32, k: nat) -> Seq<u8>
    decreases k,
{
    if k == 0 {
        filter
    } else {
        insert_probes(
            with_bit(filter, probe_pos(filter.len(), h)),
            h.wrapping_add(step),
            step,
            (k - 1) as nat,
        )
    }
}

/// `filter` with every hash of `hashes` inserted.
pub open spec fn insert_hashes(filter: Seq<u8>, hashes: Seq<u32>, k: nat) -> Seq<u8>
    decreases hashes.len(),
{
    if hashes.len() == 0 {
        filter
    } else {
        insert_hashes(
            insert_probes(filter, hashes[0], probe_step(hashes[0]), k),
            hashes.skip(1),
            k,
        )
    }
}

/// Whether a filter admits a hash: it does when it holds no bits or has more
/// than 30 probes, and else when all probe bits of the hash are set.
pub open spec fn admits(filter: Seq<u8>, k: u8, h: u32) -> bool {
    k > 30 || filter.len() == 0 || probes_hit(filter, h, probe_step(h), k as nat)
}

/// Every bit set in `a` is set in `b`.
pub open spec fn grows(a: Seq<u8>, b: Seq<u8>) -> bool {
    &&& a.len() == b.len()
    &&& forall|q: int| 0 <= q < 8 * a.len() && #[trigger] bit_at(a, q) ==> bit_at(b, q)
}

/// The number of probes for `bits_per_key` bits per key: 0.69 times the
/// bits, rounded down, and between 1 and 30.
pub open spec fn probe_count(bits_per_key: usize) -> u8 {
    if bits_per_key >= 44 {
        30u8
    } else if bits_per_key < 2 {
        1u8
    } else {
        (bits_per_key * 69 / 100) as u8
    }
}

/// The length in bytes of the bit array for `n` keys: at least 64 bits, at
/// most `MAX_FILTER_BYTES` bytes.
pub open spec fn filter_len(n: usize, bits_per_key: usize) -> usize {
    if n * bits_per_key <= 64 {
        8usize
    } else if n * bits_per_key + 7 >= 8 * MAX_FILTER_BYTES {
        MAX_FILTER_BYTES
    } else {
        ((n * bits_per_key + 7) / 8) as usize
    }
}

/// The encoding of the filter of `bits_per_key` bits per key that holds
/// the hashes `hashes`: a bit array of zeros of the length for so many
/// keys, in which the bits of each hash are set, and the number of probes.
pub open spec fn filter_image(hashes: Seq<u32>, bits_per_key: usize) -> Seq<u8> {
    insert_hashes(
        Seq::new(filter_len(hashes.len() as usize, bits_per_key) as nat, |i: int| 0u8),
        hashes,
        probe_count(bits_per_key) as nat,
    ).push(probe_count(bits_per_key))
}

proof fn lemma_mask(b: u8, m: u8, q: u8)
    requires
        m < 8,
        q < 8,
    ensures
        (b | (1u8 << m)) & (1u8 << m) != 0,
        b & (1u8 << q) != 0 ==> (b | (1u8 << m)) & (1u8 << q) != 0,
{
    assert((b | (1u8 << m)) & (1u8 << m) != 0) by (bit_vector)
        requires
            m < 8,
    ;
    assert(b & (1u8 << q) != 0 ==> (b | (1u8 << m)) & (1u8 << q) != 0) by (bit_vector)
        requires
            m < 8,
            q < 8,
    ;
}

/// Setting a bit sets it and clears none.
pub proof fn lemma_with_bit(filter: Seq<u8>, pos: int)
    requires
        0 <= pos < 8 * filter.len(),
    ensures
        bit_at(with_bit(filter, pos), pos),
        grows(filter, with_bit(filter, pos)),
{
    let f = with_bit(filter, pos);
    lemma_mask(filter[pos / 8], (pos % 8) as u8, (pos % 8) as u8);
    assert forall|q: int| 0 <= q < 8 * filter.len() && #[trigger] bit_at(filter, q) implies bit_at(
        f,
        q,
    ) by {
        if q / 8 == pos / 8 {
            lemma_mask(filter[pos / 8], (pos % 8) as u8, (q % 8) as u8);
        }
    }
}

/// Bits that are set stay set as a filter grows.
pub proof fn lemma_probes_hit_grows(a: Seq<u8>, b: Seq<u8>, h: u32, step: u32, k: nat)
    requires
        a.len() > 0,
        grows(a, b),
        probes_hit(a, h, step, k),
    ensures
        probes_hit(b, h, step, k),
    decreases k,
{
    if k > 0 {
        assert(bit_at(a, probe_pos(a.len(), h)));
        lemma_probes_hit_grows(a, b, h.wrapping_add(step), step, (k - 1) as nat);
    }
}

/// Inserting probes sets their bits and clears none.
pub proof fn lemma_insert_probes(filter: Seq<u8>, h: u32, step: u32, k: nat)
    requires
        filter.len() > 0,
    ensures
        grows(filter, insert_probes(filter, h, step, k)),
        probes_hit(insert_probes(filter, h, step, k), h, step, k),
    decreases k,
{
    if k > 0 {
        let p = probe_pos(filter.len(), h);
        let f1 = with_bit(filter, p);
        lemma_with_bit(filter, p);
        lemma_insert_probes(f1, h.wrapping_add(step), step, (k - 1) as nat);
        let r = insert_probes(filter, h, step, k);
        assert(bit_at(f1, p));
        assert forall|q: int| 0 <= q < 8 * filter.len() && #[trigger] bit_at(filter, q) implies bit_at(
            r,
            q,
        ) by {
            assert(bit_at(f1, q));
        }
    }
}

/// Inserting hashes clears no bit, and every inserted hash is then admitted.
pub proof fn lemma_insert_hashes(filter: Seq<u8>, hashes: Seq<u32>, k: nat)
    requires
        filter.len() > 0,
    ensures
        grows(filter, insert_hashes(filter, hashes, k)),
        forall|i: int|
            0 <= i < hashes.len() ==> probes_hit(
                insert_hashes(filter, hashes, k),
                #[trigger] hashes[i],
                probe_step(hashes[i]),
                k,
            ),
    decreases hashes.len(),
{
    if hashes.len() > 0 {
        let f1 = insert_probes(filter, hashes[0], probe_step(hashes[0]), k);
        let rest = hashes.skip(1);
        let r = insert_hashes(filter, hashes, k);
        lemma_insert_probes(filter, hashes[0], probe_step(hashes[0]), k);
        lemma_insert_hashes(f1, rest, k);
        assert forall|q: int| 0 <= q < 8 * filter.len() && #[trigger] bit_at(filter, q) implies bit_at(
            r,
            q,
        ) by {
            assert(bit_at(f1, q));
        }
        assert forall|i: int| 0 <= i < hashes.len() implies probes_hit(
            r,
            #[trigger] hashes[i],
            probe_step(hashes[i]),
            k,
        ) by {
            if i == 0 {
                lemma_probes_hit_grows(f1, r, hashes[0], probe_step(hashes[0]), k);
            } else {
                assert(rest[i - 1] == hashes[i]);
            }
        }
    }
}

/// A Bloom filter.
#[derive(Debug)]
pub struct Bloom {
    /// The bit array.
    pub(crate) filter: Vec<u8>,
    /// The number of probes per hash.
    pub(crate) k: u8,
}

impl Bloom {
    /// The filter's invariant: the bit count fits a `u32`.
    pub open(crate) spec fn wf(&self) -> bool {
        self.filter@.len() <= MAX_FILTER_BYTES
    }

    /// The bit array.
    pub open(crate) spec fn filter_view(&self) -> Seq<u8> {
        self.filter@
    }

    /// The number of probes per hash.
    pub open(crate) spec fn probes(&self) -> u8 {
        self.k
    }

    /// Whether the filter admits the hash `h`.
    pub open spec fn admits_hash(&self, h: u32) -> bool {
        admits(self.filter_view(), self.probes(), h)
    }

    /// Whether the filter admits `key`: it admits every key that cannot be
    /// hashed, and else goes by the hash.
    pub open spec fn admits_key(&self, key: Seq<u8>) -> bool {
        hash_defined(key) ==> self.admits_hash(farmhash32(key))
    }

    /// The encoding: the bit array, then the number of probes.
    pub open spec fn encoded(&self) -> Seq<u8> {
        self.filter_view().push(self.probes())
    }

    /// Decodes a filter: `Corruption` for no bytes or too many.
    pub fn decode(buf: &[u8]) -> (r: Result<Bloom, Error>)
        ensures
            r is Ok <==> 0 < buf@.len() <= MAX_FILTER_BYTES + 1,
            r matches Ok(b) ==> b.wf() && b.encoded() == buf@,
            r matches Err(e) ==> e == Error::Corruption,
    {
        let len = buf.len();
        if len == 0 || len - 1 > MAX_FILTER_BYTES {
            return Err(Error::Corruption);
        }
        let filter = vstd::slice::slice_to_vec(slice_subrange(buf, 0, len - 1));
        let k = buf[len - 1];
        assert(filter@.push(k) =~= buf@);
        Ok(Bloom { filter, k })
    }

    /// Appends the encoding of the filter to `buf`.
    pub fn encode(&self, buf: &mut Vec<u8>)
        ensures
            final(buf)@ == old(buf)@ + self.encoded(),
    {
        put_slice(buf, self.filter.as_slice());
        buf.push(self.k);
        assert(buf@ =~= old(buf)@ + self.encoded());
    }

    /// Builds a filter of `bits_per_key` bits per key that holds `keys`.
    pub fn build_from_key_hashes(keys: &[u32], bits_per_key: usize) -> (r: Bloom)
        ensures
            r.wf(),
            r.encoded() == filter_image(keys@, bits_per_key),
            r.probes() == probe_count(bits_per_key),
            r.filter_view() == insert_hashes(
                Seq::new(filter_len(keys.len(), bits_per_key) as nat, |i: int| 0u8),
                keys@,
                probe_count(bits_per_key) as nat,
            ),
            forall|i: int| 0 <= i < keys@.len() ==> r.admits_hash(#[trigger] keys@[i]),
    {
        let k: u8 = if bits_per_key >= 44 {
            30
        } else if bits_per_key < 2 {
            1
        } else {
            (bits_per_key * 69 / 100) as u8
        };
        let nbytes: usize = match keys.len().checked_mul(bits_per_key) {
            Some(bits) => if bits <= 64 {
                8
            } else if bits >= 8 * MAX_FILTER_BYTES - 7 {
                MAX_FILTER_BYTES
            } else {
                (bits + 7) / 8
            },
            None => MAX_FILTER_BYTES,
        };
        assert(nbytes == filter_len(keys.len(), bits_per_key));
        let nbits: usize = nbytes * 8;
        let mut filter: Vec<u8> = vec![0u8; nbytes];
        let ghost zeros = Seq::new(nbytes as nat, |i: int| 0u8);
        assert(filter@ =~= zeros);
        let ghost goal = insert_hashes(zeros, keys@, k as nat);
        assert(keys@.skip(0) =~= keys@);
        let mut i: usize = 0;
        while i < keys.len()
            invariant
                i <= keys@.len(),
                0 < nbytes <= MAX_FILTER_BYTES,
                nbits == nbytes * 8,
                filter@.len() == nbytes,
                insert_hashes(filter@, keys@.skip(i as int), k as nat) == goal,
            decreases keys@.len() - i,
        {
            let mut h = keys[i];
            let step = (h >> 17) | (h << 15);
            let ghost start = filter@;
            let ghost after = insert_probes(start, h, step, k as nat);
            let mut j: u8 = 0;
            while j < k
                invariant
                    j <= k,
                    0 < nbytes <= MAX_FILTER_BYTES,
                    nbits == nbytes * 8,
                    filter@.len() == nbytes,
                    insert_probes(filter@, h, step, (k - j) as nat) == after,
                decreases k - j,
            {
                let pos = (h as usize) % nbits;
                let at = pos / 8;
                let mask: u8 = 1u8 << ((pos % 8) as u8);
                let byte = filter[at];
                filter[at] = byte | mask;
                h = h.wrapping_add(step);
                j += 1;
            }
            assert(keys@.skip(i as int).skip(1) =~= keys@.skip(i + 1));
            i += 1;
        }
        proof {
            lemma_insert_hashes(zeros, keys@, k as nat);
        }
        Bloom { filter, k }
    }

    /// Whether the filter may hold the hash `h`.
    pub fn may_contain(&self, h: u32) -> (b: bool)
        requires
            self.wf(),
        ensures
            b == self.admits_hash(h),
    {
        if self.k > 30 || self.filter.len() == 0 {
            return true;
        }
        let nbits: usize = self.filter.len() * 8;
        let step = (h >> 17) | (h << 15);
        let mut cur = h;
        let mut j: u8 = 0;
        while j < self.k
            invariant
                j <= self.k,
                self.k <= 30,
                step == probe_step(h),
                0 < self.filter@.len() <= MAX_FILTER_BYTES,
                nbits == self.filter@.len() * 8,
                probes_hit(self.filter@, h, step, self.k as nat) == probes_hit(
                    self.filter@,
                    cur,
                    step,
                    (self.k - j) as nat,
                ),
            decreases self.k - j,
        {
            let pos = (cur as usize) % nbits;
            let byte = self.filter[pos / 8];
            let mask: u8 = 1u8 << ((pos % 8) as u8);
            assert(bit_at(self.filter@, probe_pos(self.filter@.len(), cur)) == (byte & mask != 0));
            if byte & mask == 0 {
                assert(!probes_hit(self.filter@, cur, step, (self.k - j) as nat));
                return false;
            }
            cur = cur.wrapping_add(step);
            j += 1;
        }
        true
    }

    /// Whether the filter may hold `key`: true for a key that cannot be
    /// hashed.
    pub fn may_contain_key(&self, key: &[u8]) -> (b: bool)
        requires
            self.wf(),
        ensures
            b == self.admits_key(key@),
    {
        match key_hash(key) {
            Some(h) => self.may_contain(h),
            None => true,
        }
    }
}

} // verus!
