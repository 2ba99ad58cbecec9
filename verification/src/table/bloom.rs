//! Bloom filters: a table's quick answer to "can this key be here?".
//!
//! A filter is an array of bits. For every key of the table a number of bits
//! is set, at places that follow from the fingerprint of the key. A key whose
//! places are not all set is not in the table.

use vstd::prelude::*;

verus! {

/// The fingerprint of a key.
pub uninterp spec fn fingerprint(key: Seq<u8>) -> u32;

/// The little-endian number held in the four bytes at `i`.
pub open spec fn le32(s: Seq<u8>, i: int) -> int {
    s[i] as int + 256 * (s[i + 1] as int) + 65536 * (s[i + 2] as int) + 16777216 * (s[i + 3] as int)
}

/// The constant by which the fingerprint of a key of 13 to 24 bytes
/// multiplies the number read from the middle of the key.
pub const MIDDLE_FACTOR: u32 = 0xcc9e2d51;

/// The key is one whose fingerprint can be taken. For keys of 5 to 24 bytes
/// the fingerprint starts with plain sums of the length and numbers read from
/// the key, which must fit 32 bits:
/// - 5 to 12 bytes: the length and the first four bytes; five times the
///   length and the last four bytes; 9 and the four bytes at 0 (up to 7
///   bytes) or at 4 (from 8 bytes on);
/// - 13 to 24 bytes: the length and the product, cut to 32 bits, of the four
///   bytes at half the length and `MIDDLE_FACTOR`.
/// Shorter and longer keys are added up with wrap-around throughout.
#[verifier::opaque]
pub open spec fn hashable(key: Seq<u8>) -> bool {
    let n = key.len() as int;
    if n <= 4 || n > 24 {
        true
    } else if n <= 12 {
        &&& n + le32(key, 0) <= u32::MAX
        &&& 5 * n + le32(key, n - 4) <= u32::MAX
        &&& 9 + le32(
            key,
            if n >= 8 {
                4
            } else {
                0
            },
        ) <= u32::MAX
    } else {
        (le32(key, n / 2) * MIDDLE_FACTOR) % 0x1_0000_0000 + n <= u32::MAX
    }
}

/// `farmhash::fingerprint32`: it gives the fingerprint of the key, a number
/// that depends on the bytes of the key alone. Keys on which one of its plain
/// sums would pass 32 bits are left out: on those it stops the program where
/// sums are checked.
#[verifier::external_body]
pub(crate) fn key_fingerprint(key: &[u8]) -> (r: u32)
    requires
        hashable(key@),
    ensures
        r == fingerprint(key@),
{
    farmhash::fingerprint32(key)
}

/// Reads the little-endian number in the four bytes at `pos`.
fn read_le32(data: &[u8], pos: usize) -> (r: u64)
    requires
        pos + 4 <= data@.len(),
    ensures
        r == le32(data@, pos as int),
        r <= u32::MAX,
{
    let b0: u64 = data[pos] as u64;
    let b1: u64 = data[pos + 1] as u64;
    let b2: u64 = data[pos + 2] as u64;
    let b3: u64 = data[pos + 3] as u64;
    b0 + b1 * 256 + b2 * 65536 + b3 * 16777216
}

/// Tells whether the fingerprint of the key can be taken.
pub fn can_fingerprint(key: &[u8]) -> (r: bool)
    ensures
        r == hashable(key@),
{
    reveal(hashable);
    let n: usize = key.len();
    if n <= 4 || n > 24 {
        return true;
    }
    let len: u64 = n as u64;
    let max: u64 = 0xFFFF_FFFF;
    if n <= 12 {
        let first: u64 = read_le32(key, 0);
        let last: u64 = read_le32(key, n - 4);
        let inner: u64 = read_le32(key, if n >= 8 {
            4
        } else {
            0
        });
        len + first <= max && 5 * len + last <= max && 9 + inner <= max
    } else {
        let middle: u64 = read_le32(key, n / 2);
        let product: u64 = (middle * (MIDDLE_FACTOR as u64)) % 0x1_0000_0000;
        product + len <= max
    }
}

/// The fingerprint of the key, if it can be taken.
pub fn try_fingerprint(key: &[u8]) -> (r: Option<u32>)
    ensures
        r is Some <==> hashable(key@),
        r matches Some(h) ==> h == fingerprint(key@),
{
    if can_fingerprint(key) {
        Some(key_fingerprint(key))
    } else {
        None
    }
}

/// The largest number of places per key.
pub const PROBES_MAX: u8 = 30;

/// The largest number of bits of a filter.
pub const BITS_MAX: usize = 0x8000_0000;

/// The bit at `pos` is set.
pub open spec fn bit_at(bits: Seq<u8>, pos: int) -> bool {
    (bits[pos / 8] >> ((pos % 8) as u8)) & 1u8 == 1u8
}

/// What is added to a fingerprint from one place to the next: the
/// fingerprint rotated by 15 bits.
pub open spec fn stride(h: u32) -> u32 {
    (h >> 17) | (h << 15)
}

/// The sum of two numbers, cut to 32 bits.
pub open spec fn add32(a: u32, b: u32) -> u32 {
    ((a as int + b as int) % 0x1_0000_0000) as u32
}

/// The number from which the j-th place of a fingerprint follows.
pub open spec fn probe(h: u32, j: nat) -> u32
    decreases j,
{
    if j == 0 {
        h
    } else {
        add32(probe(h, (j - 1) as nat), stride(h))
    }
}

/// The j-th place of a fingerprint in a filter of `bytes` bytes.
pub open spec fn place(bytes: nat, h: u32, j: nat) -> int {
    probe(h, j) as int % (bytes * 8) as int
}

/// The first `count` places of the fingerprint are set.
pub open spec fn places_set(bits: Seq<u8>, h: u32, count: nat) -> bool {
    forall|j: nat| j < count ==> bit_at(bits, #[trigger] place(bits.len(), h, j))
}

/// Setting one bit of a byte sets that bit and leaves the others.
proof fn lemma_set_bit(b: u8, s: u8, t: u8)
    requires
        s < 8,
        t < 8,
    ensures
        ((b | (1u8 << s)) >> t) & 1u8 == if s == t {
            1u8
        } else {
            (b >> t) & 1u8
        },
{
    assert(((b | (1u8 << s)) >> t) & 1u8 == if s == t {
        1u8
    } else {
        (b >> t) & 1u8
    }) by (bit_vector)
        requires
            s < 8,
            t < 8,
    ;
}

/// Tells whether the bit at `pos` is set.
fn get_bit(bits: &Vec<u8>, pos: usize) -> (r: bool)
    requires
        pos < bits@.len() * 8,
    ensures
        r == bit_at(bits@, pos as int),
{
    let byte: u8 = bits[pos / 8];
    let shift: u8 = (pos % 8) as u8;
    (byte >> shift) & 1u8 == 1u8
}

/// Sets the bit at `pos`; every bit that was set stays set.
fn set_bit(bits: &mut Vec<u8>, pos: usize)
    requires
        pos < old(bits)@.len() * 8,
    ensures
        final(bits)@.len() == old(bits)@.len(),
        bit_at(final(bits)@, pos as int),
        forall|q: int|
            0 <= q < old(bits)@.len() * 8 && bit_at(old(bits)@, q) ==> bit_at(final(bits)@, q),
{
    let i: usize = pos / 8;
    let shift: u8 = (pos % 8) as u8;
    let byte: u8 = bits[i];
    bits.set(i, byte | (1u8 << shift));
    proof {
        lemma_set_bit(byte, shift, shift);
        assert forall|q: int|
            0 <= q < old(bits)@.len() * 8 && bit_at(old(bits)@, q) implies bit_at(bits@, q) by {
            if q / 8 == i as int {
                lemma_set_bit(byte, shift, (q % 8) as u8);
            }
        }
    }
}

/// The sum of two numbers, cut to 32 bits.
fn wrapping_sum(a: u32, b: u32) -> (r: u32)
    ensures
        r == add32(a, b),
{
    ((a as u64 + b as u64) % 0x1_0000_0000) as u32
}

/// A bloom filter over the fingerprints of the keys of a table.
pub struct Bloom {
    /// The bits, eight to a byte.
    filter: Vec<u8>,
    /// The number of places per key.
    k: u8,
}

impl Bloom {
    /// The bits of the filter, eight to a byte.
    pub closed spec fn bits(&self) -> Seq<u8> {
        self.filter@
    }

    /// The number of places per key.
    pub closed spec fn probes(&self) -> nat {
        self.k as nat
    }

    /// The filter has bits, no more than fit a place, and looks at 1 to 30
    /// places per key.
    pub closed spec fn wf(&self) -> bool {
        &&& 0 < self.filter@.len()
        &&& self.filter@.len() * 8 <= BITS_MAX
        &&& 1 <= self.k <= PROBES_MAX
    }

    /// The filter lets the fingerprint through: all its places are set.
    pub open spec fn admits(&self, h: u32) -> bool {
        places_set(self.bits(), h, self.probes())
    }

    /// Tells whether a key with this fingerprint may be among the keys that
    /// the filter was made from.
    pub fn may_contain(&self, h: u32) -> (r: bool)
        requires
            self.wf(),
        ensures
            r == self.admits(h),
    {
        let nbits: usize = self.filter.len() * 8;
        let delta: u32 = (h >> 17) | (h << 15);
        let mut cur: u32 = h;
        let mut j: u8 = 0;
        while j < self.k
            invariant
                self.wf(),
                nbits == self.filter@.len() * 8,
                delta == stride(h),
                0 <= j <= self.k,
                cur == probe(h, j as nat),
                places_set(self.filter@, h, j as nat),
            decreases self.k - j,
        {
            let pos: usize = (cur as usize) % nbits;
            if !get_bit(&self.filter, pos) {
                assert(!bit_at(self.filter@, place(self.filter@.len(), h, j as nat)));
                return false;
            }
            cur = wrapping_sum(cur, delta);
            j = j + 1;
        }
        true
    }

    /// A filter that lets the given fingerprints through, with about
    /// `bits_per_key` bits for each of them.
    pub fn build_from_key_hashes(keys: &[u32], bits_per_key: usize) -> (r: Bloom)
        ensures
            r.wf(),
            forall|i: int| 0 <= i < keys@.len() ==> r.admits(#[trigger] keys@[i]),
    {
        // about 0.69 places for each bit per key, at least 1 and at most 30
        let wanted: usize = if bits_per_key > 43 {
            30
        } else {
            bits_per_key * 69 / 100
        };
        let k: u8 = if wanted < 1 {
            1
        } else {
            wanted as u8
        };
        let count: usize = keys.len();
        let asked: usize = if count > BITS_MAX / 64 || bits_per_key > 64 {
            BITS_MAX
        } else {
            assert(count * bits_per_key <= BITS_MAX) by (nonlinear_arith)
                requires
                    count <= 0x200_0000,
                    bits_per_key <= 64,
            ;
            count * bits_per_key
        };
        let nbits: usize = if asked < 64 {
            64
        } else if asked > BITS_MAX {
            BITS_MAX
        } else {
            asked
        };
        let nbytes: usize = (nbits + 7) / 8;
        let mut filter: Vec<u8> = Vec::new();
        let mut b: usize = 0;
        while b < nbytes
            invariant
                0 <= b <= nbytes,
                filter@.len() == b,
            decreases nbytes - b,
        {
            filter.push(0u8);
            b = b + 1;
        }
        let total: usize = nbytes * 8;
        let n: usize = keys.len();
        let mut i: usize = 0;
        while i < n
            invariant
                0 <= i <= n,
                n == keys@.len(),
                1 <= k <= PROBES_MAX,
                0 < nbytes,
                filter@.len() == nbytes,
                total == nbytes * 8,
                total <= BITS_MAX,
                forall|x: int| 0 <= x < i ==> places_set(filter@, #[trigger] keys@[x], k as nat),
            decreases n - i,
        {
            let h: u32 = keys[i];
            let delta: u32 = (h >> 17) | (h << 15);
            let mut cur: u32 = h;
            let mut j: u8 = 0;
            while j < k
                invariant
                    0 <= i < n,
                    n == keys@.len(),
                    h == keys@[i as int],
                    1 <= k <= PROBES_MAX,
                    0 < nbytes,
                    filter@.len() == nbytes,
                    total == nbytes * 8,
                    total <= BITS_MAX,
                    delta == stride(h),
                    0 <= j <= k,
                    cur == probe(h, j as nat),
                    places_set(filter@, h, j as nat),
                    forall|x: int|
                        0 <= x < i ==> places_set(filter@, #[trigger] keys@[x], k as nat),
                decreases k - j,
            {
                let ghost before = filter@;
                let pos: usize = (cur as usize) % total;
                set_bit(&mut filter, pos);
                proof {
                    assert forall|x: int| 0 <= x < i implies places_set(
                        filter@,
                        #[trigger] keys@[x],
                        k as nat,
                    ) by {
                        assert(places_set(before, keys@[x], k as nat));
                        lemma_places_kept(before, filter@, keys@[x], k as nat);
                    }
                    lemma_places_kept(before, filter@, h, j as nat);
                }
                cur = wrapping_sum(cur, delta);
                j = j + 1;
            }
            i = i + 1;
        }
        Bloom { filter, k }
    }
}

/// Places that are set stay set where every bit that was set stays set.
proof fn lemma_places_kept(before: Seq<u8>, after: Seq<u8>, h: u32, count: nat)
    requires
        before.len() == after.len(),
        before.len() > 0,
        places_set(before, h, count),
        forall|q: int| 0 <= q < before.len() * 8 && bit_at(before, q) ==> bit_at(after, q),
    ensures
        places_set(after, h, count),
{
    assert forall|j: nat| j < count implies bit_at(after, #[trigger] place(after.len(), h, j)) by {
        let q = place(before.len(), h, j);
        assert(bit_at(before, q));
    }
}

} // verus!
