//! The bloom sketch: a runtime-sized bloom filter summarizing the CIDs the
//! receiving peer already holds.
//!
//! The filter state is a hash count `k` and a bit array, kept here as plain
//! values so the protocol logic over them is verified. Hashing an item to
//! its `k` bit indices is deterministic and is delegated to the
//! `deterministic-bloom` crate behind trusted wrappers.

use vstd::prelude::*;
use deterministic_bloom::runtime_size::BloomFilter;

verus! {

/// The bit indices an item hashes to in a filter with `k` hashes over
/// `num_bytes * 8` bits: a function of these three values alone.
pub uninterp spec fn bloom_indices(k: int, num_bytes: int, item: Seq<u8>) -> Seq<int>;

/// Bit `i` of the array, least significant bit of each byte first.
pub open spec fn bit_set(bytes: Seq<u8>, i: int) -> bool {
    0 <= i < bytes.len() * 8 && (bytes[i / 8] >> ((i % 8) as u8)) & 1u8 == 1u8
}

/// Membership: all of the item's hash indices carry a set bit.
pub open spec fn bloom_has(k: int, bytes: Seq<u8>, item: Seq<u8>) -> bool {
    forall|j: int|
        0 <= j < k ==> bit_set(bytes, #[trigger] bloom_indices(k, bytes.len() as int, item)[j])
}

/// Relies on `deterministic_bloom::runtime_size::BloomFilter::contains`
/// (with `new_with` rebuilding the filter from its parts): membership is
/// exactly every hash index of the item having its bit set, bits taken
/// least-significant-first within each byte.
#[verifier::external_body]
fn bloom_contains_raw(k: usize, bytes: &Vec<u8>, item: &[u8]) -> (r: bool)
    requires
        bytes@.len() > 0,
    ensures
        r == bloom_has(k as int, bytes@, item@),
{
    let filter = BloomFilter::new_with(k, bytes.clone().into_boxed_slice());
    filter.contains(&item)
}

/// Relies on `deterministic_bloom::runtime_size::BloomFilter::insert`
/// (with `new_with` rebuilding the filter from its parts, and `as_bytes`
/// reading them back): inserting sets exactly the bits at the item's hash
/// indices, which are `k` indices below the bit length.
#[verifier::external_body]
fn bloom_insert_raw(k: usize, bytes: Vec<u8>, item: &[u8]) -> (r: Vec<u8>)
    requires
        bytes@.len() > 0,
    ensures
        r@.len() == bytes@.len() && bloom_indices(k as int, bytes@.len() as int, item@).len()
            == k as int && forall|j: int|
            0 <= j < k ==> 0 <= #[trigger] bloom_indices(k as int, bytes@.len() as int, item@)[j]
                < bytes@.len() * 8,
        forall|i: int|
            #[trigger] bit_set(r@, i) <==> bit_set(bytes@, i) || (exists|j: int|
                0 <= j < k && bloom_indices(k as int, bytes@.len() as int, item@)[j] == i),
{
    let mut filter = BloomFilter::new_with(k, bytes.into_boxed_slice());
    filter.insert(&item);
    filter.as_bytes().to_vec()
}

/// A bloom sketch as plain state: hash count and bit array.
#[derive(Debug)]
pub struct Bloom {
    /// Number of hash functions evaluated per item.
    pub hash_count: usize,
    /// The bit array, least significant bit of each byte first.
    pub bytes: Vec<u8>,
}

impl Clone for Bloom {
    /// Clones preserve hash count and bits.
    fn clone(&self) -> (r: Self)
        ensures
            r.hash_count == self.hash_count,
            r.bytes@ == self.bytes@,
    {
        let bytes = self.bytes.clone();
        assert(bytes@ =~= self.bytes@);
        Bloom { hash_count: self.hash_count, bytes }
    }
}

impl Bloom {
    /// A usable sketch has at least one byte of bits.
    pub open spec fn wf(&self) -> bool {
        self.bytes@.len() > 0
    }

    /// Membership of `item`, per [`bloom_has`].
    pub open spec fn spec_has(&self, item: Seq<u8>) -> bool {
        bloom_has(self.hash_count as int, self.bytes@, item)
    }

    /// An all-zero sketch: it contains nothing.
    pub fn new_zero(hash_count: usize, num_bytes: usize) -> (r: Bloom)
        requires
            hash_count >= 1,
            num_bytes >= 1,
        ensures
            r.wf(),
            r.hash_count == hash_count,
            r.bytes@.len() == num_bytes,
            forall|item: Seq<u8>| !r.spec_has(item),
    {
        let bytes = vec![0u8; num_bytes];
        let r = Bloom { hash_count, bytes };
        proof {
            assert forall|item: Seq<u8>| !r.spec_has(item) by {
                assert forall|i: int| !bit_set(r.bytes@, i) by {
                    if 0 <= i < r.bytes@.len() * 8 {
                        assert(r.bytes@[i / 8] == 0u8);
                        let s = (i % 8) as u8;
                        assert((0u8 >> s) & 1u8 == 0u8) by (bit_vector);
                    }
                }
                assert(!bit_set(
                    r.bytes@,
                    bloom_indices(r.hash_count as int, r.bytes@.len() as int, item)[0],
                ));
            }
        }
        r
    }

    /// Membership test.
    pub fn contains(&self, item: &[u8]) -> (r: bool)
        requires
            self.wf(),
        ensures
            r == self.spec_has(item@),
    {
        bloom_contains_raw(self.hash_count, &self.bytes, item)
    }

    /// Insert an item. The item becomes a member, every previous member
    /// stays one, and the bit length and hash count are unchanged.
    pub fn insert(&mut self, item: &[u8])
        requires
            old(self).wf(),
        ensures
            final(self).wf(),
            final(self).hash_count == old(self).hash_count,
            final(self).bytes@.len() == old(self).bytes@.len(),
            final(self).spec_has(item@),
            forall|x: Seq<u8>| old(self).spec_has(x) ==> final(self).spec_has(x),
    {
        let k = self.hash_count;
        let ghost pre = self.bytes@;
        let mut taken = Vec::new();
        core::mem::swap(&mut taken, &mut self.bytes);
        let out = bloom_insert_raw(k, taken, item);
        self.bytes = out;
        proof {
            let kk = k as int;
            let n = pre.len() as int;
            assert(self.bytes@.len() == pre.len());
            assert forall|j: int| 0 <= j < kk implies bit_set(
                self.bytes@,
                #[trigger] bloom_indices(kk, n, item@)[j],
            ) by {
                let i = bloom_indices(kk, n, item@)[j];
                assert(bit_set(self.bytes@, i));
            }
            assert forall|x: Seq<u8>| old(self).spec_has(x) implies self.spec_has(x) by {
                assert forall|j: int| 0 <= j < kk implies bit_set(
                    self.bytes@,
                    #[trigger] bloom_indices(kk, n, x)[j],
                ) by {
                    let i = bloom_indices(kk, n, x)[j];
                    assert(bit_set(pre, i));
                    assert(bit_set(self.bytes@, i));
                }
            }
        }
    }
}

/// `2 * ceil(x / 2)` style rounding: the least power of two at or above
/// `x`, for `x >= 1`.
pub open spec fn next_pow2(x: int) -> int
    decreases x,
{
    if x <= 1 {
        1
    } else {
        2 * next_pow2((x + 1) / 2)
    }
}

/// Ceiling division for positive divisors.
pub open spec fn ceil_div(a: int, b: int) -> int {
    (a + b - 1) / b
}

/// The least `L` with `2^L >= d`.
pub open spec fn log2_ceil(d: int) -> int
    decreases d,
{
    if d <= 1 {
        0
    } else {
        1 + log2_ceil((d + 1) / 2)
    }
}

/// Cap on the sketch's byte length.
pub const MAX_BLOOM_BYTES: usize = 0x1000_0000;

/// The byte length the receiver picks for a sketch of capacity `n` at a
/// false-positive rate of one in `d`: the bloom sizing formula
/// `bits = n * ln(d) / (ln 2)^2`, taken with `ln(d)` over-approximated as
/// `log2(d) * ln(2)`, so `bits = n * log2(d) * (1 / ln 2)` with
/// `1 / ln 2` in fixed point as `14427 / 10000`; rounded up to a whole
/// power-of-two byte length and capped.
pub open spec fn bloom_byte_size(n: int, d: int) -> int {
    let bits = ceil_div(n * log2_ceil(d) * 14427, 10000);
    let bytes0 = ceil_div(if bits >= 8 {
        bits
    } else {
        8
    }, 8);
    next_pow2(if bytes0 <= MAX_BLOOM_BYTES as int {
        bytes0
    } else {
        MAX_BLOOM_BYTES as int
    })
}

/// The hash count for a sketch of `num_bytes` bytes at capacity `n`:
/// `ceil((bits / n) * ln 2)` with `ln 2` in fixed point as
/// `6931 / 10000`, at least one and at most `u32::MAX`.
pub open spec fn bloom_hash_count(n: int, num_bytes: int) -> int {
    let k = ceil_div(num_bytes * 8 * 6931, n * 10000);
    if k < 1 {
        1
    } else if k > u32::MAX {
        u32::MAX as int
    } else {
        k
    }
}

/// The least power of two at or above `x`.
fn next_pow2_exec(x: u64) -> (r: u64)
    requires
        x <= MAX_BLOOM_BYTES as u64,
    ensures
        r == next_pow2(x as int),
        1 <= r,
        x <= 1 ==> r == 1,
        x >= 2 ==> r <= 2 * (x as int) - 2,
    decreases x,
{
    if x <= 1 {
        1
    } else {
        2 * next_pow2_exec((x + 1) / 2)
    }
}

/// `2^63`, by unfolding.
proof fn lemma_pow2_63()
    ensures
        pow2_int(63nat) == 0x8000_0000_0000_0000,
{
    reveal_with_fuel(pow2_int, 64);
}

/// The least `L` with `2^L >= d`.
fn log2_ceil_exec(d: u64) -> (r: u64)
    ensures
        r == log2_ceil(d as int),
        r <= 64,
    decreases d,
{
    if d <= 1 {
        0
    } else {
        let half = (d - 1) / 2 + 1;
        proof {
            assert(half as int == ((d as int) + 1) / 2);
            lemma_pow2_63();
            lemma_log2_ceil_bound(half as int, 63nat);
        }
        let rest = log2_ceil_exec(half);
        1 + rest
    }
}

/// `log2_ceil(d) <= k` whenever `d <= 2^k`: the recursion halves `d`.
proof fn lemma_log2_ceil_bound(d: int, k: nat)
    requires
        d <= pow2_int(k),
    ensures
        log2_ceil(d) <= k,
    decreases k,
{
    if d > 1 {
        if k == 0 {
        } else {
            assert(pow2_int(k) == 2 * pow2_int((k - 1) as nat));
            lemma_log2_ceil_bound((d + 1) / 2, (k - 1) as nat);
        }
    }
}

/// `2^k`.
pub open spec fn pow2_int(k: nat) -> int
    decreases k,
{
    if k == 0 {
        1
    } else {
        2 * pow2_int((k - 1) as nat)
    }
}

/// Pick the sketch parameters for capacity `n` at a false-positive rate
/// of one in `d`.
pub fn bloom_params(n: usize, d: u64) -> (r: (usize, usize))
    requires
        n >= 1,
    ensures
        r.0 == bloom_byte_size(n as int, d as int),
        r.1 == bloom_hash_count(n as int, r.0 as int),
        1 <= r.0 <= 2 * MAX_BLOOM_BYTES,
        1 <= r.1 <= u32::MAX,
{
    let el = log2_ceil_exec(d);
    proof {
        assert((n as int) * (el as int) * 14427 <= 0xffff_ffff_ffff_ffff * 64 * 14427)
            by (nonlinear_arith)
            requires
                n <= 0xffff_ffff_ffff_ffffu64 as int,
                0 <= el <= 64,
                n >= 0,
        ;
    }
    let bits_num: u128 = (n as u128) * (el as u128) * 14427;
    let bits: u128 = (bits_num + 9999) / 10000;
    let bits_f: u128 = if bits >= 8 {
        bits
    } else {
        8
    };
    let bytes0: u128 = (bits_f + 7) / 8;
    let capped: u64 = if bytes0 <= MAX_BLOOM_BYTES as u128 {
        bytes0 as u64
    } else {
        MAX_BLOOM_BYTES as u64
    };
    let num_bytes = next_pow2_exec(capped);
    let k_num: u128 = (num_bytes as u128) * 8 * 6931;
    let k_den: u128 = (n as u128) * 10000;
    let k0: u128 = (k_num + (k_den - 1)) / k_den;
    let k: u64 = if k0 < 1 {
        1
    } else if k0 > u32::MAX as u128 {
        u32::MAX as u64
    } else {
        k0 as u64
    };
    proof {
        assert(ceil_div((num_bytes as int) * 8 * 6931, (n as int) * 10000) == k0 as int);
    }
        (num_bytes as usize, k as usize)
}

} // verus!
