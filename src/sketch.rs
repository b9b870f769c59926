//! Binary sketches of primitive unsigned integers, and the bit-level model
//! that the join algorithms are stated over.
use std::ops::Range;
use vstd::prelude::*;

verus! {

/// Whether bit `i` of `x` is set.
pub open spec fn bit(x: u64, i: nat) -> bool {
    (x >> (i as u64)) & 1u64 == 1u64
}

/// Number of set bits of `x` among the positions `lo..hi`.
pub open spec fn ones(x: u64, lo: nat, hi: nat) -> nat
    decreases hi,
{
    if hi <= lo {
        0
    } else {
        ones(x, lo, (hi - 1) as nat) + if bit(x, (hi - 1) as nat) {
            1nat
        } else {
            0nat
        }
    }
}

/// Population count of a 64-bit word.
pub open spec fn popcount(x: u64) -> nat {
    ones(x, 0, 64)
}

/// Hamming distance of two 64-bit words.
pub open spec fn hamming(x: u64, y: u64) -> nat {
    popcount(x ^ y)
}

/// The word whose set bits are exactly the positions `lo..hi` (for `lo <= hi <= 64`).
pub open spec fn range_mask(lo: nat, hi: nat) -> u64 {
    if hi <= lo {
        0
    } else if hi - lo >= 64 {
        u64::MAX
    } else {
        (((1u64 << ((hi - lo) as u64)) - 1) as u64) << (lo as u64)
    }
}

/// `x` has no set bit at or above position `w`.
pub open spec fn fits(x: u64, w: nat) -> bool {
    x & range_mask(w, 64) == 0
}

/// The widths that sketches come in.
pub open spec fn valid_width(w: nat) -> bool {
    w == 8 || w == 16 || w == 32 || w == 64
}

/// Relies on `u64::count_ones`: the number of ones in the binary representation.
#[verifier::external_body]
pub(crate) fn count_ones(x: u64) -> (r: u32)
    ensures
        r as nat == popcount(x),
{
    x.count_ones()
}

proof fn lemma_mask_bits_bv(lo: u64, l: u64, i: u64)
    by (bit_vector)
    requires
        l < 64,
        lo + l <= 64,
        i < 64,
    ensures
        (((((1u64 << l) - 1) as u64) << lo) >> i) & 1u64 == 1u64 <==> (lo <= i && i < lo + l),
{
}

proof fn lemma_max_bits_bv(i: u64)
    by (bit_vector)
    requires
        i < 64,
    ensures
        (u64::MAX >> i) & 1u64 == 1u64,
{
}

/// The set bits of `range_mask(lo, hi)` are exactly `lo..hi`.
pub proof fn lemma_range_mask_bit(lo: nat, hi: nat, i: nat)
    requires
        lo <= hi <= 64,
        i < 64,
    ensures
        bit(range_mask(lo, hi), i) <==> (lo <= i && i < hi),
{
    if hi <= lo {
        let k = i as u64;
        assert((0u64 >> k) & 1u64 != 1u64) by (bit_vector);
    } else if hi - lo >= 64 {
        lemma_max_bits_bv(i as u64);
    } else {
        lemma_mask_bits_bv(lo as u64, (hi - lo) as u64, i as u64);
    }
}

proof fn lemma_mask_step_bv(lo: u64, l: u64)
    by (bit_vector)
    requires
        2 <= l < 64,
        lo + l <= 64,
    ensures
        ((((1u64 << l) - 1) as u64) << lo) == ((((1u64 << ((l - 1) as u64)) - 1) as u64) << lo) | (
        1u64 << ((lo + l - 1) as u64)),
{
}

proof fn lemma_mask_one_bv(lo: u64)
    by (bit_vector)
    requires
        lo < 64,
    ensures
        ((((1u64 << 1u64) - 1) as u64) << lo) == 0u64 | (1u64 << lo),
{
}

proof fn lemma_mask_full_bv()
    by (bit_vector)
    ensures
        u64::MAX == ((((1u64 << 63u64) - 1) as u64) << 0u64) | (1u64 << 63u64),
{
}

/// A range mask grows by one bit at a time.
proof fn lemma_range_mask_step(lo: nat, hi: nat)
    requires
        lo < hi <= 64,
    ensures
        range_mask(lo, hi) == range_mask(lo, (hi - 1) as nat) | (1u64 << ((hi - 1) as u64)),
{
    if hi - lo >= 64 {
        lemma_mask_full_bv();
    } else if hi - lo == 1 {
        lemma_mask_one_bv(lo as u64);
    } else {
        lemma_mask_step_bv(lo as u64, (hi - lo) as u64);
    }
}

proof fn lemma_and_or_bv(x: u64, y: u64, m: u64, k: u64)
    by (bit_vector)
    requires
        k < 64,
        x & m == y & m,
        ((x ^ y) >> k) & 1u64 != 1u64,
    ensures
        x & (m | (1u64 << k)) == y & (m | (1u64 << k)),
{
}

proof fn lemma_and_zero_split_bv(z: u64, m: u64, k: u64)
    by (bit_vector)
    requires
        k < 64,
        z & (m | (1u64 << k)) == 0,
    ensures
        z & m == 0,
        (z >> k) & 1u64 != 1u64,
{
}

/// Words that differ in no bit of `lo..hi` agree under the mask of `lo..hi`.
pub proof fn lemma_agree_on_range(x: u64, y: u64, lo: nat, hi: nat)
    requires
        lo <= hi <= 64,
        ones(x ^ y, lo, hi) == 0,
    ensures
        x & range_mask(lo, hi) == y & range_mask(lo, hi),
    decreases hi,
{
    if hi == lo {
        assert(x & 0u64 == y & 0u64) by (bit_vector);
    } else {
        lemma_agree_on_range(x, y, lo, (hi - 1) as nat);
        lemma_range_mask_step(lo, hi);
        lemma_and_or_bv(x, y, range_mask(lo, (hi - 1) as nat), (hi - 1) as u64);
    }
}

/// A word that is clear under the mask of `lo..hi` has no set bit there.
pub proof fn lemma_clear_on_range(z: u64, lo: nat, hi: nat)
    requires
        lo <= hi <= 64,
        z & range_mask(lo, hi) == 0,
    ensures
        ones(z, lo, hi) == 0,
    decreases hi,
{
    if hi > lo {
        lemma_range_mask_step(lo, hi);
        lemma_and_zero_split_bv(z, range_mask(lo, (hi - 1) as nat), (hi - 1) as u64);
        lemma_clear_on_range(z, lo, (hi - 1) as nat);
    }
}

/// Counting set bits is additive over adjacent ranges.
pub proof fn lemma_ones_split(x: u64, lo: nat, mid: nat, hi: nat)
    requires
        lo <= mid <= hi,
    ensures
        ones(x, lo, hi) == ones(x, lo, mid) + ones(x, mid, hi),
    decreases hi,
{
    if hi > mid {
        lemma_ones_split(x, lo, mid, (hi - 1) as nat);
    }
}

/// A range holds at most as many set bits as positions.
pub proof fn lemma_ones_bound(x: u64, lo: nat, hi: nat)
    ensures
        ones(x, lo, hi) <= if hi >= lo { hi - lo } else { 0 },
    decreases hi,
{
    if hi > lo {
        lemma_ones_bound(x, lo, (hi - 1) as nat);
    }
}

/// Counting set bits where exactly the positions `a..b` are set.
proof fn lemma_ones_of_interval(x: u64, a: nat, b: nat, lo: nat, hi: nat)
    requires
        hi <= 64,
        forall|i: nat| i < 64 ==> (bit(x, i) <==> (a <= i && i < b)),
    ensures
        ones(x, lo, hi) == if hi <= lo {
            0
        } else {
            let s = if a > lo { a } else { lo };
            let e = if b < hi { b } else { hi };
            if e > s { (e - s) as nat } else { 0nat }
        },
    decreases hi,
{
    if hi > lo {
        lemma_ones_of_interval(x, a, b, lo, (hi - 1) as nat);
        assert(bit(x, (hi - 1) as nat) <==> (a <= hi - 1 && hi - 1 < b));
    }
}

/// The mask of `lo..hi` has `hi - lo` set bits; the mask of all positions is all ones.
pub proof fn lemma_range_mask_popcount(lo: nat, hi: nat)
    requires
        lo <= hi <= 64,
    ensures
        popcount(range_mask(lo, hi)) == hi - lo,
        range_mask(0, 64) == u64::MAX,
{
    assert forall|i: nat| i < 64 implies (bit(range_mask(lo, hi), i) <==> (lo <= i && i < hi)) by {
        lemma_range_mask_bit(lo, hi, i);
    }
    lemma_ones_of_interval(range_mask(lo, hi), lo, hi, 0, 64);
}

/// Bits of a word that fits in `w` positions and lie at or above `w` are clear.
pub proof fn lemma_fits_xor(x: u64, y: u64, w: nat)
    requires
        w <= 64,
        fits(x, w),
        fits(y, w),
    ensures
        ones(x ^ y, w, 64) == 0,
        hamming(x, y) == ones(x ^ y, 0, w),
{
    let m = range_mask(w, 64);
    assert((x ^ y) & m == 0) by (bit_vector)
        requires
            x & m == 0,
            y & m == 0,
    ;
    lemma_clear_on_range(x ^ y, w, 64);
    lemma_ones_split(x ^ y, 0, w, 64);
}

/// Two words are at distance zero exactly when they are equal.
pub proof fn lemma_hamming_zero(x: u64, y: u64)
    ensures
        hamming(x, y) == 0 <==> x == y,
{
    if hamming(x, y) == 0 {
        lemma_agree_on_range(x, y, 0, 64);
        assert(x & u64::MAX == y & u64::MAX ==> x == y) by (bit_vector);
    }
    if x == y {
        assert(x ^ x == 0) by (bit_vector);
        assert(0u64 & range_mask(0, 64) == 0) by (bit_vector);
        lemma_clear_on_range(0, 0, 64);
    }
}

/// The distance of two sketches of width `w` is at most `w`.
pub proof fn lemma_hamming_bound(x: u64, y: u64, w: nat)
    requires
        w <= 64,
        fits(x, w),
        fits(y, w),
    ensures
        hamming(x, y) <= w,
{
    lemma_fits_xor(x, y, w);
    lemma_ones_bound(x ^ y, 0, w);
}

/// Builds the mask of the bit positions `lo..hi` in a 64-bit word.
pub fn mask64(lo: usize, hi: usize) -> (r: u64)
    requires
        lo <= hi <= 64,
    ensures
        r == range_mask(lo as nat, hi as nat),
{
    let len = hi - lo;
    if len == 0 {
        0
    } else if len == 64 {
        u64::MAX
    } else {
        assert(1u64 << (len as u64) >= 1) by (bit_vector)
            requires
                len < 64,
        ;
        ((1u64 << (len as u64)) - 1) << (lo as u64)
    }
}

/// A binary sketch held in a primitive unsigned integer.
pub trait Sketch: Copy + Sized {
    /// The number of bits of the sketch.
    spec fn spec_dim() -> nat;

    /// The sketch as a 64-bit word.
    spec fn bits(self) -> u64;

    /// A sketch has one of the supported widths and no bit above it.
    proof fn lemma_sketch(self)
        ensures
            valid_width(Self::spec_dim()),
            fits(self.bits(), Self::spec_dim()),
    ;

    /// The width is one of the supported ones.
    proof fn lemma_width()
        ensures
            valid_width(Self::spec_dim()),
    ;

    /// Gets the number of dimensions.
    fn dim() -> (r: usize)
        ensures
            r == Self::spec_dim(),
            valid_width(r as nat),
    ;

    /// Gets the Hamming distance to the other sketch.
    fn hamdist(self, rhs: Self) -> (r: usize)
        ensures
            r == hamming(self.bits(), rhs.bits()),
    ;

    /// Produces a sketch for masking a given bit-position range.
    fn mask(rng: Range<usize>) -> (r: Self)
        requires
            rng.start <= rng.end <= Self::spec_dim(),
        ensures
            r.bits() == range_mask(rng.start as nat, rng.end as nat),
    ;

    /// The sketch widened to 64 bits.
    fn to_u64(self) -> (r: u64)
        ensures
            r == self.bits(),
    ;
}

proof fn lemma_mask_below_bv(lo: u64, l: u64, w: u64)
    by (bit_vector)
    requires
        1 <= l,
        lo + l <= w,
        w < 64,
    ensures
        ((((1u64 << l) - 1) as u64) << lo) < (1u64 << w),
{
}

/// A mask of positions below `w` is a value below `2^w`.
proof fn lemma_range_mask_below(lo: nat, hi: nat, w: nat)
    requires
        lo <= hi <= w,
        w == 8 || w == 16 || w == 32,
    ensures
        (range_mask(lo, hi) as int) < pow2_of(w),
{
    assert(1u64 << 8u64 == 0x100u64) by (bit_vector);
    assert(1u64 << 16u64 == 0x1_0000u64) by (bit_vector);
    assert(1u64 << 32u64 == 0x1_0000_0000u64) by (bit_vector);
    if hi > lo {
        lemma_mask_below_bv(lo as u64, (hi - lo) as u64, w as u64);
    }
}

/// `2^w` for the narrow widths.
pub open spec fn pow2_of(w: nat) -> int {
    if w == 8 {
        0x100
    } else if w == 16 {
        0x1_0000
    } else {
        0x1_0000_0000
    }
}

impl Sketch for u8 {
    open spec fn spec_dim() -> nat {
        8
    }

    open spec fn bits(self) -> u64 {
        self as u64
    }

    proof fn lemma_width() {
    }

    proof fn lemma_sketch(self) {
        let x = self;
        assert((x as u64) & ((((1u64 << 56u64) - 1) as u64) << 8u64) == 0) by (bit_vector);
    }

    fn dim() -> (r: usize) {
        8
    }

    fn hamdist(self, rhs: u8) -> (r: usize) {
        let x = self;
        let y = rhs;
        assert(((x ^ y) as u64) == (x as u64) ^ (y as u64)) by (bit_vector);
        count_ones((self ^ rhs) as u64) as usize
    }

    fn mask(rng: Range<usize>) -> (r: u8) {
        let m = mask64(rng.start, rng.end);
        proof {
            lemma_range_mask_below(rng.start as nat, rng.end as nat, 8);
        }
        m as u8
    }

    fn to_u64(self) -> (r: u64) {
        self as u64
    }
}

impl Sketch for u16 {
    open spec fn spec_dim() -> nat {
        16
    }

    open spec fn bits(self) -> u64 {
        self as u64
    }

    proof fn lemma_width() {
    }

    proof fn lemma_sketch(self) {
        let x = self;
        assert((x as u64) & ((((1u64 << 48u64) - 1) as u64) << 16u64) == 0) by (bit_vector);
    }

    fn dim() -> (r: usize) {
        16
    }

    fn hamdist(self, rhs: u16) -> (r: usize) {
        let x = self;
        let y = rhs;
        assert(((x ^ y) as u64) == (x as u64) ^ (y as u64)) by (bit_vector);
        count_ones((self ^ rhs) as u64) as usize
    }

    fn mask(rng: Range<usize>) -> (r: u16) {
        let m = mask64(rng.start, rng.end);
        proof {
            lemma_range_mask_below(rng.start as nat, rng.end as nat, 16);
        }
        m as u16
    }

    fn to_u64(self) -> (r: u64) {
        self as u64
    }
}

impl Sketch for u32 {
    open spec fn spec_dim() -> nat {
        32
    }

    open spec fn bits(self) -> u64 {
        self as u64
    }

    proof fn lemma_width() {
    }

    proof fn lemma_sketch(self) {
        let x = self;
        assert((x as u64) & ((((1u64 << 32u64) - 1) as u64) << 32u64) == 0) by (bit_vector);
    }

    fn dim() -> (r: usize) {
        32
    }

    fn hamdist(self, rhs: u32) -> (r: usize) {
        let x = self;
        let y = rhs;
        assert(((x ^ y) as u64) == (x as u64) ^ (y as u64)) by (bit_vector);
        count_ones((self ^ rhs) as u64) as usize
    }

    fn mask(rng: Range<usize>) -> (r: u32) {
        let m = mask64(rng.start, rng.end);
        proof {
            lemma_range_mask_below(rng.start as nat, rng.end as nat, 32);
        }
        m as u32
    }

    fn to_u64(self) -> (r: u64) {
        self as u64
    }
}

impl Sketch for u64 {
    open spec fn spec_dim() -> nat {
        64
    }

    open spec fn bits(self) -> u64 {
        self
    }

    proof fn lemma_width() {
    }

    proof fn lemma_sketch(self) {
        let x = self;
        assert(x & 0u64 == 0) by (bit_vector);
    }

    fn dim() -> (r: usize) {
        64
    }

    fn hamdist(self, rhs: u64) -> (r: usize) {
        count_ones(self ^ rhs) as usize
    }

    fn mask(rng: Range<usize>) -> (r: u64) {
        mask64(rng.start, rng.end)
    }

    fn to_u64(self) -> (r: u64) {
        self
    }
}

} // verus!
