//! Multi-sorting: finds all pairs of short sketches within a Hamming radius
//! by sorting on blocks of bits and recursing on the runs of equal blocks.
use std::marker::PhantomData;
use vstd::prelude::*;

use crate::bitset64::Bitset64;
use crate::errors::{AllPairsHammingError, ErrorKind};
use crate::pigeonhole::{lemma_spread_total, spread_sum};
use crate::sketch::{
    fits, hamming, lemma_agree_on_range, lemma_fits_xor, lemma_hamming_bound, lemma_hamming_zero,
    lemma_ones_split, ones, range_mask, valid_width, Sketch,
};

verus! {

/// Slices below this length are sorted by comparison, longer ones by radix.
pub const DEFAULT_THRESHOLD_IN_SORT: usize = 1000;

/// A sketch together with the position it came from.
#[derive(Clone, Copy, Debug)]
struct Record {
    id: usize,
    sketch: u64,
}

/// The record that position `i` of `sk` gives.
spec fn rec_of(sk: Seq<u64>, i: usize) -> Record {
    Record { id: i, sketch: sk[i as int] }
}

/// Records hold distinct positions of `sk`, each with its own sketch.
spec fn recs_ok(recs: Seq<Record>, sk: Seq<u64>) -> bool {
    &&& recs.no_duplicates()
    &&& forall|k: int|
        0 <= k < recs.len() ==> (#[trigger] recs[k]).id < sk.len() && recs[k].sketch
            == sk[recs[k].id as int]
}

/// Positions `a` and `b` of `recs` hold the two ends of `p`.
spec fn pair_at(recs: Seq<Record>, a: int, b: int, p: (usize, usize)) -> bool {
    (recs[a].id == p.0 && recs[b].id == p.1) || (recs[a].id == p.1 && recs[b].id == p.0)
}

/// `sk` lists the pairs `(i, j)`, `i < j < sk.len()`, within Hamming distance
/// `radius`, each exactly once.
pub open spec fn lists_similar_pairs(sk: Seq<u64>, radius: nat, out: Seq<(usize, usize)>) -> bool {
    &&& out.no_duplicates()
    &&& forall|p: (usize, usize)|
        #[trigger] out.contains(p) <==> (p.0 < p.1 < sk.len() && hamming(sk[p.0 as int], sk[p.1 as int])
            <= radius)
}

/// Two distinct positions of well-formed records hold distinct ids.
proof fn lemma_ids_distinct(recs: Seq<Record>, sk: Seq<u64>, a: int, b: int)
    requires
        recs_ok(recs, sk),
        0 <= a < recs.len(),
        0 <= b < recs.len(),
        recs[a].id == recs[b].id,
    ensures
        a == b,
{
    assert(recs[a] == recs[b]);
}

/// The two ends of a pair sit at one pair of positions only.
proof fn lemma_pair_at_unique(recs: Seq<Record>, sk: Seq<u64>, a: int, b: int, a2: int, b2: int, p: (usize, usize))
    requires
        recs_ok(recs, sk),
        0 <= a < b < recs.len(),
        0 <= a2 < b2 < recs.len(),
        pair_at(recs, a, b, p),
        pair_at(recs, a2, b2, p),
        p.0 != p.1,
    ensures
        a == a2 && b == b2,
{
    if recs[a].id == recs[a2].id {
        lemma_ids_distinct(recs, sk, a, a2);
        lemma_ids_distinct(recs, sk, b, b2);
    } else {
        lemma_ids_distinct(recs, sk, a, b2);
        lemma_ids_distinct(recs, sk, b, a2);
    }
}

/// A pair is found at two positions exactly when both of its records are held.
proof fn lemma_pair_at_contains(recs: Seq<Record>, sk: Seq<u64>, p: (usize, usize))
    requires
        recs_ok(recs, sk),
        p.0 < p.1,
    ensures
        (exists|a: int, b: int| 0 <= a < b < recs.len() && #[trigger] pair_at(recs, a, b, p)) <==> (
        recs.contains(rec_of(sk, p.0)) && recs.contains(rec_of(sk, p.1))),
{
    if exists|a: int, b: int| 0 <= a < b < recs.len() && #[trigger] pair_at(recs, a, b, p) {
        let (a, b) = choose|a: int, b: int| 0 <= a < b < recs.len() && #[trigger] pair_at(recs, a, b, p);
        assert(recs[a] == rec_of(sk, recs[a].id));
        assert(recs[b] == rec_of(sk, recs[b].id));
    }
    if recs.contains(rec_of(sk, p.0)) && recs.contains(rec_of(sk, p.1)) {
        let k0 = choose|k: int| 0 <= k < recs.len() && recs[k] == rec_of(sk, p.0);
        let k1 = choose|k: int| 0 <= k < recs.len() && recs[k] == rec_of(sk, p.1);
        if k0 < k1 {
            assert(pair_at(recs, k0, k1, p));
        } else {
            assert(k0 != k1);
            assert(pair_at(recs, k1, k0, p));
        }
    }
}

/// What a sequence with one more element holds.
proof fn lemma_push_contains<A>(s: Seq<A>, x: A, r: A)
    ensures
        s.push(x).contains(r) <==> (s.contains(r) || r == x),
{
    if s.contains(r) {
        let k = choose|k: int| 0 <= k < s.len() && s[k] == r;
        assert(s.push(x)[k] == r);
    }
    if r == x {
        assert(s.push(x)[s.len() as int] == r);
    }
    if s.push(x).contains(r) {
        let k = choose|k: int| 0 <= k < s.push(x).len() && s.push(x)[k] == r;
        if k < s.len() {
            assert(s[k] == r);
        }
    }
}

/// A rearrangement that keeps the records and adds no duplicate keeps them well formed.
proof fn lemma_same_records(orig: Seq<Record>, new: Seq<Record>, sk: Seq<u64>)
    requires
        recs_ok(orig, sk),
        new.no_duplicates(),
        forall|x: Record| #[trigger] new.contains(x) <==> orig.contains(x),
    ensures
        recs_ok(new, sk),
{
    assert forall|k: int| 0 <= k < new.len() implies (#[trigger] new[k]).id < sk.len() && new[k].sketch
        == sk[new[k].id as int] by {
        assert(new.contains(new[k]));
        let j = choose|j: int| 0 <= j < orig.len() && orig[j] == new[k];
    }
}

/// A slice of well-formed records is well formed.
proof fn lemma_subrange_ok(recs: Seq<Record>, sk: Seq<u64>, lo: int, hi: int)
    requires
        recs_ok(recs, sk),
        0 <= lo <= hi <= recs.len(),
    ensures
        recs_ok(recs.subrange(lo, hi), sk),
        forall|x: Record| #[trigger] recs.subrange(lo, hi).contains(x) ==> recs.contains(x),
{
    let sub = recs.subrange(lo, hi);
    assert forall|k: int| 0 <= k < sub.len() implies (#[trigger] sub[k]).id < sk.len() && sub[k].sketch
        == sk[sub[k].id as int] by {
        assert(sub[k] == recs[lo + k]);
    }
    assert forall|x: Record| #[trigger] sub.contains(x) implies recs.contains(x) by {
        let k = choose|k: int| 0 <= k < sub.len() && sub[k] == x;
        assert(recs[lo + k] == x);
    }
}

/// The block key of a record.
fn block_key(r: &Record, mask: u64) -> (k: u64)
    ensures
        k == r.sketch & mask,
{
    r.sketch & mask
}

/// Relies on `slice::sort_unstable_by_key`: the records end up a permutation of
/// what they were, in ascending order of the key.
#[verifier::external_body]
fn sort_by_block_key(records: &mut Vec<Record>, mask: u64)
    ensures
        final(records)@.to_multiset() == old(records)@.to_multiset(),
        forall|a: int, b: int|
            0 <= a < b < final(records)@.len() ==> (final(records)@[a].sketch & mask)
                <= (final(records)@[b].sketch & mask),
{
    records.sort_unstable_by_key(|r| block_key(r, mask));
}

/// Copies the records at positions `lo..hi`.
fn copy_range(records: &Vec<Record>, lo: usize, hi: usize) -> (r: Vec<Record>)
    requires
        lo <= hi <= records@.len(),
    ensures
        r@ == records@.subrange(lo as int, hi as int),
{
    let mut r: Vec<Record> = Vec::with_capacity(hi - lo);
    let mut k = lo;
    while k < hi
        invariant
            lo <= k <= hi <= records@.len(),
            r@ == records@.subrange(lo as int, k as int),
        decreases hi - k,
    {
        r.push(records[k]);
        k = k + 1;
    }
    r
}

/// Joining two sequences without common elements keeps them free of duplicates.
proof fn lemma_concat_no_dup<A>(a: Seq<A>, b: Seq<A>)
    requires
        a.no_duplicates(),
        b.no_duplicates(),
        forall|x: A| a.contains(x) ==> !b.contains(x),
    ensures
        (a + b).no_duplicates(),
        forall|x: A| #[trigger] (a + b).contains(x) <==> a.contains(x) || b.contains(x),
{
    let c = a + b;
    assert forall|i: int, j: int| 0 <= i < c.len() && 0 <= j < c.len() && i != j implies c[i] != c[j] by {
        if i < a.len() && j >= a.len() {
            assert(a.contains(c[i]));
            assert(b.contains(c[j]));
        } else if j < a.len() && i >= a.len() {
            assert(a.contains(c[j]));
            assert(b.contains(c[i]));
        }
    }
    assert forall|x: A| #[trigger] c.contains(x) <==> a.contains(x) || b.contains(x) by {
        if c.contains(x) {
            let k = choose|k: int| 0 <= k < c.len() && c[k] == x;
            if k < a.len() {
                assert(a[k] == x);
            } else {
                assert(b[k - a.len()] == x);
            }
        }
        if a.contains(x) {
            let k = choose|k: int| 0 <= k < a.len() && a[k] == x;
            assert(c[k] == x);
        }
        if b.contains(x) {
            let k = choose|k: int| 0 <= k < b.len() && b[k] == x;
            assert(c[k + a.len()] == x);
        }
    }
}

/// A sequence that keeps its first `mid` elements splits at `mid`.
proof fn lemma_split_tail<A>(old: Seq<A>, new: Seq<A>, start: int, mid: int)
    requires
        0 <= start <= mid == old.len() <= new.len(),
        new.subrange(0, mid) == old,
    ensures
        new.subrange(start, new.len() as int) =~= old.subrange(start, mid) + new.subrange(mid, new.len() as int),
        new.subrange(0, start) =~= old.subrange(0, start),
{
    assert forall|k: int| 0 <= k < mid implies new[k] == old[k] by {
        assert(new.subrange(0, mid)[k] == new[k]);
    }
}

/// The sketches of a slice as 64-bit words.
pub open spec fn words<S: Sketch>(sketches: Seq<S>) -> Seq<u64> {
    sketches.map_values(|x: S| x.bits())
}

/// With the radius at the full sketch width, every pair `(i, j)`, `i < j`, is
/// listed, each exactly once.
pub proof fn lemma_full_radius_lists_all_pairs<S: Sketch>(sketches: Seq<S>, out: Seq<(usize, usize)>)
    requires
        lists_similar_pairs(words(sketches), S::spec_dim(), out),
    ensures
        out.no_duplicates(),
        forall|i: usize, j: usize| i < j < sketches.len() ==> #[trigger] out.contains((i, j)),
        forall|p: (usize, usize)| #[trigger] out.contains(p) ==> p.0 < p.1 < sketches.len(),
{
    assert forall|i: usize, j: usize| i < j < sketches.len() implies #[trigger] out.contains((i, j)) by {
        sketches[i as int].lemma_sketch();
        sketches[j as int].lemma_sketch();
        lemma_hamming_bound(sketches[i as int].bits(), sketches[j as int].bits(), S::spec_dim());
    }
}

/// Two lists of the similar pairs of the same sketches and radius (whatever
/// the block count or the sort threshold that made them) hold the same pairs,
/// each once.
pub proof fn lemma_lists_agree(sk: Seq<u64>, radius: nat, a: Seq<(usize, usize)>, b: Seq<(usize, usize)>)
    requires
        lists_similar_pairs(sk, radius, a),
        lists_similar_pairs(sk, radius, b),
    ensures
        a.to_set() == b.to_set(),
        a.len() == b.len(),
{
    assert(a.to_set() =~= b.to_set()) by {
        assert forall|p: (usize, usize)| a.to_set().contains(p) <==> b.to_set().contains(p) by {
            assert(a.contains(p) <==> b.contains(p));
        }
    }
    a.unique_seq_to_set();
    b.unique_seq_to_set();
}

/// The pairs `(i, j)`, `i < j < n`.
pub open spec fn all_pairs(n: nat) -> Set<(usize, usize)> {
    Set::new(|p: (usize, usize)| p.0 < p.1 < n)
}

/// There are `m` pairs `(i, k)` with `i < m`, for one `k`.
proof fn lemma_pairs_ending_at_len(k: usize, m: nat)
    requires
        m <= k,
    ensures
        Set::new(|p: (usize, usize)| p.1 == k && p.0 < m).finite(),
        Set::new(|p: (usize, usize)| p.1 == k && p.0 < m).len() == m,
    decreases m,
{
    let s = Set::new(|p: (usize, usize)| p.1 == k && p.0 < m);
    if m == 0 {
        assert(s =~= Set::empty());
    } else {
        let m1 = (m - 1) as nat;
        lemma_pairs_ending_at_len(k, m1);
        let s1 = Set::new(|p: (usize, usize)| p.1 == k && p.0 < m1);
        assert(s =~= s1.insert(((m - 1) as usize, k)));
    }
}

/// There are `n (n - 1) / 2` pairs `(i, j)`, `i < j < n`.
pub proof fn lemma_all_pairs_len(n: nat)
    requires
        n <= usize::MAX,
    ensures
        all_pairs(n).finite(),
        all_pairs(n).len() * 2 == n * (n - 1) as nat,
    decreases n,
{
    if n == 0 {
        assert(all_pairs(0) =~= Set::empty());
    } else {
        let k = (n - 1) as usize;
        lemma_all_pairs_len((n - 1) as nat);
        lemma_pairs_ending_at_len(k, k as nat);
        let row = Set::new(|p: (usize, usize)| p.1 == k && p.0 < k as nat);
        assert(all_pairs(n) =~= all_pairs((n - 1) as nat) + row);
        assert(all_pairs((n - 1) as nat).disjoint(row));
        vstd::set_lib::lemma_set_disjoint_lens(all_pairs((n - 1) as nat), row);
        assert((n - 1) * ((n - 1) - 1) as nat + 2 * (n - 1) == n * (n - 1) as nat) by (nonlinear_arith)
            requires
                n >= 1,
        ;
    }
}

/// With the radius at the full sketch width the list has exactly
/// `n (n - 1) / 2` entries.
pub proof fn lemma_full_radius_count<S: Sketch>(sketches: Seq<S>, out: Seq<(usize, usize)>)
    requires
        lists_similar_pairs(words(sketches), S::spec_dim(), out),
        sketches.len() <= usize::MAX,
    ensures
        out.len() * 2 == sketches.len() * (sketches.len() - 1) as nat,
{
    lemma_full_radius_lists_all_pairs(sketches, out);
    assert(out.to_set() =~= all_pairs(sketches.len())) by {
        assert forall|p: (usize, usize)| out.to_set().contains(p) <==> all_pairs(sketches.len()).contains(p) by {
            if p.0 < p.1 < sketches.len() {
                assert(out.contains((p.0, p.1)));
            }
        }
    }
    out.unique_seq_to_set();
    lemma_all_pairs_len(sketches.len());
}

/// With radius zero, exactly the pairs of identical sketches are listed, each once.
pub proof fn lemma_zero_radius_lists_duplicates<S: Sketch>(sketches: Seq<S>, out: Seq<(usize, usize)>)
    requires
        lists_similar_pairs(words(sketches), 0, out),
    ensures
        out.no_duplicates(),
        forall|p: (usize, usize)|
            #[trigger] out.contains(p) <==> (p.0 < p.1 < sketches.len() && sketches[p.0 as int].bits()
                == sketches[p.1 as int].bits()),
{
    assert forall|p: (usize, usize)|
        #[trigger] out.contains(p) <==> (p.0 < p.1 < sketches.len() && sketches[p.0 as int].bits()
            == sketches[p.1 as int].bits()) by {
        if p.0 < p.1 < sketches.len() {
            lemma_hamming_zero(sketches[p.0 as int].bits(), sketches[p.1 as int].bits());
        }
    }
}

/// The bits of `v` below position `s`.
spec fn low_bits(v: u64, s: u64) -> u64 {
    if s >= 64 {
        v
    } else {
        v & (((1u64 << s) - 1) as u64)
    }
}

proof fn lemma_digit_split_bv(k: u64, lo: u64, s: u64)
    by (bit_vector)
    requires
        s + 8 < 64,
        lo + s < 64,
    ensures
        (k >> lo) & (((1u64 << ((s + 8) as u64)) - 1) as u64) == ((((k >> ((lo + s) as u64)) & 255u64) << s) | ((k
            >> lo) & (((1u64 << s) - 1) as u64))),
{
}

proof fn lemma_digit_split_top_bv(k: u64, lo: u64, s: u64)
    by (bit_vector)
    requires
        s + 8 == 64,
        lo + s < 64,
    ensures
        (k >> lo) == ((((k >> ((lo + s) as u64)) & 255u64) << s) | ((k >> lo) & (((1u64 << s) - 1) as u64))),
{
}

/// The low `s + 8` bits of `k >> lo` are byte `(lo + s) / 8`... placed above the low `s` bits.
proof fn lemma_digit_split(k: u64, lo: u64, s: u64)
    requires
        s + 8 <= 64,
        lo + s < 64,
    ensures
        low_bits(k >> lo, (s + 8) as u64) == ((((k >> ((lo + s) as u64)) & 255u64) << s) | low_bits(k >> lo, s)),
{
    if s + 8 < 64 {
        lemma_digit_split_bv(k, lo, s);
    } else {
        lemma_digit_split_top_bv(k, lo, s);
    }
}

proof fn lemma_digit_order_bv(d1: u64, d2: u64, l1: u64, l2: u64, s: u64)
    by (bit_vector)
    requires
        s <= 56,
        d1 <= 255,
        d2 <= 255,
        l1 == l1 & (((1u64 << s) - 1) as u64),
        l2 == l2 & (((1u64 << s) - 1) as u64),
    ensures
        d1 < d2 ==> ((d1 << s) | l1) < ((d2 << s) | l2),
        d1 == d2 && l1 <= l2 ==> ((d1 << s) | l1) <= ((d2 << s) | l2),
{
}

proof fn lemma_low_idem_bv(v: u64, s: u64)
    by (bit_vector)
    requires
        s < 64,
    ensures
        v & (((1u64 << s) - 1) as u64) == (v & (((1u64 << s) - 1) as u64)) & (((1u64 << s) - 1) as u64),
{
}

proof fn lemma_byte_bv(v: u64)
    by (bit_vector)
    ensures
        v & 255u64 <= 255,
{
}

/// Ordering by a byte, then by the bits below it, orders by both together.
proof fn lemma_digit_order(k1: u64, k2: u64, lo: u64, s: u64)
    requires
        s + 8 <= 64,
        lo + s < 64,
    ensures
        ((k1 >> ((lo + s) as u64)) & 255u64) < ((k2 >> ((lo + s) as u64)) & 255u64) ==> low_bits(k1 >> lo, (s + 8) as u64)
            < low_bits(k2 >> lo, (s + 8) as u64),
        ((k1 >> ((lo + s) as u64)) & 255u64) == ((k2 >> ((lo + s) as u64)) & 255u64) && low_bits(k1 >> lo, s)
            <= low_bits(k2 >> lo, s) ==> low_bits(k1 >> lo, (s + 8) as u64) <= low_bits(k2 >> lo, (s + 8) as u64),
{
    lemma_digit_split(k1, lo, s);
    lemma_digit_split(k2, lo, s);
    lemma_low_idem_bv(k1 >> lo, s);
    lemma_low_idem_bv(k2 >> lo, s);
    lemma_byte_bv(k1 >> ((lo + s) as u64));
    lemma_byte_bv(k2 >> ((lo + s) as u64));
    lemma_digit_order_bv(
        (k1 >> ((lo + s) as u64)) & 255u64,
        (k2 >> ((lo + s) as u64)) & 255u64,
        low_bits(k1 >> lo, s),
        low_bits(k2 >> lo, s),
        s,
    );
}

proof fn lemma_block_key_bv(x: u64, y: u64, lo: u64, l: u64, s: u64)
    by (bit_vector)
    requires
        1 <= l < 64,
        lo + l <= 64,
        l <= s < 64,
        ((x & ((((1u64 << l) - 1) as u64) << lo)) >> lo) & (((1u64 << s) - 1) as u64) <= ((y & ((((1u64 << l) - 1) as u64) << lo)) >> lo) & (((1u64 << s) - 1) as u64),
    ensures
        (x & ((((1u64 << l) - 1) as u64) << lo)) <= (y & ((((1u64 << l) - 1) as u64) << lo)),
{
}

proof fn lemma_block_key_full_bv(x: u64, y: u64, lo: u64, l: u64)
    by (bit_vector)
    requires
        1 <= l < 64,
        lo + l <= 64,
        ((x & ((((1u64 << l) - 1) as u64) << lo)) >> lo) <= ((y & ((((1u64 << l) - 1) as u64) << lo)) >> lo),
    ensures
        (x & ((((1u64 << l) - 1) as u64) << lo)) <= (y & ((((1u64 << l) - 1) as u64) << lo)),
{
}

/// Ordering the keys of a block by their bits from the block's start on
/// orders the keys themselves.
proof fn lemma_block_key_order(x: u64, y: u64, lo: nat, hi: nat, s: u64)
    requires
        lo < hi <= 64,
        hi - lo <= s <= 64,
        low_bits(((x & range_mask(lo, hi)) >> (lo as u64)), s) <= low_bits(((y & range_mask(lo, hi)) >> (lo as u64)), s),
    ensures
        (x & range_mask(lo, hi)) <= (y & range_mask(lo, hi)),
{
    let l = (hi - lo) as u64;
    if l == 64 {
        assert(lo == 0);
        assert((x & u64::MAX) >> 0u64 == x & u64::MAX) by (bit_vector);
        assert((y & u64::MAX) >> 0u64 == y & u64::MAX) by (bit_vector);
    } else if s >= 64 {
        lemma_block_key_full_bv(x, y, lo as u64, l);
    } else {
        lemma_block_key_bv(x, y, lo as u64, l, s);
    }
}

/// Multi-sorting algorithm for finding pairs of similar short sketches.
pub struct MultiSort<S> {
    radius: usize,
    num_blocks: usize,
    masks: Vec<u64>,
    offsets: Vec<usize>,
    threshold_in_sort: usize,
    marker: PhantomData<S>,
}

impl<S: Sketch> MultiSort<S> {
    /// Block `c` of `x` and `y` is equal.
    spec fn agree(self, c: nat, x: u64, y: u64) -> bool {
        x & self.masks@[c as int] == y & self.masks@[c as int]
    }

    /// Every block that lies below some block of `s` and is not in `s` differs.
    spec fn canon(self, s: Set<nat>, x: u64, y: u64) -> bool {
        forall|c: nat, d: nat|
            #![trigger s.contains(d), self.agree(c, x, y)]
            !s.contains(c) && s.contains(d) && c < d ==> !self.agree(c, x, y)
    }

    /// The pair is within the radius and `s` is the least set of agreeing blocks
    /// that it can be reported under.
    spec fn good(self, s: Set<nat>, x: u64, y: u64) -> bool {
        hamming(x, y) <= self.radius && self.canon(s, x, y)
    }

    /// What a node of the recursion on `recs` with blocks `s` reports.
    spec fn node_pair(self, s: Set<nat>, recs: Seq<Record>, sk: Seq<u64>, p: (usize, usize)) -> bool {
        &&& p.0 < p.1
        &&& recs.contains(rec_of(sk, p.0))
        &&& recs.contains(rec_of(sk, p.1))
        &&& self.good(s, sk[p.0 as int], sk[p.1 as int])
    }

    /// The masks split the `S::dim()` bits into `num_blocks` contiguous blocks.
    spec fn wf(self) -> bool {
        &&& valid_width(S::spec_dim())
        &&& 1 <= self.num_blocks <= S::spec_dim()
        &&& self.radius <= self.num_blocks
        &&& self.masks@.len() == self.num_blocks
        &&& self.offsets@.len() == self.num_blocks + 1
        &&& self.offsets@[0] == 0
        &&& self.offsets@[self.num_blocks as int] == S::spec_dim()
        &&& forall|c: int| 0 <= c <= self.num_blocks ==> #[trigger] self.offsets@[c] <= S::spec_dim()
        &&& forall|c: int|
            0 <= c < self.num_blocks ==> #[trigger] self.offsets@[c] <= self.offsets@[c + 1]
                && self.masks@[c] == range_mask(
                self.offsets@[c] as nat,
                self.offsets@[c + 1] as nat,
            )
    }

    /// Number of blocks below `k` on which `x` and `y` agree.
    spec fn count_agree(self, x: u64, y: u64, k: nat) -> nat
        decreases k,
    {
        if k == 0 {
            0
        } else {
            self.count_agree(x, y, (k - 1) as nat) + if self.agree((k - 1) as nat, x, y) {
                1nat
            } else {
                0nat
            }
        }
    }

    /// Blocks that differ each hold at least one differing bit.
    proof fn lemma_count_disagree(self, x: u64, y: u64, k: nat)
        requires
            self.wf(),
            k <= self.num_blocks,
        ensures
            k <= self.count_agree(x, y, k) + ones(x ^ y, 0, self.offsets@[k as int] as nat),
        decreases k,
    {
        if k > 0 {
            let c = (k - 1) as int;
            self.lemma_count_disagree(x, y, (k - 1) as nat);
            let lo = self.offsets@[c] as nat;
            let hi = self.offsets@[c + 1] as nat;
            assert(lo <= hi <= 64);
            assert(self.masks@[c] == range_mask(lo, hi));
            lemma_ones_split(x ^ y, 0, lo, hi);
            if !self.agree(c as nat, x, y) {
                if ones(x ^ y, lo, hi) == 0 {
                    lemma_agree_on_range(x, y, lo, hi);
                }
            }
        }
    }

    /// Pigeonhole: two sketches within distance `h` agree on all but at most
    /// `h` blocks.
    proof fn lemma_block_pigeonhole(self, x: u64, y: u64)
        requires
            self.wf(),
            fits(x, S::spec_dim()),
            fits(y, S::spec_dim()),
        ensures
            self.num_blocks <= self.count_agree(x, y, self.num_blocks as nat) + hamming(x, y),
    {
        self.lemma_count_disagree(x, y, self.num_blocks as nat);
        lemma_fits_xor(x, y, S::spec_dim());
    }

    /// The agreeing blocks below `k`, as a set, are counted by `count_agree`.
    proof fn lemma_count_agree_set(self, x: u64, y: u64, k: nat)
        ensures
            Set::new(|c: nat| c < k && self.agree(c, x, y)).finite(),
            Set::new(|c: nat| c < k && self.agree(c, x, y)).len() == self.count_agree(x, y, k),
        decreases k,
    {
        let s = Set::new(|c: nat| c < k && self.agree(c, x, y));
        if k == 0 {
            assert(s =~= Set::empty());
        } else {
            let k1 = (k - 1) as nat;
            let s1 = Set::new(|c: nat| c < k1 && self.agree(c, x, y));
            self.lemma_count_agree_set(x, y, k1);
            if self.agree(k1, x, y) {
                assert(s =~= s1.insert(k1));
            } else {
                assert(s =~= s1);
            }
        }
    }

    /// The requested number of blocks (0 for the default choice).
    pub closed spec fn spec_num_blocks(self) -> nat {
        self.num_blocks as nat
    }

    /// The slice length from which radix sort is used.
    pub closed spec fn spec_threshold(self) -> nat {
        self.threshold_in_sort as nat
    }

    /// Creates an instance.
    pub fn new() -> (r: Self)
        ensures
            r.spec_num_blocks() == 0,
            r.spec_threshold() == DEFAULT_THRESHOLD_IN_SORT,
    {
        MultiSort {
            radius: 0,
            num_blocks: 0,
            masks: Vec::new(),
            offsets: Vec::new(),
            threshold_in_sort: DEFAULT_THRESHOLD_IN_SORT,
            marker: PhantomData,
        }
    }

    /// Sets the number of blocks (0 for the default choice); fails if it is
    /// above the sketch width.
    pub fn num_blocks(self, num_blocks: usize) -> (r: Result<Self, AllPairsHammingError>)
        ensures
            r is Ok <==> num_blocks <= S::spec_dim(),
            r matches Ok(m) ==> m.spec_num_blocks() == num_blocks && m.spec_threshold() == self.spec_threshold(),
            r matches Err(e) ==> e.kind() == ErrorKind::ArgumentOutOfRange,
    {
        if num_blocks > S::dim() {
            return Err(AllPairsHammingError::input(ErrorKind::ArgumentOutOfRange, "The number of blocks exceeds the sketch width."));
        }
        let mut s = self;
        s.num_blocks = num_blocks;
        Ok(s)
    }

    /// Sets the slice length from which radix sort is used.
    pub fn threshold_in_sort(self, threshold_in_sort: usize) -> (r: Self)
        ensures
            r.spec_num_blocks() == self.spec_num_blocks(),
            r.spec_threshold() == threshold_in_sort,
    {
        let mut s = self;
        s.threshold_in_sort = threshold_in_sort;
        s
    }

    /// Splits the sketch bits into blocks of `(b + dim) / num_blocks` bits.
    fn build_masks_and_offsets(&mut self)
        requires
            1 <= old(self).num_blocks <= S::spec_dim(),
            old(self).radius <= old(self).num_blocks,
        ensures
            final(self).wf(),
            final(self).radius == old(self).radius,
            final(self).num_blocks == old(self).num_blocks,
            final(self).threshold_in_sort == old(self).threshold_in_sort,
            forall|c: int|
                0 <= c < final(self).num_blocks ==> #[trigger] final(self).offsets@[c + 1]
                    - final(self).offsets@[c] == (c + S::spec_dim()) / (final(self).num_blocks as int),
    {
        let dim = S::dim();
        let n = self.num_blocks;
        let mut masks: Vec<u64> = Vec::with_capacity(n);
        let mut offsets: Vec<usize> = Vec::with_capacity(n + 1);
        offsets.push(0);
        let mut i: usize = 0;
        let mut b: usize = 0;
        while b < n
            invariant
                1 <= n <= dim <= 64,
                dim == S::spec_dim(),
                masks@.len() == b,
                offsets@.len() == b + 1,
                offsets@[0] == 0,
                b <= n,
                i == offsets@[b as int],
                i == spread_sum(b as int, dim as int, n as int),
                forall|c: int| 0 <= c <= b ==> #[trigger] offsets@[c] <= dim,
                forall|c: int|
                    0 <= c < b ==> #[trigger] offsets@[c + 1] == offsets@[c] + (c + dim) / (n as int)
                        && masks@[c] == range_mask(offsets@[c] as nat, offsets@[c + 1] as nat),
            decreases n - b,
        {
            proof {
                lemma_spread_total((b + 1) as int, dim as int, n as int);
            }
            let width = (b + dim) / n;
            let m = S::mask(i..i + width);
            masks.push(m.to_u64());
            i = i + width;
            offsets.push(i);
            b = b + 1;
        }
        proof {
            lemma_spread_total(n as int, dim as int, n as int);
        }
        self.masks = masks;
        self.offsets = offsets;
    }

    /// Whether every block outside `blocks` and below its largest block differs.
    fn check_canonical(&self, x: u64, y: u64, blocks: Bitset64) -> (r: bool)
        requires
            self.wf(),
            forall|c: nat| #[trigger] blocks@.contains(c) ==> c < self.num_blocks,
        ensures
            r == self.canon(blocks@, x, y),
    {
        let max = match blocks.max() {
            Some(m) => m,
            None => 0,
        };
        let others = blocks.inverse();
        let mut it = others.iter();
        let ghost mut low: nat = 0;
        loop
            invariant
                low <= 64,
                forall|j: nat| it@.contains(j) <==> (low <= j < 64 && !blocks@.contains(j)),
                forall|c: nat|
                    c < low && c < max && !blocks@.contains(c) ==> !#[trigger] self.agree(c, x, y),
                forall|j: nat| #[trigger] blocks@.contains(j) ==> j <= max,
                blocks@ != Set::<nat>::empty() ==> blocks@.contains(max as nat),
                blocks@ == Set::<nat>::empty() ==> max == 0,
                self.wf(),
                forall|c: nat| #[trigger] blocks@.contains(c) ==> c < self.num_blocks,
            decreases 64 - low,
        {
            let ghost before = it@;
            match it.next() {
                None => {
                    proof {
                        assert forall|c: nat, d: nat|
                            !blocks@.contains(c) && blocks@.contains(d) && c < d implies !self.agree(
                            c,
                            x,
                            y,
                        ) by {
                            if !(c < low) {
                                assert(before.contains(c));
                            }
                        }
                    }
                    return true;
                },
                Some(b) => {
                    proof {
                        assert(low <= b);
                    }
                    if max <= b {
                        proof {
                            assert forall|c: nat, d: nat|
                                !blocks@.contains(c) && blocks@.contains(d) && c < d implies !self.agree(
                                c,
                                x,
                                y,
                            ) by {
                                if c >= low {
                                    assert(before.contains(c));
                                }
                            }
                        }
                        return true;
                    }
                    if x & self.masks[b] == y & self.masks[b] {
                        proof {
                            assert(blocks@.contains(max as nat));
                            assert(!blocks@.contains(b as nat) && blocks@.contains(max as nat) && b < max
                                && self.agree(b as nat, x, y));
                        }
                        return false;
                    }
                    proof {
                        low = (b + 1) as nat;
                    }
                },
            }
        }
    }

    /// Hamming distance and canonicality are symmetric in the two sketches.
    proof fn lemma_good_sym(self, s: Set<nat>, x: u64, y: u64)
        ensures
            self.good(s, x, y) == self.good(s, y, x),
    {
        assert(x ^ y == y ^ x) by (bit_vector);
        assert forall|c: nat| self.agree(c, x, y) == self.agree(c, y, x) by {}
    }

    /// The pair of the ids of two records, smaller id first, if it is within
    /// the radius and canonical for `s`.
    spec fn emit(self, s: Set<nat>, x: Record, y: Record) -> Seq<(usize, usize)> {
        if self.good(s, x.sketch, y.sketch) {
            seq![if x.id < y.id { (x.id, y.id) } else { (y.id, x.id) }]
        } else {
            Seq::empty()
        }
    }

    /// What is reported of the pairs `(a, c)`, `a < c < b`, in order of `c`.
    spec fn leaf_row(self, s: Set<nat>, recs: Seq<Record>, a: int, b: int) -> Seq<(usize, usize)>
        decreases b - a,
    {
        if b <= a + 1 {
            Seq::empty()
        } else {
            self.leaf_row(s, recs, a, b - 1) + self.emit(s, recs[a], recs[b - 1])
        }
    }

    /// What is reported of the pairs `(a, c)`, `a < c`, `a < i`, in order of `(a, c)`.
    spec fn leaf_rows(self, s: Set<nat>, recs: Seq<Record>, i: int) -> Seq<(usize, usize)>
        decreases i,
    {
        if i <= 0 {
            Seq::empty()
        } else {
            self.leaf_rows(s, recs, i - 1) + self.leaf_row(s, recs, i - 1, recs.len() as int)
        }
    }

    /// Reports the pairs of `records` that are within the radius and canonical
    /// for `blocks`.
    fn verify_all_pairs(
        &self,
        records: &Vec<Record>,
        blocks: Bitset64,
        results: &mut Vec<(usize, usize)>,
        Ghost(sk): Ghost<Seq<u64>>,
    )
        requires
            self.wf(),
            recs_ok(records@, sk),
            forall|c: nat| #[trigger] blocks@.contains(c) ==> c < self.num_blocks,
        ensures
            final(results)@.len() >= old(results)@.len(),
            final(results)@.subrange(0, old(results)@.len() as int) == old(results)@,
            final(results)@.subrange(old(results)@.len() as int, final(results)@.len() as int).no_duplicates(),
            forall|p: (usize, usize)|
                #[trigger] final(results)@.subrange(
                    old(results)@.len() as int,
                    final(results)@.len() as int,
                ).contains(p) <==> self.node_pair(blocks@, records@, sk, p),
            final(results)@ == old(results)@ + self.leaf_rows(blocks@, records@, records@.len() as int),
    {
        let n = records.len();
        let ghost start = results@.len() as int;
        let ghost recs = records@;
        let mut i: usize = 0;
        proof {
            assert(old(results)@ + self.leaf_rows(blocks@, recs, 0) =~= results@);
        }
        while i < n
            invariant
                self.wf(),
                recs_ok(recs, sk),
                recs == records@,
                n == recs.len(),
                i <= n,
                forall|c: nat| #[trigger] blocks@.contains(c) ==> c < self.num_blocks,
                results@.len() >= start,
                start == old(results)@.len(),
                results@.subrange(0, start) == old(results)@,
                results@.subrange(start, results@.len() as int).no_duplicates(),
                forall|p: (usize, usize)|
                    #[trigger] results@.subrange(start, results@.len() as int).contains(p) <==> (p.0
                        < p.1 && self.good(blocks@, sk[p.0 as int], sk[p.1 as int]) && exists|a: int, b: int|
                        0 <= a < i && a < b < n && #[trigger] pair_at(recs, a, b, p)),
                results@ == old(results)@ + self.leaf_rows(blocks@, recs, i as int),
            decreases n - i,
        {
            let x = records[i];
            let mut j: usize = i + 1;
            proof {
                assert(results@ =~= old(results)@ + self.leaf_rows(blocks@, recs, i as int) + self.leaf_row(
                    blocks@,
                    recs,
                    i as int,
                    i + 1,
                ));
            }
            while j < n
                invariant
                    self.wf(),
                    recs_ok(recs, sk),
                    recs == records@,
                    n == recs.len(),
                    i < n,
                    i + 1 <= j <= n,
                    x == recs[i as int],
                    forall|c: nat| #[trigger] blocks@.contains(c) ==> c < self.num_blocks,
                    results@.len() >= start,
                    start == old(results)@.len(),
                    results@.subrange(0, start) == old(results)@,
                    results@.subrange(start, results@.len() as int).no_duplicates(),
                    forall|p: (usize, usize)|
                        #[trigger] results@.subrange(start, results@.len() as int).contains(p) <==> (
                        p.0 < p.1 && self.good(blocks@, sk[p.0 as int], sk[p.1 as int]) && exists|
                            a: int,
                            b: int,
                        |
                            ((0 <= a < i && a < b < n) || (a == i && i < b < j)) && #[trigger] pair_at(
                                recs,
                                a,
                                b,
                                p,
                            )),
                    results@ == old(results)@ + self.leaf_rows(blocks@, recs, i as int) + self.leaf_row(
                        blocks@,
                        recs,
                        i as int,
                        j as int,
                    ),
                decreases n - j,
            {
                let y = records[j];
                let ghost old_sub = results@.subrange(start, results@.len() as int);
                proof {
                    if x.id == y.id {
                        lemma_ids_distinct(recs, sk, i as int, j as int);
                    }
                    self.lemma_good_sym(blocks@, x.sketch, y.sketch);
                }
                let ok = x.sketch.hamdist(y.sketch) <= self.radius && self.check_canonical(
                    x.sketch,
                    y.sketch,
                    blocks,
                );
                let ghost q: (usize, usize) = if x.id < y.id {
                    (x.id, y.id)
                } else {
                    (y.id, x.id)
                };
                proof {
                    assert(pair_at(recs, i as int, j as int, q));
                    assert(ok == self.good(blocks@, sk[q.0 as int], sk[q.1 as int]));
                }
                let ghost before_push = results@;
                if ok {
                    let p = if x.id < y.id {
                        (x.id, y.id)
                    } else {
                        (y.id, x.id)
                    };
                    results.push(p);
                    proof {
                        assert(self.emit(blocks@, recs[i as int], recs[j as int]) == seq![p]);
                        assert(self.leaf_row(blocks@, recs, i as int, j + 1) == self.leaf_row(blocks@, recs, i as int, j as int)
                            + seq![p]);
                        assert(results@ =~= old(results)@ + self.leaf_rows(blocks@, recs, i as int) + self.leaf_row(
                            blocks@,
                            recs,
                            i as int,
                            j + 1,
                        ));
                        assert(results@.subrange(0, start) =~= old(results)@);
                        assert(results@.subrange(start, results@.len() as int) =~= old_sub.push(p));
                        if old_sub.contains(p) {
                            let (a, b) = choose|a: int, b: int|
                                ((0 <= a < i && a < b < n) || (a == i && i < b < j)) && #[trigger] pair_at(
                                    recs,
                                    a,
                                    b,
                                    p,
                                );
                            lemma_pair_at_unique(recs, sk, a, b, i as int, j as int, p);
                        }
                        assert forall|r: (usize, usize)|
                            #[trigger] results@.subrange(start, results@.len() as int).contains(r) <==> (
                            r.0 < r.1 && self.good(blocks@, sk[r.0 as int], sk[r.1 as int]) && exists|
                                a: int,
                                b: int,
                            |
                                ((0 <= a < i && a < b < n) || (a == i && i < b < j + 1))
                                    && #[trigger] pair_at(recs, a, b, r)) by {
                            lemma_push_contains(old_sub, p, r);
                            if r == p {
                                assert(pair_at(recs, i as int, j as int, r));
                            }
                            if old_sub.contains(r) {
                            }
                            if exists|a: int, b: int|
                                ((0 <= a < i && a < b < n) || (a == i && i < b < j + 1))
                                    && #[trigger] pair_at(recs, a, b, r) {
                                let (a, b) = choose|a: int, b: int|
                                    ((0 <= a < i && a < b < n) || (a == i && i < b < j + 1))
                                        && #[trigger] pair_at(recs, a, b, r);
                                if a == i && b == j && r.0 < r.1 {
                                    assert(r == p);
                                }
                            }
                        }
                    }
                } else {
                    proof {
                        assert(self.emit(blocks@, recs[i as int], recs[j as int]) =~= Seq::<(usize, usize)>::empty());
                        assert(self.leaf_row(blocks@, recs, i as int, j + 1) =~= self.leaf_row(blocks@, recs, i as int, j as int));
                        assert forall|r: (usize, usize)|
                            #[trigger] results@.subrange(start, results@.len() as int).contains(r) <==> (
                            r.0 < r.1 && self.good(blocks@, sk[r.0 as int], sk[r.1 as int]) && exists|
                                a: int,
                                b: int,
                            |
                                ((0 <= a < i && a < b < n) || (a == i && i < b < j + 1))
                                    && #[trigger] pair_at(recs, a, b, r)) by {
                            if exists|a: int, b: int|
                                ((0 <= a < i && a < b < n) || (a == i && i < b < j + 1))
                                    && #[trigger] pair_at(recs, a, b, r) {
                                let (a, b) = choose|a: int, b: int|
                                    ((0 <= a < i && a < b < n) || (a == i && i < b < j + 1))
                                        && #[trigger] pair_at(recs, a, b, r);
                                if a == i && b == j && r.0 < r.1 {
                                    assert(r == q);
                                }
                            }
                        }
                    }
                }
                j = j + 1;
            }
            proof {
                assert(self.leaf_rows(blocks@, recs, i + 1) == self.leaf_rows(blocks@, recs, i as int) + self.leaf_row(
                    blocks@,
                    recs,
                    i as int,
                    n as int,
                ));
                assert(results@ =~= old(results)@ + self.leaf_rows(blocks@, recs, i + 1));
            }
            i = i + 1;
        }
        proof {
            assert forall|p: (usize, usize)|
                #[trigger] results@.subrange(start, results@.len() as int).contains(p)
                    <==> self.node_pair(blocks@, records@, sk, p) by {
                if p.0 < p.1 {
                    lemma_pair_at_contains(recs, sk, p);
                }
            }
        }
    }

    /// Key of block `b` for position `k`.
    spec fn key(self, recs: Seq<Record>, b: int, k: int) -> u64 {
        recs[k].sketch & self.masks@[b]
    }

    /// Sorts the records by block `block_id`: by comparison below the
    /// threshold, by radix from it on.
    fn sort_sketches(&self, block_id: usize, records: &mut Vec<Record>)
        requires
            self.wf(),
            block_id < self.num_blocks,
            old(records)@.no_duplicates(),
        ensures
            final(records)@.no_duplicates(),
            forall|x: Record| #[trigger] final(records)@.contains(x) <==> old(records)@.contains(x),
            self.sorted_by(final(records)@, block_id as int),
    {
        if records.len() < self.threshold_in_sort {
            self.quick_sort_sketches(block_id, records);
        } else {
            self.radix_sort_sketches(block_id, records);
        }
    }

    /// Sorts the records by block `block_id` with a comparison sort.
    fn quick_sort_sketches(&self, block_id: usize, records: &mut Vec<Record>)
        requires
            self.wf(),
            block_id < self.num_blocks,
            old(records)@.no_duplicates(),
        ensures
            final(records)@.no_duplicates(),
            forall|x: Record| #[trigger] final(records)@.contains(x) <==> old(records)@.contains(x),
            self.sorted_by(final(records)@, block_id as int),
    {
        let mask = self.masks[block_id];
        let ghost pre = records@;
        sort_by_block_key(records, mask);
        proof {
            pre.to_multiset_ensures();
            records@.to_multiset_ensures();
            pre.lemma_multiset_has_no_duplicates();
            records@.lemma_multiset_has_no_duplicates_conv();
            assert forall|x: Record| #[trigger] records@.contains(x) <==> pre.contains(x) by {
                assert(records@.to_multiset().count(x) == pre.to_multiset().count(x));
            }
        }
    }

    /// Byte at bit `j` of the key of block `b` of a record.
    spec fn digit(self, b: int, x: Record, j: u64) -> u64 {
        ((x.sketch & self.masks@[b]) >> j) & 255u64
    }

    /// The key of block `b`, from bit `lo` on, truncated to `s` bits.
    spec fn low_key(self, b: int, x: Record, lo: u64, s: u64) -> u64 {
        low_bits((x.sketch & self.masks@[b]) >> lo, s)
    }

    /// The records are in ascending order of `low_key`.
    spec fn sorted_low(self, recs: Seq<Record>, b: int, lo: u64, s: u64) -> bool {
        forall|x: int, y: int|
            0 <= x < y < recs.len() ==> self.low_key(b, recs[x], lo, s) <= self.low_key(b, recs[y], lo, s)
    }

    /// A stable pass on the byte at bit `lo + s` extends the order on the low
    /// `s` bits to the low `s + 8` bits.
    proof fn lemma_pass_sorted(
        self,
        b: int,
        old_recs: Seq<Record>,
        out: Seq<Record>,
        osrc: Seq<int>,
        lo: u64,
        s: u64,
    )
        requires
            s + 8 <= 64,
            lo + s < 64,
            self.sorted_low(old_recs, b, lo, s),
            osrc.len() == out.len(),
            forall|a: int| 0 <= a < out.len() ==> 0 <= #[trigger] osrc[a] < old_recs.len() && out[a] == old_recs[osrc[a]],
            forall|a: int, c: int|
                #![trigger out[a], out[c]]
                0 <= a < c < out.len() ==> self.digit(b, out[a], (lo + s) as u64) < self.digit(b, out[c], (lo + s) as u64)
                    || (self.digit(b, out[a], (lo + s) as u64) == self.digit(b, out[c], (lo + s) as u64)
                    && osrc[a] < osrc[c]),
        ensures
            self.sorted_low(out, b, lo, (s + 8) as u64),
    {
        assert forall|x: int, y: int| 0 <= x < y < out.len() implies self.low_key(b, out[x], lo, (s + 8) as u64)
            <= self.low_key(b, out[y], lo, (s + 8) as u64) by {
            let k1 = out[x].sketch & self.masks@[b];
            let k2 = out[y].sketch & self.masks@[b];
            lemma_digit_order(k1, k2, lo, s);
            if self.digit(b, out[x], (lo + s) as u64) == self.digit(b, out[y], (lo + s) as u64) {
                assert(self.low_key(b, old_recs[osrc[x]], lo, s) <= self.low_key(b, old_recs[osrc[y]], lo, s));
            }
        }
    }

    /// `new` holds records of `old` (record `k` is `old[origin[k]]`), and
    /// records with equal keys of block `b` keep their order from `old`.
    spec fn stable_from(self, b: int, old: Seq<Record>, new: Seq<Record>, origin: Seq<int>) -> bool {
        &&& origin.len() == new.len()
        &&& forall|k: int| 0 <= k < new.len() ==> 0 <= #[trigger] origin[k] < old.len() && new[k] == old[origin[k]]
        &&& forall|a: int, c: int|
            #![trigger origin[a], origin[c]]
            0 <= a < c < new.len() && (new[a].sketch & self.masks@[b]) == (new[c].sketch & self.masks@[b])
                ==> origin[a] < origin[c]
    }

    /// A stable pass on a byte of the key keeps the records with equal keys
    /// in their order.
    proof fn lemma_stable_pass(
        self,
        b: int,
        orig: Seq<Record>,
        prev: Seq<Record>,
        out: Seq<Record>,
        origin: Seq<int>,
        osrc: Seq<int>,
        jj: u64,
    )
        requires
            self.stable_from(b, orig, prev, origin),
            osrc.len() == out.len(),
            forall|a: int| 0 <= a < out.len() ==> 0 <= #[trigger] osrc[a] < prev.len() && out[a] == prev[osrc[a]],
            forall|a: int, c: int|
                #![trigger out[a], out[c]]
                0 <= a < c < out.len() ==> self.digit(b, out[a], jj) < self.digit(b, out[c], jj) || (self.digit(
                    b,
                    out[a],
                    jj,
                ) == self.digit(b, out[c], jj) && osrc[a] < osrc[c]),
        ensures
            self.stable_from(b, orig, out, Seq::new(out.len(), |a: int| origin[osrc[a]])),
    {
        let no = Seq::new(out.len(), |a: int| origin[osrc[a]]);
        assert forall|k: int| 0 <= k < out.len() implies 0 <= #[trigger] no[k] < orig.len() && out[k] == orig[no[k]] by {
            assert(origin[osrc[k]] == no[k]);
        }
        assert forall|a: int, c: int|
            #![trigger no[a], no[c]]
            0 <= a < c < out.len() && (out[a].sketch & self.masks@[b]) == (out[c].sketch & self.masks@[b])
                implies no[a] < no[c] by {
            assert(out[a] == out[a] && out[c] == out[c]);
            assert(self.digit(b, out[a], jj) == self.digit(b, out[c], jj));
            assert(osrc[a] < osrc[c]);
            assert(prev[osrc[a]] == out[a]);
            assert(prev[osrc[c]] == out[c]);
            assert(origin[osrc[a]] < origin[osrc[c]]);
        }
    }

    /// Sorts the records by block `block_id` with least-significant-digit radix
    /// passes, stable, over the bytes of the block.
    fn radix_sort_sketches(&self, block_id: usize, records: &mut Vec<Record>)
        requires
            self.wf(),
            block_id < self.num_blocks,
            old(records)@.no_duplicates(),
        ensures
            final(records)@.no_duplicates(),
            forall|x: Record| #[trigger] final(records)@.contains(x) <==> old(records)@.contains(x),
            self.sorted_by(final(records)@, block_id as int),
            exists|origin: Seq<int>| self.stable_from(block_id as int, old(records)@, final(records)@, origin),
    {
        let ghost orig = records@;
        let ghost bi = block_id as int;
        let ghost mut origin: Seq<int> = Seq::new(orig.len(), |k: int| k);
        let mask = self.masks[block_id];
        let lo = self.offsets[block_id];
        let end = self.offsets[block_id + 1];
        let mut j = lo;
        proof {
            assert(lo <= end <= 64);
            assert(mask == range_mask(lo as nat, end as nat));
            assert forall|x: int, y: int| 0 <= x < y < records@.len() implies self.low_key(bi, records@[x], lo as u64, 0)
                <= self.low_key(bi, records@[y], lo as u64, 0) by {
                let v1 = (records@[x].sketch & mask) >> (lo as u64);
                let v2 = (records@[y].sketch & mask) >> (lo as u64);
                assert(v1 & (((1u64 << 0u64) - 1) as u64) == 0) by (bit_vector);
                assert(v2 & (((1u64 << 0u64) - 1) as u64) == 0) by (bit_vector);
            }
            assert(self.stable_from(bi, orig, records@, origin));
        }
        while j < end
            invariant
                lo <= j,
                j < end + 8,
                (j - lo) % 8 == 0,
                end <= 64,
                mask == self.masks@[bi],
                records@.no_duplicates(),
                forall|x: Record| #[trigger] records@.contains(x) <==> orig.contains(x),
                self.sorted_low(records@, bi, lo as u64, (j - lo) as u64),
                self.stable_from(bi, orig, records@, origin),
            decreases end + 8 - j,
        {
            let ghost s = (j - lo) as u64;
            let ghost jj = j as u64;
            let mut buckets: Vec<Vec<Record>> = Vec::with_capacity(256);
            let mut v: usize = 0;
            while v < 256
                invariant
                    v <= 256,
                    buckets@.len() == v,
                    forall|u: int| 0 <= u < v ==> (#[trigger] buckets@[u])@.len() == 0,
                decreases 256 - v,
            {
                buckets.push(Vec::new());
                v = v + 1;
            }
            let n = records.len();
            let ghost mut src: Seq<Seq<int>> = Seq::new(256, |u: int| Seq::<int>::empty());
            let mut k: usize = 0;
            while k < n
                invariant
                    j < end <= 64,
                    jj == j,
                    mask == self.masks@[bi],
                    n == records@.len(),
                    k <= n,
                    records@.no_duplicates(),
                    buckets@.len() == 256,
                    src.len() == 256,
                    forall|u: int, x: Record|
                        0 <= u < 256 && #[trigger] buckets@[u]@.contains(x) ==> self.digit(bi, x, jj) == u,
                    forall|u: int| 0 <= u < 256 ==> #[trigger] buckets@[u]@.no_duplicates(),
                    forall|x: Record|
                        #[trigger] records@.subrange(0, k as int).contains(x) <==> exists|u: int|
                            0 <= u < 256 && #[trigger] buckets@[u]@.contains(x),
                    forall|u: int| 0 <= u < 256 ==> (#[trigger] src[u]).len() == buckets@[u]@.len(),
                    forall|u: int, i: int|
                        0 <= u < 256 && 0 <= i < src[u].len() ==> 0 <= #[trigger] src[u][i] < k && buckets@[u]@[i]
                            == records@[src[u][i]],
                    forall|u: int, i1: int, i2: int|
                        0 <= u < 256 && 0 <= i1 < i2 < src[u].len() ==> #[trigger] src[u][i1] < #[trigger] src[u][i2],
                decreases n - k,
            {
                let x = records[k];
                let d = (((x.sketch & mask) >> (j as u64)) & 255u64) as usize;
                proof {
                    let xs = x.sketch;
                    assert(((xs & mask) >> jj) & 255u64 <= 255) by (bit_vector);
                    if buckets@[d as int]@.contains(x) {
                        assert(records@.subrange(0, k as int).contains(x));
                        let i = choose|i: int| 0 <= i < k && records@.subrange(0, k as int)[i] == x;
                        assert(records@[i] == records@[k as int]);
                    }
                }
                let ghost before = buckets@;
                proof {
                    assert(!before[d as int]@.contains(x));
                    assert(forall|u: int| 0 <= u < 256 ==> #[trigger] before[u]@.no_duplicates());
                }
                buckets[d].push(x);
                proof {
                    let old_src = src;
                    src = src.update(d as int, src[d as int].push(k as int));
                    assert forall|u: int| 0 <= u < 256 && u != d implies buckets@[u] == before[u] by {}
                    assert forall|u: int, y: Record|
                        0 <= u < 256 && #[trigger] buckets@[u]@.contains(y) implies self.digit(bi, y, jj) == u by {
                        if u == d {
                            lemma_push_contains(before[u]@, x, y);
                        }
                    }
                    assert forall|u: int| 0 <= u < 256 implies #[trigger] buckets@[u]@.no_duplicates() by {
                        if u == d {
                            assert forall|a: int, b: int|
                                0 <= a < b < buckets@[u]@.len() implies buckets@[u]@[a] != buckets@[u]@[b] by {
                                assert(buckets@[u]@ == before[u]@.push(x));
                                assert(buckets@[u]@[a] == before[u]@[a]);
                                if b == buckets@[u]@.len() - 1 {
                                    assert(before[u]@.contains(buckets@[u]@[a]));
                                    assert(buckets@[u]@[b] == x);
                                } else {
                                    assert(buckets@[u]@[b] == before[u]@[b]);
                                    assert(before[u]@.no_duplicates());
                                }
                            }
                        }
                    }
                    assert forall|y: Record|
                        #[trigger] records@.subrange(0, k + 1).contains(y) <==> exists|u: int|
                            0 <= u < 256 && #[trigger] buckets@[u]@.contains(y) by {
                        assert(records@.subrange(0, k + 1) =~= records@.subrange(0, k as int).push(x));
                        lemma_push_contains(records@.subrange(0, k as int), x, y);
                        lemma_push_contains(before[d as int]@, x, y);
                        if exists|u: int| 0 <= u < 256 && #[trigger] buckets@[u]@.contains(y) {
                            let u = choose|u: int| 0 <= u < 256 && #[trigger] buckets@[u]@.contains(y);
                            if u != d {
                                assert(before[u]@.contains(y));
                            }
                        }
                        if records@.subrange(0, k as int).contains(y) {
                            let u = choose|u: int| 0 <= u < 256 && #[trigger] before[u]@.contains(y);
                            if u == d {
                                lemma_push_contains(before[u]@, x, y);
                            } else {
                                assert(buckets@[u] == before[u]);
                            }
                            assert(buckets@[u]@.contains(y));
                        }
                        if y == x {
                            assert(buckets@[d as int]@.contains(y));
                        }
                    }
                    assert forall|u: int| 0 <= u < 256 implies (#[trigger] src[u]).len() == buckets@[u]@.len() by {
                        if u != d {
                            assert(src[u] == old_src[u]);
                        }
                    }
                    assert forall|u: int, i: int|
                        0 <= u < 256 && 0 <= i < src[u].len() implies 0 <= #[trigger] src[u][i] < k + 1 && buckets@[u]@[i]
                            == records@[src[u][i]] by {
                        if u != d {
                            assert(src[u] == old_src[u]);
                        } else if i < old_src[u].len() {
                            assert(src[u][i] == old_src[u][i]);
                            assert(buckets@[u]@[i] == before[u]@[i]);
                        }
                    }
                    assert forall|u: int, i1: int, i2: int|
                        0 <= u < 256 && 0 <= i1 < i2 < src[u].len() implies #[trigger] src[u][i1] < #[trigger] src[u][i2] by {
                        if u != d {
                            assert(src[u] == old_src[u]);
                        } else {
                            assert(src[u][i1] == old_src[u][i1]);
                            if i2 < old_src[u].len() {
                                assert(src[u][i2] == old_src[u][i2]);
                            }
                        }
                    }
                }
                k = k + 1;
            }
            proof {
                assert(records@.subrange(0, n as int) =~= records@);
            }
            let mut out: Vec<Record> = Vec::with_capacity(n);
            let ghost mut osrc: Seq<int> = Seq::empty();
            let mut u: usize = 0;
            while u < 256
                invariant
                    u <= 256,
                    jj == j,
                    n == records@.len(),
                    buckets@.len() == 256,
                    src.len() == 256,
                    forall|w: int, x: Record|
                        0 <= w < 256 && #[trigger] buckets@[w]@.contains(x) ==> self.digit(bi, x, jj) == w,
                    forall|w: int| 0 <= w < 256 ==> #[trigger] buckets@[w]@.no_duplicates(),
                    forall|w: int| 0 <= w < 256 ==> (#[trigger] src[w]).len() == buckets@[w]@.len(),
                    forall|w: int, i: int|
                        0 <= w < 256 && 0 <= i < src[w].len() ==> 0 <= #[trigger] src[w][i] < n && buckets@[w]@[i]
                            == records@[src[w][i]],
                    forall|w: int, i1: int, i2: int|
                        0 <= w < 256 && 0 <= i1 < i2 < src[w].len() ==> #[trigger] src[w][i1] < #[trigger] src[w][i2],
                    out@.no_duplicates(),
                    forall|x: Record|
                        #[trigger] out@.contains(x) <==> exists|w: int| 0 <= w < u && #[trigger] buckets@[w]@.contains(x),
                    osrc.len() == out@.len(),
                    forall|a: int| 0 <= a < out@.len() ==> 0 <= #[trigger] osrc[a] < n && out@[a] == records@[osrc[a]],
                    forall|a: int| 0 <= a < out@.len() ==> self.digit(bi, #[trigger] out@[a], jj) < u,
                    forall|a: int, c: int|
                        #![trigger out@[a], out@[c]]
                        0 <= a < c < out@.len() ==> self.digit(bi, out@[a], jj) < self.digit(bi, out@[c], jj) || (self.digit(
                            bi,
                            out@[a],
                            jj,
                        ) == self.digit(bi, out@[c], jj) && osrc[a] < osrc[c]),
                decreases 256 - u,
            {
                let bucket = &buckets[u];
                let mut i: usize = 0;
                let ghost start = out@;
                let ghost start_src = osrc;
                proof {
                    assert forall|a: int, c: int|
                        #![trigger start[a], start[c]]
                        0 <= a < c < start.len() implies self.digit(bi, start[a], jj) < self.digit(bi, start[c], jj) || (
                        self.digit(bi, start[a], jj) == self.digit(bi, start[c], jj) && start_src[a] < start_src[c]) by {
                        assert(start[a] == out@[a]);
                        assert(start[c] == out@[c]);
                    }
                }
                while i < bucket.len()
                    invariant
                        u < 256,
                        jj == j,
                        n == records@.len(),
                        i <= bucket@.len(),
                        bucket@ == buckets@[u as int]@,
                        bucket@.no_duplicates(),
                        src[u as int].len() == bucket@.len(),
                        forall|i2: int| 0 <= i2 < bucket@.len() ==> 0 <= #[trigger] src[u as int][i2] < n && bucket@[i2]
                            == records@[src[u as int][i2]],
                        forall|i1: int, i2: int|
                            0 <= i1 < i2 < bucket@.len() ==> #[trigger] src[u as int][i1] < #[trigger] src[u as int][i2],
                        forall|x: Record| #[trigger] bucket@.contains(x) ==> self.digit(bi, x, jj) == u,
                        forall|w: int, x: Record|
                            0 <= w < 256 && #[trigger] buckets@[w]@.contains(x) ==> self.digit(bi, x, jj) == w,
                        start.no_duplicates(),
                        forall|x: Record|
                            #[trigger] start.contains(x) <==> exists|w: int| 0 <= w < u && #[trigger] buckets@[w]@.contains(x),
                        out@ == start + bucket@.subrange(0, i as int),
                        osrc == start_src + src[u as int].subrange(0, i as int),
                        start_src.len() == start.len(),
                        forall|a: int| 0 <= a < start.len() ==> 0 <= #[trigger] start_src[a] < n && start[a] == records@[start_src[a]],
                        forall|a: int| 0 <= a < start.len() ==> self.digit(bi, #[trigger] start[a], jj) < u,
                        forall|a: int, c: int|
                            #![trigger start[a], start[c]]
                            0 <= a < c < start.len() ==> self.digit(bi, start[a], jj) < self.digit(bi, start[c], jj) || (
                            self.digit(bi, start[a], jj) == self.digit(bi, start[c], jj) && start_src[a] < start_src[c]),
                    decreases bucket@.len() - i,
                {
                    let x = bucket[i];
                    proof {
                        let cur = bucket@.subrange(0, i as int);
                        if start.contains(x) {
                            let w = choose|w: int| 0 <= w < u && #[trigger] buckets@[w]@.contains(x);
                            assert(bucket@.contains(x));
                        }
                        if cur.contains(x) {
                            let a = choose|a: int| 0 <= a < i && cur[a] == x;
                            assert(bucket@[a] == bucket@[i as int]);
                        }
                        assert(bucket@.subrange(0, i + 1) =~= cur.push(x));
                    }
                    out.push(x);
                    proof {
                        osrc = osrc.push(src[u as int][i as int]);
                        let cur1 = bucket@.subrange(0, i + 1);
                        assert forall|y: Record| start.contains(y) implies !cur1.contains(y) by {
                            if cur1.contains(y) {
                                let a = choose|a: int| 0 <= a < cur1.len() && cur1[a] == y;
                                assert(bucket@[a] == y);
                                assert(bucket@.contains(y));
                                let w = choose|w: int| 0 <= w < u && #[trigger] buckets@[w]@.contains(y);
                            }
                        }
                        assert(cur1.no_duplicates()) by {
                            assert forall|a: int, b: int| 0 <= a < b < cur1.len() implies cur1[a] != cur1[b] by {
                                assert(cur1[a] == bucket@[a]);
                                assert(cur1[b] == bucket@[b]);
                            }
                        }
                        lemma_concat_no_dup(start, cur1);
                        assert(out@ =~= start + cur1);
                        assert(osrc =~= start_src + src[u as int].subrange(0, i + 1));
                    }
                    i = i + 1;
                }
                proof {
                    assert(bucket@.subrange(0, bucket@.len() as int) =~= bucket@);
                    assert(src[u as int].subrange(0, bucket@.len() as int) =~= src[u as int]);
                    assert forall|y: Record| start.contains(y) implies !bucket@.contains(y) by {
                        if bucket@.contains(y) {
                            let w = choose|w: int| 0 <= w < u && #[trigger] buckets@[w]@.contains(y);
                        }
                    }
                    lemma_concat_no_dup(start, bucket@);
                    assert forall|x: Record|
                        #[trigger] out@.contains(x) <==> exists|w: int| 0 <= w < u + 1 && #[trigger] buckets@[w]@.contains(x) by {
                        if exists|w: int| 0 <= w < u + 1 && #[trigger] buckets@[w]@.contains(x) {
                            let w = choose|w: int| 0 <= w < u + 1 && #[trigger] buckets@[w]@.contains(x);
                            if w < u {
                                assert(start.contains(x));
                            }
                        }
                    }
                    let sl = start.len() as int;
                    assert forall|a: int| 0 <= a < out@.len() implies 0 <= #[trigger] osrc[a] < n && out@[a] == records@[osrc[a]] by {
                        if a >= sl {
                            assert(out@[a] == bucket@[a - sl]);
                            assert(osrc[a] == src[u as int][a - sl]);
                        } else {
                            assert(out@[a] == start[a]);
                            assert(osrc[a] == start_src[a]);
                        }
                    }
                    assert forall|a: int| 0 <= a < out@.len() implies self.digit(bi, #[trigger] out@[a], jj) < u + 1 by {
                        if a >= sl {
                            assert(out@[a] == bucket@[a - sl]);
                            assert(bucket@.contains(bucket@[a - sl]));
                        } else {
                            assert(out@[a] == start[a]);
                        }
                    }
                    assert forall|a: int, c: int|
                        #![trigger out@[a], out@[c]]
                        0 <= a < c < out@.len() implies self.digit(bi, out@[a], jj) < self.digit(bi, out@[c], jj) || (self.digit(
                            bi,
                            out@[a],
                            jj,
                        ) == self.digit(bi, out@[c], jj) && osrc[a] < osrc[c]) by {
                        if c >= sl {
                            assert(out@[c] == bucket@[c - sl]);
                            assert(bucket@.contains(bucket@[c - sl]));
                            assert(osrc[c] == src[u as int][c - sl]);
                            if a >= sl {
                                assert(out@[a] == bucket@[a - sl]);
                                assert(bucket@.contains(bucket@[a - sl]));
                                assert(osrc[a] == src[u as int][a - sl]);
                            } else {
                                assert(out@[a] == start[a]);
                            }
                        } else {
                            assert(out@[a] == start[a]);
                            assert(out@[c] == start[c]);
                            assert(osrc[a] == start_src[a]);
                            assert(osrc[c] == start_src[c]);
                        }
                    }
                }
                u = u + 1;
            }
            proof {
                assert forall|x: Record| #[trigger] out@.contains(x) <==> orig.contains(x) by {
                    if records@.contains(x) {
                        assert(records@.subrange(0, n as int).contains(x));
                    }
                    if out@.contains(x) {
                        let w = choose|w: int| 0 <= w < 256 && #[trigger] buckets@[w]@.contains(x);
                        assert(records@.subrange(0, n as int).contains(x));
                    }
                }
                assert(s + 8 <= 64);
                assert((lo + s) as u64 == jj);
                assert forall|a: int, c: int|
                    #![trigger out@[a], out@[c]]
                    0 <= a < c < out@.len() implies self.digit(bi, out@[a], (lo + s) as u64) < self.digit(bi, out@[c], (lo + s) as u64)
                        || (self.digit(bi, out@[a], (lo + s) as u64) == self.digit(bi, out@[c], (lo + s) as u64)
                        && osrc[a] < osrc[c]) by {
                    assert(self.digit(bi, out@[a], jj) < self.digit(bi, out@[c], jj) || (self.digit(bi, out@[a], jj)
                        == self.digit(bi, out@[c], jj) && osrc[a] < osrc[c]));
                }
                self.lemma_pass_sorted(bi, records@, out@, osrc, lo as u64, s);
                self.lemma_stable_pass(bi, orig, records@, out@, origin, osrc, jj);
                origin = Seq::new(out@.len(), |a: int| origin[osrc[a]]);
            }
            *records = out;
            j = j + 8;
        }
        proof {
            let sf = (j - lo) as u64;
            assert(sf <= 64);
            assert forall|x: int, y: int| 0 <= x < y < records@.len() implies self.key(records@, bi, x) <= self.key(records@, bi, y) by {
                if lo < end {
                    assert(self.low_key(bi, records@[x], lo as u64, sf) <= self.low_key(bi, records@[y], lo as u64, sf));
                    lemma_block_key_order(records@[x].sketch, records@[y].sketch, lo as nat, end as nat, sf);
                } else {
                    let a1 = records@[x].sketch;
                    let a2 = records@[y].sketch;
                    assert(a1 & 0u64 <= a2 & 0u64) by (bit_vector);
                }
            }
        }
    }

    /// Keys of block `b` never decrease along `recs`.
    spec fn sorted_by(self, recs: Seq<Record>, b: int) -> bool {
        forall|x: int, y: int| 0 <= x < y < recs.len() ==> self.key(recs, b, x) <= self.key(recs, b, y)
    }

    /// `r` lists the runs of equal keys of length two or more, in order, among
    /// positions below `upto`.
    spec fn runs_upto(self, r: Seq<std::ops::Range<usize>>, recs: Seq<Record>, b: int, upto: int) -> bool {
        &&& forall|t: int| #![trigger r[t]] 0 <= t < r.len() ==> r[t].start + 2 <= r[t].end <= upto
        &&& forall|t: int, u: int| 0 <= t < u < r.len() ==> #[trigger] r[t].end <= #[trigger] r[u].start
        &&& forall|t: int, k: int|
            0 <= t < r.len() && r[t].start <= k < r[t].end ==> #[trigger] self.key(recs, b, k)
                == self.key(recs, b, #[trigger] r[t].start as int)
        &&& forall|x: int, y: int|
            0 <= x < y < upto && self.key(recs, b, x) == self.key(recs, b, y) ==> exists|t: int|
                0 <= t < r.len() && #[trigger] r[t].start <= x && y < r[t].end
    }

    /// `r` lists, in ascending order, the maximal runs of two or more adjacent
    /// records with equal keys of block `b` among positions below `upto`: each
    /// run is uniform, cannot be extended to the left, nor to the right below
    /// `upto`, and every two adjacent equal keys lie in one run.
    spec fn adjacent_runs(self, r: Seq<std::ops::Range<usize>>, recs: Seq<Record>, b: int, upto: int) -> bool {
        &&& forall|t: int| #![trigger r[t]] 0 <= t < r.len() ==> r[t].start + 2 <= r[t].end <= upto
        &&& forall|t: int, u: int| 0 <= t < u < r.len() ==> #[trigger] r[t].end <= #[trigger] r[u].start
        &&& forall|t: int, k: int|
            0 <= t < r.len() && r[t].start <= k < r[t].end ==> #[trigger] self.key(recs, b, k)
                == self.key(recs, b, #[trigger] r[t].start as int)
        &&& forall|t: int|
            #![trigger r[t]]
            0 <= t < r.len() && r[t].start > 0 ==> self.key(recs, b, r[t].start - 1) != self.key(
                recs,
                b,
                r[t].start as int,
            )
        &&& forall|t: int|
            #![trigger r[t]]
            0 <= t < r.len() && r[t].end < upto ==> self.key(recs, b, r[t].end as int) != self.key(
                recs,
                b,
                r[t].end - 1,
            )
        &&& forall|k: int|
            #![trigger self.key(recs, b, k)]
            0 <= k && k + 1 < upto && self.key(recs, b, k) == self.key(recs, b, k + 1) ==> exists|t: int|
                0 <= t < r.len() && #[trigger] r[t].start <= k && k + 1 < r[t].end
    }

    /// Closing the run `i..j` keeps the list of runs complete up to `j`.
    proof fn lemma_close_run(
        self,
        recs: Seq<Record>,
        b: int,
        old_r: Seq<std::ops::Range<usize>>,
        new_r: Seq<std::ops::Range<usize>>,
        i: usize,
        j: usize,
    )
        requires
            0 <= i < j <= recs.len(),
            forall|k: int| i <= k < j ==> #[trigger] self.key(recs, b, k) == self.key(recs, b, i as int),
            i > 0 ==> self.key(recs, b, i - 1) != self.key(recs, b, i as int),
            self.adjacent_runs(old_r, recs, b, i as int),
            new_r == if j - i >= 2 {
                old_r.push(i..j)
            } else {
                old_r
            },
        ensures
            self.adjacent_runs(new_r, recs, b, j as int),
    {
        assert forall|t: int| 0 <= t < old_r.len() implies new_r[t] == old_r[t] by {}
        assert forall|k: int|
            #![trigger self.key(recs, b, k)]
            0 <= k && k + 1 < j && self.key(recs, b, k) == self.key(recs, b, k + 1) implies exists|t: int|
                0 <= t < new_r.len() && #[trigger] new_r[t].start <= k && k + 1 < new_r[t].end by {
            if k + 1 < i {
                let t = choose|t: int| 0 <= t < old_r.len() && #[trigger] old_r[t].start <= k && k + 1 < old_r[t].end;
                assert(new_r[t] == old_r[t]);
            } else if k >= i {
                let t = new_r.len() - 1;
                assert(0 <= t < new_r.len() && new_r[t].start <= k && k + 1 < new_r[t].end);
            } else {
                assert(self.key(recs, b, k + 1) == self.key(recs, b, i as int));
            }
        }
        assert forall|t: int, u: int| 0 <= t < u < new_r.len() implies #[trigger] new_r[t].end <= #[trigger] new_r[u].start by {
            assert(new_r[t] == old_r[t]);
            assert(old_r[t].start + 2 <= old_r[t].end <= i);
            if u < old_r.len() {
                assert(new_r[u] == old_r[u]);
            } else {
                assert(new_r[u].start == i);
            }
        }
        assert forall|t: int, k: int|
            0 <= t < new_r.len() && new_r[t].start <= k < new_r[t].end implies #[trigger] self.key(recs, b, k)
                == self.key(recs, b, #[trigger] new_r[t].start as int) by {
            if t < old_r.len() {
                assert(new_r[t] == old_r[t]);
            }
        }
        assert forall|t: int|
            #![trigger new_r[t]]
            0 <= t < new_r.len() && new_r[t].end < j implies self.key(recs, b, new_r[t].end as int) != self.key(
                recs,
                b,
                new_r[t].end - 1,
            ) by {
            assert(new_r[t] == old_r[t]);
            assert(old_r[t].start + 2 <= old_r[t].end <= i);
        }
    }

    /// For records sorted by the key, every two records with equal keys lie in
    /// one of the maximal runs.
    proof fn lemma_sorted_runs(self, r: Seq<std::ops::Range<usize>>, recs: Seq<Record>, b: int)
        requires
            self.sorted_by(recs, b),
            self.adjacent_runs(r, recs, b, recs.len() as int),
        ensures
            self.runs_upto(r, recs, b, recs.len() as int),
    {
        assert forall|x: int, y: int|
            0 <= x < y < recs.len() && self.key(recs, b, x) == self.key(recs, b, y) implies exists|t: int|
                0 <= t < r.len() && #[trigger] r[t].start <= x && y < r[t].end by {
            self.lemma_sorted_pair(r, recs, b, x, y);
        }
    }

    proof fn lemma_sorted_pair(self, r: Seq<std::ops::Range<usize>>, recs: Seq<Record>, b: int, x: int, y: int)
        requires
            self.sorted_by(recs, b),
            self.adjacent_runs(r, recs, b, recs.len() as int),
            0 <= x < y < recs.len(),
            self.key(recs, b, x) == self.key(recs, b, y),
        ensures
            exists|t: int| 0 <= t < r.len() && #[trigger] r[t].start <= x && y < r[t].end,
        decreases y - x,
    {
        assert(self.key(recs, b, x) <= self.key(recs, b, x + 1));
        if x + 1 < y {
            assert(self.key(recs, b, x + 1) <= self.key(recs, b, y));
        }
        assert(self.key(recs, b, x) == self.key(recs, b, x + 1));
        let t0 = choose|t: int| 0 <= t < r.len() && #[trigger] r[t].start <= x && x + 1 < r[t].end;
        if x + 1 < y {
            self.lemma_sorted_pair(r, recs, b, x + 1, y);
            let t1 = choose|t: int| 0 <= t < r.len() && #[trigger] r[t].start <= x + 1 && y < r[t].end;
            if t0 < t1 {
                assert(r[t0].end <= r[t1].start);
            } else if t1 < t0 {
                assert(r[t1].end <= r[t0].start);
            }
            assert(r[t0].start <= x && y < r[t0].end);
        }
    }

    /// Finds the maximal runs of two or more adjacent records with equal keys
    /// of block `block_id`; on records sorted by that key, these hold every two
    /// records with equal keys.
    fn collision_ranges(&self, block_id: usize, records: &Vec<Record>, ranges: &mut Vec<std::ops::Range<usize>>)
        requires
            self.wf(),
            block_id < self.num_blocks,
        ensures
            self.adjacent_runs(final(ranges)@, records@, block_id as int, records@.len() as int),
            self.sorted_by(records@, block_id as int) ==> self.runs_upto(
                final(ranges)@,
                records@,
                block_id as int,
                records@.len() as int,
            ),
    {
        ranges.clear();
        let n = records.len();
        let ghost bi = block_id as int;
        if n == 0 {
            proof {
                assert(self.adjacent_runs(ranges@, records@, bi, 0));
                assert(self.runs_upto(ranges@, records@, bi, 0));
            }
            return;
        }
        let mask = self.masks[block_id];
        let mut i: usize = 0;
        let mut j: usize = 1;
        proof {
            assert(self.adjacent_runs(ranges@, records@, bi, 0));
        }
        while j < n
            invariant
                n == records@.len(),
                1 <= n,
                i < j <= n,
                mask == self.masks@[bi],
                bi == block_id,
                forall|k: int| i <= k < j ==> #[trigger] self.key(records@, bi, k) == self.key(records@, bi, i as int),
                i > 0 ==> self.key(records@, bi, i - 1) != self.key(records@, bi, i as int),
                self.adjacent_runs(ranges@, records@, bi, i as int),
            decreases n - j,
        {
            let x = records[i].sketch & mask;
            let y = records[j].sketch & mask;
            if x != y {
                let ghost old_ranges = ranges@;
                if 2 <= j - i {
                    ranges.push(i..j);
                }
                proof {
                    self.lemma_close_run(records@, bi, old_ranges, ranges@, i, j);
                }
                i = j;
            }
            j = j + 1;
        }
        let ghost old_ranges = ranges@;
        if 2 <= n - i {
            ranges.push(i..n);
        }
        proof {
            self.lemma_close_run(records@, bi, old_ranges, ranges@, i, n);
            if self.sorted_by(records@, bi) {
                self.lemma_sorted_runs(ranges@, records@, bi);
            }
        }
    }

    /// Records all agree on the blocks of `s`.
    spec fn all_agree(self, s: Set<nat>, recs: Seq<Record>) -> bool {
        forall|x: Record, y: Record, c: nat|
            #![trigger recs.contains(x), recs.contains(y), s.contains(c)]
            recs.contains(x) && recs.contains(y) && s.contains(c) ==> self.agree(c, x.sketch, y.sketch)
    }

    proof fn lemma_count_mono(self, x: u64, y: u64, m: nat, k: nat)
        requires
            m <= k,
        ensures
            self.count_agree(x, y, m) <= self.count_agree(x, y, k),
        decreases k,
    {
        if k > m {
            self.lemma_count_mono(x, y, m, (k - 1) as nat);
        }
    }

    proof fn lemma_count_flat(self, x: u64, y: u64, m: nat, k: nat)
        requires
            m <= k,
            self.count_agree(x, y, k) <= self.count_agree(x, y, m),
        ensures
            forall|c: nat| m <= c < k ==> !self.agree(c, x, y),
        decreases k,
    {
        if k > m {
            self.lemma_count_mono(x, y, m, (k - 1) as nat);
            self.lemma_count_flat(x, y, m, (k - 1) as nat);
        }
    }

    /// Where more blocks agree below `k` than below `m`, a first agreeing block
    /// at or above `m` exists.
    proof fn lemma_first_agree(self, x: u64, y: u64, m: nat, k: nat)
        requires
            m <= k,
            self.count_agree(x, y, k) > self.count_agree(x, y, m),
        ensures
            exists|c: nat|
                m <= c < k && self.agree(c, x, y) && forall|c2: nat| m <= c2 < c ==> !self.agree(c2, x, y),
        decreases k,
    {
        let k1 = (k - 1) as nat;
        if self.count_agree(x, y, k1) > self.count_agree(x, y, m) {
            self.lemma_first_agree(x, y, m, k1);
            let c = choose|c: nat|
                m <= c < k1 && self.agree(c, x, y) && forall|c2: nat| m <= c2 < c ==> !self.agree(c2, x, y);
            assert(m <= c < k);
        } else {
            self.lemma_count_flat(x, y, m, k1);
            assert(self.agree(k1, x, y));
        }
    }

    /// The recursion step: a pair is canonical for `s` exactly when it agrees on
    /// some later block `c` and is canonical for `s` with `c` added.
    proof fn lemma_step(self, s: Set<nat>, m: nat, x: u64, y: u64)
        requires
            self.wf(),
            fits(x, S::spec_dim()),
            fits(y, S::spec_dim()),
            s.finite(),
            s.len() < self.num_blocks - self.radius,
            forall|c: nat| #[trigger] s.contains(c) ==> c < m && self.agree(c, x, y),
            m == 0 || s.contains((m - 1) as nat),
            m <= self.num_blocks,
        ensures
            self.good(s, x, y) <==> exists|c: nat|
                m <= c < self.num_blocks && self.agree(c, x, y) && self.good(s.insert(c), x, y),
    {
        if self.good(s, x, y) {
            let a = Set::new(|c: nat| c < m && self.agree(c, x, y));
            assert forall|c: nat| a.contains(c) <==> s.contains(c) by {
                if a.contains(c) && !s.contains(c) {
                    assert(s.contains((m - 1) as nat));
                    assert(c != m - 1);
                    assert(!self.agree(c, x, y));
                }
            }
            assert(a =~= s);
            self.lemma_count_agree_set(x, y, m);
            self.lemma_block_pigeonhole(x, y);
            self.lemma_first_agree(x, y, m, self.num_blocks as nat);
            let c = choose|c: nat|
                m <= c < self.num_blocks && self.agree(c, x, y) && forall|c2: nat|
                    m <= c2 < c ==> !self.agree(c2, x, y);
            let t = s.insert(c);
            assert forall|c1: nat, d: nat|
                #![trigger t.contains(d), self.agree(c1, x, y)]
                !t.contains(c1) && t.contains(d) && c1 < d implies !self.agree(c1, x, y) by {
                if c1 < m {
                    assert(!a.contains(c1));
                }
            }
            assert(self.good(t, x, y));
        }
        if exists|c: nat| m <= c < self.num_blocks && self.agree(c, x, y) && self.good(s.insert(c), x, y) {
            let c = choose|c: nat|
                m <= c < self.num_blocks && self.agree(c, x, y) && self.good(s.insert(c), x, y);
            let t = s.insert(c);
            assert forall|c1: nat, d: nat|
                #![trigger s.contains(d), self.agree(c1, x, y)]
                !s.contains(c1) && s.contains(d) && c1 < d implies !self.agree(c1, x, y) by {
                assert(t.contains(d));
                assert(!t.contains(c1));
            }
        }
    }

    /// Two different runs share no record.
    proof fn lemma_runs_disjoint(
        self,
        recs: Seq<Record>,
        ranges: Seq<std::ops::Range<usize>>,
        b: int,
        sk: Seq<u64>,
        u: int,
        t: int,
        x: Record,
    )
        requires
            recs_ok(recs, sk),
            self.runs_upto(ranges, recs, b, recs.len() as int),
            0 <= u < ranges.len(),
            0 <= t < ranges.len(),
            recs.subrange(ranges[u].start as int, ranges[u].end as int).contains(x),
            recs.subrange(ranges[t].start as int, ranges[t].end as int).contains(x),
        ensures
            u == t,
    {
        let su = recs.subrange(ranges[u].start as int, ranges[u].end as int);
        let st = recs.subrange(ranges[t].start as int, ranges[t].end as int);
        assert(ranges[u].start + 2 <= ranges[u].end <= recs.len());
        assert(ranges[t].start + 2 <= ranges[t].end <= recs.len());
        let k1 = choose|k: int| 0 <= k < su.len() && su[k] == x;
        let k2 = choose|k: int| 0 <= k < st.len() && st[k] == x;
        assert(recs[ranges[u].start + k1] == recs[ranges[t].start + k2]);
        if u < t {
            assert(ranges[u].end <= ranges[t].start);
        } else if t < u {
            assert(ranges[t].end <= ranges[u].start);
        }
    }

    /// The pairs reported over all runs of block `b` are the pairs of `recs` that
    /// agree on `b`.
    #[verifier::spinoff_prover]
    #[verifier::rlimit(50)]
    proof fn lemma_block_pairs(
        self,
        recs: Seq<Record>,
        ranges: Seq<std::ops::Range<usize>>,
        b: int,
        next: Set<nat>,
        sk: Seq<u64>,
        p: (usize, usize),
    )
        requires
            recs_ok(recs, sk),
            0 <= b,
            self.runs_upto(ranges, recs, b, recs.len() as int),
        ensures
            (exists|u: int|
                0 <= u < ranges.len() && self.node_pair(
                    next,
                    recs.subrange(ranges[u].start as int, ranges[u].end as int),
                    sk,
                    p,
                )) <==> (self.agree(b as nat, sk[p.0 as int], sk[p.1 as int]) && self.node_pair(
                next,
                recs,
                sk,
                p,
            )),
    {
        if exists|u: int|
            0 <= u < ranges.len() && self.node_pair(
                next,
                recs.subrange(ranges[u].start as int, ranges[u].end as int),
                sk,
                p,
            ) {
            let u = choose|u: int|
                0 <= u < ranges.len() && self.node_pair(
                    next,
                    recs.subrange(ranges[u].start as int, ranges[u].end as int),
                    sk,
                    p,
                );
            let lo_u = ranges[u].start as int;
            assert(ranges[u].start + 2 <= ranges[u].end <= recs.len());
            let su = recs.subrange(lo_u, ranges[u].end as int);
            lemma_subrange_ok(recs, sk, lo_u, ranges[u].end as int);
            let k1 = choose|k: int| 0 <= k < su.len() && su[k] == rec_of(sk, p.0);
            let k2 = choose|k: int| 0 <= k < su.len() && su[k] == rec_of(sk, p.1);
            assert(self.key(recs, b, lo_u + k1) == self.key(recs, b, lo_u));
            assert(self.key(recs, b, lo_u + k2) == self.key(recs, b, lo_u));
            assert(recs.contains(rec_of(sk, p.0)));
            assert(recs.contains(rec_of(sk, p.1)));
        }
        if self.agree(b as nat, sk[p.0 as int], sk[p.1 as int]) && self.node_pair(next, recs, sk, p) {
            let k1 = choose|k: int| 0 <= k < recs.len() && recs[k] == rec_of(sk, p.0);
            let k2 = choose|k: int| 0 <= k < recs.len() && recs[k] == rec_of(sk, p.1);
            assert(k1 != k2);
            let (a1, a2) = if k1 < k2 {
                (k1, k2)
            } else {
                (k2, k1)
            };
            assert(self.key(recs, b, a1) == self.key(recs, b, a2));
            let u = choose|u: int| 0 <= u < ranges.len() && #[trigger] ranges[u].start <= a1 && a2 < ranges[u].end;
            let lo_u = ranges[u].start as int;
            let su = recs.subrange(lo_u, ranges[u].end as int);
            assert(su[k1 - lo_u] == rec_of(sk, p.0));
            assert(su[k2 - lo_u] == rec_of(sk, p.1));
            assert(su.contains(rec_of(sk, p.0)));
            assert(su.contains(rec_of(sk, p.1)));
            assert(self.node_pair(next, su, sk, p));
        }
    }

    /// Reports every pair of `records` that is within the radius and canonical
    /// for `blocks`, each once; all records agree on `blocks`.
    fn similar_pairs_recur(
        &self,
        records: Vec<Record>,
        blocks: Bitset64,
        results: &mut Vec<(usize, usize)>,
        Ghost(sk): Ghost<Seq<u64>>,
    )
        requires
            self.wf(),
            recs_ok(records@, sk),
            forall|i: int| 0 <= i < sk.len() ==> fits(#[trigger] sk[i], S::spec_dim()),
            forall|c: nat| #[trigger] blocks@.contains(c) ==> c < self.num_blocks,
            blocks@.len() <= self.num_blocks - self.radius,
            self.all_agree(blocks@, records@),
        ensures
            final(results)@.len() >= old(results)@.len(),
            final(results)@.subrange(0, old(results)@.len() as int) == old(results)@,
            final(results)@.subrange(old(results)@.len() as int, final(results)@.len() as int).no_duplicates(),
            forall|p: (usize, usize)|
                #[trigger] final(results)@.subrange(
                    old(results)@.len() as int,
                    final(results)@.len() as int,
                ).contains(p) <==> self.node_pair(blocks@, records@, sk, p),
        decreases self.num_blocks - self.radius - blocks@.len(),
    {
        let ghost orig = records@;
        let mut records = records;
        proof {
            blocks.lemma_bounded();
        }
        if blocks.len() == self.num_blocks - self.radius {
            self.verify_all_pairs(&records, blocks, results, Ghost(sk));
            return;
        }
        let ghost start = results@.len() as int;
        let mut ranges: Vec<std::ops::Range<usize>> = Vec::new();
        let max_block = match blocks.max() {
            Some(x) => x + 1,
            None => 0,
        };
        let mut b = max_block;
        proof {
            assert(results@.subrange(start, results@.len() as int) =~= Seq::<(usize, usize)>::empty());
        }
        while b < self.num_blocks
            invariant
                self.wf(),
                recs_ok(records@, sk),
                recs_ok(orig, sk),
                forall|x: Record| #[trigger] records@.contains(x) <==> orig.contains(x),
                forall|i: int| 0 <= i < sk.len() ==> fits(#[trigger] sk[i], S::spec_dim()),
                forall|c: nat| #[trigger] blocks@.contains(c) ==> c < max_block,
                max_block == 0 || blocks@.contains((max_block - 1) as nat),
                max_block <= b <= self.num_blocks,
                blocks@.finite(),
                blocks@.len() < self.num_blocks - self.radius,
                self.all_agree(blocks@, orig),
                results@.len() >= start,
                start == old(results)@.len(),
                results@.subrange(0, start) == old(results)@,
                results@.subrange(start, results@.len() as int).no_duplicates(),
                forall|p: (usize, usize)|
                    #[trigger] results@.subrange(start, results@.len() as int).contains(p) <==> exists|c: nat|
                        max_block <= c < b && self.agree(c, sk[p.0 as int], sk[p.1 as int])
                            && self.node_pair(blocks@.insert(c), orig, sk, p),
            decreases self.num_blocks - b,
        {
            let ghost pre = records@;
            self.sort_sketches(b, &mut records);
            proof {
                lemma_same_records(pre, records@, sk);
            }
            self.collision_ranges(b, &records, &mut ranges);
            let ghost before_b = results@.len() as int;
            let ghost res_b = results@;
            let next = blocks.add(b);
            proof {
                assert(!blocks@.contains(b as nat));
                assert(next@.len() == blocks@.len() + 1);
                assert(results@.subrange(before_b, results@.len() as int) =~= Seq::<(usize, usize)>::empty());
            }
            let mut t: usize = 0;
            while t < ranges.len()
                invariant
                    self.wf(),
                    recs_ok(records@, sk),
                    forall|x: Record| #[trigger] records@.contains(x) <==> orig.contains(x),
                    forall|i: int| 0 <= i < sk.len() ==> fits(#[trigger] sk[i], S::spec_dim()),
                    b < self.num_blocks,
                    next@ == blocks@.insert(b as nat),
                    next@.len() == blocks@.len() + 1,
                    blocks@.len() < self.num_blocks - self.radius,
                    forall|c: nat| #[trigger] next@.contains(c) ==> c < self.num_blocks,
                    next@.len() <= self.num_blocks - self.radius,
                    self.all_agree(blocks@, orig),
                    self.runs_upto(ranges@, records@, b as int, records@.len() as int),
                    t <= ranges@.len(),
                    0 <= before_b,
                    results@.len() >= before_b,
                    results@.subrange(0, before_b) == res_b,
                    results@.subrange(before_b, results@.len() as int).no_duplicates(),
                    forall|p: (usize, usize)|
                        #[trigger] results@.subrange(before_b, results@.len() as int).contains(p) <==> exists|u: int|
                            0 <= u < t && self.node_pair(
                                next@,
                                records@.subrange(ranges@[u].start as int, ranges@[u].end as int),
                                sk,
                                p,
                            ),
                decreases ranges@.len() - t,
            {
                let lo = ranges[t].start;
                let hi = ranges[t].end;
                let sub = copy_range(&records, lo, hi);
                proof {
                    assert(ranges@[t as int].start + 2 <= ranges@[t as int].end <= records@.len());
                    lemma_subrange_ok(records@, sk, lo as int, hi as int);
                    assert forall|x: Record, y: Record, c: nat|
                        #![trigger sub@.contains(x), sub@.contains(y), next@.contains(c)]
                        sub@.contains(x) && sub@.contains(y) && next@.contains(c) implies self.agree(
                            c,
                            x.sketch,
                            y.sketch,
                        ) by {
                        assert(records@.contains(x));
                        assert(records@.contains(y));
                        assert(orig.contains(x));
                        assert(orig.contains(y));
                        if c == b {
                            let kx = choose|k: int| 0 <= k < sub@.len() && sub@[k] == x;
                            let ky = choose|k: int| 0 <= k < sub@.len() && sub@[k] == y;
                            assert(self.key(records@, b as int, lo + kx) == self.key(records@, b as int, lo as int));
                            assert(self.key(records@, b as int, lo + ky) == self.key(records@, b as int, lo as int));
                        } else {
                            assert(blocks@.contains(c));
                        }
                    }
                }
                let ghost mid = results@.len() as int;
                let ghost res_mid = results@;
                self.similar_pairs_recur(sub, next, results, Ghost(sk));
                proof {
                    lemma_split_tail(res_mid, results@, before_b, mid);
                    let d0 = res_mid.subrange(before_b, mid);
                    let d1 = results@.subrange(mid, results@.len() as int);
                    assert forall|p: (usize, usize)| d0.contains(p) implies !d1.contains(p) by {
                        if d1.contains(p) {
                            let u = choose|u: int|
                                0 <= u < t && self.node_pair(
                                    next@,
                                    records@.subrange(ranges@[u].start as int, ranges@[u].end as int),
                                    sk,
                                    p,
                                );
                            self.lemma_runs_disjoint(records@, ranges@, b as int, sk, u, t as int, rec_of(sk, p.0));
                        }
                    }
                    lemma_concat_no_dup(d0, d1);
                    assert(results@.subrange(0, before_b) =~= res_b);
                }
                t = t + 1;
            }
            proof {
                let db = results@.subrange(before_b, results@.len() as int);
                assert forall|p: (usize, usize)|
                    #[trigger] db.contains(p) <==> (self.agree(b as nat, sk[p.0 as int], sk[p.1 as int])
                        && self.node_pair(next@, orig, sk, p)) by {
                    self.lemma_block_pairs(records@, ranges@, b as int, next@, sk, p);
                    assert(forall|x: Record| #[trigger] records@.contains(x) <==> orig.contains(x));
                }
                lemma_split_tail(res_b, results@, start, before_b);
                let d0 = res_b.subrange(start, before_b);
                assert forall|p: (usize, usize)| d0.contains(p) implies !db.contains(p) by {
                    if db.contains(p) {
                        let c = choose|c: nat|
                            max_block <= c < b && self.agree(c, sk[p.0 as int], sk[p.1 as int])
                                && self.node_pair(blocks@.insert(c), orig, sk, p);
                        assert(!next@.contains(c));
                        assert(next@.contains(b as nat));
                    }
                }
                lemma_concat_no_dup(d0, db);
                assert(results@.subrange(0, start) =~= old(results)@);
            }
            b = b + 1;
        }
        proof {
            assert forall|p: (usize, usize)|
                #[trigger] results@.subrange(start, results@.len() as int).contains(p)
                    <==> self.node_pair(blocks@, orig, sk, p) by {
                if p.0 < p.1 && orig.contains(rec_of(sk, p.0)) && orig.contains(rec_of(sk, p.1)) {
                    let k0 = choose|k: int| 0 <= k < orig.len() && orig[k] == rec_of(sk, p.0);
                    let x = sk[p.0 as int];
                    let y = sk[p.1 as int];
                    assert forall|c: nat| #[trigger] blocks@.contains(c) implies c < max_block && self.agree(c, x, y) by {
                        assert(orig.contains(rec_of(sk, p.0)));
                    }
                    self.lemma_step(blocks@, max_block as nat, x, y);
                }
            }
        }
    }

    /// Reports all similar pairs whose Hamming distance is within `radius`,
    /// each once.
    pub fn similar_pairs(self, sketches: &[S], radius: usize) -> (r: Vec<(usize, usize)>)
        requires
            radius <= S::spec_dim(),
        ensures
            lists_similar_pairs(words(sketches@), radius as nat, r@),
    {
        let mut s = self;
        let dim = S::dim();
        if s.num_blocks == 0 || s.num_blocks < radius || s.num_blocks > dim {
            // Following Tabei's paper.
            s.num_blocks = if radius + 3 < dim {
                radius + 3
            } else {
                dim
            };
        }
        s.radius = radius;
        s.build_masks_and_offsets();
        let ghost sk = words(sketches@);
        let n = sketches.len();
        let mut records: Vec<Record> = Vec::with_capacity(n);
        let mut k: usize = 0;
        while k < n
            invariant
                k <= n == sketches@.len(),
                sk == words(sketches@),
                records@.len() == k,
                forall|a: int| 0 <= a < k ==> #[trigger] records@[a] == rec_of(sk, a as usize),
            decreases n - k,
        {
            records.push(Record { id: k, sketch: sketches[k].to_u64() });
            k = k + 1;
        }
        proof {
            assert forall|a: int, b: int| 0 <= a < b < records@.len() implies records@[a] != records@[b] by {
                assert(records@[a].id != records@[b].id);
            }
            assert forall|i: int| 0 <= i < sk.len() implies fits(#[trigger] sk[i], S::spec_dim()) by {
                sketches@[i].lemma_sketch();
            }
        }
        let mut results: Vec<(usize, usize)> = Vec::new();
        let blocks = Bitset64::new();
        proof {
            assert(blocks@.len() == 0);
        }
        s.similar_pairs_recur(records, blocks, &mut results, Ghost(sk));
        proof {
            assert(results@.subrange(0, results@.len() as int) =~= results@);
            assert forall|p: (usize, usize)|
                #[trigger] results@.contains(p) <==> (p.0 < p.1 < sk.len() && hamming(sk[p.0 as int], sk[p.1 as int])
                    <= radius) by {
                if p.0 < p.1 < sk.len() {
                    assert(records@[p.0 as int] == rec_of(sk, p.0));
                    assert(records@[p.1 as int] == rec_of(sk, p.1));
                }
                if records@.contains(rec_of(sk, p.1)) {
                    let k1 = choose|k: int| 0 <= k < records@.len() && records@[k] == rec_of(sk, p.1);
                }
            }
        }
        results
    }
}

impl<S: Sketch> Default for MultiSort<S> {
    fn default() -> (r: Self)
        ensures
            r.spec_num_blocks() == 0,
            r.spec_threshold() == DEFAULT_THRESHOLD_IN_SORT,
    {
        Self::new()
    }
}

} // verus!
