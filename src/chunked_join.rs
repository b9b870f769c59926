//! Similarity self-join on sketches of several chunks: the multi-sort filter
//! runs on each chunk under the general pigeonhole principle, and the
//! candidates are then checked on the whole sketch.
use vstd::arithmetic::div_mod::{
    lemma_div_is_ordered, lemma_div_multiples_vanish, lemma_fundamental_div_mod,
    lemma_fundamental_div_mod_converse, lemma_mod_pos_bound,
};
use vstd::prelude::*;

use crate::errors::{AllPairsHammingError, ErrorKind};
use crate::multi_sort::{lists_similar_pairs, words, MultiSort};
use crate::pigeonhole::{lemma_spread_total, spread_sum};
use crate::sketch::{fits, hamming, lemma_hamming_bound, lemma_hamming_zero, valid_width, Sketch};

verus! {

/// The largest number of chunks a joiner handles: `2^24` chunks of 64 bits are
/// `2^30` dimensions (128 MiB for a single sketch), so the dimension, the
/// Hamming radius and `j + radius + 1` over the chunks stay well inside a
/// machine word, and the radius products inside 128 bits.
pub const MAX_NUM_CHUNKS: usize = 0x100_0000;

/// The largest denominator of a radius given by the caller.
pub const MAX_DENOMINATOR: u64 = 0xffff_ffff_ffff_ffff;

/// A search radius `num / den` in `[0, 1]`, as a normalized Hamming distance.
#[derive(Clone, Copy, Debug)]
pub struct Radius {
    num: u64,
    den: u128,
}

impl Radius {
    /// The numerator.
    pub closed spec fn spec_num(self) -> nat {
        self.num as nat
    }

    /// The denominator.
    pub closed spec fn spec_den(self) -> nat {
        self.den as nat
    }

    /// Halving keeps the numerator and doubles the denominator.
    pub proof fn lemma_half(self)
        requires
            self.wf(),
            self.spec_den() <= MAX_DENOMINATOR,
        ensures
            self.half_spec().wf(),
            self.half_spec().spec_num() == self.spec_num(),
            self.half_spec().spec_den() == 2 * self.spec_den(),
    {
    }

    /// The value lies in `[0, 1]` and the denominator is positive and bounded.
    pub open spec fn wf(self) -> bool {
        0 < self.spec_den() <= 2 * MAX_DENOMINATOR && self.spec_num() <= self.spec_den()
    }

    /// Creates the radius `num / den`; fails unless `0 <= num / den <= 1`.
    pub fn new(num: u64, den: u64) -> (r: Result<Radius, AllPairsHammingError>)
        ensures
            r is Ok <==> (0 < den && num <= den),
            r matches Ok(x) ==> x.spec_num() == num && x.spec_den() == den && x.wf(),
            r matches Err(e) ==> e.kind() == ErrorKind::ArgumentOutOfRange,
    {
        if den == 0 || num > den {
            Err(AllPairsHammingError::input(ErrorKind::ArgumentOutOfRange, "The radius must be in [0,1]."))
        } else {
            Ok(Radius { num, den: den as u128 })
        }
    }

    /// Half of the radius.
    pub closed spec fn half_spec(self) -> Radius {
        Radius { num: self.num, den: (2 * self.den) as u128 }
    }

    /// Half of the radius.
    pub fn half(&self) -> (r: Radius)
        requires
            self.wf(),
            self.spec_den() <= MAX_DENOMINATOR,
        ensures
            r == self.half_spec(),
            r.wf(),
            r.spec_num() == self.spec_num(),
            r.spec_den() == 2 * self.spec_den(),
    {
        Radius { num: self.num, den: 2 * self.den }
    }

    /// Gets the numerator.
    pub fn num(&self) -> (r: u64)
        ensures
            r == self.spec_num(),
    {
        self.num
    }

    /// Gets the denominator.
    pub fn den(&self) -> (r: u128)
        ensures
            r == self.spec_den(),
    {
        self.den
    }
}

/// The widths that sketches come in.
pub open spec fn valid_width_usize(w: usize) -> bool {
    w == 8 || w == 16 || w == 32 || w == 64
}

/// `d / dim <= radius`.
pub open spec fn within(d: nat, dim: nat, radius: Radius) -> bool {
    d * radius.spec_den() <= dim * radius.spec_num()
}

/// `a` comes strictly before `b` in the order of `(i, j)`.
pub open spec fn pair_lt(a: (usize, usize), b: (usize, usize)) -> bool {
    a.0 < b.0 || (a.0 == b.0 && a.1 < b.1)
}

/// `a` comes before or is `b` in the order of `(i, j)`.
pub open spec fn pair_le(a: (usize, usize), b: (usize, usize)) -> bool {
    a.0 < b.0 || (a.0 == b.0 && a.1 <= b.1)
}

/// The triples are in strictly ascending order of `(i, j)`.
pub open spec fn strictly_sorted(r: Seq<(usize, usize, usize)>) -> bool {
    forall|a: int, b: int| 0 <= a < b < r.len() ==> pair_lt((r[a].0, r[a].1), (r[b].0, r[b].1))
}

/// `r` is the result of a join of the sketches `v` (chunk by chunk) of
/// `dim` dimensions within `radius`: the triples `(i, j, d)` with `i < j`,
/// `d` the distance of sketches `i` and `j` and `d / dim <= radius`, in
/// strictly ascending order of `(i, j)`.
pub open spec fn joined(v: Seq<Seq<u64>>, dim: nat, radius: Radius, r: Seq<(usize, usize, usize)>) -> bool {
    &&& strictly_sorted(r)
    &&& forall|t: (usize, usize, usize)|
        #[trigger] r.contains(t) <==> (t.0 < t.1 < num_sketches_of(v) && t.2 == sketch_dist(
            v,
            t.0 as int,
            t.1 as int,
        ) && within(t.2 as nat, dim, radius))
}

/// Two lists of triples in strictly ascending order of `(i, j)` that hold the
/// same triples are equal.
pub proof fn lemma_sorted_unique(x: Seq<(usize, usize, usize)>, y: Seq<(usize, usize, usize)>)
    requires
        strictly_sorted(x),
        strictly_sorted(y),
        forall|t: (usize, usize, usize)| x.contains(t) <==> y.contains(t),
    ensures
        x == y,
    decreases x.len(),
{
    if x.len() == 0 {
        if y.len() > 0 {
            assert(y.contains(y[0]));
        }
        assert(x =~= y);
    } else {
        assert(x.contains(x[0]));
        assert(y.len() > 0);
        assert(y.contains(y[0]));
        let k = choose|k: int| 0 <= k < y.len() && y[k] == x[0];
        let l = choose|l: int| 0 <= l < x.len() && x[l] == y[0];
        assert(x[0] == y[0]) by {
            if k > 0 {
                assert(pair_lt((y[0].0, y[0].1), (y[k].0, y[k].1)));
                if l > 0 {
                    assert(pair_lt((x[0].0, x[0].1), (x[l].0, x[l].1)));
                }
            }
        }
        let x1 = x.subrange(1, x.len() as int);
        let y1 = y.subrange(1, y.len() as int);
        assert forall|t: (usize, usize, usize)| x1.contains(t) <==> y1.contains(t) by {
            if x1.contains(t) {
                let a = choose|a: int| 0 <= a < x1.len() && x1[a] == t;
                assert(x.contains(t));
                let b = choose|b: int| 0 <= b < y.len() && y[b] == t;
                assert(pair_lt((x[0].0, x[0].1), (x[a + 1].0, x[a + 1].1)));
                assert(b != 0);
                assert(y1[b - 1] == t);
            }
            if y1.contains(t) {
                let a = choose|a: int| 0 <= a < y1.len() && y1[a] == t;
                assert(y.contains(t));
                let b = choose|b: int| 0 <= b < x.len() && x[b] == t;
                assert(pair_lt((y[0].0, y[0].1), (y[a + 1].0, y[a + 1].1)));
                assert(b != 0);
                assert(x1[b - 1] == t);
            }
        }
        lemma_sorted_unique(x1, y1);
        assert(x =~= seq![x[0]] + x1);
        assert(y =~= seq![y[0]] + y1);
    }
}

/// Relies on `slice::sort_unstable`: tuples compare lexicographically, so the
/// pairs end up a permutation of what they were, ordered by `(i, j)`.
#[verifier::external_body]
fn sort_pairs(v: &mut Vec<(usize, usize)>)
    ensures
        final(v)@.to_multiset() == old(v)@.to_multiset(),
        forall|a: int, b: int| 0 <= a < b < final(v)@.len() ==> pair_le(final(v)@[a], final(v)@[b]),
{
    v.sort_unstable();
}

/// Keeps one of each run of equal pairs of a sorted list.
fn dedup_sorted(v: &Vec<(usize, usize)>) -> (r: Vec<(usize, usize)>)
    requires
        forall|a: int, b: int| 0 <= a < b < v@.len() ==> pair_le(v@[a], v@[b]),
    ensures
        forall|a: int, b: int| 0 <= a < b < r@.len() ==> pair_lt(r@[a], r@[b]),
        forall|p: (usize, usize)| r@.contains(p) <==> v@.contains(p),
{
    let mut r: Vec<(usize, usize)> = Vec::new();
    let mut k: usize = 0;
    while k < v.len()
        invariant
            k <= v@.len(),
            forall|a: int, b: int| 0 <= a < b < v@.len() ==> pair_le(v@[a], v@[b]),
            forall|a: int, b: int| 0 <= a < b < r@.len() ==> pair_lt(r@[a], r@[b]),
            k > 0 ==> r@.len() > 0 && r@[r@.len() - 1] == v@[k - 1],
            k == 0 ==> r@.len() == 0,
            forall|p: (usize, usize)| r@.contains(p) <==> exists|i: int| 0 <= i < k && v@[i] == p,
        decreases v@.len() - k,
    {
        let x = v[k];
        let ghost old_r = r@;
        if r.len() == 0 || r[r.len() - 1].0 != x.0 || r[r.len() - 1].1 != x.1 {
            r.push(x);
            proof {
                assert forall|a: int, b: int| 0 <= a < b < r@.len() implies pair_lt(r@[a], r@[b]) by {
                    if b == r@.len() - 1 && a < b {
                        assert(pair_le(v@[k - 1], v@[k as int]));
                        assert(pair_lt(r@[a], r@[b - 1]) || a == b - 1);
                    }
                }
                assert forall|p: (usize, usize)| r@.contains(p) <==> exists|i: int| 0 <= i < k + 1 && v@[i] == p by {
                    if r@.contains(p) {
                        let j = choose|j: int| 0 <= j < r@.len() && r@[j] == p;
                        if j < old_r.len() {
                            assert(old_r[j] == p);
                            assert(old_r.contains(p));
                        }
                    }
                    if exists|i: int| 0 <= i < k + 1 && v@[i] == p {
                        let i = choose|i: int| 0 <= i < k + 1 && v@[i] == p;
                        if i < k {
                            assert(old_r.contains(p));
                            let j = choose|j: int| 0 <= j < old_r.len() && old_r[j] == p;
                            assert(r@[j] == p);
                        } else {
                            assert(r@[r@.len() - 1] == p);
                        }
                    }
                }
            }
        } else {
            proof {
                assert forall|p: (usize, usize)| r@.contains(p) <==> exists|i: int| 0 <= i < k + 1 && v@[i] == p by {
                    if exists|i: int| 0 <= i < k + 1 && v@[i] == p {
                        let i = choose|i: int| 0 <= i < k + 1 && v@[i] == p;
                        if i == k {
                            assert(r@[r@.len() - 1] == p);
                        }
                    }
                }
            }
        }
        k = k + 1;
    }
    proof {
        assert forall|p: (usize, usize)| r@.contains(p) <==> v@.contains(p) by {
            if v@.contains(p) {
                let i = choose|i: int| 0 <= i < v@.len() && v@[i] == p;
            }
        }
    }
    r
}

/// `d <= x / den` exactly when `d * den <= x`.
pub proof fn lemma_floor_div(d: int, x: int, den: int)
    requires
        den > 0,
        x >= 0,
        d >= 0,
    ensures
        d <= x / den <==> d * den <= x,
{
    lemma_fundamental_div_mod(x, den);
    lemma_mod_pos_bound(x, den);
    let q = x / den;
    let rm = x % den;
    assert(d <= q <==> d * den <= x) by (nonlinear_arith)
        requires
            x == den * q + rm,
            0 <= rm < den,
            den > 0,
    ;
}

/// `(x - n) / n == x / n - 1` for `x >= n`.
proof fn lemma_div_sub_one(x: int, n: int)
    requires
        n >= 1,
        x >= n,
    ensures
        (x - n) / n == x / n - 1,
{
    lemma_fundamental_div_mod(x, n);
    lemma_mod_pos_bound(x, n);
    let q = x / n;
    let rm = x % n;
    assert(x - n == (q - 1) * n + rm) by (nonlinear_arith)
        requires
            x == n * q + rm,
    ;
    lemma_fundamental_div_mod_converse(x - n, n, q - 1, rm);
}

/// Generalized pigeonhole over the chunks: two sketches within distance `h`
/// differ, in some chunk `c` with `c + h + 1 >= B`, in at most
/// `(c + h + 1 - B) / B` bits.
proof fn lemma_chunk_pigeonhole(v: Seq<Seq<u64>>, i: int, j: int, h: int)
    requires
        v.len() >= 1,
        h >= 0,
        sketch_dist(v, i, j) <= h,
    ensures
        exists|c: int|
            0 <= c < v.len() && c + h + 1 >= v.len() && #[trigger] hamming(v[c][i], v[c][j]) <= (c + h + 1
                - v.len()) / (v.len() as int),
{
    let n = v.len() as int;
    if forall|c: int| 0 <= c < n ==> (c + (h + 1)) / n <= #[trigger] hamming(v[c][i], v[c][j]) {
        lemma_dist_spread(v, i, j, v.len(), h + 1, n);
        lemma_spread_total(n, h + 1, n);
    }
    let c = choose|c: int| 0 <= c < n && !((c + (h + 1)) / n <= #[trigger] hamming(v[c][i], v[c][j]));
    if c + h + 1 < n {
        lemma_fundamental_div_mod_converse(c + h + 1, n, 0, c + h + 1);
    } else {
        lemma_div_sub_one(c + h + 1, n);
    }
}

/// The pair `(i, j)` is reported, with some distance.
pub open spec fn reports_pair(r: Seq<(usize, usize, usize)>, i: usize, j: usize) -> bool {
    exists|d: usize| #[trigger] r.contains((i, j, d))
}

/// A join is determined by the sketches and the radius: two results of it are
/// identical.
pub proof fn lemma_join_deterministic(
    v: Seq<Seq<u64>>,
    dim: nat,
    radius: Radius,
    x: Seq<(usize, usize, usize)>,
    y: Seq<(usize, usize, usize)>,
)
    requires
        joined(v, dim, radius, x),
        joined(v, dim, radius, y),
    ensures
        x == y,
{
    lemma_sorted_unique(x, y);
}

/// Every reported pair has `i < j`, and no pair is reported twice.
pub proof fn lemma_join_pairs_once(v: Seq<Seq<u64>>, dim: nat, radius: Radius, r: Seq<(usize, usize, usize)>)
    requires
        joined(v, dim, radius, r),
    ensures
        forall|a: int| 0 <= a < r.len() ==> #[trigger] r[a].0 < r[a].1,
        forall|a: int, b: int|
            0 <= a < r.len() && 0 <= b < r.len() && a != b ==> (#[trigger] r[a].0, r[a].1) != (
            #[trigger] r[b].0,
            r[b].1,
        ),
{
    assert forall|a: int| 0 <= a < r.len() implies #[trigger] r[a].0 < r[a].1 by {
        assert(r.contains(r[a]));
    }
    assert forall|a: int, b: int|
        0 <= a < r.len() && 0 <= b < r.len() && a != b implies (#[trigger] r[a].0, r[a].1) != (
        #[trigger] r[b].0,
        r[b].1,
    ) by {
        if a < b {
            assert(pair_lt((r[a].0, r[a].1), (r[b].0, r[b].1)));
        } else {
            assert(pair_lt((r[b].0, r[b].1), (r[a].0, r[a].1)));
        }
    }
}

/// With fewer than two sketches nothing is reported.
pub proof fn lemma_join_few_sketches(v: Seq<Seq<u64>>, dim: nat, radius: Radius, r: Seq<(usize, usize, usize)>)
    requires
        joined(v, dim, radius, r),
        num_sketches_of(v) <= 1,
    ensures
        r.len() == 0,
{
    if r.len() > 0 {
        assert(r.contains(r[0]));
    }
}

/// Sketches at distance zero agree in every chunk.
pub proof fn lemma_dist_zero(v: Seq<Seq<u64>>, i: int, j: int, k: nat)
    ensures
        dist_upto(v, i, j, k) == 0 <==> forall|c: int| 0 <= c < k ==> #[trigger] v[c][i] == v[c][j],
    decreases k,
{
    if k > 0 {
        lemma_dist_zero(v, i, j, (k - 1) as nat);
        lemma_hamming_zero(v[k - 1][i], v[k - 1][j]);
        if dist_upto(v, i, j, k) == 0 {
            assert forall|c: int| 0 <= c < k implies #[trigger] v[c][i] == v[c][j] by {
                if c < k - 1 {
                    assert(dist_upto(v, i, j, (k - 1) as nat) == 0);
                }
            }
        }
    }
}

/// With radius zero exactly the pairs of identical sketches are reported.
pub proof fn lemma_join_zero_radius(v: Seq<Seq<u64>>, dim: nat, radius: Radius, r: Seq<(usize, usize, usize)>)
    requires
        joined(v, dim, radius, r),
        radius.wf(),
        radius.spec_num() == 0,
    ensures
        forall|i: usize, j: usize|
            #[trigger] reports_pair(r, i, j) <==> (i < j < num_sketches_of(v) && forall|c: int|
                0 <= c < v.len() ==> #[trigger] v[c][i as int] == v[c][j as int]),
{
    assert forall|i: usize, j: usize|
        #[trigger] reports_pair(r, i, j) <==> (i < j < num_sketches_of(v) && forall|c: int|
            0 <= c < v.len() ==> #[trigger] v[c][i as int] == v[c][j as int]) by {
        lemma_dist_zero(v, i as int, j as int, v.len());
        if reports_pair(r, i, j) {
            let d = choose|d: usize| #[trigger] r.contains((i, j, d));
            assert(d * radius.spec_den() <= 0);
            assert(d == 0) by (nonlinear_arith)
                requires
                    d * radius.spec_den() <= 0,
                    radius.spec_den() > 0,
            ;
        }
        if i < j < num_sketches_of(v) && forall|c: int| 0 <= c < v.len() ==> #[trigger] v[c][i as int] == v[c][j as int] {
            assert(r.contains((i, j, 0usize)));
        }
    }
}

/// With a single chunk and a radius below one bit, the join reports exactly
/// the pairs of identical sketches.
pub proof fn lemma_join_one_chunk_small_radius(
    v: Seq<Seq<u64>>,
    w: nat,
    radius: Radius,
    r: Seq<(usize, usize, usize)>,
)
    requires
        joined(v, w, radius, r),
        v.len() == 1,
        radius.wf(),
        w * radius.spec_num() < radius.spec_den(),
    ensures
        forall|i: usize, j: usize|
            #[trigger] reports_pair(r, i, j) <==> (i < j < num_sketches_of(v) && v[0][i as int]
                == v[0][j as int]),
{
    assert forall|i: usize, j: usize|
        #[trigger] reports_pair(r, i, j) <==> (i < j < num_sketches_of(v) && v[0][i as int]
            == v[0][j as int]) by {
        lemma_dist_zero(v, i as int, j as int, 1);
        if reports_pair(r, i, j) {
            let d = choose|d: usize| #[trigger] r.contains((i, j, d));
            assert(d == 0) by (nonlinear_arith)
                requires
                    d * radius.spec_den() <= w * radius.spec_num(),
                    w * radius.spec_num() < radius.spec_den(),
            ;
        }
        if i < j < num_sketches_of(v) && v[0][i as int] == v[0][j as int] {
            assert(forall|c: int| 0 <= c < 1 ==> #[trigger] v[c][i as int] == v[c][j as int]);
            assert(r.contains((i, j, 0usize)));
        }
    }
}

/// Sketches of `B` chunks of `S::dim()` bits each, stored chunk by chunk, and
/// joined by multi-sorting each chunk.
pub struct ChunkedJoiner<S> {
    chunks: Vec<Vec<S>>,
    shows_progress: bool,
}

impl<S: Sketch> View for ChunkedJoiner<S> {
    type V = Seq<Seq<u64>>;

    /// Chunk `c` of sketch `i` is `self@[c][i]`.
    closed spec fn view(&self) -> Seq<Seq<u64>> {
        self.chunks@.map_values(|v: Vec<S>| words(v@))
    }
}

/// The number of sketches held in chunk-wise storage.
pub open spec fn num_sketches_of(v: Seq<Seq<u64>>) -> nat {
    if v.len() == 0 {
        0
    } else {
        v[0].len()
    }
}

/// Hamming distance of sketches `i` and `j` over the chunks below `k`.
pub open spec fn dist_upto(v: Seq<Seq<u64>>, i: int, j: int, k: nat) -> nat
    decreases k,
{
    if k == 0 {
        0
    } else {
        dist_upto(v, i, j, (k - 1) as nat) + hamming(v[k - 1][i], v[k - 1][j])
    }
}

/// Hamming distance of sketches `i` and `j` over all chunks.
pub open spec fn sketch_dist(v: Seq<Seq<u64>>, i: int, j: int) -> nat {
    dist_upto(v, i, j, v.len())
}

pub proof fn lemma_dist_mono(v: Seq<Seq<u64>>, i: int, j: int, k: nat, l: nat)
    requires
        k <= l,
    ensures
        dist_upto(v, i, j, k) <= dist_upto(v, i, j, l),
    decreases l,
{
    if l > k {
        lemma_dist_mono(v, i, j, k, (l - 1) as nat);
    }
}

/// Where every chunk differs in at least its share, the sum of the shares is reached.
proof fn lemma_dist_spread(v: Seq<Seq<u64>>, i: int, j: int, k: nat, x: int, n: int)
    requires
        n >= 1,
        x >= 0,
        forall|c: int| 0 <= c < k ==> (c + x) / n <= #[trigger] hamming(v[c][i], v[c][j]),
    ensures
        spread_sum(k as int, x, n) <= dist_upto(v, i, j, k),
    decreases k,
{
    if k > 0 {
        lemma_dist_spread(v, i, j, (k - 1) as nat, x, n);
    }
}

impl<S: Sketch> ChunkedJoiner<S> {
    /// All chunks hold the same number of sketches.
    pub open spec fn wf(self) -> bool {
        &&& self@.len() <= MAX_NUM_CHUNKS
        &&& forall|c: int| 0 <= c < self@.len() ==> #[trigger] self@[c].len() == num_sketches_of(self@)
    }

    /// The number of dimensions of a sketch.
    pub open spec fn spec_dimension(self) -> nat {
        S::spec_dim() * self@.len()
    }

    /// Creates an instance, handling sketches of `num_chunks` chunks, i.e.,
    /// in `S::dim() * num_chunks` dimensions; fails unless
    /// `1 <= num_chunks <= MAX_NUM_CHUNKS`.
    pub fn new(num_chunks: usize) -> (r: Result<Self, AllPairsHammingError>)
        ensures
            r is Ok <==> 1 <= num_chunks <= MAX_NUM_CHUNKS,
            r matches Ok(j) ==> j.wf() && j@.len() == num_chunks && num_sketches_of(j@) == 0,
            r matches Err(e) ==> e.kind() == ErrorKind::InvalidConfig,
    {
        if num_chunks == 0 || num_chunks > MAX_NUM_CHUNKS {
            return Err(AllPairsHammingError::input(ErrorKind::InvalidConfig, "The number of chunks is out of range."));
        }
        let mut chunks: Vec<Vec<S>> = Vec::with_capacity(num_chunks);
        let mut c: usize = 0;
        while c < num_chunks
            invariant
                c <= num_chunks,
                chunks@.len() == c,
                forall|k: int| 0 <= k < c ==> (#[trigger] chunks@[k])@.len() == 0,
            decreases num_chunks - c,
        {
            chunks.push(Vec::new());
            c = c + 1;
        }
        let r = ChunkedJoiner { chunks, shows_progress: false };
        proof {
            assert forall|k: int| 0 <= k < r@.len() implies #[trigger] r@[k].len() == num_sketches_of(r@) by {
                assert(r@[k] == words(chunks@[k]@));
            }
        }
        Ok(r)
    }

    /// Prints the progress with stderr?
    pub fn shows_progress(self, yes: bool) -> (r: Self)
        ensures
            r@ == self@,
    {
        let mut s = self;
        s.shows_progress = yes;
        s
    }

    /// Whether the progress is to be shown.
    pub fn progress_shown(&self) -> bool {
        self.shows_progress
    }

    /// Appends a sketch of [`Self::num_chunks()`] chunks: the first
    /// `num_chunks` values of `sketch`. Fails, and stores nothing, if there are
    /// fewer.
    pub fn add(&mut self, sketch: &[S]) -> (r: Result<(), AllPairsHammingError>)
        requires
            old(self).wf(),
        ensures
            final(self).wf(),
            r is Ok <==> sketch@.len() >= old(self)@.len(),
            r is Ok ==> final(self)@.len() == old(self)@.len() && forall|c: int|
                0 <= c < old(self)@.len() ==> #[trigger] final(self)@[c] == old(self)@[c].push(
                    sketch@[c].bits(),
                ),
            r is Ok ==> num_sketches_of(final(self)@) == if old(self)@.len() == 0 {
                0
            } else {
                num_sketches_of(old(self)@) + 1
            },
            r matches Err(e) ==> final(self)@ == old(self)@ && e.kind() == ErrorKind::ShortInput,
    {
        let num_chunks = self.chunks.len();
        if sketch.len() < num_chunks {
            return Err(
                AllPairsHammingError::input(
                    ErrorKind::ShortInput,
                    "The input sketch must include num_chunks chunks at least.",
                ),
            );
        }
        let ghost old_view = self@;
        let mut c: usize = 0;
        while c < num_chunks
            invariant
                c <= num_chunks == self.chunks@.len(),
                num_chunks <= sketch@.len(),
                old_view.len() == num_chunks,
                forall|k: int|
                    0 <= k < c ==> #[trigger] words(self.chunks@[k]@) == old_view[k].push(sketch@[k].bits()),
                forall|k: int| c <= k < num_chunks ==> #[trigger] words(self.chunks@[k]@) == old_view[k],
            decreases num_chunks - c,
        {
            let ghost before = self.chunks@;
            proof {
                assert(words(before[c as int]@) == old_view[c as int]);
            }
            self.chunks[c].push(sketch[c]);
            proof {
                assert(self.chunks@[c as int]@ == before[c as int]@.push(sketch@[c as int]));
                assert forall|k: int| 0 <= k < num_chunks && k != c implies self.chunks@[k] == before[k] by {}
                assert(words(self.chunks@[c as int]@) =~= old_view[c as int].push(sketch@[c as int].bits()));
            }
            c = c + 1;
        }
        proof {
            assert forall|k: int| 0 <= k < self@.len() implies #[trigger] self@[k] == old_view[k].push(
                sketch@[k].bits(),
            ) by {
                assert(self@[k] == words(self.chunks@[k]@));
            }
        }
        Ok(())
    }

    /// Gets the number of chunks.
    pub fn num_chunks(&self) -> (r: usize)
        ensures
            r == self@.len(),
    {
        self.chunks.len()
    }

    /// Gets the number of stored sketches.
    pub fn num_sketches(&self) -> (r: usize)
        ensures
            r == num_sketches_of(self@),
    {
        if self.chunks.len() == 0 {
            0
        } else {
            proof {
                assert(self@[0] == words(self.chunks@[0]@));
            }
            self.chunks[0].len()
        }
    }

    /// Gets the memory usage in bytes (saturating at `usize::MAX`).
    pub fn memory_in_bytes(&self) -> (r: usize)
        requires
            self.wf(),
        ensures
            r == if self@.len() * num_sketches_of(self@) * (S::spec_dim() / 8) <= usize::MAX {
                self@.len() * num_sketches_of(self@) * (S::spec_dim() / 8)
            } else {
                usize::MAX as nat
            },
    {
        let b = self.num_chunks() as u128;
        let n = self.num_sketches() as u128;
        let bytes = (S::dim() / 8) as u128;
        assert(b * n <= 0xffff_ffff_ffff_ffff_ffff_ffff_ffff_ffffu128 / 8) by (nonlinear_arith)
            requires
                b <= 0x100_0000,
                n <= 0xffff_ffff_ffff_ffff,
        ;
        assert(b * n * bytes <= 0xffff_ffff_ffff_ffff_ffff_ffff_ffff_ffffu128) by (nonlinear_arith)
            requires
                b * n <= 0xffff_ffff_ffff_ffff_ffff_ffff_ffff_ffffu128 / 8,
                bytes <= 8,
        ;
        let total = b * n * bytes;
        if total > usize::MAX as u128 {
            usize::MAX
        } else {
            total as usize
        }
    }

    /// Distance of sketches `i` and `j`, or `None` as soon as it exceeds `bound`.
    fn hamming_distance(&self, i: usize, j: usize, bound: usize) -> (r: Option<usize>)
        requires
            self.wf(),
            i < num_sketches_of(self@),
            j < num_sketches_of(self@),
        ensures
            r == if sketch_dist(self@, i as int, j as int) <= bound {
                Some(sketch_dist(self@, i as int, j as int) as usize)
            } else {
                None::<usize>
            },
    {
        let b = self.chunks.len();
        proof {
            assert(self@.len() == self.chunks@.len());
        }
        let mut dist: usize = 0;
        let mut c: usize = 0;
        while c < b
            invariant
                self.wf(),
                b == self@.len(),
                i < num_sketches_of(self@),
                j < num_sketches_of(self@),
                c <= b,
                b <= MAX_NUM_CHUNKS,
                dist == dist_upto(self@, i as int, j as int, c as nat),
                dist <= bound,
                dist <= 64 * c,
            decreases b - c,
        {
            proof {
                assert(self@[c as int] == words(self.chunks@[c as int]@));
                assert(self@[c as int].len() == num_sketches_of(self@));
            }
            let x = self.chunks[c][i];
            let y = self.chunks[c][j];
            proof {
                x.lemma_sketch();
                y.lemma_sketch();
                lemma_hamming_bound(x.bits(), y.bits(), S::spec_dim());
            }
            dist = dist + x.hamdist(y);
            if bound < dist {
                proof {
                    lemma_dist_mono(self@, i as int, j as int, (c + 1) as nat, b as nat);
                }
                return None;
            }
            c = c + 1;
        }
        Some(dist)
    }

    /// Finds all similar pairs whose normalized Hamming distance is within
    /// `radius`, returning triplets of the left-side id, the right-side id, and
    /// their Hamming distance (the normalized distance is that over
    /// [`Self::dimension()`]), in ascending order of the ids.
    pub fn similar_pairs(&self, radius: Radius) -> (r: Vec<(usize, usize, usize)>)
        requires
            self.wf(),
            radius.wf(),
        ensures
            joined(self@, self.spec_dimension(), radius, r@),
    {
        let b = self.chunks.len();
        let w = S::dim();
        let n = self.num_sketches();
        proof {
            assert(self@.len() == self.chunks@.len());
            assert(w * b <= 0x4000_0000) by (nonlinear_arith)
                requires
                    w <= 64,
                    b <= 0x100_0000,
            ;
        }
        let dimension = w * b;
        let num = radius.num() as u128;
        let den = radius.den();
        proof {
            assert(dimension as u128 * num <= 0x4000_0000 * 0xffff_ffff_ffff_ffff) by (nonlinear_arith)
                requires
                    dimension <= 0x4000_0000,
                    num <= 0xffff_ffff_ffff_ffff,
            ;
        }
        let prod = dimension as u128 * num;
        proof {
            assert(prod <= dimension * den) by (nonlinear_arith)
                requires
                    prod == dimension * num,
                    num <= den,
            ;
            assert((prod + den - 1) < (dimension + 1) * den) by (nonlinear_arith)
                requires
                    prod <= dimension * den,
            ;
            lemma_floor_div(dimension as int + 1, (prod + den - 1) as int, den as int);
            lemma_div_is_ordered(prod as int, (prod + den - 1) as int, den as int);
        }
        let hamradius = ((prod + den - 1) / den) as usize;
        let bound = (prod / den) as usize;
        let mut candidates: Vec<(usize, usize)> = Vec::new();
        let mut j: usize = 0;
        while j < b
            invariant
                self.wf(),
                b == self@.len(),
                n == num_sketches_of(self@),
                w == S::spec_dim(),
                valid_width_usize(w),
                hamradius <= dimension == w * b,
                j <= b,
                forall|p: (usize, usize)| #[trigger] candidates@.contains(p) ==> p.0 < p.1 < n,
                forall|c: int, p: (usize, usize)|
                    #![trigger hamming(self@[c][p.0 as int], self@[c][p.1 as int])]
                    0 <= c < j && c + hamradius + 1 >= b && p.0 < p.1 < n && hamming(
                        self@[c][p.0 as int],
                        self@[c][p.1 as int],
                    ) <= (c + hamradius + 1 - b) / (b as int) ==> candidates@.contains(p),
            decreases b - j,
        {
            if j + hamradius + 1 >= b {
                let r = (j + hamradius + 1 - b) / b;
                proof {
                    lemma_div_is_ordered((j + hamradius + 1 - b) as int, (w * b) as int, b as int);
                    lemma_div_multiples_vanish(w as int, b as int);
                    assert(self@[j as int] == words(self.chunks@[j as int]@));
                }
                let mut pairs = MultiSort::<S>::new().similar_pairs(self.chunks[j].as_slice(), r);
                let ghost old_c = candidates@;
                let ghost new_p = pairs@;
                candidates.append(&mut pairs);
                proof {
                    assert(candidates@ == old_c + new_p);
                    assert(self@[j as int].len() == n);
                    assert forall|p: (usize, usize)| old_c.contains(p) implies #[trigger] candidates@.contains(p) by {
                        let k = choose|k: int| 0 <= k < old_c.len() && old_c[k] == p;
                        assert(candidates@[k] == p);
                    }
                    assert forall|p: (usize, usize)| new_p.contains(p) implies #[trigger] candidates@.contains(p) by {
                        let k = choose|k: int| 0 <= k < new_p.len() && new_p[k] == p;
                        assert(candidates@[k + old_c.len()] == p);
                    }
                    assert forall|p: (usize, usize)| #[trigger] candidates@.contains(p) implies p.0 < p.1 < n by {
                        let k = choose|k: int| 0 <= k < candidates@.len() && candidates@[k] == p;
                        if k < old_c.len() {
                            assert(old_c[k] == p);
                            assert(old_c.contains(p));
                        } else {
                            assert(new_p[k - old_c.len()] == p);
                            assert(new_p.contains(p));
                        }
                    }
                }
            }
            j = j + 1;
        }
        let ghost pre = candidates@;
        sort_pairs(&mut candidates);
        proof {
            pre.to_multiset_ensures();
            candidates@.to_multiset_ensures();
            assert forall|p: (usize, usize)| #[trigger] candidates@.contains(p) <==> pre.contains(p) by {
                assert(candidates@.to_multiset().count(p) == pre.to_multiset().count(p));
            }
        }
        let uniq = dedup_sorted(&candidates);
        let mut matched: Vec<(usize, usize, usize)> = Vec::new();
        let mut k: usize = 0;
        while k < uniq.len()
            invariant
                self.wf(),
                n == num_sketches_of(self@),
                forall|a: int, c: int| 0 <= a < c < uniq@.len() ==> pair_lt(uniq@[a], uniq@[c]),
                forall|p: (usize, usize)| #[trigger] uniq@.contains(p) ==> p.0 < p.1 < n,
                k <= uniq@.len(),
                strictly_sorted(matched@),
                forall|a: int|
                    #![trigger matched@[a]]
                    0 <= a < matched@.len() ==> exists|m: int|
                        0 <= m < k && #[trigger] uniq@[m] == (matched@[a].0, matched@[a].1),
                forall|t: (usize, usize, usize)|
                    #[trigger] matched@.contains(t) <==> ((exists|m: int| 0 <= m < k && uniq@[m] == (t.0, t.1))
                        && t.2 == sketch_dist(self@, t.0 as int, t.1 as int) && t.2 <= bound),
            decreases uniq@.len() - k,
        {
            let (i, jj) = uniq[k];
            proof {
                assert(uniq@.contains(uniq@[k as int]));
            }
            let ghost old_m = matched@;
            match self.hamming_distance(i, jj, bound) {
                Some(d) => {
                    matched.push((i, jj, d));
                    proof {
                        assert forall|a: int, c: int| 0 <= a < c < matched@.len() implies pair_lt(
                            (matched@[a].0, matched@[a].1),
                            (matched@[c].0, matched@[c].1),
                        ) by {
                            if c == matched@.len() - 1 {
                                let m = choose|m: int| 0 <= m < k && #[trigger] uniq@[m] == (old_m[a].0, old_m[a].1);
                                assert(pair_lt(uniq@[m], uniq@[k as int]));
                            } else {
                                assert(matched@[a] == old_m[a]);
                                assert(matched@[c] == old_m[c]);
                            }
                        }
                        assert forall|a: int|
                            #![trigger matched@[a]]
                            0 <= a < matched@.len() implies exists|m: int|
                                0 <= m < k + 1 && #[trigger] uniq@[m] == (matched@[a].0, matched@[a].1) by {
                            if a < old_m.len() {
                                assert(matched@[a] == old_m[a]);
                                let m = choose|m: int| 0 <= m < k && #[trigger] uniq@[m] == (old_m[a].0, old_m[a].1);
                                assert(0 <= m < k + 1 && uniq@[m] == (matched@[a].0, matched@[a].1));
                            } else {
                                assert(uniq@[k as int] == (matched@[a].0, matched@[a].1));
                            }
                        }
                        assert forall|t: (usize, usize, usize)|
                            #[trigger] matched@.contains(t) <==> ((exists|m: int| 0 <= m < k + 1 && uniq@[m] == (t.0, t.1))
                                && t.2 == sketch_dist(self@, t.0 as int, t.1 as int) && t.2 <= bound) by {
                            if matched@.contains(t) {
                                let x = choose|x: int| 0 <= x < matched@.len() && matched@[x] == t;
                                if x < old_m.len() {
                                    assert(old_m[x] == t);
                                    assert(old_m.contains(t));
                                } else {
                                    assert(uniq@[k as int] == (t.0, t.1));
                                }
                            }
                            if (exists|m: int| 0 <= m < k + 1 && uniq@[m] == (t.0, t.1))
                                && t.2 == sketch_dist(self@, t.0 as int, t.1 as int) && t.2 <= bound {
                                let m = choose|m: int| 0 <= m < k + 1 && uniq@[m] == (t.0, t.1);
                                if m < k {
                                    assert(old_m.contains(t));
                                    let x = choose|x: int| 0 <= x < old_m.len() && old_m[x] == t;
                                    assert(matched@[x] == t);
                                } else {
                                    assert(matched@[matched@.len() - 1] == t);
                                }
                            }
                        }
                    }
                },
                None => {
                    proof {
                        assert forall|a: int|
                            #![trigger matched@[a]]
                            0 <= a < matched@.len() implies exists|m: int|
                                0 <= m < k + 1 && #[trigger] uniq@[m] == (matched@[a].0, matched@[a].1) by {
                            let m = choose|m: int| 0 <= m < k && #[trigger] uniq@[m] == (matched@[a].0, matched@[a].1);
                            assert(0 <= m < k + 1);
                        }
                        assert forall|t: (usize, usize, usize)|
                            #[trigger] matched@.contains(t) <==> ((exists|m: int| 0 <= m < k + 1 && uniq@[m] == (t.0, t.1))
                                && t.2 == sketch_dist(self@, t.0 as int, t.1 as int) && t.2 <= bound) by {
                            if (exists|m: int| 0 <= m < k + 1 && uniq@[m] == (t.0, t.1))
                                && t.2 == sketch_dist(self@, t.0 as int, t.1 as int) && t.2 <= bound {
                                let m = choose|m: int| 0 <= m < k + 1 && uniq@[m] == (t.0, t.1);
                                if m == k {
                                    assert(false);
                                }
                            }
                        }
                    }
                },
            }
            k = k + 1;
        }
        proof {
            candidates@.to_multiset_ensures();
            assert forall|t: (usize, usize, usize)|
                #[trigger] matched@.contains(t) <==> (t.0 < t.1 < n && t.2 == sketch_dist(self@, t.0 as int, t.1 as int)
                    && within(t.2 as nat, self.spec_dimension(), radius)) by {
                lemma_floor_div(t.2 as int, prod as int, den as int);
                assert(t.2 * den == t.2 * radius.spec_den());
                if t.0 < t.1 < n && t.2 == sketch_dist(self@, t.0 as int, t.1 as int) && t.2 <= bound {
                    let p = (t.0, t.1);
                    lemma_chunk_pigeonhole(self@, t.0 as int, t.1 as int, hamradius as int);
                    let c = choose|c: int|
                        0 <= c < self@.len() && c + hamradius + 1 >= self@.len() && #[trigger] hamming(
                            self@[c][t.0 as int],
                            self@[c][t.1 as int],
                        ) <= (c + hamradius + 1 - self@.len()) / (self@.len() as int);
                    assert(hamming(self@[c][p.0 as int], self@[c][p.1 as int]) <= (c + hamradius + 1 - b) / (b as int));
                    assert(pre.contains(p));
                    assert(candidates@.contains(p));
                    let x = choose|x: int| 0 <= x < uniq@.len() && uniq@[x] == p;
                }
                if matched@.contains(t) {
                    let m = choose|m: int| 0 <= m < k && uniq@[m] == (t.0, t.1);
                    assert(uniq@.contains((t.0, t.1)));
                }
            }
        }
        matched
    }

    /// Gets the number of dimensions, `S::dim() * num_chunks`.
    pub fn dimension(&self) -> (r: usize)
        requires
            self.wf(),
        ensures
            r == self.spec_dimension(),
    {
        let w = S::dim();
        proof {
            assert(self@.len() == self.chunks@.len());
            assert(w * self.chunks@.len() <= 0x4000_0000) by (nonlinear_arith)
                requires
                    w <= 64,
                    self.chunks@.len() <= 0x100_0000,
            ;
        }
        w * self.chunks.len()
    }

    /// Every chunk of a stored sketch fits in `S::dim()` bits.
    pub proof fn lemma_chunks_fit(&self)
        ensures
            forall|c: int, i: int|
                0 <= c < self@.len() && 0 <= i < self@[c].len() ==> fits(#[trigger] self@[c][i], S::spec_dim()),
            valid_width(S::spec_dim()),
    {
        assert forall|c: int, i: int|
            0 <= c < self@.len() && 0 <= i < self@[c].len() implies fits(#[trigger] self@[c][i], S::spec_dim()) by {
            assert(self@[c] == words(self.chunks@[c]@));
            self.chunks@[c]@[i].lemma_sketch();
        }
        S::lemma_width();
    }

    proof fn lemma_dist_bound(&self, i: int, j: int, k: nat)
        requires
            self.wf(),
            0 <= i < num_sketches_of(self@),
            0 <= j < num_sketches_of(self@),
            k <= self@.len(),
        ensures
            dist_upto(self@, i, j, k) <= S::spec_dim() * k,
        decreases k,
    {
        if k > 0 {
            self.lemma_dist_bound(i, j, (k - 1) as nat);
            self.lemma_chunks_fit();
            assert(self@[k - 1].len() == num_sketches_of(self@));
            lemma_hamming_bound(self@[k - 1][i], self@[k - 1][j], S::spec_dim());
            assert(S::spec_dim() * k == S::spec_dim() * (k - 1) + S::spec_dim()) by (nonlinear_arith);
        }
    }

    /// With radius one every pair of stored sketches is reported.
    pub proof fn lemma_join_full_radius(&self, radius: Radius, r: Seq<(usize, usize, usize)>)
        requires
            self.wf(),
            joined(self@, self.spec_dimension(), radius, r),
            radius.wf(),
            radius.spec_num() == radius.spec_den(),
        ensures
            forall|i: usize, j: usize|
                i < j < num_sketches_of(self@) ==> #[trigger] r.contains(
                    (i, j, sketch_dist(self@, i as int, j as int) as usize),
                ),
    {
        assert forall|i: usize, j: usize| i < j < num_sketches_of(self@) implies #[trigger] r.contains(
            (i, j, sketch_dist(self@, i as int, j as int) as usize),
        ) by {
            self.lemma_dist_bound(i as int, j as int, self@.len());
            let d = sketch_dist(self@, i as int, j as int);
            assert(d * radius.spec_den() <= self.spec_dimension() * radius.spec_num()) by (nonlinear_arith)
                requires
                    d <= self.spec_dimension(),
                    radius.spec_num() == radius.spec_den(),
            ;
            assert(d <= usize::MAX) by {
                S::lemma_width();
                assert(self.spec_dimension() <= 0x4000_0000) by (nonlinear_arith)
                    requires
                        S::spec_dim() <= 64,
                        self@.len() <= 0x100_0000,
                        self.spec_dimension() == S::spec_dim() * self@.len(),
                ;
            }
        }
    }
}

} // verus!
