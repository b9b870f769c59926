//! An exhaustive all-pairs similarity search on binary sketches.
use vstd::prelude::*;

use crate::chunked_join::{
    dist_upto, joined, lemma_dist_mono, lemma_floor_div, num_sketches_of, pair_lt, sketch_dist, within, Radius, MAX_NUM_CHUNKS,
};
use crate::errors::{AllPairsHammingError, ErrorKind};
use crate::multi_sort::words;
use crate::sketch::{lemma_hamming_bound, Sketch};
use vstd::arithmetic::div_mod::lemma_fundamental_div_mod;

verus! {

/// An exhaustive approach of all-pair similarity search on binary sketches.
pub struct SimpleJoiner<S> {
    sketches: Vec<Vec<S>>,
    num_chunks: usize,
    shows_progress: bool,
}

impl<S: Sketch> View for SimpleJoiner<S> {
    type V = Seq<Seq<u64>>;

    /// Chunk `c` of sketch `i` is `self@[c][i]`, as for the chunked joiner.
    closed spec fn view(&self) -> Seq<Seq<u64>> {
        Seq::new(
            self.num_chunks as nat,
            |c: int| Seq::new(self.sketches@.len(), |i: int| self.sketches@[i]@[c].bits()),
        )
    }
}

impl<S: Sketch> SimpleJoiner<S> {
    /// Every stored sketch has `num_chunks` chunks.
    pub closed spec fn wf(self) -> bool {
        &&& self.num_chunks <= MAX_NUM_CHUNKS
        &&& self.num_chunks >= 1 ==> num_sketches_of(self@) == self.sketches@.len()
        &&& forall|i: int| 0 <= i < self.sketches@.len() ==> (#[trigger] self.sketches@[i])@.len() == self.num_chunks
    }

    /// The number of dimensions of a sketch.
    pub open spec fn spec_dimension(self) -> nat {
        S::spec_dim() * self@.len()
    }

    /// Creates an instance, handling sketches of `num_chunks` chunks, i.e.,
    /// in `S::dim() * num_chunks` dimensions; fails unless
    /// `1 <= num_chunks <= MAX_NUM_CHUNKS`.
    pub fn new(num_chunks: usize) -> (r: Result<Self, AllPairsHammingError>)
        ensures
            r is Ok <==> 1 <= num_chunks <= MAX_NUM_CHUNKS,
            r matches Ok(j) ==> j.wf() && j@.len() == num_chunks && num_sketches_of(j@) == 0,
            r matches Err(e) ==> e.kind() == ErrorKind::InvalidConfig,
    {
        if num_chunks == 0 || num_chunks > MAX_NUM_CHUNKS {
            return Err(AllPairsHammingError::input(ErrorKind::InvalidConfig, "The number of chunks is out of range."));
        }
        Ok(SimpleJoiner { sketches: Vec::new(), num_chunks, shows_progress: false })
    }

    /// Prints the progress with stderr?
    pub fn shows_progress(self, yes: bool) -> (r: Self)
        requires
            self.wf(),
        ensures
            r@ == self@,
            r.wf(),
    {
        let mut s = self;
        s.shows_progress = yes;
        s
    }

    /// Appends a sketch of [`Self::num_chunks()`] chunks: the first
    /// `num_chunks` values of `sketch`. Fails, and stores nothing, if there are
    /// fewer.
    pub fn add(&mut self, sketch: &[S]) -> (r: Result<(), AllPairsHammingError>)
        requires
            old(self).wf(),
        ensures
            final(self).wf(),
            r is Ok <==> sketch@.len() >= old(self)@.len(),
            r is Ok ==> final(self)@.len() == old(self)@.len() && forall|c: int|
                0 <= c < old(self)@.len() ==> #[trigger] final(self)@[c] == old(self)@[c].push(
                    sketch@[c].bits(),
                ),
            r matches Err(e) ==> final(self)@ == old(self)@ && e.kind() == ErrorKind::ShortInput,
    {
        if sketch.len() < self.num_chunks {
            return Err(
                AllPairsHammingError::input(
                    ErrorKind::ShortInput,
                    "The input sketch must include num_chunks chunks at least.",
                ),
            );
        }
        let mut row: Vec<S> = Vec::with_capacity(self.num_chunks);
        let mut c: usize = 0;
        while c < self.num_chunks
            invariant
                c <= self.num_chunks <= sketch@.len(),
                row@ == sketch@.subrange(0, c as int),
            decreases self.num_chunks - c,
        {
            row.push(sketch[c]);
            c = c + 1;
        }
        let ghost old_self = *self;
        self.sketches.push(row);
        proof {
            assert forall|k: int| 0 <= k < self@.len() implies #[trigger] self@[k] == old_self@[k].push(
                sketch@[k].bits(),
            ) by {
                assert(self@[k] =~= old_self@[k].push(sketch@[k].bits()));
            }
            assert forall|i: int| 0 <= i < self.sketches@.len() implies (#[trigger] self.sketches@[i])@.len()
                == self.num_chunks by {
                if i < old_self.sketches@.len() {
                    assert(self.sketches@[i] == old_self.sketches@[i]);
                }
            }
        }
        Ok(())
    }

    /// Gets the number of chunks.
    pub fn num_chunks(&self) -> (r: usize)
        ensures
            r == self@.len(),
    {
        self.num_chunks
    }

    /// Gets the number of stored sketches.
    pub fn num_sketches(&self) -> (r: usize)
        requires
            self.wf(),
        ensures
            self@.len() >= 1 ==> r == num_sketches_of(self@),
    {
        self.sketches.len()
    }

    /// Gets the memory usage in bytes (saturating at `usize::MAX`).
    pub fn memory_in_bytes(&self) -> (r: usize)
        requires
            self.wf(),
        ensures
            self@.len() >= 1 ==> r == if self@.len() * num_sketches_of(self@) * (S::spec_dim() / 8) <= usize::MAX {
                self@.len() * num_sketches_of(self@) * (S::spec_dim() / 8)
            } else {
                usize::MAX as nat
            },
    {
        let b = self.num_chunks as u128;
        let n = self.sketches.len() as u128;
        let bytes = (S::dim() / 8) as u128;
        assert(b * n <= 0xffff_ffff_ffff_ffff_ffff_ffff_ffff_ffffu128 / 8) by (nonlinear_arith)
            requires
                b <= 0x100_0000,
                n <= 0xffff_ffff_ffff_ffff,
        ;
        assert(b * n * bytes <= 0xffff_ffff_ffff_ffff_ffff_ffff_ffff_ffffu128) by (nonlinear_arith)
            requires
                b * n <= 0xffff_ffff_ffff_ffff_ffff_ffff_ffff_ffffu128 / 8,
                bytes <= 8,
        ;
        let total = b * n * bytes;
        if total > usize::MAX as u128 {
            usize::MAX
        } else {
            total as usize
        }
    }

    /// Distance of sketches `i` and `j`, or `None` as soon as it exceeds `bound`.
    fn hamming_distance(&self, i: usize, j: usize, bound: usize) -> (r: Option<usize>)
        requires
            self.wf(),
            i < self.sketches@.len(),
            j < self.sketches@.len(),
        ensures
            r == if sketch_dist(self@, i as int, j as int) <= bound {
                Some(sketch_dist(self@, i as int, j as int) as usize)
            } else {
                None::<usize>
            },
    {
        let xs = &self.sketches[i];
        let ys = &self.sketches[j];
        let b = self.num_chunks;
        let mut dist: usize = 0;
        let mut c: usize = 0;
        while c < b
            invariant
                self.wf(),
                b == self@.len() == self.num_chunks,
                xs@ == self.sketches@[i as int]@,
                ys@ == self.sketches@[j as int]@,
                i < self.sketches@.len(),
                j < self.sketches@.len(),
                c <= b,
                dist == dist_upto(self@, i as int, j as int, c as nat),
                dist <= bound,
                dist <= 64 * c,
            decreases b - c,
        {
            let x = xs[c];
            let y = ys[c];
            proof {
                x.lemma_sketch();
                y.lemma_sketch();
                lemma_hamming_bound(x.bits(), y.bits(), S::spec_dim());
                assert(self@[c as int][i as int] == x.bits());
                assert(self@[c as int][j as int] == y.bits());
            }
            dist = dist + x.hamdist(y);
            if bound < dist {
                proof {
                    lemma_dist_mono(self@, i as int, j as int, (c + 1) as nat, b as nat);
                }
                return None;
            }
            c = c + 1;
        }
        Some(dist)
    }

    /// Finds all similar pairs whose normalized Hamming distance is within
    /// `radius` by comparing every pair, returning triplets of the left-side id,
    /// the right-side id, and their Hamming distance, in ascending order of the
    /// ids.
    pub fn similar_pairs(&self, radius: Radius) -> (r: Vec<(usize, usize, usize)>)
        requires
            self.wf(),
            radius.wf(),
        ensures
            joined(self@, self.spec_dimension(), radius, r@),
    {
        let w = S::dim();
        let b = self.num_chunks;
        if b == 0 {
            // No dimension: no pair has a normalized distance.
            let r: Vec<(usize, usize, usize)> = Vec::new();
            proof {
                assert forall|t: (usize, usize, usize)| !r@.contains(t) by {}
            }
            return r;
        }
        proof {
            assert(w * b <= 0x4000_0000) by (nonlinear_arith)
                requires
                    w <= 64,
                    b <= 0x100_0000,
            ;
        }
        let dimension = w * b;
        let num = radius.num() as u128;
        let den = radius.den();
        proof {
            assert(dimension as u128 * num <= 0x4000_0000 * 0xffff_ffff_ffff_ffff) by (nonlinear_arith)
                requires
                    dimension <= 0x4000_0000,
                    num <= 0xffff_ffff_ffff_ffff,
            ;
        }
        let prod = dimension as u128 * num;
        proof {
            assert(prod <= dimension * den) by (nonlinear_arith)
                requires
                    prod == dimension * num,
                    num <= den,
            ;
            assert(prod < (dimension + 1) * den) by (nonlinear_arith)
                requires
                    prod <= dimension * den,
                    den > 0,
            ;
            lemma_floor_div(dimension as int + 1, prod as int, den as int);
        }
        let bound = (prod / den) as usize;
        let n = self.sketches.len();
        let mut matched: Vec<(usize, usize, usize)> = Vec::new();
        let mut i: usize = 0;
        while i < n
            invariant
                self.wf(),
                self@.len() >= 1,
                n == self.sketches@.len() == num_sketches_of(self@),
                i <= n,
                forall|a: int, c: int|
                    0 <= a < c < matched@.len() ==> pair_lt((matched@[a].0, matched@[a].1), (matched@[c].0, matched@[c].1)),
                forall|a: int| 0 <= a < matched@.len() ==> #[trigger] matched@[a].0 < i,
                forall|t: (usize, usize, usize)|
                    #[trigger] matched@.contains(t) <==> (t.0 < i && t.0 < t.1 < n && t.2 == sketch_dist(self@, t.0 as int, t.1 as int)
                        && t.2 <= bound),
            decreases n - i,
        {
            let mut j: usize = i + 1;
            while j < n
                invariant
                    self.wf(),
                    self@.len() >= 1,
                    n == self.sketches@.len() == num_sketches_of(self@),
                    i < n,
                    i + 1 <= j <= n,
                    forall|a: int, c: int|
                        0 <= a < c < matched@.len() ==> pair_lt((matched@[a].0, matched@[a].1), (matched@[c].0, matched@[c].1)),
                    forall|a: int| 0 <= a < matched@.len() ==> pair_lt((#[trigger] matched@[a].0, matched@[a].1), (i, j)),
                    forall|t: (usize, usize, usize)|
                        #[trigger] matched@.contains(t) <==> ((t.0 < i || (t.0 == i && t.1 < j)) && t.0 < t.1 < n
                            && t.2 == sketch_dist(self@, t.0 as int, t.1 as int) && t.2 <= bound),
                decreases n - j,
            {
                let ghost old_m = matched@;
                match self.hamming_distance(i, j, bound) {
                    Some(d) => {
                        matched.push((i, j, d));
                        proof {
                            assert forall|t: (usize, usize, usize)|
                                #[trigger] matched@.contains(t) <==> ((t.0 < i || (t.0 == i && t.1 < j + 1)) && t.0 < t.1 < n
                                    && t.2 == sketch_dist(self@, t.0 as int, t.1 as int) && t.2 <= bound) by {
                                if matched@.contains(t) {
                                    let x = choose|x: int| 0 <= x < matched@.len() && matched@[x] == t;
                                    if x < old_m.len() {
                                        assert(old_m[x] == t);
                                        assert(old_m.contains(t));
                                    }
                                }
                                if (t.0 < i || (t.0 == i && t.1 < j + 1)) && t.0 < t.1 < n
                                    && t.2 == sketch_dist(self@, t.0 as int, t.1 as int) && t.2 <= bound {
                                    if t.0 == i && t.1 == j {
                                        assert(matched@[matched@.len() - 1] == t);
                                    } else {
                                        assert(old_m.contains(t));
                                        let x = choose|x: int| 0 <= x < old_m.len() && old_m[x] == t;
                                        assert(matched@[x] == t);
                                    }
                                }
                            }
                            assert forall|a: int, c: int|
                                0 <= a < c < matched@.len() implies pair_lt((matched@[a].0, matched@[a].1), (matched@[c].0, matched@[c].1)) by {
                                if c < old_m.len() {
                                    assert(matched@[a] == old_m[a]);
                                    assert(matched@[c] == old_m[c]);
                                } else {
                                    assert(matched@[a] == old_m[a]);
                                }
                            }
                        }
                    },
                    None => {
                        proof {
                            assert forall|t: (usize, usize, usize)|
                                #[trigger] matched@.contains(t) <==> ((t.0 < i || (t.0 == i && t.1 < j + 1)) && t.0 < t.1 < n
                                    && t.2 == sketch_dist(self@, t.0 as int, t.1 as int) && t.2 <= bound) by {
                            }
                        }
                    },
                }
                j = j + 1;
            }
            i = i + 1;
        }
        proof {
            assert forall|t: (usize, usize, usize)|
                #[trigger] matched@.contains(t) <==> (t.0 < t.1 < num_sketches_of(self@) && t.2 == sketch_dist(
                    self@,
                    t.0 as int,
                    t.1 as int,
                ) && within(t.2 as nat, self.spec_dimension(), radius)) by {
                lemma_floor_div(t.2 as int, prod as int, den as int);
                assert(t.2 * den == t.2 * radius.spec_den());
                assert(dimension == self.spec_dimension());
            }
        }
        matched
    }
}

} // verus!
