//! Settings of the weighted features for the Cosine similarity: the term
//! frequency scheme and the seed of the simplified SimHash.
use vstd::prelude::*;

use crate::counter::{count_of, counts_of, new_counts, set_count};

verus! {

/// Number of occurrences of `t` in `s`.
pub open spec fn occurrences(s: Seq<u64>, t: u64) -> nat
    decreases s.len(),
{
    if s.len() == 0 {
        0
    } else {
        occurrences(s.drop_last(), t) + if s.last() == t {
            1nat
        } else {
            0nat
        }
    }
}

proof fn lemma_occurrences_bound(s: Seq<u64>, t: u64)
    ensures
        occurrences(s, t) <= s.len(),
    decreases s.len(),
{
    if s.len() > 0 {
        lemma_occurrences_bound(s.drop_last(), t);
    }
}

/// A term that occurs at some position occurs at least once.
proof fn lemma_occurrences_positive(s: Seq<u64>, k: int)
    requires
        0 <= k < s.len(),
    ensures
        occurrences(s, s[k]) > 0,
    decreases s.len(),
{
    if k < s.len() - 1 {
        lemma_occurrences_positive(s.drop_last(), k);
    }
}

/// Weighter of term frequency: `count / |doc|`, or `log10(count) + 1` when sublinear.
#[derive(Clone, Copy, Debug)]
pub struct Tf {
    sublinear: bool,
}

impl Tf {
    /// Whether sublinear normalization is used.
    pub closed spec fn spec_sublinear(&self) -> bool {
        self.sublinear
    }

    /// Creates an instance (standard normalization).
    pub fn new() -> (r: Self)
        ensures
            !r.spec_sublinear(),
    {
        Tf { sublinear: false }
    }

    /// Enables sublinear normalization.
    pub fn sublinear(self, yes: bool) -> (r: Self)
        ensures
            r.spec_sublinear() == yes,
    {
        Tf { sublinear: yes }
    }

    /// Counts, for each position, how often its term occurs among `terms`
    /// (the counts that term frequencies are computed from).
    pub fn count(&self, terms: &[u64]) -> (r: Vec<usize>)
        ensures
            r@.len() == terms@.len(),
            forall|k: int| 0 <= k < terms@.len() ==> #[trigger] r@[k] == occurrences(terms@, terms@[k]),
    {
        let mut counter = new_counts();
        let mut k: usize = 0;
        while k < terms.len()
            invariant
                k <= terms@.len(),
                forall|t: u64|
                    #[trigger] counts_of(counter).contains_key(t) <==> occurrences(terms@.subrange(0, k as int), t) > 0,
                forall|t: u64|
                    #[trigger] counts_of(counter).contains_key(t) ==> counts_of(counter)[t] == occurrences(terms@.subrange(0, k as int), t),
            decreases terms@.len() - k,
        {
            let t = terms[k];
            let c = match count_of(&counter, t) {
                Some(c) => c,
                None => 0,
            };
            proof {
                lemma_occurrences_bound(terms@.subrange(0, k as int), t);
                assert(terms@.subrange(0, k + 1).drop_last() =~= terms@.subrange(0, k as int));
            }
            set_count(&mut counter, t, c + 1);
            proof {
                assert forall|u: u64| #[trigger] counts_of(counter).contains_key(u) <==> occurrences(terms@.subrange(0, k + 1), u) > 0 by {
                    assert(terms@.subrange(0, k + 1).drop_last() =~= terms@.subrange(0, k as int));
                }
                assert forall|u: u64| #[trigger] counts_of(counter).contains_key(u) implies counts_of(counter)[u] == occurrences(terms@.subrange(0, k + 1), u) by {
                    assert(terms@.subrange(0, k + 1).drop_last() =~= terms@.subrange(0, k as int));
                }
            }
            k = k + 1;
        }
        proof {
            assert(terms@.subrange(0, terms@.len() as int) =~= terms@);
        }
        let mut r: Vec<usize> = Vec::with_capacity(terms.len());
        let mut k: usize = 0;
        while k < terms.len()
            invariant
                k <= terms@.len(),
                r@.len() == k,
                forall|t: u64| #[trigger] counts_of(counter).contains_key(t) <==> occurrences(terms@, t) > 0,
                forall|t: u64| #[trigger] counts_of(counter).contains_key(t) ==> counts_of(counter)[t] == occurrences(terms@, t),
                forall|j: int| 0 <= j < k ==> #[trigger] r@[j] == occurrences(terms@, terms@[j]),
            decreases terms@.len() - k,
        {
            let t = terms[k];
            proof {
                lemma_occurrences_positive(terms@, k as int);
            }
            let c = match count_of(&counter, t) {
                Some(c) => c,
                None => 0,
            };
            r.push(c);
            k = k + 1;
        }
        r
    }

    /// Gets whether sublinear normalization is used.
    pub fn is_sublinear(&self) -> (r: bool)
        ensures
            r == self.spec_sublinear(),
    {
        self.sublinear
    }
}

/// [Simplified simhash](https://dl.acm.org/doi/10.1145/2063576.2063737) for
/// the Cosine similarity: the seed of its stream.
#[derive(Clone, Copy, Debug)]
pub struct SimHasher {
    seed: u64,
}

impl SimHasher {
    /// Creates an instance.
    pub fn new(seed: u64) -> (r: Self)
        ensures
            r.spec_seed() == seed,
    {
        SimHasher { seed }
    }

    /// The seed.
    pub closed spec fn spec_seed(&self) -> u64 {
        self.seed
    }

    /// Gets the seed.
    pub fn seed(&self) -> (r: u64)
        ensures
            r == self.spec_seed(),
    {
        self.seed
    }
}

} // verus!
