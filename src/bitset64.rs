//! A set of small integers (below 64) held in one word.
use vstd::prelude::*;
use vstd::std_specs::bits::{axiom_u64_leading_zeros, axiom_u64_trailing_zeros, u64_leading_zeros, u64_trailing_zeros};

use crate::sketch::{bit, count_ones, ones};

verus! {

/// The positions below 64 whose bit is set in `x`.
pub open spec fn bit_set(x: u64) -> Set<nat> {
    Set::new(|i: nat| i < 64 && bit(x, i))
}

/// The positions below `k` whose bit is set in `x`.
spec fn bit_set_below(x: u64, k: nat) -> Set<nat> {
    Set::new(|i: nat| i < k && bit(x, i))
}

proof fn lemma_bit_set_below(x: u64, k: nat)
    requires
        k <= 64,
    ensures
        bit_set_below(x, k).finite(),
        bit_set_below(x, k).len() == ones(x, 0, k),
    decreases k,
{
    if k == 0 {
        assert(bit_set_below(x, 0) =~= Set::empty());
    } else {
        let k1 = (k - 1) as nat;
        lemma_bit_set_below(x, k1);
        if bit(x, k1) {
            assert(bit_set_below(x, k) =~= bit_set_below(x, k1).insert(k1));
        } else {
            assert(bit_set_below(x, k) =~= bit_set_below(x, k1));
        }
    }
}

/// The set held by a word is finite and has as many elements as set bits.
pub proof fn lemma_bit_set_len(x: u64)
    ensures
        bit_set(x).finite(),
        bit_set(x).len() == ones(x, 0, 64),
        forall|i: nat| #[trigger] bit_set(x).contains(i) ==> i < 64,
{
    lemma_bit_set_below(x, 64);
    assert(bit_set(x) =~= bit_set_below(x, 64));
}

proof fn lemma_or_bit_bv(x: u64, k: u64, i: u64)
    by (bit_vector)
    requires
        k < 64,
        i < 64,
    ensures
        ((x | (1u64 << k)) >> i) & 1u64 == 1u64 <==> (((x >> i) & 1u64 == 1u64) || i == k),
{
}

proof fn lemma_xor_bit_bv(x: u64, k: u64, i: u64)
    by (bit_vector)
    requires
        k < 64,
        i < 64,
        (x >> k) & 1u64 == 1u64,
    ensures
        ((x ^ (1u64 << k)) >> i) & 1u64 == 1u64 <==> (((x >> i) & 1u64 == 1u64) && i != k),
{
}

proof fn lemma_not_bit_bv(x: u64, i: u64)
    by (bit_vector)
    requires
        i < 64,
    ensures
        ((!x) >> i) & 1u64 == 1u64 <==> !((x >> i) & 1u64 == 1u64),
{
}

proof fn lemma_zero_bits_bv(x: u64, i: u64)
    by (bit_vector)
    requires
        i < 64,
        x == 0,
    ensures
        (x >> i) & 1u64 != 1u64,
{
}

proof fn lemma_nonzero_has_bit(x: u64)
    requires
        x != 0,
    ensures
        exists|i: nat| i < 64 && bit(x, i),
{
    axiom_u64_trailing_zeros(x);
    let t = u64_trailing_zeros(x) as nat;
    assert(bit(x, t));
}

/// A set of integers in `0..64`, held as the bits of one word.
#[derive(Clone, Copy, Debug)]
pub struct Bitset64(u64);

impl View for Bitset64 {
    type V = Set<nat>;

    closed spec fn view(&self) -> Set<nat> {
        bit_set(self.0)
    }
}

impl Bitset64 {
    /// A set holds only integers below 64 and is finite.
    pub proof fn lemma_bounded(&self)
        ensures
            self@.finite(),
            forall|i: nat| #[trigger] self@.contains(i) ==> i < 64,
    {
        lemma_bit_set_len(self.0);
    }

    /// Creates an empty set.
    pub fn new() -> (r: Self)
        ensures
            r@ == Set::<nat>::empty(),
    {
        let r = Bitset64(0);
        proof {
            assert forall|i: nat| !r@.contains(i) by {
                if i < 64 {
                    lemma_zero_bits_bv(0, i as u64);
                }
            }
            assert(r@ =~= Set::<nat>::empty());
        }
        r
    }

    /// Returns the set with `i` added.
    pub fn add(self, i: usize) -> (r: Self)
        requires
            i < 64,
        ensures
            r@ == self@.insert(i as nat),
    {
        let r = Bitset64(self.0 | (1u64 << (i as u64)));
        proof {
            assert forall|j: nat| j < 64 implies (bit(r.0, j) <==> (bit(self.0, j) || j == i)) by {
                lemma_or_bit_bv(self.0, i as u64, j as u64);
            }
            assert(r@ =~= self@.insert(i as nat));
        }
        r
    }

    /// Gets the largest element, if any.
    pub fn max(&self) -> (r: Option<usize>)
        ensures
            r is None <==> self@ == Set::<nat>::empty(),
            r matches Some(m) ==> self@.contains(m as nat) && forall|j: nat|
                #[trigger] self@.contains(j) ==> j <= m,
    {
        if self.0 == 0 {
            proof {
                assert forall|i: nat| !self@.contains(i) by {
                    if i < 64 {
                        lemma_zero_bits_bv(0, i as u64);
                    }
                }
                assert(self@ =~= Set::<nat>::empty());
            }
            None
        } else {
            let lz = self.0.leading_zeros();
            proof {
                axiom_u64_leading_zeros(self.0);
                reveal(u64_leading_zeros);
                let m = (63 - lz) as nat;
                let v = self.0 >> vstd::prelude::sub(63u64, lz as u64);
                assert(v & 1u64 != 0u64 ==> v & 1u64 == 1u64) by (bit_vector);
                assert(vstd::prelude::sub(63u64, lz as u64) == m as u64);
                assert(bit(self.0, m));
                assert(self@.contains(m));
                assert forall|j: nat| #[trigger] self@.contains(j) implies j <= m by {
                    if j > m {
                        assert((self.0 >> (j as u64)) & 1u64 == 0u64);
                    }
                }
            }
            Some(63 - lz as usize)
        }
    }

    /// Returns the complement of the set within `0..64`.
    pub fn inverse(self) -> (r: Self)
        ensures
            forall|i: nat| i < 64 ==> (r@.contains(i) <==> !self@.contains(i)),
            forall|i: nat| #[trigger] r@.contains(i) ==> i < 64,
    {
        let r = Bitset64(!self.0);
        proof {
            assert forall|i: nat| i < 64 implies (r@.contains(i) <==> !self@.contains(i)) by {
                lemma_not_bit_bv(self.0, i as u64);
            }
        }
        r
    }

    /// Creates a cursor over the elements in ascending order.
    pub fn iter(&self) -> (r: Bitset64Iter)
        ensures
            r@ == self@,
    {
        Bitset64Iter(self.0)
    }

    /// Gets the number of elements.
    pub fn len(&self) -> (r: usize)
        ensures
            r == self@.len(),
    {
        proof {
            lemma_bit_set_len(self.0);
        }
        count_ones(self.0) as usize
    }

    /// Checks if the set is empty.
    pub fn is_empty(&self) -> (r: bool)
        ensures
            r <==> self@ == Set::<nat>::empty(),
    {
        proof {
            lemma_bit_set_len(self.0);
            if self@.len() == 0 {
                self@.lemma_len0_is_empty();
            }
        }
        self.len() == 0
    }
}

/// A cursor handing out the elements of a [`Bitset64`] in ascending order.
pub struct Bitset64Iter(u64);

impl View for Bitset64Iter {
    type V = Set<nat>;

    closed spec fn view(&self) -> Set<nat> {
        bit_set(self.0)
    }
}

impl Bitset64Iter {
    /// Hands out and removes the smallest element left, if any.
    pub fn next(&mut self) -> (r: Option<usize>)
        ensures
            r is None <==> old(self)@ == Set::<nat>::empty(),
            r is None ==> final(self)@ == old(self)@,
            r matches Some(t) ==> old(self)@.contains(t as nat) && final(self)@ == old(self)@.remove(
                t as nat,
            ) && forall|j: nat| #[trigger] old(self)@.contains(j) ==> t <= j,
    {
        if self.0 == 0 {
            proof {
                assert forall|i: nat| !old(self)@.contains(i) by {
                    if i < 64 {
                        lemma_zero_bits_bv(0, i as u64);
                    }
                }
                assert(old(self)@ =~= Set::<nat>::empty());
            }
            return None;
        }
        let tz = self.0.trailing_zeros();
        proof {
            axiom_u64_trailing_zeros(self.0);
        }
        let x = self.0;
        self.0 = x ^ (1u64 << (tz as u64));
        proof {
            let t = tz as nat;
            assert(bit(x, t));
            assert(old(self)@.contains(t));
            assert forall|j: nat| j < 64 implies (bit(self.0, j) <==> (bit(x, j) && j != t)) by {
                lemma_xor_bit_bv(x, tz as u64, j as u64);
            }
            assert(self@ =~= old(self)@.remove(t));
            assert forall|j: nat| #[trigger] old(self)@.contains(j) implies t <= j by {
                if j < t {
                    assert((x >> (j as u64)) & 1u64 == 0u64);
                }
            }
        }
        Some(tz as usize)
    }
}

} // verus!
