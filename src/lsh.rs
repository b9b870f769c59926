//! 1-bit minwise hashing for the Jaccard similarity, over a seeded
//! pseudo-random stream.
use vstd::prelude::*;
use vstd::wrapping::u64_specs::{wrapping_add, wrapping_mul};

verus! {

/// The increment of the SplitMix64 state.
pub const SPLITMIX_GAMMA: u64 = 0x9e37_79b9_7f4a_7c15;

/// The output function of SplitMix64 on a state.
#[verifier::opaque]
pub open spec fn splitmix_mix(z: u64) -> u64 {
    let z1 = wrapping_mul(z ^ (z >> 30u64), 0xbf58_476d_1ce4_e5b9u64);
    let z2 = wrapping_mul(z1 ^ (z1 >> 27u64), 0x94d0_49bb_1331_11ebu64);
    z2 ^ (z2 >> 31u64)
}

/// The state of a SplitMix64 stream seeded with `seed` after `k` draws.
pub open spec fn stream_state(seed: u64, k: nat) -> u64
    decreases k,
{
    if k == 0 {
        seed
    } else {
        wrapping_add(stream_state(seed, (k - 1) as nat), SPLITMIX_GAMMA)
    }
}

/// Draw `k` (from 0) of the SplitMix64 stream seeded with `seed`.
pub open spec fn stream_draw(seed: u64, k: nat) -> u64 {
    splitmix_mix(stream_state(seed, k + 1))
}

/// The first draw of the stream seeded with `x`.
pub open spec fn splitmix_first(x: u64) -> u64 {
    stream_draw(x, 0)
}

/// Computes the SplitMix64 output function.
fn mix(z: u64) -> (r: u64)
    ensures
        r == splitmix_mix(z),
{
    proof {
        reveal(splitmix_mix);
    }
    let z1 = (z ^ (z >> 30u64)).wrapping_mul(0xbf58_476d_1ce4_e5b9u64);
    let z2 = (z1 ^ (z1 >> 27u64)).wrapping_mul(0x94d0_49bb_1331_11ebu64);
    z2 ^ (z2 >> 31u64)
}

/// The SplitMix64 generator (as `rand_xoshiro::SplitMix64` defines it): a
/// state advanced by a fixed increment, each output the mix of the new state.
pub struct SplitMix {
    state: u64,
}

impl SplitMix {
    /// The current state.
    pub closed spec fn spec_state(&self) -> u64 {
        self.state
    }

    /// A generator seeded with `seed`.
    pub fn new(seed: u64) -> (r: Self)
        ensures
            r.spec_state() == seed,
    {
        SplitMix { state: seed }
    }

    /// Draws the next 64-bit output.
    pub fn next_u64(&mut self) -> (r: u64)
        ensures
            final(self).spec_state() == wrapping_add(old(self).spec_state(), SPLITMIX_GAMMA),
            r == splitmix_mix(final(self).spec_state()),
    {
        self.state = self.state.wrapping_add(SPLITMIX_GAMMA);
        mix(self.state)
    }
}

/// Generates a hash value of `x` under `seed`: the first draw of SplitMix64
/// seeded with `x ^ seed`.
pub fn hash_u64(x: u64, seed: u64) -> (r: u64)
    ensures
        r == splitmix_first(x ^ seed),
{
    let mut g = SplitMix::new(x ^ seed);
    proof {
        assert(stream_state(x ^ seed, 0) == x ^ seed);
        assert(stream_state(x ^ seed, 1) == wrapping_add(x ^ seed, SPLITMIX_GAMMA));
    }
    g.next_u64()
}

/// The 64 seeds of word `c` of a MinHash stream seeded with `seed`.
pub open spec fn word_seeds(seed: u64, c: nat) -> Seq<u64> {
    Seq::new(64, |k: int| stream_draw(seed, 64 * c + k as nat))
}

/// The least hash of the features under `seed`.
pub open spec fn min_hash(feature: Seq<u64>, seed: u64) -> u64
    decreases feature.len(),
{
    if feature.len() <= 1 {
        splitmix_first(feature[0] ^ seed)
    } else {
        let m = min_hash(feature.drop_last(), seed);
        let h = splitmix_first(feature.last() ^ seed);
        if h < m {
            h
        } else {
            m
        }
    }
}

/// The word of 1-bit minwise hashing: for each seed in turn, the low bit of
/// the least hash, packed from the most significant bit down.
pub open spec fn minhash_word(feature: Seq<u64>, seeds: Seq<u64>) -> u64
    decreases seeds.len(),
{
    if seeds.len() == 0 {
        0
    } else {
        (minhash_word(feature, seeds.drop_last()) << 1u64) | (min_hash(feature, seeds.last()) & 1u64)
    }
}

/// The sketch of `n` words of a feature vector under the stream seeded with `seed`.
pub open spec fn minhash_sketch(feature: Seq<u64>, seed: u64, n: nat) -> Seq<u64> {
    Seq::new(n, |c: int| minhash_word(feature, word_seeds(seed, c as nat)))
}

/// Computes the word of 1-bit minwise hashing of `feature` for `seeds`.
pub fn minhash_bits(feature: &[u64], seeds: &[u64]) -> (r: u64)
    requires
        feature@.len() >= 1,
    ensures
        r == minhash_word(feature@, seeds@),
{
    let mut x: u64 = 0;
    let mut k: usize = 0;
    while k < seeds.len()
        invariant
            feature@.len() >= 1,
            k <= seeds@.len(),
            x == minhash_word(feature@, seeds@.subrange(0, k as int)),
        decreases seeds@.len() - k,
    {
        let seed = seeds[k];
        let mut h = hash_u64(feature[0], seed);
        let mut i: usize = 1;
        while i < feature.len()
            invariant
                1 <= i <= feature@.len(),
                h == min_hash(feature@.subrange(0, i as int), seed),
            decreases feature@.len() - i,
        {
            let g = hash_u64(feature[i], seed);
            proof {
                let s = feature@.subrange(0, i as int + 1);
                assert(s.drop_last() =~= feature@.subrange(0, i as int));
            }
            if g < h {
                h = g;
            }
            i = i + 1;
        }
        proof {
            assert(feature@.subrange(0, feature@.len() as int) =~= feature@);
            let s = seeds@.subrange(0, k as int + 1);
            assert(s.drop_last() =~= seeds@.subrange(0, k as int));
        }
        x = (x << 1u64) | (h & 1u64);
        k = k + 1;
    }
    proof {
        assert(seeds@.subrange(0, seeds@.len() as int) =~= seeds@);
    }
    x
}

/// [1-bit minwise hashing](https://dl.acm.org/doi/abs/10.1145/1772690.1772759)
/// for the Jaccard similarity.
pub struct MinHasher {
    seed: u64,
}

impl MinHasher {
    /// The seed of the stream.
    pub closed spec fn spec_seed(&self) -> u64 {
        self.seed
    }

    /// Creates an instance.
    pub fn new(seed: u64) -> (r: Self)
        ensures
            r.spec_seed() == seed,
    {
        MinHasher { seed }
    }

    /// Creates a generator of sketch words for a feature vector.
    pub fn iter<'a>(&self, feature: &'a [u64]) -> (r: MinHashIter<'a>)
        ensures
            r.wf(),
            r.spec_feature() == feature@,
            r.spec_seed() == self.spec_seed(),
            r.spec_words() == 0,
    {
        MinHashIter { feature, seeder: SplitMix::new(self.seed), seed: self.seed, words: Ghost(0) }
    }
}

/// Generates sketch words of 64 bits with the 1-bit minwise hashing.
pub struct MinHashIter<'a> {
    feature: &'a [u64],
    seeder: SplitMix,
    seed: u64,
    words: Ghost<nat>,
}

impl<'a> MinHashIter<'a> {
    /// The feature vector hashed.
    pub closed spec fn spec_feature(&self) -> Seq<u64> {
        self.feature@
    }

    /// The seed of the stream.
    pub closed spec fn spec_seed(&self) -> u64 {
        self.seed
    }

    /// The number of words generated so far.
    pub closed spec fn spec_words(&self) -> nat {
        self.words@
    }

    /// The stream has been drawn 64 times per word generated.
    pub closed spec fn wf(&self) -> bool {
        self.seeder.spec_state() == stream_state(self.seed, 64 * self.words@)
    }

    /// Generates the next word, from the next 64 draws of the stream: word
    /// `n` is `minhash_word(feature, word_seeds(seed, n))`.
    pub fn next(&mut self) -> (r: u64)
        requires
            old(self).wf(),
            old(self).spec_feature().len() >= 1,
        ensures
            final(self).wf(),
            final(self).spec_feature() == old(self).spec_feature(),
            final(self).spec_seed() == old(self).spec_seed(),
            final(self).spec_words() == old(self).spec_words() + 1,
            r == minhash_word(old(self).spec_feature(), word_seeds(old(self).spec_seed(), old(self).spec_words())),
    {
        let ghost n = self.words@;
        let ghost seed = self.seed;
        let mut seeds: Vec<u64> = Vec::with_capacity(64);
        let mut k: usize = 0;
        while k < 64
            invariant
                k <= 64,
                seeds@.len() == k,
                self.feature@ == old(self).feature@,
                self.feature@.len() >= 1,
                self.seed == seed,
                self.words@ == n,
                self.seeder.spec_state() == stream_state(seed, (64 * n + k) as nat),
                forall|i: int| 0 <= i < k ==> #[trigger] seeds@[i] == stream_draw(seed, 64 * n + i as nat),
            decreases 64 - k,
        {
            let x = self.seeder.next_u64();
            proof {
                assert(stream_state(seed, (64 * n + k + 1) as nat) == wrapping_add(stream_state(seed, (64 * n + k) as nat), SPLITMIX_GAMMA));
            }
            seeds.push(x);
            k = k + 1;
        }
        proof {
            assert(seeds@ =~= word_seeds(seed, n));
            self.words = Ghost(n + 1);
            assert(64 * (n + 1) == 64 * n + 64);
        }
        minhash_bits(self.feature, seeds.as_slice())
    }
}

} // verus!
