//! Feature extraction: tokens (characters, or words split at a delimiter),
//! padded and shingled, each shingle hashed into a 64-bit feature id.
use std::hash::{BuildHasher, Hash, Hasher};

use ahash::{AHasher, RandomState};
use vstd::prelude::*;
use vstd::std_specs::iter::IteratorSpec;
use vstd::string::StrSliceExecFns;

use crate::errors::{ErrorKind, FindSimdocError};
use crate::lsh::{stream_draw, SplitMix};
use crate::shingling::ShingleIter;

verus! {

broadcast use vstd::string::group_string_axioms;

#[verifier::external_type_specification]
#[verifier::external_body]
pub struct ExRandomState(RandomState);

#[verifier::external_type_specification]
#[verifier::external_body]
pub struct ExAHasher(AHasher);

/// Relies on `ahash::RandomState::with_seeds`: hasher keys from four seeds.
#[verifier::external_body]
fn random_state(k0: u64, k1: u64, k2: u64, k3: u64) -> RandomState {
    RandomState::with_seeds(k0, k1, k2, k3)
}

/// Relies on `BuildHasher::build_hasher` of `ahash::RandomState`: a fresh hasher.
#[verifier::external_body]
fn start_hash(state: &RandomState) -> AHasher {
    state.build_hasher()
}

/// Relies on `Hash::hash` of `str`: feeds a token to the hasher.
#[verifier::external_body]
fn feed_token(hasher: &mut AHasher, token: &str) {
    token.hash(hasher)
}

/// Relies on `Hasher::finish` of `ahash::AHasher`: the hash of what was fed.
#[verifier::external_body]
fn finish_hash(hasher: &AHasher) -> u64 {
    hasher.finish()
}

/// Number of occurrences of `d` in `s`.
pub open spec fn count_char(s: Seq<char>, d: char) -> nat
    decreases s.len(),
{
    if s.len() == 0 {
        0
    } else {
        count_char(s.drop_last(), d) + if s.last() == d {
            1nat
        } else {
            0nat
        }
    }
}

/// Number of tokens of `s`: its characters without a delimiter, else the
/// pieces between delimiters (no piece after a final delimiter).
pub open spec fn num_tokens(s: Seq<char>, delimiter: Option<char>) -> nat {
    match delimiter {
        None => s.len(),
        Some(d) => if s.len() == 0 {
            0
        } else {
            1 + count_char(s.drop_last(), d)
        },
    }
}

/// `pieces` are the pieces of `s` between occurrences of `d`, in order: the
/// first starts at 0, none holds `d`, each but the last ends at a `d` right
/// before the next one starts, and the last ends at the end of `s` or at a
/// final `d`.
pub open spec fn split_pieces(pieces: Seq<(usize, usize)>, s: Seq<char>, d: char) -> bool {
    &&& pieces.len() > 0 ==> pieces[0].0 == 0
    &&& forall|k: int, j: int|
        #![trigger pieces[k], s[j]]
        0 <= k < pieces.len() && pieces[k].0 <= j < pieces[k].1 ==> s[j] != d
    &&& forall|k: int|
        #![trigger pieces[k]]
        0 <= k < pieces.len() - 1 ==> pieces[k].1 < s.len() && s[pieces[k].1 as int] == d && pieces[k + 1].0
            == pieces[k].1 + 1
    &&& pieces.len() > 0 ==> (pieces.last().1 == s.len() || (pieces.last().1 + 1 == s.len() && s[pieces.last().1 as int]
        == d))
}

/// Number of shingles of a text: its tokens, padded with `w - 1` empty tokens
/// on each side, have `num_tokens + w - 1` windows of `w` tokens.
pub open spec fn num_shingles(s: Seq<char>, delimiter: Option<char>, w: nat) -> nat {
    (num_tokens(s, delimiter) + w - 1) as nat
}

/// `f` can be the feature vector of `text`: one id per shingle, and the
/// characters' code points for character unigrams. (Other ids are hashes of
/// the shingles' tokens, whose values depend on the hasher build.)
pub open spec fn is_feature_of(w: nat, delimiter: Option<char>, text: Seq<char>, f: Seq<u64>) -> bool {
    &&& f.len() == num_shingles(text, delimiter, w)
    &&& (delimiter is None && w == 1 ==> f == text.map_values(|c: char| c as u64))
}

/// The characters of `text`.
fn chars_of(text: &str) -> (r: Vec<char>)
    ensures
        r@ == text@,
{
    let mut it = text.chars();
    let mut v: Vec<char> = Vec::new();
    loop
        invariant
            v@ + it.remaining() == text@,
        ensures
            v@ == text@,
        decreases text@.len() - v@.len(),
    {
        let ghost before = it.remaining();
        match it.next() {
            Some(c) => {
                v.push(c);
                proof {
                    assert(v@ + it.remaining() =~= text@) by {
                        assert(before =~= seq![c] + it.remaining());
                    }
                }
            },
            None => {
                proof {
                    assert(before.len() == 0);
                    assert(v@ =~= text@);
                }
                break;
            },
        }
    }
    v
}

proof fn lemma_count_char_step(s: Seq<char>, d: char, k: int)
    requires
        0 <= k < s.len(),
    ensures
        count_char(s.subrange(0, k + 1), d) == count_char(s.subrange(0, k), d) + if s[k] == d {
            1nat
        } else {
            0nat
        },
{
    assert(s.subrange(0, k + 1).drop_last() =~= s.subrange(0, k));
}

/// Characters other than `d` do not change the count of `d`.
proof fn lemma_count_char_skip(s: Seq<char>, d: char, a: int, b: int)
    requires
        0 <= a <= b <= s.len(),
        forall|j: int| a <= j < b ==> #[trigger] s[j] != d,
    ensures
        count_char(s.subrange(0, b), d) == count_char(s.subrange(0, a), d),
    decreases b - a,
{
    if b > a {
        lemma_count_char_skip(s, d, a, b - 1);
        lemma_count_char_step(s, d, b - 1);
    }
}

/// Configuration of feature extraction.
pub struct FeatureConfig {
    window_size: usize,
    delimiter: Option<char>,
    build_hasher: RandomState,
    keys: Ghost<(u64, u64, u64, u64)>,
}

/// The four hasher keys of a configuration seeded with `seed`: the first four
/// draws of SplitMix64 from it.
pub open spec fn keys_of_seed(seed: u64) -> (u64, u64, u64, u64) {
    (stream_draw(seed, 0), stream_draw(seed, 1), stream_draw(seed, 2), stream_draw(seed, 3))
}

impl FeatureConfig {
    /// The window size of shingles.
    pub closed spec fn spec_window_size(&self) -> nat {
        self.window_size as nat
    }

    /// The delimiter of words, or `None` for characters as tokens.
    pub closed spec fn spec_delimiter(&self) -> Option<char> {
        self.delimiter
    }

    /// The keys the shingle hasher was built with (by `RandomState::with_seeds`).
    pub closed spec fn spec_keys(&self) -> (u64, u64, u64, u64) {
        self.keys@
    }

    /// Creates an instance; fails if `window_size` is 0.
    ///
    /// # Arguments
    ///
    /// * `window_size` - Window size for w-shingling in feature extraction (must be more than 0).
    /// * `delimiter` - Delimiter for recognizing words as tokens in feature extraction.
    ///                 If `None`, characters are used for tokens.
    /// * `seed` - Seed value for random values.
    pub fn new(window_size: usize, delimiter: Option<char>, seed: u64) -> (r: Result<Self, FindSimdocError>)
        ensures
            r is Ok <==> window_size >= 1,
            r matches Ok(c) ==> c.spec_window_size() == window_size && c.spec_delimiter() == delimiter
                && c.spec_keys() == keys_of_seed(seed),
            r matches Err(e) ==> e.kind() == ErrorKind::InvalidConfig,
    {
        if window_size == 0 {
            return Err(FindSimdocError::input(ErrorKind::InvalidConfig, "Window size must not be 0."));
        }
        let mut seeder = SplitMix::new(seed);
        let k0 = seeder.next_u64();
        let k1 = seeder.next_u64();
        let k2 = seeder.next_u64();
        let k3 = seeder.next_u64();
        proof {
            assert(crate::lsh::stream_state(seed, 0) == seed);
            assert(k0 == stream_draw(seed, 0));
            assert(k1 == stream_draw(seed, 1));
            assert(k2 == stream_draw(seed, 2));
            assert(k3 == stream_draw(seed, 3));
        }
        Ok(
            FeatureConfig {
                window_size,
                delimiter,
                build_hasher: random_state(k0, k1, k2, k3),
                keys: Ghost((k0, k1, k2, k3)),
            },
        )
    }

    /// Gets the window size.
    pub fn window_size(&self) -> (r: usize)
        ensures
            r == self.spec_window_size(),
    {
        self.window_size
    }

    /// Gets the delimiter.
    pub fn delimiter(&self) -> (r: Option<char>)
        ensures
            r == self.spec_delimiter(),
    {
        self.delimiter
    }

    /// Hashes a shingle of tokens into a feature id.
    pub fn hash(&self, tokens: &[&str]) -> u64 {
        let mut s = start_hash(&self.build_hasher);
        let mut k: usize = 0;
        while k < tokens.len()
            invariant
                k <= tokens@.len(),
            decreases tokens@.len() - k,
        {
            feed_token(&mut s, tokens[k]);
            k = k + 1;
        }
        finish_hash(&s)
    }
}

/// Extractor of feature vectors.
pub struct FeatureExtractor<'a> {
    config: &'a FeatureConfig,
}

impl<'a> FeatureExtractor<'a> {
    /// The configuration used.
    pub closed spec fn spec_config(&self) -> FeatureConfig {
        *self.config
    }

    /// Creates an instance.
    pub fn new(config: &'a FeatureConfig) -> (r: Self)
        ensures
            r.spec_config() == *config,
    {
        FeatureExtractor { config }
    }

    /// Splits the characters into token ranges (of character positions),
    /// padded with `window_size - 1` empty tokens at both ends.
    fn tokenize(&self, chars: &Vec<char>) -> (r: Vec<(usize, usize)>)
        requires
            self.config.window_size >= 1,
        ensures
            r@.len() == num_tokens(chars@, self.config.delimiter) + 2 * (self.config.window_size - 1),
            forall|k: int| #![trigger r@[k]] 0 <= k < r@.len() ==> r@[k].0 <= r@[k].1 <= chars@.len(),
            self.config.delimiter is None ==> forall|k: int|
                0 <= k < chars@.len() ==> #[trigger] r@[k + self.config.window_size - 1] == (k as usize, (k + 1) as usize),
            self.config.delimiter matches Some(d) ==> split_pieces(
                r@.subrange(
                    self.config.window_size - 1,
                    self.config.window_size - 1 + num_tokens(chars@, self.config.delimiter),
                ),
                chars@,
                d,
            ),
            forall|k: int| 0 <= k < self.config.window_size - 1 ==> #[trigger] r@[k] == (0usize, 0usize),
            forall|k: int|
                r@.len() - (self.config.window_size - 1) <= k < r@.len() ==> #[trigger] r@[k] == (
                    chars@.len() as usize,
                    chars@.len() as usize,
                ),
    {
        let w = self.config.window_size;
        let n = chars.len();
        let mut ranges: Vec<(usize, usize)> = Vec::new();
        let mut p: usize = 1;
        while p < w
            invariant
                1 <= p <= w,
                ranges@.len() == p - 1,
                forall|k: int| 0 <= k < ranges@.len() ==> #[trigger] ranges@[k] == (0usize, 0usize),
            decreases w - p,
        {
            ranges.push((0, 0));
            p = p + 1;
        }
        let ghost pad = ranges@.len();
        match self.config.delimiter {
            Some(d) => {
                let mut offset: usize = 0;
                let ghost mut produced: nat = 0;
                let ghost mut tail = false;
                proof {
                    assert(chars@.subrange(0, 0) =~= Seq::<char>::empty());
                    if n == 0 {
                        assert(num_tokens(chars@, Some(d)) == 0);
                    }
                }
                while offset < n
                    invariant
                        n == chars@.len(),
                        pad == w - 1,
                        offset <= n,
                        ranges@.len() == pad + produced,
                        forall|k: int| #![trigger ranges@[k]] 0 <= k < ranges@.len() ==> ranges@[k].0 <= ranges@[k].1 <= n,
                        !tail ==> produced == count_char(chars@.subrange(0, offset as int), d),
                        !tail ==> (offset > 0 ==> chars@[offset - 1] == d),
                        tail ==> offset == n,
                        offset == n ==> ranges@.len() == pad + num_tokens(chars@, Some(d)),
                        forall|k: int| 0 <= k < pad ==> #[trigger] ranges@[k] == (0usize, 0usize),
                        produced > 0 ==> ranges@[pad as int].0 == 0,
                        forall|k: int, j: int|
                            #![trigger ranges@[pad + k], chars@[j]]
                            0 <= k < produced && ranges@[pad + k].0 <= j < ranges@[pad + k].1 ==> chars@[j] != d,
                        forall|k: int|
                            #![trigger ranges@[pad + k]]
                            0 <= k < produced - 1 ==> ranges@[pad + k].1 < n && chars@[ranges@[pad + k].1 as int] == d
                                && ranges@[pad + k + 1].0 == ranges@[pad + k].1 + 1,
                        !tail && produced > 0 ==> ranges@[pad + produced - 1].1 + 1 == offset && chars@[ranges@[pad
                            + produced - 1].1 as int] == d,
                        tail ==> produced > 0 && ranges@[pad + produced - 1].1 == n,
                        produced == 0 ==> offset == 0 && !tail,
                    decreases n - offset,
                {
                    let mut e = offset;
                    while e < n && chars[e] != d
                        invariant
                            offset <= e <= n,
                            n == chars@.len(),
                            forall|k: int| offset <= k < e ==> #[trigger] chars@[k] != d,
                        decreases n - e,
                    {
                        e = e + 1;
                    }
                    proof {
                        lemma_count_char_skip(chars@, d, offset as int, e as int);
                    }
                    let ghost old_r = ranges@;
                    if e < n {
                        ranges.push((offset, e));
                        proof {
                            assert(ranges@[(pad + produced) as int] == (offset, e));
                            assert forall|k: int| 0 <= k < pad + produced implies ranges@[k] == old_r[k] by {}
                            lemma_count_char_step(chars@, d, e as int);
                            produced = produced + 1;
                            if e + 1 == n {
                                assert(chars@.drop_last() =~= chars@.subrange(0, n - 1));
                                assert(chars@.subrange(0, n as int) =~= chars@);
                            }
                        }
                        offset = e + 1;
                    } else {
                        ranges.push((offset, n));
                        proof {
                            assert(ranges@[(pad + produced) as int] == (offset, n));
                            assert forall|k: int| 0 <= k < pad + produced implies ranges@[k] == old_r[k] by {}
                            lemma_count_char_skip(chars@, d, offset as int, n - 1);
                            assert(chars@.drop_last() =~= chars@.subrange(0, n - 1));
                            produced = produced + 1;
                            tail = true;
                        }
                        offset = n;
                    }
                }
                proof {
                    if n == 0 {
                        assert(num_tokens(chars@, Some(d)) == 0);
                    }
                    let mid = ranges@.subrange(pad as int, ranges@.len() as int);
                    assert forall|k: int| 0 <= k < mid.len() implies #[trigger] mid[k] == ranges@[pad + k] by {}
                    assert(split_pieces(mid, chars@, d)) by {
                        assert forall|k: int, j: int|
                            #![trigger mid[k], chars@[j]]
                            0 <= k < mid.len() && mid[k].0 <= j < mid[k].1 implies chars@[j] != d by {
                            assert(mid[k] == ranges@[pad + k]);
                        }
                        assert forall|k: int|
                            #![trigger mid[k]]
                            0 <= k < mid.len() - 1 implies mid[k].1 < chars@.len() && chars@[mid[k].1 as int] == d
                                && mid[k + 1].0 == mid[k].1 + 1 by {
                            assert(mid[k] == ranges@[pad + k]);
                            assert(mid[k + 1] == ranges@[pad + k + 1]);
                        }
                        if mid.len() > 0 {
                            assert(mid.last() == ranges@[pad + produced - 1]);
                            assert(mid[0] == ranges@[pad as int]);
                        }
                    }
                }
            },
            None => {
                let mut k: usize = 0;
                while k < n
                    invariant
                        n == chars@.len(),
                        pad == w - 1,
                        k <= n,
                        ranges@.len() == pad + k,
                        forall|j: int| 0 <= j < pad ==> #[trigger] ranges@[j] == (0usize, 0usize),
                        forall|j: int| #![trigger ranges@[j]] 0 <= j < ranges@.len() ==> ranges@[j].0 <= ranges@[j].1 <= n,
                        forall|j: int| 0 <= j < k ==> #[trigger] ranges@[j + pad] == (j as usize, (j + 1) as usize),
                    decreases n - k,
                {
                    ranges.push((k, k + 1));
                    k = k + 1;
                }
                proof {
                    assert forall|j: int| 0 <= j < n implies #[trigger] ranges@[j + w - 1] == (j as usize, (j + 1) as usize) by {
                        assert(ranges@[j + pad] == (j as usize, (j + 1) as usize));
                    }
                }
            },
        }
        let ghost mid = ranges@;
        proof {
            assert(mid.len() == pad + num_tokens(chars@, self.config.delimiter));
        }
        let mut p: usize = 1;
        while p < w
            invariant
                1 <= p <= w,
                n == chars@.len(),
                ranges@.len() == mid.len() + p - 1,
                ranges@.subrange(0, mid.len() as int) == mid,
                forall|k: int| mid.len() <= k < ranges@.len() ==> #[trigger] ranges@[k] == (n, n),
                forall|k: int| #![trigger ranges@[k]] 0 <= k < ranges@.len() ==> ranges@[k].0 <= ranges@[k].1 <= n,
            decreases w - p,
        {
            let ghost prev = ranges@;
            ranges.push((n, n));
            proof {
                assert(ranges@.subrange(0, mid.len() as int) =~= mid);
                assert forall|k: int| mid.len() <= k < ranges@.len() implies #[trigger] ranges@[k] == (n, n) by {
                    if k < prev.len() {
                        assert(ranges@[k] == prev[k]);
                    }
                }
            }
            p = p + 1;
        }
        proof {
            assert forall|k: int| 0 <= k < w - 1 implies #[trigger] ranges@[k] == (0usize, 0usize) by {
                assert(ranges@.subrange(0, mid.len() as int)[k] == mid[k]);
            }
            if let Some(d) = self.config.delimiter {
                assert(ranges@.subrange(w - 1, w - 1 + num_tokens(chars@, self.config.delimiter)) =~= mid.subrange(
                    w - 1,
                    mid.len() as int,
                ));
            }
            if self.config.delimiter is None {
                assert forall|k: int| 0 <= k < chars@.len() implies #[trigger] ranges@[k + w - 1] == (k as usize, (k + 1) as usize) by {
                    assert(ranges@.subrange(0, mid.len() as int)[k + w - 1] == mid[k + w - 1]);
                }
            }
        }
        ranges
    }

    /// Extracts a feature vector from an input text: the characters' code
    /// points for character unigrams, else the hash of each shingle.
    pub fn extract(&self, text: &str, feature: &mut Vec<u64>)
        requires
            self.spec_config().spec_window_size() >= 1,
        ensures
            is_feature_of(
                self.spec_config().spec_window_size(),
                self.spec_config().spec_delimiter(),
                text@,
                final(feature)@,
            ),
            self.spec_config().spec_delimiter() is None && self.spec_config().spec_window_size() == 1
                ==> final(feature)@ == text@.map_values(|c: char| c as u64),
            final(feature)@.len() == num_shingles(
                text@,
                self.spec_config().spec_delimiter(),
                self.spec_config().spec_window_size(),
            ),
    {
        feature.clear();
        let chars = chars_of(text);
        let w = self.config.window_size;
        if self.config.delimiter.is_none() && w == 1 {
            let mut k: usize = 0;
            while k < chars.len()
                invariant
                    k <= chars@.len(),
                    chars@ == text@,
                    feature@ == chars@.subrange(0, k as int).map_values(|c: char| c as u64),
                decreases chars@.len() - k,
            {
                feature.push(chars[k] as u64);
                proof {
                    assert(feature@ =~= chars@.subrange(0, k + 1).map_values(|c: char| c as u64));
                }
                k = k + 1;
            }
            proof {
                assert(chars@.subrange(0, chars@.len() as int) =~= chars@);
            }
        } else {
            let ranges = self.tokenize(&chars);
            let mut tokens: Vec<&str> = Vec::with_capacity(ranges.len());
            let mut k: usize = 0;
            while k < ranges.len()
                invariant
                    k <= ranges@.len(),
                    chars@ == text@,
                    tokens@.len() == k,
                    forall|j: int| #![trigger ranges@[j]] 0 <= j < ranges@.len() ==> ranges@[j].0 <= ranges@[j].1 <= chars@.len(),
                decreases ranges@.len() - k,
            {
                let (lo, hi) = ranges[k];
                tokens.push(text.substring_char(lo, hi));
                k = k + 1;
            }
            let total = tokens.len();
            let mut it = ShingleIter::new(tokens.as_slice(), w);
            while it.next_fits()
                invariant
                    it.wf(),
                    it.spec_tokens().len() == total,
                    it.spec_window_size() == w,
                    w >= 1,
                    total + 1 >= w,
                    feature@.len() == it.spec_position(),
                    it.spec_position() + w <= total + 1,
                decreases total + 1 - w - it.spec_position(),
            {
                match it.next() {
                    Some(window) => {
                        feature.push(self.config.hash(window));
                    },
                    None => {},
                }
            }
        }
    }
}

} // verus!
