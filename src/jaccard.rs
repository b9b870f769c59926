//! Searcher for all pairs of similar documents in the Jaccard space: shingle
//! features, 1-bit minwise hashing, and the chunked Hamming join.
use vstd::prelude::*;

use crate::chunked_join::{
    joined, num_sketches_of, pair_lt, sketch_dist, strictly_sorted, within, ChunkedJoiner, Radius,
    MAX_DENOMINATOR, MAX_NUM_CHUNKS,
};
use crate::errors::{ErrorKind, FindSimdocError};
use crate::feature::{keys_of_seed, is_feature_of, num_shingles, num_tokens, FeatureConfig, FeatureExtractor};
use crate::lsh::{minhash_sketch, stream_draw, stream_state, MinHasher, SplitMix};

verus! {

/// Relies on `rand::random`: a fresh seed, of which nothing is known.
#[verifier::external_body]
fn random_seed() -> u64 {
    rand::random::<u64>()
}

/// `r` is the result of a Jaccard search over the sketches `v` of `dim`
/// dimensions within `radius`: the triples `(i, j, e)` with `i < j`, `e`
/// twice the Hamming distance of sketches `i` and `j` (1-bit minwise hashing
/// collides at half the Jaccard distance) and `e / dim <= radius`, in strictly
/// ascending order of `(i, j)`.
pub open spec fn jaccard_joined(v: Seq<Seq<u64>>, dim: nat, radius: Radius, r: Seq<(usize, usize, usize)>) -> bool {
    &&& strictly_sorted(r)
    &&& forall|t: (usize, usize, usize)|
        #[trigger] r.contains(t) <==> (t.0 < t.1 < num_sketches_of(v) && t.2 == 2 * sketch_dist(
            v,
            t.0 as int,
            t.1 as int,
        ) && within(t.2 as nat, dim, radius))
}

/// The distance correction: a distance `d` is within half the radius exactly
/// when `2 d` is within the radius.
pub proof fn lemma_distance_correction(d: nat, dim: nat, radius: Radius)
    requires
        radius.wf(),
        radius.spec_den() <= MAX_DENOMINATOR,
    ensures
        within(d, dim, radius.half_spec()) <==> within(2 * d, dim, radius),
{
    radius.lemma_half();
    assert(d * (2 * radius.spec_den()) == (2 * d) * radius.spec_den()) by (nonlinear_arith);
}

/// Doubling the distances of a join within half the radius gives the Jaccard
/// search within the radius.
pub proof fn lemma_doubled_join(
    v: Seq<Seq<u64>>,
    dim: nat,
    radius: Radius,
    raw: Seq<(usize, usize, usize)>,
    out: Seq<(usize, usize, usize)>,
)
    requires
        radius.wf(),
        radius.spec_den() <= MAX_DENOMINATOR,
        joined(v, dim, radius.half_spec(), raw),
        out.len() == raw.len(),
        forall|k: int| 0 <= k < raw.len() ==> #[trigger] out[k] == (raw[k].0, raw[k].1, (2 * raw[k].2) as usize),
        forall|k: int| 0 <= k < raw.len() ==> 2 * (#[trigger] raw[k]).2 <= usize::MAX,
    ensures
        jaccard_joined(v, dim, radius, out),
{
    assert forall|a: int, b: int| 0 <= a < b < out.len() implies pair_lt((out[a].0, out[a].1), (out[b].0, out[b].1)) by {
        assert(out[a] == (raw[a].0, raw[a].1, (2 * raw[a].2) as usize));
        assert(out[b] == (raw[b].0, raw[b].1, (2 * raw[b].2) as usize));
    }
    assert forall|t: (usize, usize, usize)|
        #[trigger] out.contains(t) <==> (t.0 < t.1 < num_sketches_of(v) && t.2 == 2 * sketch_dist(
            v,
            t.0 as int,
            t.1 as int,
        ) && within(t.2 as nat, dim, radius)) by {
        if out.contains(t) {
            let k = choose|k: int| 0 <= k < out.len() && out[k] == t;
            assert(raw.contains(raw[k]));
            lemma_distance_correction(raw[k].2 as nat, dim, radius);
        }
        if t.0 < t.1 < num_sketches_of(v) && t.2 == 2 * sketch_dist(v, t.0 as int, t.1 as int) && within(
            t.2 as nat,
            dim,
            radius,
        ) {
            let d = sketch_dist(v, t.0 as int, t.1 as int);
            lemma_distance_correction(d, dim, radius);
            assert(raw.contains((t.0, t.1, d as usize)));
            let k = choose|k: int| 0 <= k < raw.len() && raw[k] == (t.0, t.1, d as usize);
            assert(out[k] == t);
        }
    }
}

/// Words `0..v.len()` of sketch `i` of chunk-wise storage `v`.
pub open spec fn sketch_at(v: Seq<Seq<u64>>, i: int) -> Seq<u64> {
    Seq::new(v.len(), |c: int| v[c][i])
}

/// `s` is the sketch of `n` words of the document `doc`: the 1-bit minwise
/// hashing words, under the stream seeded with `seed`, of a feature vector of
/// `doc` (window `w`, delimiter `d`).
pub open spec fn sketch_of_doc(w: nat, d: Option<char>, seed: u64, doc: Seq<char>, n: nat, s: Seq<u64>) -> bool {
    exists|f: Seq<u64>| is_feature_of(w, d, doc, f) && s == minhash_sketch(f, seed, n)
}

/// The chunk-wise storage `v` holds, for each document in order, its sketch
/// of `n` words.
pub open spec fn sketches_documents(
    v: Seq<Seq<u64>>,
    w: nat,
    d: Option<char>,
    seed: u64,
    docs: Seq<Seq<char>>,
    n: nat,
) -> bool {
    &&& v.len() == n
    &&& num_sketches_of(v) == docs.len()
    &&& forall|i: int| 0 <= i < docs.len() ==> #[trigger] sketch_of_doc(w, d, seed, docs[i], n, sketch_at(v, i))
}

/// The texts of a list of documents.
pub open spec fn texts(documents: Seq<&str>) -> Seq<Seq<char>> {
    documents.map_values(|s: &str| s@)
}

/// Storing sketches made one document at a time, in document order, gives what
/// building from the documents gives.
pub proof fn lemma_prebuilt_sketches(
    v: Seq<Seq<u64>>,
    sketches: Seq<Seq<u64>>,
    w: nat,
    d: Option<char>,
    seed: u64,
    docs: Seq<Seq<char>>,
    n: nat,
)
    requires
        sketches.len() == docs.len(),
        forall|i: int| 0 <= i < docs.len() ==> #[trigger] sketch_of_doc(w, d, seed, docs[i], n, sketches[i]),
        forall|i: int| 0 <= i < docs.len() ==> (#[trigger] sketches[i]).len() == n,
        v.len() == n,
        num_sketches_of(v) == docs.len(),
        forall|c: int, i: int| 0 <= c < n && 0 <= i < docs.len() ==> #[trigger] v[c][i] == sketches[i][c],
    ensures
        sketches_documents(v, w, d, seed, docs, n),
{
    assert forall|i: int| 0 <= i < docs.len() implies #[trigger] sketch_of_doc(w, d, seed, docs[i], n, sketch_at(v, i)) by {
        assert(sketch_at(v, i) =~= sketches[i]);
    }
}

/// Searcher for all-pair similar documents in the Jaccard space.
pub struct JaccardSearcher {
    config: FeatureConfig,
    hasher: MinHasher,
    joiner: Option<ChunkedJoiner<u64>>,
    shows_progress: bool,
}

impl JaccardSearcher {
    /// The sketches built, chunk by chunk, if any.
    pub closed spec fn spec_sketches(&self) -> Option<Seq<Seq<u64>>> {
        match self.joiner {
            Some(j) => Some(j@),
            None => None,
        }
    }

    /// The configuration of feature extraction.
    pub closed spec fn spec_config(&self) -> FeatureConfig {
        self.config
    }

    /// The seed of the MinHash stream.
    pub closed spec fn spec_hasher_seed(&self) -> u64 {
        self.hasher.spec_seed()
    }

    /// The searcher's parts are well formed.
    pub closed spec fn wf(&self) -> bool {
        &&& self.config.spec_window_size() >= 1
        &&& self.joiner matches Some(j) ==> j.wf() && j@.len() >= 1
    }

    /// Creates an instance; fails if `window_size` is 0.
    ///
    /// # Arguments
    ///
    /// * `window_size` - Window size for w-shingling in feature extraction (must be more than 0).
    /// * `delimiter` - Delimiter for recognizing words as tokens in feature extraction.
    ///                 If `None`, characters are used for tokens.
    /// * `seed` - Seed value for random values (a random one if `None`).
    pub fn new(window_size: usize, delimiter: Option<char>, seed: Option<u64>) -> (r: Result<Self, FindSimdocError>)
        ensures
            r is Ok <==> window_size >= 1,
            r matches Ok(s) ==> s.wf() && s.spec_sketches() is None && s.spec_config().spec_window_size()
                == window_size && s.spec_config().spec_delimiter() == delimiter,
            seed matches Some(x) ==> (r matches Ok(s) ==> s.spec_config().spec_keys() == keys_of_seed(
                stream_draw(x, 0),
            ) && s.spec_hasher_seed() == stream_draw(x, 1)),
            r matches Err(e) ==> e.kind() == ErrorKind::InvalidConfig,
    {
        let seed = match seed {
            Some(s) => s,
            None => random_seed(),
        };
        let mut seeder = SplitMix::new(seed);
        let config_seed = seeder.next_u64();
        proof {
            assert(stream_state(seed, 0) == seed);
            assert(config_seed == stream_draw(seed, 0));
        }
        let config = match FeatureConfig::new(window_size, delimiter, config_seed) {
            Ok(c) => c,
            Err(e) => {
                return Err(e);
            },
        };
        let hasher_seed = seeder.next_u64();
        proof {
            assert(hasher_seed == stream_draw(seed, 1));
        }
        let hasher = MinHasher::new(hasher_seed);
        Ok(JaccardSearcher { config, hasher, joiner: None, shows_progress: false })
    }

    /// Shows the progress via the standard error output?
    pub fn shows_progress(self, yes: bool) -> (r: Self)
        ensures
            r.spec_sketches() == self.spec_sketches(),
            r.spec_config() == self.spec_config(),
            r.spec_hasher_seed() == self.spec_hasher_seed(),
            r.wf() == self.wf(),
    {
        let mut s = self;
        s.shows_progress = yes;
        s
    }

    /// Whether the progress is to be shown.
    pub fn progress_shown(&self) -> bool {
        self.shows_progress
    }

    /// Builds the database of sketches of `num_chunks` words from the documents;
    /// fails on an empty document, or unless `1 <= num_chunks <= MAX_NUM_CHUNKS`.
    pub fn build_sketches(self, documents: &[&str], num_chunks: usize) -> (r: Result<Self, FindSimdocError>)
        requires
            self.wf(),
        ensures
            r is Ok <==> (1 <= num_chunks <= MAX_NUM_CHUNKS && forall|i: int|
                0 <= i < documents@.len() ==> (#[trigger] documents@[i])@.len() > 0),
            r matches Ok(s) ==> s.wf() && s.spec_config() == self.spec_config() && s.spec_hasher_seed()
                == self.spec_hasher_seed() && (s.spec_sketches() matches Some(v) && sketches_documents(
                v,
                self.spec_config().spec_window_size(),
                self.spec_config().spec_delimiter(),
                self.spec_hasher_seed(),
                texts(documents@),
                num_chunks as nat,
            )),
            r matches Err(e) ==> e.kind() == if 1 <= num_chunks <= MAX_NUM_CHUNKS {
                ErrorKind::ShortInput
            } else {
                ErrorKind::InvalidConfig
            },
    {
        if num_chunks == 0 || num_chunks > MAX_NUM_CHUNKS {
            return Err(FindSimdocError::input(ErrorKind::InvalidConfig, "The number of chunks is out of range."));
        }
        let mut s = self;
        let mut joiner = match ChunkedJoiner::<u64>::new(num_chunks) {
            Ok(j) => j,
            Err(_) => {
                return Err(FindSimdocError::input(ErrorKind::InvalidConfig, "The number of chunks is out of range."));
            },
        };
        let ghost w = self.spec_config().spec_window_size();
        let ghost dl = self.spec_config().spec_delimiter();
        let ghost seed = self.spec_hasher_seed();
        let ghost docs = texts(documents@);
        let mut i: usize = 0;
        while i < documents.len()
            invariant
                s.wf(),
                s.spec_config() == self.spec_config(),
                s.spec_hasher_seed() == seed,
                docs == texts(documents@),
                w == s.spec_config().spec_window_size(),
                dl == s.spec_config().spec_delimiter(),
                forall|k: int| 0 <= k < i ==> #[trigger] sketch_of_doc(w, dl, seed, docs[k], num_chunks as nat, sketch_at(joiner@, k)),
                1 <= num_chunks <= MAX_NUM_CHUNKS,
                joiner.wf(),
                joiner@.len() == num_chunks,
                num_sketches_of(joiner@) == i,
                i <= documents@.len(),
                forall|k: int| 0 <= k < i ==> (#[trigger] documents@[k])@.len() > 0,
            decreases documents@.len() - i,
        {
            let doc = documents[i];
            if doc.is_empty() {
                return Err(FindSimdocError::input(ErrorKind::ShortInput, "Input document must not be empty."));
            }
            let sketch = s.sketch_document(doc, num_chunks);
            let ghost before = joiner@;
            match joiner.add(sketch.as_slice()) {
                Ok(()) => {
                    proof {
                        assert(docs[i as int] == doc@);
                        assert forall|k: int| 0 <= k < i + 1 implies #[trigger] sketch_of_doc(w, dl, seed, docs[k], num_chunks as nat, sketch_at(joiner@, k)) by {
                            assert forall|c: int| 0 <= c < num_chunks implies joiner@[c] == before[c].push(sketch@[c]) by {}
                            if k < i {
                                assert(sketch_at(joiner@, k) =~= sketch_at(before, k)) by {
                                    assert forall|c: int| 0 <= c < num_chunks implies joiner@[c][k] == before[c][k] by {
                                        assert(joiner@[c] == before[c].push(sketch@[c]));
                                        assert(before[c].len() == i);
                                    }
                                }
                            } else {
                                assert(sketch_at(joiner@, k) =~= sketch@) by {
                                    assert forall|c: int| 0 <= c < num_chunks implies joiner@[c][k] == sketch@[c] by {
                                        assert(joiner@[c] == before[c].push(sketch@[c]));
                                        assert(before[c].len() == i);
                                    }
                                }
                            }
                        }
                    }
                },
                Err(e) => {
                    return Err(FindSimdocError::input(ErrorKind::ShortInput, "The sketch is too short."));
                },
            }
            i = i + 1;
        }
        s.joiner = Some(joiner);
        Ok(s)
    }

    /// The sketch of `num_chunks` words of one non-empty document.
    pub fn sketch_document(&self, doc: &str, num_chunks: usize) -> (r: Vec<u64>)
        requires
            self.wf(),
            doc@.len() > 0,
        ensures
            r@.len() == num_chunks,
            sketch_of_doc(
                self.spec_config().spec_window_size(),
                self.spec_config().spec_delimiter(),
                self.spec_hasher_seed(),
                doc@,
                num_chunks as nat,
                r@,
            ),
    {
        let mut feature: Vec<u64> = Vec::new();
        let extractor = FeatureExtractor::new(&self.config);
        extractor.extract(doc, &mut feature);
        proof {
            assert(num_tokens(doc@, self.config.spec_delimiter()) >= 1);
        }
        let mut gen = self.hasher.iter(feature.as_slice());
        let mut sketch: Vec<u64> = Vec::with_capacity(num_chunks);
        let mut c: usize = 0;
        while c < num_chunks
            invariant
                c <= num_chunks,
                gen.wf(),
                gen.spec_feature() == feature@,
                gen.spec_feature().len() >= 1,
                gen.spec_seed() == self.spec_hasher_seed(),
                gen.spec_words() == c,
                sketch@ == minhash_sketch(feature@, self.spec_hasher_seed(), c as nat),
            decreases num_chunks - c,
        {
            let x = gen.next();
            sketch.push(x);
            proof {
                assert(sketch@ =~= minhash_sketch(feature@, self.spec_hasher_seed(), (c + 1) as nat));
            }
            c = c + 1;
        }
        proof {
            assert(is_feature_of(
                self.spec_config().spec_window_size(),
                self.spec_config().spec_delimiter(),
                doc@,
                feature@,
            ));
        }
        sketch
    }

    /// Builds the database from sketches made beforehand (by
    /// [`Self::sketch_document`], in document order); fails on a sketch of
    /// fewer than `num_chunks` words, or unless `1 <= num_chunks <= MAX_NUM_CHUNKS`.
    pub fn with_sketches(self, sketches: &[Vec<u64>], num_chunks: usize) -> (r: Result<Self, FindSimdocError>)
        requires
            self.wf(),
        ensures
            r is Ok <==> (1 <= num_chunks <= MAX_NUM_CHUNKS && forall|i: int|
                0 <= i < sketches@.len() ==> (#[trigger] sketches@[i])@.len() >= num_chunks),
            r matches Ok(s) ==> s.wf() && s.spec_config() == self.spec_config() && s.spec_hasher_seed()
                == self.spec_hasher_seed() && (s.spec_sketches() matches Some(
                v,
            ) && v.len() == num_chunks && num_sketches_of(v) == sketches@.len() && forall|c: int, i: int|
                0 <= c < num_chunks && 0 <= i < sketches@.len() ==> #[trigger] v[c][i] == sketches@[i]@[c]),
            r matches Err(e) ==> e.kind() == if 1 <= num_chunks <= MAX_NUM_CHUNKS {
                ErrorKind::ShortInput
            } else {
                ErrorKind::InvalidConfig
            },
    {
        if num_chunks == 0 || num_chunks > MAX_NUM_CHUNKS {
            return Err(FindSimdocError::input(ErrorKind::InvalidConfig, "The number of chunks is out of range."));
        }
        let mut s = self;
        let mut joiner = match ChunkedJoiner::<u64>::new(num_chunks) {
            Ok(j) => j,
            Err(_) => {
                return Err(FindSimdocError::input(ErrorKind::InvalidConfig, "The number of chunks is out of range."));
            },
        };
        let mut i: usize = 0;
        while i < sketches.len()
            invariant
                s.wf(),
                s.spec_config() == self.spec_config(),
                s.spec_hasher_seed() == self.spec_hasher_seed(),
                1 <= num_chunks <= MAX_NUM_CHUNKS,
                joiner.wf(),
                joiner@.len() == num_chunks,
                num_sketches_of(joiner@) == i,
                i <= sketches@.len(),
                forall|k: int| 0 <= k < i ==> (#[trigger] sketches@[k])@.len() >= num_chunks,
                forall|c: int, k: int| 0 <= c < num_chunks && 0 <= k < i ==> #[trigger] joiner@[c][k] == sketches@[k]@[c],
            decreases sketches@.len() - i,
        {
            let ghost before = joiner@;
            match joiner.add(sketches[i].as_slice()) {
                Ok(()) => {
                    proof {
                        assert forall|c: int, k: int|
                            0 <= c < num_chunks && 0 <= k < i + 1 implies #[trigger] joiner@[c][k] == sketches@[k]@[c] by {
                            assert(joiner@[c] == before[c].push(sketches@[i as int]@[c]));
                            assert(before[c].len() == i);
                            if k < i {
                                assert(joiner@[c][k] == before[c][k]);
                            }
                        }
                    }
                },
                Err(_) => {
                    return Err(FindSimdocError::input(ErrorKind::ShortInput, "The sketch is too short."));
                },
            }
            i = i + 1;
        }
        s.joiner = Some(joiner);
        Ok(s)
    }

    /// Searches for all pairs of similar documents within `radius`, returning
    /// triplets of the left-side id, the right-side id, and twice the Hamming
    /// distance of their sketches (the estimated Jaccard distance is that over
    /// [`Self::dimension()`]), in ascending order of the ids; nothing before
    /// the sketches are built.
    pub fn search_similar_pairs(&self, radius: Radius) -> (r: Vec<(usize, usize, usize)>)
        requires
            self.wf(),
            radius.wf(),
            radius.spec_den() <= MAX_DENOMINATOR,
        ensures
            self.spec_sketches() matches Some(v) ==> jaccard_joined(v, 64 * v.len(), radius, r@),
            self.spec_sketches() is None ==> r@.len() == 0,
    {
        match &self.joiner {
            None => Vec::new(),
            Some(joiner) => {
                // 1-bit minwise hashing collides at twice the rate of the Jaccard similarity,
                // so the sketches are searched with half the radius.
                let half = radius.half();
                let raw = joiner.similar_pairs(half);
                let mut out: Vec<(usize, usize, usize)> = Vec::with_capacity(raw.len());
                let mut k: usize = 0;
                while k < raw.len()
                    invariant
                        k <= raw@.len(),
                        out@.len() == k,
                        joined(joiner@, joiner.spec_dimension(), half, raw@),
                        joiner.wf(),
                        half.wf(),
                        radius.wf(),
                        half.spec_num() == radius.spec_num(),
                        half.spec_den() == 2 * radius.spec_den(),
                        joiner.spec_dimension() <= 0x4000_0000,
                        forall|j: int| 0 <= j < k ==> #[trigger] out@[j] == (raw@[j].0, raw@[j].1, (2 * raw@[j].2) as usize),
                        forall|j: int| 0 <= j < k ==> 2 * (#[trigger] raw@[j]).2 <= usize::MAX,
                    decreases raw@.len() - k,
                {
                    let (i, j, d) = raw[k];
                    proof {
                        assert(raw@.contains(raw@[k as int]));
                        assert(2 * d <= joiner.spec_dimension()) by (nonlinear_arith)
                            requires
                                d * half.spec_den() <= joiner.spec_dimension() * half.spec_num(),
                                half.spec_num() * 2 <= half.spec_den(),
                                half.spec_den() > 0,
                        ;
                    }
                    out.push((i, j, 2 * d));
                    k = k + 1;
                }
                proof {
                    lemma_doubled_join(joiner@, joiner.spec_dimension(), radius, raw@, out@);
                }
                out
            },
        }
    }

    /// Gets the number of input documents.
    pub fn len(&self) -> (r: usize)
        ensures
            self.spec_sketches() matches Some(v) ==> r == num_sketches_of(v),
            self.spec_sketches() is None ==> r == 0,
    {
        match &self.joiner {
            Some(joiner) => joiner.num_sketches(),
            None => 0,
        }
    }

    /// Checks if the database is empty.
    pub fn is_empty(&self) -> (r: bool)
        ensures
            r == (self.spec_sketches() matches Some(v) ==> num_sketches_of(v) == 0),
    {
        self.len() == 0
    }

    /// Gets the memory usage of the sketches in bytes (saturating at
    /// `usize::MAX`; 0 before they are built).
    pub fn memory_in_bytes(&self) -> (r: usize)
        requires
            self.wf(),
        ensures
            self.spec_sketches() matches Some(v) ==> r == if v.len() * num_sketches_of(v) * 8 <= usize::MAX {
                v.len() * num_sketches_of(v) * 8
            } else {
                usize::MAX as nat
            },
            self.spec_sketches() is None ==> r == 0,
    {
        match &self.joiner {
            Some(joiner) => joiner.memory_in_bytes(),
            None => 0,
        }
    }

    /// Gets the number of dimensions of the sketches (0 before they are built).
    pub fn dimension(&self) -> (r: usize)
        requires
            self.wf(),
        ensures
            self.spec_sketches() matches Some(v) ==> r == 64 * v.len(),
    {
        match &self.joiner {
            Some(joiner) => joiner.dimension(),
            None => 0,
        }
    }

    /// Gets the configuration of feature extraction.
    pub fn config(&self) -> (r: &FeatureConfig)
        ensures
            *r == self.spec_config(),
    {
        &self.config
    }
}

} // verus!
