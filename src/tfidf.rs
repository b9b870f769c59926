//! Document frequencies of features, the counts behind IDF weighting.
use vstd::prelude::*;

use crate::counter::{add_term, count_of, counts_of, new_counts, new_terms, set_count, terms_of, TermCounts};
use crate::errors::{ErrorKind, FindSimdocError};
use crate::feature::{is_feature_of, FeatureConfig, FeatureExtractor};

verus! {

/// The counts after one more document whose distinct terms are `seen`.
pub open spec fn counts_with(old: Map<u64, usize>, seen: Set<u64>) -> Map<u64, usize> {
    Map::new(
        |t: u64| old.contains_key(t) || seen.contains(t),
        |t: u64|
            ((if old.contains_key(t) {
                old[t] as int
            } else {
                0
            }) + if seen.contains(t) {
                1int
            } else {
                0
            }) as usize,
    )
}

/// The counts after documents whose feature vectors are `fs`, in order.
pub open spec fn fold_counts(init: Map<u64, usize>, fs: Seq<Seq<u64>>) -> Map<u64, usize>
    decreases fs.len(),
{
    if fs.len() == 0 {
        init
    } else {
        counts_with(fold_counts(init, fs.drop_last()), fs.last().to_set())
    }
}

/// Counter of the documents each term occurs in.
pub struct Idf {
    counter: TermCounts,
    num_docs: usize,
    smooth: bool,
}

impl Idf {
    /// The number of documents each counted term occurs in.
    pub closed spec fn spec_counts(&self) -> Map<u64, usize> {
        counts_of(self.counter)
    }

    /// The number of documents counted.
    pub closed spec fn spec_num_docs(&self) -> nat {
        self.num_docs as nat
    }

    /// Whether smoothing is enabled.
    pub closed spec fn spec_smooth(&self) -> bool {
        self.smooth
    }

    /// Every count lies between one and the number of documents.
    pub open spec fn wf(&self) -> bool {
        forall|t: u64|
            #[trigger] self.spec_counts().contains_key(t) ==> 1 <= self.spec_counts()[t] <= self.spec_num_docs()
    }

    /// Creates an empty counter.
    pub fn new() -> (r: Self)
        ensures
            r.wf(),
            r.spec_counts() == Map::<u64, usize>::empty(),
            r.spec_num_docs() == 0,
            !r.spec_smooth(),
    {
        Idf { counter: new_counts(), num_docs: 0, smooth: false }
    }

    /// Enables smoothing.
    pub fn smooth(self, yes: bool) -> (r: Self)
        ensures
            r.spec_counts() == self.spec_counts(),
            r.spec_num_docs() == self.spec_num_docs(),
            r.spec_smooth() == yes,
    {
        let mut s = self;
        s.smooth = yes;
        s
    }

    /// Counts the distinct terms of a document.
    pub fn add(&mut self, terms: &[u64])
        requires
            old(self).wf(),
            old(self).spec_num_docs() < usize::MAX,
        ensures
            final(self).wf(),
            final(self).spec_num_docs() == old(self).spec_num_docs() + 1,
            final(self).spec_counts() == counts_with(old(self).spec_counts(), terms@.to_set()),
            final(self).spec_smooth() == old(self).spec_smooth(),
    {
        let ghost before = counts_of(self.counter);
        proof {
            assert forall|t: u64| #[trigger] before.contains_key(t) implies 1 <= before[t] <= self.num_docs by {
                assert(old(self).spec_counts().contains_key(t));
            }
            assert(terms@.subrange(0, 0).to_set() =~= Set::<u64>::empty());
            assert(before =~= counts_with(before, Set::<u64>::empty()));
        }
        let mut seen = new_terms();
        let mut k: usize = 0;
        while k < terms.len()
            invariant
                k <= terms@.len(),
                self.num_docs == old(self).num_docs,
                self.smooth == old(self).smooth,
                self.num_docs < usize::MAX,
                before == counts_of(old(self).counter),
                forall|t: u64| #[trigger] before.contains_key(t) ==> 1 <= before[t] <= self.num_docs,
                terms_of(seen) == terms@.subrange(0, k as int).to_set(),
                counts_of(self.counter) == counts_with(before, terms_of(seen)),
            decreases terms@.len() - k,
        {
            let term = terms[k];
            let ghost old_seen = terms_of(seen);
            proof {
                assert(terms@.subrange(0, k + 1) =~= terms@.subrange(0, k as int).push(term));
                terms@.subrange(0, k as int).lemma_push_to_set_commute(term);
            }
            if add_term(&mut seen, term) {
                let c = match count_of(&self.counter, term) {
                    Some(c) => c,
                    None => 0,
                };
                proof {
                    assert(!old_seen.contains(term));
                    if before.contains_key(term) {
                        assert(counts_of(self.counter)[term] == before[term]);
                    }
                }
                set_count(&mut self.counter, term, c + 1);
                proof {
                    assert(counts_of(self.counter) =~= counts_with(before, terms_of(seen)));
                }
            } else {
                proof {
                    assert(terms_of(seen) =~= old_seen);
                }
            }
            k = k + 1;
        }
        self.num_docs = self.num_docs + 1;
        proof {
            assert(terms@.subrange(0, terms@.len() as int) =~= terms@);
        }
    }

    /// Gets the number of input documents.
    pub fn num_docs(&self) -> (r: usize)
        ensures
            r == self.spec_num_docs(),
    {
        self.num_docs
    }

    /// Gets whether smoothing is enabled.
    pub fn is_smooth(&self) -> (r: bool)
        ensures
            r == self.spec_smooth(),
    {
        self.smooth
    }

    /// Gets the number of documents `term` occurs in, if it was counted.
    pub fn doc_freq(&self, term: u64) -> (r: Option<usize>)
        ensures
            r == if self.spec_counts().contains_key(term) {
                Some(self.spec_counts()[term])
            } else {
                None::<usize>
            },
    {
        count_of(&self.counter, term)
    }

    /// Counts the features of each document; fails on an empty document.
    ///
    /// # Arguments
    ///
    /// * `documents` - List of documents.
    /// * `config` - Configuration of feature extraction. Use the same configuration as that in search.
    pub fn build(self, documents: &[&str], config: &FeatureConfig) -> (r: Result<Self, FindSimdocError>)
        requires
            self.wf(),
            config.spec_window_size() >= 1,
            self.spec_num_docs() + documents@.len() < usize::MAX,
        ensures
            r is Ok <==> forall|i: int| 0 <= i < documents@.len() ==> (#[trigger] documents@[i])@.len() > 0,
            r matches Ok(s) ==> s.wf() && s.spec_num_docs() == self.spec_num_docs() + documents@.len()
                && s.spec_smooth() == self.spec_smooth() && exists|fs: Seq<Seq<u64>>|
                fs.len() == documents@.len() && (forall|i: int|
                    0 <= i < fs.len() ==> #[trigger] is_feature_of(
                        config.spec_window_size(),
                        config.spec_delimiter(),
                        documents@[i]@,
                        fs[i],
                    )) && s.spec_counts() == fold_counts(self.spec_counts(), fs),
            r matches Err(e) ==> e.kind() == ErrorKind::ShortInput,
    {
        let mut s = self;
        let extractor = FeatureExtractor::new(config);
        let mut feature: Vec<u64> = Vec::new();
        let ghost mut fs: Seq<Seq<u64>> = Seq::empty();
        let mut i: usize = 0;
        while i < documents.len()
            invariant
                fs.len() == i,
                forall|k: int|
                    0 <= k < i ==> #[trigger] is_feature_of(
                        config.spec_window_size(),
                        config.spec_delimiter(),
                        documents@[k]@,
                        fs[k],
                    ),
                s.spec_counts() == fold_counts(self.spec_counts(), fs),
                i <= documents@.len(),
                s.wf(),
                s.spec_num_docs() == self.spec_num_docs() + i,
                s.spec_smooth() == self.spec_smooth(),
                self.spec_num_docs() + documents@.len() < usize::MAX,
                extractor.spec_config() == *config,
                config.spec_window_size() >= 1,
                forall|k: int| 0 <= k < i ==> (#[trigger] documents@[k])@.len() > 0,
            decreases documents@.len() - i,
        {
            let doc = documents[i];
            if doc.is_empty() {
                return Err(FindSimdocError::input(ErrorKind::ShortInput, "Input document must not be empty."));
            }
            extractor.extract(doc, &mut feature);
            s.add(feature.as_slice());
            proof {
                let old_fs = fs;
                fs = fs.push(feature@);
                assert(fs.drop_last() =~= old_fs);
                assert(fs[i as int] == feature@);
            }
            i = i + 1;
        }
        proof {
            assert(fs.len() == documents@.len());
        }
        Ok(s)
    }
}

} // verus!
