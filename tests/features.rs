use find_simdoc::chunked_join::Radius;
use find_simdoc::errors::{ErrorKind, FindSimdocError};
use find_simdoc::feature::{FeatureConfig, FeatureExtractor};
use find_simdoc::jaccard::JaccardSearcher;
use find_simdoc::lsh::{hash_u64, minhash_bits, MinHasher, SplitMix};
use rand_xoshiro::rand_core::{RngCore, SeedableRng};
use find_simdoc::tfidf::Idf;
use find_simdoc::weighting::{SimHasher, Tf};

#[test]
fn test_char_unigram() {
    let config = FeatureConfig::new(1, None, 42).unwrap();
    let extractor = FeatureExtractor::new(&config);

    let text = "abcd";
    let mut feature = vec![];

    extractor.extract(text, &mut feature);
    assert_eq!(
        feature,
        vec!['a' as u64, 'b' as u64, 'c' as u64, 'd' as u64]
    )
}

#[test]
fn test_char_bigram() {
    let config = FeatureConfig::new(2, None, 42).unwrap();
    let extractor = FeatureExtractor::new(&config);

    let text = "abcd";
    let mut feature = vec![];

    extractor.extract(text, &mut feature);
    assert_eq!(
        feature,
        vec![
            config.hash(&["", "a"]),
            config.hash(&["a", "b"]),
            config.hash(&["b", "c"]),
            config.hash(&["c", "d"]),
            config.hash(&["d", ""]),
        ]
    )
}

#[test]
fn test_char_trigram() {
    let config = FeatureConfig::new(3, None, 42).unwrap();
    let extractor = FeatureExtractor::new(&config);

    let text = "abcd";
    let mut feature = vec![];

    extractor.extract(text, &mut feature);
    assert_eq!(
        feature,
        vec![
            config.hash(&["", "", "a"]),
            config.hash(&["", "a", "b"]),
            config.hash(&["a", "b", "c"]),
            config.hash(&["b", "c", "d"]),
            config.hash(&["c", "d", ""]),
            config.hash(&["d", "", ""]),
        ]
    )
}

#[test]
fn test_word_unigram() {
    let config = FeatureConfig::new(1, Some(' '), 42).unwrap();
    let extractor = FeatureExtractor::new(&config);

    let text = "abc de fgh";
    let mut feature = vec![];

    extractor.extract(text, &mut feature);
    assert_eq!(
        feature,
        vec![
            config.hash(&["abc"]),
            config.hash(&["de"]),
            config.hash(&["fgh"]),
        ]
    )
}

#[test]
fn test_word_bigram() {
    let config = FeatureConfig::new(2, Some(' '), 42).unwrap();
    let extractor = FeatureExtractor::new(&config);

    let text = "abc de fgh";
    let mut feature = vec![];

    extractor.extract(text, &mut feature);
    assert_eq!(
        feature,
        vec![
            config.hash(&["", "abc"]),
            config.hash(&["abc", "de"]),
            config.hash(&["de", "fgh"]),
            config.hash(&["fgh", ""]),
        ]
    )
}

#[test]
fn test_word_trigram() {
    let config = FeatureConfig::new(3, Some(' '), 42).unwrap();
    let extractor = FeatureExtractor::new(&config);

    let text = "abc de fgh";
    let mut feature = vec![];

    extractor.extract(text, &mut feature);
    assert_eq!(
        feature,
        vec![
            config.hash(&["", "", "abc"]),
            config.hash(&["", "abc", "de"]),
            config.hash(&["abc", "de", "fgh"]),
            config.hash(&["de", "fgh", ""]),
            config.hash(&["fgh", "", ""]),
        ]
    )
}

#[test]
fn multibyte_characters_and_trailing_delimiter() {
    let config = FeatureConfig::new(1, None, 7).unwrap();
    let extractor = FeatureExtractor::new(&config);
    let mut feature = vec![];
    extractor.extract("神保町", &mut feature);
    assert_eq!(feature, vec!['神' as u64, '保' as u64, '町' as u64]);

    let config = FeatureConfig::new(1, Some(','), 7).unwrap();
    let extractor = FeatureExtractor::new(&config);
    extractor.extract("本,カレー,", &mut feature);
    assert_eq!(feature, vec![config.hash(&["本"]), config.hash(&["カレー"])]);
    extractor.extract(",a", &mut feature);
    assert_eq!(feature, vec![config.hash(&[""]), config.hash(&["a"])]);
}

#[test]
fn zero_window_is_rejected() {
    match FeatureConfig::new(0, None, 1) {
        Err(FindSimdocError::Input(e)) => assert_eq!(e.kind(), ErrorKind::InvalidConfig),
        Ok(_) => panic!("a zero window was accepted"),
    }
    assert!(JaccardSearcher::new(0, None, Some(1)).is_err());
}

#[test]
fn minhash_is_reproducible_from_seed() {
    let feature = vec![3u64, 17, 99, 4];
    let hasher = MinHasher::new(5);
    let mut a = hasher.iter(&feature);
    let mut b = MinHasher::new(5).iter(&feature);
    let xs: Vec<u64> = (0..4).map(|_| a.next()).collect();
    let ys: Vec<u64> = (0..4).map(|_| b.next()).collect();
    assert_eq!(xs, ys);
    let mut c = MinHasher::new(6).iter(&feature);
    let zs: Vec<u64> = (0..4).map(|_| c.next()).collect();
    assert_ne!(xs, zs);
}

#[test]
fn minhash_bits_packs_low_bits_of_minima() {
    let feature = [10u64, 20, 30];
    let seeds = [1u64, 2, 3];
    let mut expected = 0u64;
    for &s in seeds.iter() {
        let m = feature.iter().map(|&f| hash_u64(f, s)).min().unwrap();
        expected = (expected << 1) | (m & 1);
    }
    assert_eq!(minhash_bits(&feature, &seeds), expected);
    assert_ne!(hash_u64(10, 1), 10 ^ 1);
}

fn documents() -> Vec<&'static str> {
    vec![
        "Welcome to Jimbocho, the town of books and curry!",
        "Welcome to Jimbocho, the city of books and curry!",
        "We welcome you to Jimbocho, the town of books and curry.",
        "Welcome to the town of books and curry, Jimbocho!",
    ]
}

// The feature ids are ahash hashes of the shingles, so the distances depend on
// the ahash build: these are the values with the pinned ahash 0.7.8 on a
// target without AES hashing. (ahash 0.8.12 gives other values here.)
#[test]
fn jaccard_scenario() {
    let docs = documents();
    let searcher = JaccardSearcher::new(3, None, Some(42))
        .unwrap()
        .build_sketches(&docs, 20)
        .unwrap();
    let dim = searcher.dimension() as f64;
    let results: Vec<(usize, usize, f64)> = searcher
        .search_similar_pairs(Radius::new(1, 4).unwrap())
        .into_iter()
        .map(|(i, j, e)| (i, j, e as f64 / dim))
        .collect();
    assert_eq!(results, vec![(0, 1, 0.19375), (0, 2, 0.2125), (0, 3, 0.2328125)]);
}

#[test]
fn jaccard_rejects_empty_document() {
    let docs = vec!["abc", ""];
    match JaccardSearcher::new(1, None, Some(3)).unwrap().build_sketches(&docs, 2) {
        Err(FindSimdocError::Input(e)) => assert_eq!(e.kind(), ErrorKind::ShortInput),
        Ok(_) => panic!("an empty document was accepted"),
    }
    match JaccardSearcher::new(1, None, Some(3)).unwrap().build_sketches(&docs[..1], 0) {
        Err(FindSimdocError::Input(e)) => assert_eq!(e.kind(), ErrorKind::InvalidConfig),
        Ok(_) => panic!("zero chunks were accepted"),
    }
}

#[test]
fn jaccard_distance_doubles_hamming_distance() {
    let docs = documents();
    let searcher = JaccardSearcher::new(2, Some(' '), Some(9))
        .unwrap()
        .build_sketches(&docs, 4)
        .unwrap();
    assert_eq!(searcher.len(), 4);
    assert!(!searcher.is_empty());
    for (_, _, e) in searcher.search_similar_pairs(Radius::new(1, 1).unwrap()) {
        assert_eq!(e % 2, 0);
    }
    assert_eq!(searcher.search_similar_pairs(Radius::new(1, 1).unwrap()).len(), 6);
}

#[test]
fn idf_counts_documents_per_term() {
    let mut idf = Idf::new();
    idf.add(&[1, 1, 3]);
    idf.add(&[1, 3]);
    idf.add(&[2, 1]);
    assert_eq!(idf.num_docs(), 3);
    assert_eq!(idf.doc_freq(1), Some(3));
    assert_eq!(idf.doc_freq(2), Some(1));
    assert_eq!(idf.doc_freq(3), Some(2));
    assert_eq!(idf.doc_freq(4), None);
    let idf = idf.smooth(true);
    assert!(idf.is_smooth());
}

#[test]
fn idf_build_rejects_empty_document() {
    let config = FeatureConfig::new(1, Some(' '), 1).unwrap();
    let built = Idf::new().build(&["a b", "b c"], &config).unwrap();
    assert_eq!(built.num_docs(), 2);
    assert!(Idf::new().build(&["a", ""], &config).is_err());
}

#[test]
fn tf_settings() {
    assert!(!Tf::new().is_sublinear());
    assert!(Tf::new().sublinear(true).is_sublinear());
    assert_eq!(SimHasher::new(42).seed(), 42);
}

#[test]
fn tf_counts_per_position() {
    let tf = Tf::new();
    assert_eq!(tf.count(&[7, 8, 7, 7, 9]), vec![3, 1, 3, 3, 1]);
    assert_eq!(tf.count(&[]), Vec::<usize>::new());
}

#[test]
fn prebuilt_sketches_match_sequential_build() {
    let docs = documents();
    let sequential = JaccardSearcher::new(3, None, Some(42))
        .unwrap()
        .build_sketches(&docs, 20)
        .unwrap();
    let searcher = JaccardSearcher::new(3, None, Some(42)).unwrap();
    let sketches: Vec<Vec<u64>> = docs.iter().map(|d| searcher.sketch_document(d, 20)).collect();
    assert!(sketches.iter().all(|s| s.len() == 20));
    let prebuilt = searcher.with_sketches(&sketches, 20).unwrap();
    let r = Radius::new(1, 4).unwrap();
    assert_eq!(prebuilt.search_similar_pairs(r), sequential.search_similar_pairs(r));
    assert!(JaccardSearcher::new(3, None, Some(42))
        .unwrap()
        .with_sketches(&[vec![1, 2]], 3)
        .is_err());
}

#[test]
fn splitmix_matches_rand_xoshiro() {
    for &seed in [0u64, 1, 42, 1477776061723855037, u64::MAX].iter() {
        let mut ours = SplitMix::new(seed);
        let mut theirs = rand_xoshiro::SplitMix64::seed_from_u64(seed);
        for _ in 0..100 {
            assert_eq!(ours.next_u64(), theirs.next_u64());
        }
    }
    let mut g = SplitMix::new(1477776061723855037);
    assert_eq!(g.next_u64(), 1985237415132408290);
    assert_eq!(g.next_u64(), 2979275885539914483);
    assert_eq!(
        hash_u64(5, 9),
        rand_xoshiro::SplitMix64::seed_from_u64(5 ^ 9).next_u64()
    );
}

#[test]
fn minhash_words_use_the_seed_stream() {
    let feature = vec![11u64, 22, 33];
    let mut it = MinHasher::new(77).iter(&feature);
    let mut stream = SplitMix::new(77);
    for _ in 0..3 {
        let seeds: Vec<u64> = (0..64).map(|_| stream.next_u64()).collect();
        assert_eq!(it.next(), minhash_bits(&feature, &seeds));
    }
}

#[test]
fn sketch_document_gives_minhash_words() {
    let docs = documents();
    let searcher = JaccardSearcher::new(1, None, Some(5)).unwrap();
    let sketch = searcher.sketch_document(docs[0], 3);
    assert_eq!(sketch.len(), 3);
    assert!(sketch.iter().any(|&w| w != 0));
    let again = searcher.sketch_document(docs[0], 3);
    assert_eq!(sketch, again);
}
