use find_simdoc::chunked_join::{ChunkedJoiner, Radius};
use find_simdoc::errors::ErrorKind;
use find_simdoc::multi_sort::MultiSort;
use find_simdoc::simple_join::SimpleJoiner;
use find_simdoc::sketch::Sketch;

fn example_sketches() -> Vec<u16> {
    vec![
        0b_1110_0011_1111_1011, // 0
        0b_0001_0111_0111_1101, // 1
        0b_1100_1101_1000_1100, // 2
        0b_1100_1101_0001_0100, // 3
        0b_1010_1110_0010_1010, // 4
        0b_0111_1001_0011_1111, // 5
        0b_1110_0011_0001_0000, // 6
        0b_1000_0111_1001_0101, // 7
        0b_1110_1101_1000_1101, // 8
        0b_0111_1001_0011_1001, // 9
    ]
}

fn naive_search(sketches: &[u16], radius: f64) -> Vec<(usize, usize, f64)> {
    let mut results = vec![];
    for i in 0..sketches.len() {
        let x = sketches[i];
        for j in i + 1..sketches.len() {
            let y = sketches[j];
            let dist = x.hamdist(y);
            let dist = dist as f64 / 16.;
            if dist <= radius {
                results.push((i, j, dist));
            }
        }
    }
    results
}

fn naive_pairs(sketches: &[u16], radius: usize) -> Vec<(usize, usize)> {
    let mut results = vec![];
    for i in 0..sketches.len() {
        let x = sketches[i];
        for j in i + 1..sketches.len() {
            let y = sketches[j];
            if x.hamdist(y) <= radius {
                results.push((i, j));
            }
        }
    }
    results
}

fn normalized(results: Vec<(usize, usize, usize)>, dimension: usize) -> Vec<(usize, usize, f64)> {
    results
        .into_iter()
        .map(|(i, j, d)| (i, j, d as f64 / dimension as f64))
        .collect()
}

fn chunked_similar_pairs(tenths: u64) {
    let radius = tenths as f64 / 10.;
    let sketches = example_sketches();
    let expected = naive_search(&sketches, radius);

    let mut joiner = ChunkedJoiner::<u8>::new(2).unwrap();
    for s in sketches {
        joiner.add(&[(s & 0xFF) as u8, (s >> 8) as u8]).unwrap();
    }
    let mut results = normalized(
        joiner.similar_pairs(Radius::new(tenths, 10).unwrap()),
        joiner.dimension(),
    );
    results.sort_by_key(|&(i, j, _)| (i, j));
    assert_eq!(results, expected);
}

#[test]
fn chunked_join_test_similar_pairs_for_all() {
    for radius in 0..=10 {
        chunked_similar_pairs(radius);
    }
}

#[test]
fn chunked_join_test_short_sketch() {
    let mut joiner = ChunkedJoiner::new(2).unwrap();
    let result = joiner.add(&[0u64]);
    assert!(result.is_err());
}

fn simple_similar_pairs(tenths: u64) {
    let radius = tenths as f64 / 10.;
    let sketches = example_sketches();
    let expected = naive_search(&sketches, radius);

    let mut joiner = SimpleJoiner::new(2).unwrap();
    for s in sketches {
        joiner.add(&[(s & 0xFF) as u8, (s >> 8) as u8]).unwrap();
    }
    let results = normalized(joiner.similar_pairs(Radius::new(tenths, 10).unwrap()), 16);
    assert_eq!(results, expected);
}

#[test]
fn simple_join_test_similar_pairs_for_all() {
    for radius in 0..=10 {
        simple_similar_pairs(radius);
    }
}

#[test]
fn simple_join_test_short_sketch() {
    let mut joiner = SimpleJoiner::new(2).unwrap();
    let result = joiner.add(&[0u64]);
    assert!(result.is_err());
}

fn multi_sort_similar_pairs(radius: usize, num_blocks: usize) {
    let sketches = example_sketches();
    let expected = naive_pairs(&sketches, radius);
    let mut results = MultiSort::new()
        .num_blocks(num_blocks)
        .unwrap()
        .threshold_in_sort(5)
        .similar_pairs(&sketches, radius);
    results.sort_unstable();
    assert_eq!(results, expected);
}

#[test]
fn multi_sort_test_similar_pairs_for_all() {
    for radius in 0..=16 {
        for num_blocks in radius..=16 {
            multi_sort_similar_pairs(radius, num_blocks);
        }
    }
}

#[test]
fn short_sketch_error_kind() {
    let mut joiner = ChunkedJoiner::<u8>::new(2).unwrap();
    match joiner.add(&[1u8]) {
        Err(e) => assert_eq!(e_kind(&e), ErrorKind::ShortInput),
        Ok(()) => panic!("a short sketch was accepted"),
    }
    assert_eq!(joiner.num_sketches(), 0);
}

fn e_kind(e: &find_simdoc::errors::AllPairsHammingError) -> ErrorKind {
    match e {
        find_simdoc::errors::AllPairsHammingError::Input(x) => x.kind(),
    }
}

#[test]
fn radius_out_of_range() {
    assert!(Radius::new(11, 10).is_err());
    assert!(Radius::new(1, 0).is_err());
    assert!(Radius::new(0, 1).is_ok());
    assert!(Radius::new(1, 1).is_ok());
}

#[test]
fn few_sketches_give_nothing() {
    let mut joiner = ChunkedJoiner::<u16>::new(3).unwrap();
    assert_eq!(joiner.similar_pairs(Radius::new(1, 1).unwrap()), vec![]);
    joiner.add(&[1, 2, 3]).unwrap();
    assert_eq!(joiner.similar_pairs(Radius::new(1, 1).unwrap()), vec![]);
}

#[test]
fn zero_radius_finds_duplicates_only() {
    let mut joiner = ChunkedJoiner::<u32>::new(2).unwrap();
    let sketches = [[5u32, 7], [5, 6], [5, 7], [9, 9], [5, 7], [9, 9]];
    for s in sketches.iter() {
        joiner.add(s).unwrap();
    }
    let results = joiner.similar_pairs(Radius::new(0, 1).unwrap());
    assert_eq!(results, vec![(0, 2, 0), (0, 4, 0), (2, 4, 0), (3, 5, 0)]);
}

#[test]
fn full_radius_finds_all_pairs() {
    let mut joiner = ChunkedJoiner::<u64>::new(3).unwrap();
    for k in 0..7u64 {
        joiner.add(&[k.wrapping_mul(0x9e37_79b9_7f4a_7c15), !k, k << 7]).unwrap();
    }
    let results = joiner.similar_pairs(Radius::new(1, 1).unwrap());
    assert_eq!(results.len(), 21);
    let mut k = 0;
    for i in 0..7 {
        for j in i + 1..7 {
            assert_eq!((results[k].0, results[k].1), (i, j));
            k += 1;
        }
    }
}

#[test]
fn one_chunk_small_radius_is_duplicate_detection() {
    let mut joiner = ChunkedJoiner::<u8>::new(1).unwrap();
    for s in [3u8, 3, 2, 200, 2].iter() {
        joiner.add(&[*s]).unwrap();
    }
    // 1/10 < 1/8: only identical sketches qualify.
    let results = joiner.similar_pairs(Radius::new(1, 10).unwrap());
    assert_eq!(results, vec![(0, 1, 0), (2, 4, 0)]);
}

#[test]
fn similar_pairs_twice_is_identical() {
    let mut joiner = ChunkedJoiner::<u16>::new(4).unwrap();
    for k in 0..50u64 {
        let x = k.wrapping_mul(0x2545_f491_4f6c_dd1d);
        joiner
            .add(&[x as u16, (x >> 16) as u16, (x >> 32) as u16, (x >> 48) as u16])
            .unwrap();
    }
    let r = Radius::new(3, 8).unwrap();
    assert_eq!(joiner.similar_pairs(r), joiner.similar_pairs(r));
}

#[test]
fn every_column_passes_the_guard() {
    // Two chunks and a radius of 0.5 on 16 dimensions: H = 8, so H + 1 >= B.
    let sketches = example_sketches();
    let mut joiner = ChunkedJoiner::<u8>::new(2).unwrap();
    let mut simple = SimpleJoiner::<u8>::new(2).unwrap();
    for s in sketches.iter() {
        joiner.add(&[(s & 0xFF) as u8, (s >> 8) as u8]).unwrap();
        simple.add(&[(s & 0xFF) as u8, (s >> 8) as u8]).unwrap();
    }
    let r = Radius::new(1, 2).unwrap();
    assert_eq!(joiner.similar_pairs(r), simple.similar_pairs(r));
}

#[test]
fn radix_and_comparison_sorts_agree() {
    let mut sketches = vec![];
    let mut x = 0x1234_5678_9abc_def0u64;
    for _ in 0..1500 {
        x ^= x << 13;
        x ^= x >> 7;
        x ^= x << 17;
        sketches.push((x & 0xFFFF) as u16 & 0xF0FF);
    }
    for radius in [0usize, 1, 2].iter() {
        let by_radix = MultiSort::new().threshold_in_sort(0).similar_pairs(&sketches, *radius);
        let by_comparison = MultiSort::new()
            .threshold_in_sort(usize::MAX)
            .similar_pairs(&sketches, *radius);
        let around = MultiSort::new().threshold_in_sort(1000).similar_pairs(&sketches, *radius);
        let mut a = by_radix.clone();
        let mut b = by_comparison.clone();
        let mut c = around.clone();
        a.sort_unstable();
        b.sort_unstable();
        c.sort_unstable();
        assert_eq!(a, b);
        assert_eq!(a, c);
        assert_eq!(a, naive_pairs(&sketches, *radius));
    }
}

#[test]
fn multi_sort_full_radius_gives_every_pair_once() {
    let sketches = example_sketches();
    let mut results = MultiSort::new().num_blocks(16).unwrap().similar_pairs(&sketches, 16);
    assert_eq!(results.len(), 45);
    results.sort_unstable();
    results.dedup();
    assert_eq!(results.len(), 45);
}

#[test]
fn multi_sort_zero_radius_gives_duplicates() {
    let sketches: Vec<u32> = vec![7, 1, 7, 3, 1, 7];
    let mut results = MultiSort::new().similar_pairs(&sketches, 0);
    results.sort_unstable();
    assert_eq!(results, vec![(0, 2), (0, 5), (1, 4), (2, 5)]);
}

#[test]
fn memory_and_counts() {
    let mut joiner = ChunkedJoiner::<u32>::new(3).unwrap();
    joiner.add(&[1, 2, 3, 4]).unwrap();
    joiner.add(&[1, 2, 3]).unwrap();
    assert_eq!(joiner.num_chunks(), 3);
    assert_eq!(joiner.num_sketches(), 2);
    assert_eq!(joiner.memory_in_bytes(), 24);
    assert_eq!(joiner.dimension(), 96);
    let mut simple = SimpleJoiner::<u16>::new(2).unwrap().shows_progress(false);
    simple.add(&[1, 2]).unwrap();
    assert_eq!(simple.num_chunks(), 2);
    assert_eq!(simple.num_sketches(), 1);
    assert_eq!(simple.memory_in_bytes(), 4);
}

#[test]
fn test_similar_pairs_for_all() {
    for radius in 0..=10 {
        chunked_similar_pairs(radius);
    }
}

#[test]
fn test_short_sketch() {
    let mut joiner = SimpleJoiner::new(2).unwrap();
    let result = joiner.add(&[0u64]);
    assert!(result.is_err());
}

#[test]
fn large_denominators_are_exact() {
    let sketches = example_sketches();
    let mut joiner = ChunkedJoiner::<u8>::new(2).unwrap();
    for s in sketches.iter() {
        joiner.add(&[(s & 0xFF) as u8, (s >> 8) as u8]).unwrap();
    }
    // 3/16 written over a large denominator is the same radius.
    let big = u64::MAX / 16 * 16;
    let a = joiner.similar_pairs(Radius::new(3, 16).unwrap());
    let b = joiner.similar_pairs(Radius::new(big / 16 * 3, big).unwrap());
    assert_eq!(a, b);
    // Just below 3/16, distance 3 no longer qualifies.
    let c = joiner.similar_pairs(Radius::new(big / 16 * 3 - 1, big).unwrap());
    assert!(c.iter().all(|&(_, _, d)| d <= 2));
    assert_eq!(
        c,
        a.into_iter().filter(|&(_, _, d)| d <= 2).collect::<Vec<_>>()
    );
}

#[test]
fn invalid_chunk_and_block_counts() {
    match ChunkedJoiner::<u8>::new(0) {
        Err(e) => assert_eq!(e_kind(&e), ErrorKind::InvalidConfig),
        Ok(_) => panic!("zero chunks were accepted"),
    }
    assert!(SimpleJoiner::<u8>::new(0).is_err());
    match MultiSort::<u8>::new().num_blocks(9) {
        Err(e) => assert_eq!(e_kind(&e), ErrorKind::ArgumentOutOfRange),
        Ok(_) => panic!("nine blocks of an 8-bit sketch were accepted"),
    }
    assert!(MultiSort::<u8>::new().num_blocks(8).is_ok());
}
