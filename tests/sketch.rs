use find_simdoc::bitset64::Bitset64;
use find_simdoc::sketch::Sketch;

#[test]
fn sketch_test_mask_u8() {
    assert_eq!(u8::mask(0..4), 0b00001111);
    assert_eq!(u8::mask(3..6), 0b00111000);
    assert_eq!(u8::mask(4..8), 0b11110000);
    assert_eq!(u8::mask(0..8), 0b11111111);
}

#[test]
fn mask_popcount_and_full_mask() {
    for lo in 0..=64usize {
        for hi in lo..=64usize {
            assert_eq!(u64::mask(lo..hi).count_ones() as usize, hi - lo);
        }
    }
    assert_eq!(u16::mask(0..16), u16::MAX);
    assert_eq!(u32::mask(0..32), u32::MAX);
    assert_eq!(u64::mask(0..64), u64::MAX);
    assert_eq!(u16::mask(5..5), 0);
}

#[test]
fn hamdist_and_dim() {
    assert_eq!(0b1010u8.hamdist(0b0110), 2);
    assert_eq!(u64::MAX.hamdist(0), 64);
    assert_eq!(<u16 as Sketch>::dim(), 16);
    assert_eq!(<u32 as Sketch>::dim(), 32);
}

fn collect(s: &Bitset64) -> Vec<usize> {
    let mut it = s.iter();
    let mut v = vec![];
    while let Some(x) = it.next() {
        v.push(x);
    }
    v
}

#[test]
fn test_basic() {
    // {}
    let mut s = Bitset64::new();
    assert_eq!(s.len(), 0);
    assert_eq!(s.is_empty(), true);
    assert_eq!(s.max(), None);
    assert_eq!(collect(&s), vec![]);

    // {2}
    s = s.add(2);
    assert_eq!(s.len(), 1);
    assert_eq!(s.is_empty(), false);
    assert_eq!(s.max(), Some(2));
    assert_eq!(collect(&s), vec![2]);

    // {2,9}
    s = s.add(9);
    assert_eq!(s.len(), 2);
    assert_eq!(s.is_empty(), false);
    assert_eq!(s.max(), Some(9));
    assert_eq!(collect(&s), vec![2, 9]);

    // {2,5,9}
    s = s.add(5);
    assert_eq!(s.len(), 3);
    assert_eq!(s.is_empty(), false);
    assert_eq!(s.max(), Some(9));
    assert_eq!(collect(&s), vec![2, 5, 9]);

    // {2,5,9}
    s = s.add(9);
    assert_eq!(s.len(), 3);
    assert_eq!(s.is_empty(), false);
    assert_eq!(s.max(), Some(9));
    assert_eq!(collect(&s), vec![2, 5, 9]);

    // !{2,5,9}
    s = s.inverse();
    assert_eq!(s.len(), 61);
    assert_eq!(s.is_empty(), false);
    assert_eq!(s.max(), Some(63));

    let mut expexted = vec![0, 1, 3, 4, 6, 7, 8];
    expexted.extend(10..64);
    assert_eq!(collect(&s), expexted);
}

#[test]
fn test_mask_u8() {
    assert_eq!(u8::mask(0..4), 0b00001111);
    assert_eq!(u8::mask(3..6), 0b00111000);
    assert_eq!(u8::mask(4..8), 0b11110000);
    assert_eq!(u8::mask(0..8), 0b11111111);
}
