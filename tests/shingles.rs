use find_simdoc::shingling::ShingleIter;

#[test]
fn test_q1() {
    let tokens = vec!["a", "b", "c"];
    let mut iter = ShingleIter::new(&tokens, 1);
    assert_eq!(iter.next(), Some(&tokens[0..1]));
    assert_eq!(iter.next(), Some(&tokens[1..2]));
    assert_eq!(iter.next(), Some(&tokens[2..3]));
    assert_eq!(iter.next(), None);
}

#[test]
fn test_q2() {
    let tokens = vec!["a", "b", "c"];
    let mut iter = ShingleIter::new(&tokens, 2);
    assert_eq!(iter.next(), Some(&tokens[0..2]));
    assert_eq!(iter.next(), Some(&tokens[1..3]));
    assert_eq!(iter.next(), None);
}

#[test]
fn test_q3() {
    let tokens = vec!["a", "b", "c"];
    let mut iter = ShingleIter::new(&tokens, 3);
    assert_eq!(iter.next(), Some(&tokens[0..3]));
    assert_eq!(iter.next(), None);
}

#[test]
fn test_q4() {
    let tokens = vec!["a", "b", "c"];
    let mut iter = ShingleIter::new(&tokens, 4);
    assert_eq!(iter.next(), None);
}
