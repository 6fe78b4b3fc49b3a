use std::rc::Rc;

use quantify::{build_patterns, PatternMatch, PatternNode, Quantifier, Quantify};

fn spans<T>(matches: &[PatternMatch<'_, T>]) -> Vec<(usize, usize)> {
    matches.iter().map(|m| (m.range().start, m.range().end)).collect()
}

fn try_match(pattern: &[i32], quantifier: &Quantifier, slice: &[i32]) -> bool {
    <Vec<i32> as Quantify<i32>>::try_match(pattern, quantifier, slice)
}

#[test]
fn try_match_each_quantifier() {
    let ab = [1, 2];
    assert!(try_match(&ab, &Quantifier::One, &[1, 2]));
    assert!(!try_match(&ab, &Quantifier::One, &[1, 3]));
    assert!(!try_match(&ab, &Quantifier::One, &[1, 2, 1, 2]));
    assert!(try_match(&ab, &Quantifier::ExactCount(2), &[1, 2, 1, 2]));
    assert!(!try_match(&ab, &Quantifier::ExactCount(2), &[1, 2, 1, 3]));
    assert!(!try_match(&ab, &Quantifier::ExactCount(3), &[1, 2, 1, 2]));
    assert!(try_match(&ab, &Quantifier::ExactCount(0), &[]));
    assert!(try_match(&ab, &Quantifier::ZeroOrOne, &[]));
    assert!(try_match(&ab, &Quantifier::ZeroOrOne, &[1, 2]));
    assert!(!try_match(&ab, &Quantifier::ZeroOrOne, &[1, 2, 1, 2]));
    assert!(!try_match(&ab, &Quantifier::Invalid, &[1, 2]));
    assert!(!try_match(&ab, &Quantifier::Not, &[1, 2]));
}

#[test]
fn try_match_repetitions() {
    let ab = [1, 2];
    assert!(try_match(&ab, &Quantifier::ZeroOrMore, &[]));
    assert!(try_match(&ab, &Quantifier::ZeroOrMore, &[1, 2, 1, 2, 1, 2]));
    assert!(!try_match(&ab, &Quantifier::ZeroOrMore, &[1, 2, 1]));
    assert!(!try_match(&ab, &Quantifier::ZeroOrMore, &[1, 2, 2, 1]));
    assert!(!try_match(&ab, &Quantifier::OneOrMore, &[]));
    assert!(try_match(&ab, &Quantifier::OneOrMore, &[1, 2]));
    assert!(try_match(&ab, &Quantifier::Range(2..3), &[1, 2, 1, 2]));
    assert!(!try_match(&ab, &Quantifier::Range(3..5), &[1, 2, 1, 2]));
    assert!(!try_match(&ab, &Quantifier::Range(1..2), &[1, 2, 1, 2]));
    let empty: [i32; 0] = [];
    assert!(try_match(&empty, &Quantifier::ZeroOrMore, &[]));
    assert!(!try_match(&empty, &Quantifier::ZeroOrMore, &[1]));
    assert!(try_match(&empty, &Quantifier::OneOrMore, &[]));
    assert!(!try_match(&empty, &Quantifier::Range(0..0), &[]));
    assert!(try_match(&empty, &Quantifier::Range(5..6), &[]));
    assert!(try_match(&empty, &Quantifier::One, &[]));
}

#[test]
fn exact_count_one_is_one() {
    let ab = [1, 2];
    for slice in [&[1, 2][..], &[1, 3][..], &[][..], &[1, 2, 1, 2][..]] {
        assert_eq!(
            try_match(&ab, &Quantifier::ExactCount(1), slice),
            try_match(&ab, &Quantifier::One, slice)
        );
    }
}

#[test]
fn suffix_matchers() {
    let v: Vec<i32> = vec![1, 2, 1, 2];
    let source = vec![vec![1, 2], vec![2, 1, 2]];
    let patterns = build_patterns(source.as_slice());
    assert_eq!(patterns.len(), 2);
    assert_eq!(patterns[1], &[2, 1, 2][..]);

    let any = v.matches_any(&patterns, &Quantifier::One);
    assert_eq!(spans(&any), vec![(1, 4), (2, 4)]);
    let all = v.matches_all(&patterns, &Quantifier::One);
    assert_eq!(spans(&all), vec![]);
    let any_not = v.matches_any_not(&patterns, &Quantifier::One);
    assert_eq!(spans(&any_not), vec![(0, 4), (1, 4), (2, 4), (3, 4)]);
    let none = v.matches_none(&patterns, &Quantifier::One);
    assert_eq!(spans(&none), vec![(0, 4), (3, 4)]);
    assert_eq!(all.len() + any_not.len(), v.len());
    assert_eq!(any.len() + none.len(), v.len());

    let no_patterns: Vec<&[i32]> = vec![];
    assert_eq!(v.matches_all(&no_patterns, &Quantifier::One).len(), 4);
    assert_eq!(v.matches_any(&no_patterns, &Quantifier::One).len(), 0);
}

#[test]
fn single_pattern_all_is_any() {
    let v: Vec<i32> = vec![3, 1, 2, 1, 2];
    let source = vec![vec![1, 2]];
    let patterns = build_patterns(source.as_slice());
    let q = Quantifier::OneOrMore;
    assert_eq!(spans(&v.matches_all(&patterns, &q)), spans(&v.matches_any(&patterns, &q)));
    assert_eq!(spans(&v.matches_all(&patterns, &q)), vec![(1, 5), (3, 5)]);
}

#[test]
fn span_matchers_partition() {
    let v: Vec<i32> = vec![1, 2, 1];
    let pattern = [1];
    let yes = v.matches_pattern(&pattern, &Quantifier::One);
    assert_eq!(spans(&yes), vec![(0, 1), (2, 3)]);
    let no = v.matches_pattern_not(&pattern, &Quantifier::One);
    assert_eq!(yes.len() + no.len(), (v.len() + 1) * (v.len() + 2) / 2);
    assert_eq!(no[0].range(), 0..0);
    assert_eq!(no[1].range(), 0..2);
}

#[test]
fn first_and_last_match() {
    let v: Vec<i32> = vec![1, 2, 1, 2];
    let pattern = [1, 2];
    let first = v.first_match(&pattern, &Quantifier::One).unwrap();
    assert_eq!(first.range(), 0..2);
    assert_eq!(first.slice(), &[1, 2][..]);
    let last = v.last_match(&pattern, &Quantifier::One).unwrap();
    assert_eq!(last.range(), 2..4);
    assert!(v.is_match(&pattern, &Quantifier::One));
    assert!(!v.is_match(&[3], &Quantifier::One));
    assert!(v.first_match(&[3], &Quantifier::One).is_none());
    assert!(v.last_match(&[3], &Quantifier::One).is_none());
    let empty: Vec<i32> = vec![];
    assert!(empty.is_match(&pattern, &Quantifier::ZeroOrOne));
}

#[test]
fn lengths() {
    let v: Vec<i32> = vec![5, 6, 7];
    assert_eq!(<Vec<i32> as Quantify<i32>>::calculate_length(&v), 3);
    assert_eq!(<Vec<i32> as Quantify<i32>>::calculate_pattern_length(&[1, 2]), 2);
    assert_eq!(v.items(), &[5, 6, 7][..]);
}

#[test]
fn pattern_match_accessors() {
    let items = [4, 5, 6];
    let m = PatternMatch::new(1..3, &items[1..3]);
    assert_eq!(m.range(), 1..3);
    assert_eq!(m.slice(), &[5, 6][..]);
    let c = m.clone();
    assert_eq!(c, m);
}

#[test]
fn pattern_node_fields() {
    let tail: PatternNode<i32> = PatternNode::new(Some(2), None);
    let head = PatternNode::new(Some(1), Some(Rc::new(tail)));
    assert_eq!(*head.value(), Some(1));
    let next = head.children().as_ref().unwrap();
    assert_eq!(*next.value(), Some(2));
    assert!(next.children().is_none());
}

#[test]
fn unmatchable_pattern_never_reached() {
    let v: Vec<i32> = vec![1, 2];
    let source = vec![vec![9], vec![]];
    let patterns = build_patterns(source.as_slice());
    assert_eq!(v.matches_all(&patterns, &Quantifier::ExactCount(1)).len(), 0);
    assert_eq!(v.matches_any_not(&patterns, &Quantifier::ExactCount(1)).len(), 2);
    let w: Vec<i32> = vec![1];
    let source = vec![vec![1], vec![]];
    let patterns = build_patterns(source.as_slice());
    let any = w.matches_any(&patterns, &Quantifier::ExactCount(1));
    assert_eq!(spans(&any), vec![(0, 1)]);
    assert_eq!(w.matches_none(&patterns, &Quantifier::ExactCount(1)).len(), 0);
}

#[test]
fn quantifier_doc_examples() {
    let a = ['a'];
    let m = |q: &Quantifier, s: &[char]| <Vec<char> as Quantify<char>>::try_match(&a, q, s);
    assert!(m(&Quantifier::One, &['a']));
    assert!(!m(&Quantifier::One, &[]));
    assert!(m(&Quantifier::ZeroOrOne, &[]));
    assert!(m(&Quantifier::ZeroOrOne, &['a']));
    assert!(!m(&Quantifier::ZeroOrOne, &['a', 'a']));
    assert!(m(&Quantifier::ZeroOrMore, &[]));
    assert!(m(&Quantifier::ZeroOrMore, &['a']));
    assert!(m(&Quantifier::ZeroOrMore, &['a', 'a']));
    assert!(m(&Quantifier::ZeroOrMore, &['a', 'a', 'a']));
    assert!(!m(&Quantifier::OneOrMore, &[]));
    assert!(m(&Quantifier::OneOrMore, &['a']));
    assert!(m(&Quantifier::OneOrMore, &['a', 'a']));
    assert!(m(&Quantifier::OneOrMore, &['a', 'a', 'a']));
    assert!(m(&Quantifier::ExactCount(2), &['a', 'a']));
    assert!(m(&Quantifier::Range(2..4), &['a', 'a', 'a']));
    assert!(!m(&Quantifier::Range(2..4), &['a', 'a', 'a', 'a']));
}

#[test]
fn suffix_starts_split_exactly() {
    let v: Vec<i32> = vec![1, 2, 1, 2, 2];
    let source = vec![vec![1, 2], vec![2]];
    let patterns = build_patterns(source.as_slice());
    let q = Quantifier::OneOrMore;
    for (a, b) in [
        (v.matches_all(&patterns, &q), v.matches_any_not(&patterns, &q)),
        (v.matches_any(&patterns, &q), v.matches_none(&patterns, &q)),
    ] {
        let mut starts: Vec<usize> = spans(&a).iter().chain(spans(&b).iter()).map(|s| s.0).collect();
        for m in a.iter().chain(b.iter()) {
            assert_eq!(m.range().end, v.len());
            assert_eq!(m.slice(), &v[m.range()]);
        }
        starts.sort();
        assert_eq!(starts, (0..v.len()).collect::<Vec<_>>());
        let a_starts: Vec<usize> = spans(&a).iter().map(|s| s.0).collect();
        assert!(a_starts.windows(2).all(|w| w[0] < w[1]));
    }
}

#[test]
fn slices_split_exactly() {
    let v: Vec<i32> = vec![1, 2, 1, 2];
    let pattern = [1, 2];
    let q = Quantifier::ZeroOrMore;
    let yes = spans(&v.matches_pattern(&pattern, &q));
    let no = spans(&v.matches_pattern_not(&pattern, &q));
    assert_eq!(yes, vec![(0, 0), (0, 2), (0, 4), (1, 1), (2, 2), (2, 4), (3, 3), (4, 4)]);
    assert!(no.windows(2).all(|w| w[0] < w[1]));
    let mut all: Vec<(usize, usize)> = yes.iter().chain(no.iter()).cloned().collect();
    all.sort();
    let mut expected = vec![];
    for i in 0..=v.len() {
        for j in i..=v.len() {
            expected.push((i, j));
        }
    }
    assert_eq!(all, expected);
}

#[test]
fn zero_or_one_is_empty_or_one() {
    let ab = [1, 2];
    for slice in [&[1, 2][..], &[1, 3][..], &[][..], &[1, 2, 1, 2][..], &[1][..]] {
        assert_eq!(
            try_match(&ab, &Quantifier::ZeroOrOne, slice),
            slice.is_empty() || try_match(&ab, &Quantifier::One, slice)
        );
    }
}
