use quantify::{build_patterns, PatternMatch, Quantifier, Quantify};

fn slices<'a, T>(matches: &[PatternMatch<'a, T>]) -> Vec<&'a [T]> {
    matches.iter().map(|m| m.slice()).collect()
}

#[test]
fn quantify_vec_matches_all_one() {
    let v: Vec<i32> = vec![1, 2, 1, 2];
    let patterns_source = vec![vec![1, 2, 1, 2]];
    let patterns = build_patterns(patterns_source.as_slice());

    let actual = v.matches_all(&patterns, &Quantifier::One);

    let expected: Vec<&[i32]> = vec![&v[..]];

    assert_eq!(slices(&actual), expected);
}

#[test]
fn quantify_vec_matches_all_exact_count() {
    let v: Vec<i32> = vec![1, 2, 1, 2];
    let patterns_source = vec![vec![1, 2]];
    let patterns = build_patterns(patterns_source.as_slice());

    let actual = v.matches_all(&patterns, &Quantifier::ExactCount(2));

    let expected: Vec<&[i32]> = vec![&v[..]];

    assert_eq!(slices(&actual), expected);
}

#[test]
fn quantify_vec_matches_pattern_one() {
    let v: Vec<usize> = vec![1, 2, 1, 2];
    let pattern: Vec<usize> = vec![1, 2, 1, 2];

    let actual = v.matches_pattern(&pattern, &Quantifier::One);

    let expected: Vec<&[usize]> = vec![&v[..]];

    assert_eq!(slices(&actual), expected);
}

#[test]
fn quantify_vec_matches_pattern_exact_count() {
    let v: Vec<usize> = vec![1, 2, 1, 2];
    let pattern: Vec<usize> = vec![1, 2];

    let actual = v.matches_pattern(&pattern, &Quantifier::ExactCount(2));

    let expected: Vec<&[usize]> = vec![&v[..]];

    assert_eq!(slices(&actual), expected);
}

#[test]
fn quantify_vec_matches_pattern_zero_or_one() {
    let v: Vec<usize> = vec![1, 2, 1, 2];
    let empty = &v[..0];
    let one_two = &v[0..=1];
    let one = &v[0..1];
    let pattern_valid_a: Vec<usize> = vec![1, 2];
    let pattern_valid_b: Vec<usize> = vec![1];

    let mut actual = v.matches_pattern(&pattern_valid_a, &Quantifier::ZeroOrOne);
    let mut expected: Vec<&[usize]> = vec![empty, one_two, empty, empty, one_two, empty, empty];

    assert_eq!(slices(&actual), expected);

    // `[1]` never matches a slice of two items such as `[1, 2]`: with it,
    // the single items `1` take the place of `[1, 2]` among the matches.
    actual = v.matches_pattern(&pattern_valid_b, &Quantifier::ZeroOrOne);
    expected = vec![empty, one, empty, empty, one, empty, empty];

    assert_eq!(slices(&actual), expected);
}
