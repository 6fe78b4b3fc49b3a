use quantify::{Quantifier, QuantifierParseError};

#[test]
fn to_string_other_quantifiers() {
    assert_eq!(Quantifier::Invalid.to_string(), String::from("\0"));
    assert_eq!(Quantifier::Not.to_string(), String::from("^"));
    assert_eq!(Quantifier::Range(0..usize::MAX).to_string(), String::from("*"));
    assert_eq!(Quantifier::ExactCount(0).to_string(), String::from("{0}"));
    assert_eq!(Quantifier::ExactCount(1234567).to_string(), String::from("{1234567}"));
    assert_eq!(Quantifier::Range(3..7).to_string(), String::from("{3,7}"));
    assert_eq!(Quantifier::Range(10..100).to_string(), String::from("{10,100}"));
    assert_eq!(
        Quantifier::ExactCount(usize::MAX).to_string(),
        format!("{{{}}}", usize::MAX)
    );
}

#[test]
fn from_str_other_texts() {
    assert_eq!(Quantifier::from_str("^"), Ok(Quantifier::Not));
    assert_eq!(Quantifier::from_str("{+5}"), Ok(Quantifier::ExactCount(5)));
    assert_eq!(Quantifier::from_str("{007}"), Ok(Quantifier::ExactCount(7)));
    assert_eq!(Quantifier::from_str("{0}"), Ok(Quantifier::ExactCount(0)));
    assert_eq!(Quantifier::from_str("{5,3}"), Ok(Quantifier::Range(5..3)));
    assert_eq!(Quantifier::from_str("{,0}"), Ok(Quantifier::Range(0..0)));
    assert_eq!(Quantifier::from_str("{+1,+2}"), Ok(Quantifier::Range(1..2)));
}

#[test]
fn from_str_rejected_texts() {
    assert_eq!(Quantifier::from_str("{0,}"), Err(QuantifierParseError));
    assert_eq!(Quantifier::from_str("{-1}"), Err(QuantifierParseError));
    assert_eq!(Quantifier::from_str("{+}"), Err(QuantifierParseError));
    assert_eq!(Quantifier::from_str("{ 1}"), Err(QuantifierParseError));
    assert_eq!(Quantifier::from_str("{a}"), Err(QuantifierParseError));
    assert_eq!(Quantifier::from_str("{1"), Err(QuantifierParseError));
    assert_eq!(Quantifier::from_str("1}"), Err(QuantifierParseError));
    assert_eq!(Quantifier::from_str("??"), Err(QuantifierParseError));
    assert_eq!(Quantifier::from_str("{"), Err(QuantifierParseError));
    assert_eq!(Quantifier::from_str("x"), Err(QuantifierParseError));
    let too_big = format!("{{{}0}}", usize::MAX);
    assert_eq!(Quantifier::from_str(&too_big), Err(QuantifierParseError));
    let max = format!("{{{}}}", usize::MAX);
    assert_eq!(Quantifier::from_str(&max), Ok(Quantifier::ExactCount(usize::MAX)));
}

#[test]
fn from_str_trait_parses() {
    let q: Result<Quantifier, QuantifierParseError> = "?".parse();
    assert_eq!(q, Ok(Quantifier::ZeroOrOne));
    let e: Result<Quantifier, QuantifierParseError> = "{,}".parse();
    assert_eq!(e, Err(QuantifierParseError));
}

#[test]
fn printed_quantifiers_parse_back() {
    let all = vec![
        Quantifier::One,
        Quantifier::ZeroOrOne,
        Quantifier::ZeroOrMore,
        Quantifier::OneOrMore,
        Quantifier::Not,
        Quantifier::ExactCount(0),
        Quantifier::ExactCount(42),
        Quantifier::Range(0..4),
        Quantifier::Range(2..usize::MAX),
        Quantifier::Range(2..4),
        Quantifier::Range(9..1),
    ];
    for q in all {
        let text = q.to_string();
        assert_eq!(Quantifier::from_str(&text), Ok(q.clone()));
        assert_eq!(Quantifier::from(text), q);
    }
}

#[test]
fn printed_exceptions_do_not_parse_back() {
    assert_eq!(Quantifier::from_str(&Quantifier::Invalid.to_string()), Err(QuantifierParseError));
    assert_eq!(Quantifier::from(Quantifier::Invalid.to_string()), Quantifier::One);
    assert_eq!(
        Quantifier::from_str(&Quantifier::Range(0..usize::MAX).to_string()),
        Ok(Quantifier::ZeroOrMore)
    );
}

#[test]
fn parse_print_parse_is_stable() {
    for text in [" ", "{+5}", "{007}", "{,3}", "{4,}", "{5,3}"] {
        let q = Quantifier::from_str(text).unwrap();
        assert_eq!(Quantifier::from_str(&q.to_string()), Ok(q));
    }
}

#[test]
fn clone_keeps_quantifier() {
    let q = Quantifier::Range(3..9);
    assert_eq!(q.clone(), q);
}
