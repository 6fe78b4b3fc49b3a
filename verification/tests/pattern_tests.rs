use std::rc::Rc;

use quantify::{
    DynPatternTerminal, Pattern, PatternGroup, PatternGroupType, PatternSymbol, PatternTerminal,
    Quantifier,
};

struct IsEven;

impl DynPatternTerminal<i32> for IsEven {
    fn spec_test(&self, value: i32) -> bool {
        value % 2 == 0
    }

    fn test(&self, value: &i32) -> bool {
        value % 2 == 0
    }
}

fn literal(value: i32, quantifier: Quantifier, negative: bool) -> Rc<Pattern<i32>> {
    Pattern::new_literal(value, quantifier, negative, false)
}

#[test]
fn literal_matches_one_item() {
    let p = literal(7, Quantifier::One, false);
    assert!(p.is_match(&[7]));
    assert!(!p.is_match(&[8]));
    assert!(!p.is_match(&[]));
    assert!(!p.is_match(&[7, 7]));
    let n = literal(7, Quantifier::One, true);
    assert!(!n.is_match(&[7]));
    assert!(n.is_match(&[8]));
    assert!(!n.is_match(&[]));
    assert!(!n.is_match(&[8, 8]));
}

#[test]
fn literal_exact_count() {
    let p = literal(7, Quantifier::ExactCount(3), false);
    assert!(p.is_match(&[7, 7, 7]));
    assert!(!p.is_match(&[7, 8, 7]));
    assert!(!p.is_match(&[7, 7]));
    assert!(!p.is_match(&[]));
    assert!(!p.is_match(&[7, 7, 7, 7]));
    let n = literal(7, Quantifier::ExactCount(3), true);
    assert!(!n.is_match(&[7, 7, 7]));
    assert!(!n.is_match(&[7, 8, 7]));
    assert!(!n.is_match(&[8, 9, 8]));
    assert!(n.is_match(&[8, 9]));
    assert!(n.is_match(&[7, 8]));
    assert!(!n.is_match(&[]));
    assert!(!n.is_match(&[8, 9, 8, 9]));
    let two = literal(1, Quantifier::ExactCount(2), true);
    assert!(!two.is_match(&[1, 1]));
    assert!(two.is_match(&[5]));
    assert!(!two.is_match(&[5, 6]));
    let zero = literal(7, Quantifier::ExactCount(0), false);
    assert!(!zero.is_match(&[]));
    assert!(!zero.is_match(&[7]));
}

#[test]
fn dynamic_terminal() {
    let even = Pattern::new(
        PatternSymbol::Terminal(Rc::new(PatternTerminal::Dyn(&IsEven))),
        Quantifier::One,
        false,
        false,
    );
    assert!(even.is_match(&[4]));
    assert!(!even.is_match(&[5]));
    let odd = Pattern::new(
        PatternSymbol::Terminal(Rc::new(PatternTerminal::Dyn(&IsEven))),
        Quantifier::One,
        true,
        false,
    );
    assert!(odd.is_match(&[5]));
    assert!(!odd.is_match(&[4]));
    assert!(!odd.is_match(&[4, 5]));
    let evens = Pattern::new(
        PatternSymbol::Terminal(Rc::new(PatternTerminal::Dyn(&IsEven))),
        Quantifier::ExactCount(2),
        false,
        false,
    );
    assert!(evens.is_match(&[2, 4]));
    assert!(!evens.is_match(&[2, 3]));
    assert!(!evens.is_match(&[2]));
    let found = evens.matches(&[2, 4, 5]);
    let ranges: Vec<_> = found.iter().map(|m| m.range()).collect();
    assert_eq!(ranges, vec![0..2]);
}

#[test]
fn group_matches_item_by_item() {
    let children = vec![
        literal(1, Quantifier::One, false),
        literal(2, Quantifier::One, false),
    ];
    let g = Pattern::new_group(PatternGroupType::All, children, Quantifier::One, false, false);
    assert!(g.is_match(&[1, 2]));
    assert!(g.is_match(&[1]));
    assert!(g.is_match(&[]));
    assert!(!g.is_match(&[2, 1]));
    assert!(!g.is_match(&[1, 2, 3]));
    let children = vec![
        literal(1, Quantifier::One, false),
        literal(2, Quantifier::One, false),
    ];
    let n = Pattern::new_group(PatternGroupType::Any, children, Quantifier::One, true, false);
    assert!(n.is_match(&[3, 4]));
    assert!(!n.is_match(&[1, 4]));
    assert!(!n.is_match(&[3, 4, 5]));
    assert!(n.is_match(&[3]));
    assert!(n.is_match(&[]));
}

#[test]
fn pattern_matches_in_collection() {
    let p = literal(2, Quantifier::One, false);
    let found = p.matches(&[1, 2, 3, 2]);
    let ranges: Vec<_> = found.iter().map(|m| m.range()).collect();
    assert_eq!(ranges, vec![1..2, 3..4]);
    assert_eq!(found[0].slice(), &[2][..]);
}

#[test]
fn group_counts() {
    let inner = Pattern::new_group(
        PatternGroupType::All,
        vec![literal(1, Quantifier::One, false), literal(2, Quantifier::One, false)],
        Quantifier::One,
        false,
        false,
    );
    let group = PatternGroup::new(
        PatternGroupType::All,
        vec![literal(0, Quantifier::One, false), inner.clone(), literal(3, Quantifier::One, false)],
    );
    assert_eq!(group.get_child_count(), 3);
    assert_eq!(group.get_deep_count(), 4);
    assert_eq!(group.get_children().len(), 3);
    let copies = group.get_children_iter();
    assert_eq!(copies.len(), 3);
    assert!(Rc::ptr_eq(&copies[1], &group.get_children()[1]));
    assert!(copies[1] == inner);
}

#[test]
fn terminal_equality() {
    let a: PatternTerminal<i32> = PatternTerminal::Static(1);
    let b: PatternTerminal<i32> = PatternTerminal::Static(1);
    let c: PatternTerminal<i32> = PatternTerminal::Static(2);
    let d: PatternTerminal<i32> = PatternTerminal::Dyn(&IsEven);
    assert!(a == b);
    assert!(a != c);
    assert!(a != d);
    assert!(d != d.clone());
}

#[test]
fn literal_and_dynamic_constructors_agree() {
    let a = Pattern::new_literal(5, Quantifier::One, false, true);
    let b = Pattern::new_dynamic(5, Quantifier::One, false, true);
    assert!(a == b);
}

#[test]
fn group_iterator_walks_flat_group() {
    let group = PatternGroup::new(
        PatternGroupType::All,
        vec![literal(1, Quantifier::One, false), literal(2, Quantifier::One, false)],
    );
    let mut it = group.into_iter();
    assert!(it.is_empty());
    let (p, t) = it.next().unwrap();
    assert!(*t == PatternTerminal::Static(1));
    assert!(p == literal(1, Quantifier::One, false));
    let (_, t) = it.next().unwrap();
    assert!(*t == PatternTerminal::Static(2));
    assert!(it.next().is_none());
    assert!(it.next().is_none());
}

#[test]
fn group_iterator_stays_in_child_group() {
    let inner = Pattern::new_group(
        PatternGroupType::All,
        vec![literal(1, Quantifier::One, false), literal(2, Quantifier::One, false)],
        Quantifier::One,
        false,
        false,
    );
    let group = PatternGroup::new(PatternGroupType::All, vec![inner]);
    let mut it = group.into_iter();
    let (_, t) = it.next().unwrap();
    assert!(*t == PatternTerminal::Static(1));
    assert!(!it.is_empty());
    let (_, t) = it.next().unwrap();
    assert!(*t == PatternTerminal::Static(1));
    it.seek_relative(1);
    let (_, t) = it.next().unwrap();
    assert!(*t == PatternTerminal::Static(2));
    it.seek(5);
    let (_, t) = it.next().unwrap();
    assert!(*t == PatternTerminal::Static(1));
}

#[test]
fn group_iterator_stack() {
    let sub = Rc::new(PatternGroup::new(
        PatternGroupType::Any,
        vec![literal(9, Quantifier::One, false)],
    ));
    let group = PatternGroup::new(PatternGroupType::All, vec![literal(1, Quantifier::One, false)]);
    let mut it = group.into_iter();
    assert!(it.peek().is_none());
    assert!(it.pop().is_none());
    it.push(&sub);
    assert!(!it.is_empty());
    assert_eq!(it.peek().unwrap().get_child_count(), 1);
    let (_, t) = it.next().unwrap();
    assert!(*t == PatternTerminal::Static(9));
    let popped = it.pop().unwrap();
    assert_eq!(popped.get_child_count(), 1);
    assert!(it.is_empty());
    let (_, t) = it.next().unwrap();
    assert!(*t == PatternTerminal::Static(1));
}

#[test]
fn pattern_iterator() {
    let single = Pattern::new_literal(3, Quantifier::One, false, false);
    let mut it = (*single).clone().into_iter();
    let (_, t) = it.next().unwrap();
    assert!(*t == PatternTerminal::Static(3));
    assert!(it.next().is_none());

    let group = Pattern::new_group(
        PatternGroupType::All,
        vec![literal(1, Quantifier::One, false), literal(2, Quantifier::One, false)],
        Quantifier::One,
        false,
        false,
    );
    let mut it = (*group).clone().into_iter();
    let (_, t) = it.next().unwrap();
    assert!(*t == PatternTerminal::Static(1));
    let (_, t) = it.next().unwrap();
    assert!(*t == PatternTerminal::Static(2));
    assert!(it.next().is_none());
    assert!(it.next().is_none());
}
