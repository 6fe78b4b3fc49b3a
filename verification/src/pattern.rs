use std::ops::Range;
use std::rc::Rc;
use vstd::prelude::*;
use vstd::slice::slice_subrange;
use vstd::std_specs::cmp::PartialEqSpec;

use crate::quantifier::Quantifier;
use crate::quantify::{lemma_views_push, match_views, span_matches, spans_from};

verus! {

/// Builds one pattern (a slice of items) from each of the given vectors.
pub fn build_patterns<'r, T>(patterns: &'r [Vec<T>]) -> (r: Vec<&'r [T]>)
    ensures
        r@.len() == patterns@.len(),
        forall|i: int| 0 <= i < patterns@.len() ==> #[trigger] r@[i]@ == patterns@[i]@,
{
    let mut out: Vec<&'r [T]> = Vec::new();
    let mut i: usize = 0;
    while i < patterns.len()
        invariant
            i <= patterns@.len(),
            out@.len() == i,
            forall|k: int| 0 <= k < i ==> #[trigger] out@[k]@ == patterns@[k]@,
        decreases patterns@.len() - i,
    {
        out.push(patterns[i].as_slice());
        i = i + 1;
    }
    out
}

/// A match: the range of positions in a collection, and the slice of the
/// collection at that range.
#[derive(Debug, PartialEq)]
pub struct PatternMatch<'collection, T> {
    range: Range<usize>,
    slice: &'collection [T],
}

impl<'collection, T> View for PatternMatch<'collection, T> {
    /// The start and end of the range, and the items of the slice.
    type V = (int, int, Seq<T>);

    closed spec fn view(&self) -> (int, int, Seq<T>) {
        (self.range.start as int, self.range.end as int, self.slice@)
    }
}

impl<'collection, T> PatternMatch<'collection, T> {
    pub fn new(range: Range<usize>, slice: &'collection [T]) -> (r: PatternMatch<'collection, T>)
        ensures
            r@ == (range.start as int, range.end as int, slice@),
    {
        PatternMatch { range: Range { start: range.start, end: range.end }, slice }
    }

    /// The range of positions of the match.
    pub fn range(&self) -> (r: Range<usize>)
        ensures
            r.start == self@.0,
            r.end == self@.1,
    {
        Range { start: self.range.start, end: self.range.end }
    }

    /// The matched slice.
    pub fn slice(&self) -> (r: &'collection [T])
        ensures
            r@ == self@.2,
    {
        self.slice
    }
}

impl<'collection, T> Clone for PatternMatch<'collection, T> {
    fn clone(&self) -> (r: Self)
        ensures
            r@ == self@,
    {
        PatternMatch { range: Range { start: self.range.start, end: self.range.end }, slice: self.slice }
    }
}

/// A test on single items, supplied by the user of a pattern. An
/// implementation states in `spec_test` what its test computes; the matcher's
/// contracts rest on `test` giving that, which Verus checks only for
/// implementations that it verifies.
pub trait DynPatternTerminal<T> {
    /// Whether `value` passes the test, as a function of the value.
    spec fn spec_test(&self, value: T) -> bool;

    /// Whether `value` passes the test.
    fn test(&self, value: &T) -> (r: bool)
        ensures
            r == self.spec_test(*value),
    ;
}

/// A terminal symbol of a pattern.
#[verifier::reject_recursive_types(T)]
pub enum PatternTerminal<T: 'static> {
    /// A static terminal symbol: it matches an item equal to the value.
    Static(T),
    /// A dynamic terminal symbol: it matches an item that passes the test.
    Dyn(&'static dyn DynPatternTerminal<T>),
}

impl<T: PartialEq + 'static> PartialEq for PatternTerminal<T> {
    /// Two static symbols are equal when their values are; two dynamic
    /// symbols are never equal.
    fn eq(&self, other: &Self) -> (r: bool) {
        match (self, other) {
            (PatternTerminal::Static(lhs), PatternTerminal::Static(rhs)) => *lhs == *rhs,
            _ => false,
        }
    }
}

impl<T: PartialEq + 'static> vstd::std_specs::cmp::PartialEqSpecImpl for PatternTerminal<T> {
    open spec fn obeys_eq_spec() -> bool {
        T::obeys_eq_spec()
    }

    open spec fn eq_spec(&self, other: &Self) -> bool {
        match (self, other) {
            (PatternTerminal::Static(lhs), PatternTerminal::Static(rhs)) => lhs.eq_spec(rhs),
            _ => false,
        }
    }
}

/// How the children of a group combine.
#[derive(Clone, Copy, Debug, PartialEq, Eq, Structural)]
pub enum PatternGroupType {
    All,
    Any,
}

/// A group of patterns.
#[derive(PartialEq)]
#[verifier::reject_recursive_types(T)]
pub struct PatternGroup<T: 'static> {
    group_type: PatternGroupType,
    children: Vec<Rc<Pattern<T>>>,
}

/// The symbol that a pattern matches: a terminal or a group.
#[derive(PartialEq)]
#[verifier::reject_recursive_types(T)]
pub enum PatternSymbol<T: 'static> {
    Terminal(Rc<PatternTerminal<T>>),
    Group(Rc<PatternGroup<T>>),
}

/// A pattern: a symbol, with the quantifier by which it is matched.
#[derive(PartialEq)]
#[verifier::reject_recursive_types(T)]
pub struct Pattern<T: 'static> {
    /// The symbol to match.
    symbol: PatternSymbol<T>,
    /// The quantifier used to match the symbol.
    quantifier: Quantifier,
    /// Whether the pattern is a negative search: matched only where the symbol
    /// is not.
    is_negative: bool,
    /// Whether the pattern captures its matches.
    is_capturing: bool,
}

/// Another pointer to the value that `rc` points to, made with `Rc::clone`,
/// which shares the allocation and so the value.
#[verifier::external_body]
fn share<V>(rc: &Rc<V>) -> (r: Rc<V>)
    ensures
        r == *rc,
{
    Rc::clone(rc)
}

/// The number of terminals that the children stand for when groups count
/// for their direct children.
pub open spec fn deep_count<T>(children: Seq<Rc<Pattern<T>>>) -> nat
    decreases children.len(),
{
    if children.len() == 0 {
        0
    } else {
        deep_count(children.drop_last()) + match children.last().spec_symbol() {
            PatternSymbol::Group(g) => g.spec_children().len(),
            PatternSymbol::Terminal(_) => 1,
        }
    }
}

impl<T: 'static> PatternGroup<T> {
    /// How the children combine.
    pub closed spec fn spec_group_type(&self) -> PatternGroupType {
        self.group_type
    }

    /// The children, in order.
    pub closed spec fn spec_children(&self) -> Seq<Rc<Pattern<T>>> {
        self.children@
    }

    pub fn new(group_type: PatternGroupType, children: Vec<Rc<Pattern<T>>>) -> (r: PatternGroup<T>)
        ensures
            r.spec_group_type() == group_type,
            r.spec_children() == children@,
    {
        PatternGroup { group_type, children }
    }

    pub fn get_child_count(&self) -> (r: usize)
        ensures
            r == self.spec_children().len(),
    {
        self.children.len()
    }

    /// The children, in order.
    pub fn get_children(&self) -> (r: &[Rc<Pattern<T>>])
        ensures
            r@ == self.spec_children(),
    {
        self.children.as_slice()
    }

    /// A new vector of pointers to the children, in order.
    pub fn get_children_iter(&self) -> (r: Vec<Rc<Pattern<T>>>)
        ensures
            r@ == self.spec_children(),
    {
        let mut out: Vec<Rc<Pattern<T>>> = Vec::new();
        let mut i: usize = 0;
        while i < self.children.len()
            invariant
                i <= self.children@.len(),
                out@ == self.children@.take(i as int),
            decreases self.children@.len() - i,
        {
            out.push(share(&self.children[i]));
            assert(out@ =~= self.children@.take(i + 1));
            i = i + 1;
        }
        assert(self.children@.take(i as int) =~= self.children@);
        out
    }

    /// The number of children, where a child group counts for its own
    /// children.
    pub fn get_deep_count(&self) -> (r: usize)
        requires
            deep_count(self.spec_children()) <= usize::MAX,
        ensures
            r == deep_count(self.spec_children()),
    {
        let children = self.get_children();
        let mut child_count: usize = 0;
        let mut i: usize = 0;
        while i < children.len()
            invariant
                children@ == self.spec_children(),
                deep_count(children@) <= usize::MAX,
                i <= children@.len(),
                child_count == deep_count(children@.take(i as int)),
            decreases children@.len() - i,
        {
            proof {
                assert(children@.take(i + 1).drop_last() =~= children@.take(i as int));
                lemma_deep_count_prefix(children@, i + 1);
            }
            match &children[i].symbol {
                PatternSymbol::Group(group) => {
                    child_count += group.get_child_count();
                },
                PatternSymbol::Terminal(_terminal) => {
                    child_count += 1;
                },
            }
            i = i + 1;
        }
        assert(children@.take(i as int) =~= children@);
        child_count
    }
}

proof fn lemma_deep_count_prefix<T>(children: Seq<Rc<Pattern<T>>>, k: int)
    requires
        0 <= k <= children.len(),
    ensures
        deep_count(children.take(k)) <= deep_count(children),
    decreases children.len(),
{
    if k == children.len() {
        assert(children.take(k) =~= children);
    } else {
        assert(children.drop_last().take(k) =~= children.take(k));
        lemma_deep_count_prefix(children.drop_last(), k);
    }
}

impl<T: 'static> Pattern<T> {
    /// The symbol to match.
    pub closed spec fn spec_symbol(&self) -> PatternSymbol<T> {
        self.symbol
    }

    /// The quantifier used to match the symbol.
    pub closed spec fn spec_quantifier(&self) -> Quantifier {
        self.quantifier
    }

    /// Whether the pattern is a negative search.
    pub closed spec fn spec_is_negative(&self) -> bool {
        self.is_negative
    }

    /// Whether the pattern captures its matches.
    pub closed spec fn spec_is_capturing(&self) -> bool {
        self.is_capturing
    }

    pub fn new(symbol: PatternSymbol<T>, quantifier: Quantifier, is_negative: bool, is_capturing: bool) -> (r: Rc<Pattern<T>>)
        ensures
            r.spec_symbol() == symbol,
            r.spec_quantifier() == quantifier,
            r.spec_is_negative() == is_negative,
            r.spec_is_capturing() == is_capturing,
    {
        Rc::new(Pattern { symbol, quantifier, is_negative, is_capturing })
    }

    /// A pattern whose symbol is a group of the given children.
    pub fn new_group(
        group_type: PatternGroupType,
        children: Vec<Rc<Pattern<T>>>,
        quantifier: Quantifier,
        is_negative: bool,
        is_capturing: bool,
    ) -> (r: Rc<Pattern<T>>)
        ensures
            r.spec_symbol() matches PatternSymbol::Group(g) && g.spec_group_type() == group_type
                && g.spec_children() == children@,
            r.spec_quantifier() == quantifier,
            r.spec_is_negative() == is_negative,
            r.spec_is_capturing() == is_capturing,
    {
        Self::new(
            PatternSymbol::Group(Rc::new(PatternGroup::new(group_type, children))),
            quantifier,
            is_negative,
            is_capturing,
        )
    }

    /// A pattern whose symbol is the static terminal `value`.
    pub fn new_literal(value: T, quantifier: Quantifier, is_negative: bool, is_capturing: bool) -> (r:
        Rc<Pattern<T>>)
        ensures
            r.spec_symbol() == PatternSymbol::Terminal(Rc::new(PatternTerminal::Static(value))),
            r.spec_quantifier() == quantifier,
            r.spec_is_negative() == is_negative,
            r.spec_is_capturing() == is_capturing,
    {
        Self::new(
            PatternSymbol::Terminal(Rc::new(PatternTerminal::Static(value))),
            quantifier,
            is_negative,
            is_capturing,
        )
    }

    /// A pattern whose symbol is the terminal `value`, which is static: the
    /// same pattern as `new_literal` makes.
    pub fn new_dynamic(value: T, quantifier: Quantifier, is_negative: bool, is_capturing: bool) -> (r:
        Rc<Pattern<T>>)
        ensures
            r.spec_symbol() == PatternSymbol::Terminal(Rc::new(PatternTerminal::Static(value))),
            r.spec_quantifier() == quantifier,
            r.spec_is_negative() == is_negative,
            r.spec_is_capturing() == is_capturing,
    {
        Self::new(
            PatternSymbol::Terminal(Rc::new(PatternTerminal::Static(value))),
            quantifier,
            is_negative,
            is_capturing,
        )
    }
}

/// Walks the terminals of a group, descending into child groups.
#[derive(PartialEq)]
#[verifier::reject_recursive_types(T)]
pub struct PatternGroupIterator<T: 'static> {
    index: usize,
    group: Rc<PatternGroup<T>>,
    stack: Vec<(usize, Rc<PatternGroup<T>>)>,
}

/// The state of a group iterator: the position in the group being walked, that
/// group, and the positions and groups saved on the way into it (innermost
/// last).
#[verifier::reject_recursive_types(T)]
pub struct GroupWalk<T: 'static> {
    pub index: usize,
    pub group: Rc<PatternGroup<T>>,
    pub stack: Seq<(usize, Rc<PatternGroup<T>>)>,
}

impl<T: 'static> View for PatternGroupIterator<T> {
    type V = GroupWalk<T>;

    closed spec fn view(&self) -> GroupWalk<T> {
        GroupWalk { index: self.index, group: self.group, stack: self.stack@ }
    }
}

/// One step of the walk of a group iterator.
#[verifier::reject_recursive_types(T)]
pub enum WalkStep<T: 'static> {
    /// The walk ends without a terminal, in the given state.
    Done(GroupWalk<T>),
    /// The walk moves into or out of a child group, to the given state.
    Moved(GroupWalk<T>),
    /// The walk yields a terminal pattern and its symbol, in the given state.
    Yield(GroupWalk<T>, Rc<Pattern<T>>, Rc<PatternTerminal<T>>),
}

/// One step of the walk: past the end of the outermost group the walk ends
/// (and the position is set to `usize::MAX`); past the end of an inner group
/// it moves back out to the saved position; at a child group it moves in, to
/// the group's first child; at a terminal it yields the terminal, and moves on
/// to the next child only in the outermost group.
pub open spec fn walk_step<T>(w: GroupWalk<T>) -> WalkStep<T> {
    let children = w.group.spec_children();
    if w.index >= children.len() {
        if w.stack.len() == 0 {
            WalkStep::Done(GroupWalk { index: usize::MAX, ..w })
        } else {
            WalkStep::Moved(
                GroupWalk { index: w.stack.last().0, group: w.stack.last().1, stack: w.stack.drop_last() },
            )
        }
    } else {
        let child = children[w.index as int];
        match child.spec_symbol() {
            PatternSymbol::Group(sub) => WalkStep::Moved(
                GroupWalk { index: 0, group: sub, stack: w.stack.push((w.index, w.group)) },
            ),
            PatternSymbol::Terminal(t) => if w.stack.len() == 0 {
                WalkStep::Yield(GroupWalk { index: (w.index + 1) as usize, ..w }, child, t)
            } else {
                WalkStep::Yield(w, child, t)
            },
        }
    }
}

/// The walk from `w` until it ends or yields, within `fuel` moves.
pub open spec fn walk<T>(w: GroupWalk<T>, fuel: nat) -> Option<WalkStep<T>>
    decreases fuel,
{
    if fuel == 0 {
        None
    } else {
        match walk_step(w) {
            WalkStep::Moved(next) => walk(next, (fuel - 1) as nat),
            step => Some(step),
        }
    }
}

/// The walk from `w` ends or yields after finitely many moves.
pub open spec fn walk_finishes<T>(w: GroupWalk<T>) -> bool {
    exists|fuel: nat| #[trigger] walk(w, fuel) is Some
}

/// Where the walk from `w` ends or yields.
pub open spec fn walk_result<T>(w: GroupWalk<T>) -> WalkStep<T> {
    walk(w, choose|fuel: nat| #[trigger] walk(w, fuel) is Some).unwrap()
}

proof fn lemma_walk_fuel<T>(w: GroupWalk<T>, f1: nat, f2: nat)
    requires
        walk(w, f1) is Some,
        f1 <= f2,
    ensures
        walk(w, f2) == walk(w, f1),
    decreases f1,
{
    if let WalkStep::Moved(next) = walk_step(w) {
        lemma_walk_fuel(next, (f1 - 1) as nat, (f2 - 1) as nat);
    }
}

proof fn lemma_walk_result<T>(w: GroupWalk<T>, fuel: nat)
    requires
        walk(w, fuel) is Some,
    ensures
        walk_result(w) == walk(w, fuel).unwrap(),
{
    let f = choose|f: nat| #[trigger] walk(w, f) is Some;
    if f <= fuel {
        lemma_walk_fuel(w, f, fuel);
    } else {
        lemma_walk_fuel(w, fuel, f);
    }
}

impl<T: 'static> PatternGroupIterator<T> {
    pub fn is_empty(&self) -> (r: bool)
        ensures
            r == (self@.stack.len() == 0),
    {
        self.stack.len() < 1
    }

    /// The innermost saved group, if any.
    pub fn peek(&mut self) -> (r: Option<Rc<PatternGroup<T>>>)
        ensures
            final(self)@ == old(self)@,
            r == (if old(self)@.stack.len() == 0 {
                None
            } else {
                Some(old(self)@.stack.last().1)
            }),
    {
        if self.is_empty() {
            return None;
        }
        let last = self.stack.len() - 1;
        Some(share(&self.stack[last].1))
    }

    /// Moves back out to the innermost saved position and group, and returns
    /// that group.
    pub fn pop(&mut self) -> (r: Option<Rc<PatternGroup<T>>>)
        ensures
            old(self)@.stack.len() == 0 ==> r is None && final(self)@ == old(self)@,
            old(self)@.stack.len() > 0 ==> r == Some(old(self)@.stack.last().1) && final(self)@
                == (GroupWalk {
                index: old(self)@.stack.last().0,
                group: old(self)@.stack.last().1,
                stack: old(self)@.stack.drop_last(),
            }),
    {
        match self.stack.pop() {
            None => None,
            Some((index, group)) => {
                self.index = index;
                self.group = share(&group);
                Some(group)
            },
        }
    }

    /// Saves the position and group, and moves into `group`, at its first
    /// child.
    pub fn push(&mut self, group: &Rc<PatternGroup<T>>)
        ensures
            final(self)@ == (GroupWalk {
                index: 0,
                group: *group,
                stack: old(self)@.stack.push((old(self)@.index, old(self)@.group)),
            }),
    {
        let saved = share(&self.group);
        self.stack.push((self.index, saved));
        self.index = 0;
        self.group = share(group);
    }

    pub fn seek(&mut self, index: usize)
        ensures
            final(self)@ == (GroupWalk { index, ..old(self)@ }),
    {
        self.index = index;
    }

    pub fn seek_relative(&mut self, offset: usize)
        requires
            old(self)@.index + offset <= usize::MAX,
        ensures
            final(self)@ == (GroupWalk { index: (old(self)@.index + offset) as usize, ..old(self)@ }),
    {
        self.index = self.index + offset;
    }
}

/// The walk that yields a terminal pattern or ends, or `None` when the
/// fuel runs out first.
fn walk_next<T: 'static>(it: &mut PatternGroupIterator<T>, Ghost(fuel): Ghost<nat>) -> (r: Option<
    (Rc<Pattern<T>>, Rc<PatternTerminal<T>>),
>)
    requires
        walk(old(it)@, fuel) is Some,
    ensures
        match walk(old(it)@, fuel).unwrap() {
            WalkStep::Done(w) => r is None && final(it)@ == w,
            WalkStep::Yield(w, p, t) => r == Some((p, t)) && final(it)@ == w,
            WalkStep::Moved(_) => false,
        },
    decreases fuel,
{
    let group = share(&it.group);
    let count = group.get_child_count();
    if it.index >= count {
        if it.is_empty() {
            it.seek(usize::MAX);
            return None;
        }
        let _ = it.pop();
        return walk_next(it, Ghost((fuel - 1) as nat));
    }
    let pattern = &group.children[it.index];
    match &pattern.symbol {
        PatternSymbol::Group(sub) => {
            it.push(sub);
            walk_next(it, Ghost((fuel - 1) as nat))
        },
        PatternSymbol::Terminal(terminal) => {
            if it.is_empty() {
                it.seek_relative(1);
            }
            Some((share(pattern), share(terminal)))
        },
    }
}

impl<T: 'static> PatternGroupIterator<T> {
    /// The next terminal pattern of the walk and its symbol, or `None` where
    /// the walk ends.
    pub fn next(&mut self) -> (r: Option<(Rc<Pattern<T>>, Rc<PatternTerminal<T>>)>)
        requires
            walk_finishes(old(self)@),
        ensures
            match walk_result(old(self)@) {
                WalkStep::Done(w) => r is None && final(self)@ == w,
                WalkStep::Yield(w, p, t) => r == Some((p, t)) && final(self)@ == w,
                WalkStep::Moved(_) => false,
            },
    {
        let ghost fuel = choose|fuel: nat| #[trigger] walk(self@, fuel) is Some;
        proof {
            lemma_walk_result(self@, fuel);
        }
        walk_next(self, Ghost(fuel))
    }
}

impl<T: 'static> PatternGroup<T> {
    /// A walk of the group's terminals, from its first child.
    pub fn into_iter(self) -> (r: PatternGroupIterator<T>)
        ensures
            r@ == (GroupWalk { index: 0, group: Rc::new(self), stack: Seq::empty() }),
    {
        PatternGroupIterator { index: 0, group: Rc::new(self), stack: Vec::new() }
    }
}

/// Walks the terminals of a pattern: the pattern itself where its symbol is
/// a terminal, else the terminals of its group.
#[derive(PartialEq)]
#[verifier::reject_recursive_types(T)]
pub struct PatternIterator<T: 'static> {
    pattern: Rc<Pattern<T>>,
    end_of_stream: bool,
    group_iter: Option<PatternGroupIterator<T>>,
}

/// The state of a pattern iterator: the pattern, whether the walk has ended,
/// and the walk of its group once that has begun.
#[verifier::reject_recursive_types(T)]
pub struct PatternWalk<T: 'static> {
    pub pattern: Rc<Pattern<T>>,
    pub end_of_stream: bool,
    pub group_walk: Option<GroupWalk<T>>,
}

impl<T: 'static> View for PatternIterator<T> {
    type V = PatternWalk<T>;

    closed spec fn view(&self) -> PatternWalk<T> {
        PatternWalk {
            pattern: self.pattern,
            end_of_stream: self.end_of_stream,
            group_walk: match self.group_iter {
                Some(it) => Some(it@),
                None => None,
            },
        }
    }
}

/// The group walk that the next step of a pattern walk goes on with: the one
/// begun, or else a new walk of the pattern's group, if its symbol is a group.
pub open spec fn group_walk_ahead<T>(w: PatternWalk<T>) -> Option<GroupWalk<T>> {
    match w.group_walk {
        Some(g) => Some(g),
        None => match w.pattern.spec_symbol() {
            PatternSymbol::Group(g) => Some(GroupWalk { index: 0, group: g, stack: Seq::empty() }),
            PatternSymbol::Terminal(_) => None,
        },
    }
}

impl<T: 'static> PatternIterator<T> {
    /// The next terminal pattern of the walk and its symbol, or `None` once the
    /// walk has ended.
    pub fn next(&mut self) -> (r: Option<(Rc<Pattern<T>>, Rc<PatternTerminal<T>>)>)
        requires
            !old(self)@.end_of_stream ==> (group_walk_ahead(old(self)@) matches Some(g)
                ==> walk_finishes(g)),
        ensures
            old(self)@.end_of_stream ==> r is None && final(self)@ == old(self)@,
            !old(self)@.end_of_stream ==> match group_walk_ahead(old(self)@) {
                Some(g) => match walk_result(g) {
                    WalkStep::Done(w) => r is None && final(self)@ == (PatternWalk {
                        end_of_stream: true,
                        group_walk: Some(w),
                        ..old(self)@
                    }),
                    WalkStep::Yield(w, p, t) => r == Some((p, t)) && final(self)@ == (PatternWalk {
                        group_walk: Some(w),
                        ..old(self)@
                    }),
                    WalkStep::Moved(_) => false,
                },
                None => old(self)@.pattern.spec_symbol() matches PatternSymbol::Terminal(t) && r
                    == Some((old(self)@.pattern, t)) && final(self)@ == (PatternWalk {
                    end_of_stream: true,
                    ..old(self)@
                }),
            },
    {
        if self.end_of_stream {
            return None;
        }
        if self.group_iter.is_none() {
            let pattern = share(&self.pattern);
            match &pattern.symbol {
                PatternSymbol::Group(group) => {
                    self.group_iter = Some(
                        PatternGroupIterator { index: 0, group: share(group), stack: Vec::new() },
                    );
                },
                PatternSymbol::Terminal(terminal) => {
                    self.end_of_stream = true;
                    return Some((share(&self.pattern), share(terminal)));
                },
            }
        }
        match &mut self.group_iter {
            Some(group_iter) => {
                let child = group_iter.next();
                if child.is_none() {
                    self.end_of_stream = true;
                }
                child
            },
            None => None,
        }
    }
}

impl<T: 'static> Pattern<T> {
    /// A walk of the pattern's terminals.
    pub fn into_iter(self) -> (r: PatternIterator<T>)
        ensures
            r@ == (PatternWalk { pattern: Rc::new(self), end_of_stream: false, group_walk: None }),
    {
        PatternIterator { pattern: Rc::new(self), end_of_stream: false, group_iter: None }
    }
}

impl<T: Clone + 'static> Clone for PatternTerminal<T> {
    fn clone(&self) -> (r: Self)
        ensures
            *self matches PatternTerminal::Static(a) ==> (r matches PatternTerminal::Static(b)
                && cloned(a, b)),
            *self matches PatternTerminal::Dyn(_) ==> r matches PatternTerminal::Dyn(_),
    {
        match self {
            PatternTerminal::Static(value) => {
                let copy = T::clone(value);
                assert(vstd::pervasive::strictly_cloned(*value, copy));
                PatternTerminal::Static(copy)
            },
            PatternTerminal::Dyn(test) => PatternTerminal::Dyn(*test),
        }
    }
}

impl<T: 'static> Clone for PatternSymbol<T> {
    fn clone(&self) -> (r: Self)
        ensures
            r == *self,
    {
        match self {
            PatternSymbol::Terminal(terminal) => PatternSymbol::Terminal(share(terminal)),
            PatternSymbol::Group(group) => PatternSymbol::Group(share(group)),
        }
    }
}

impl<T: 'static> Clone for Pattern<T> {
    fn clone(&self) -> (r: Self)
        ensures
            r == *self,
    {
        Pattern {
            symbol: self.symbol.clone(),
            quantifier: self.quantifier.clone(),
            is_negative: self.is_negative,
            is_capturing: self.is_capturing,
        }
    }
}

impl<T: 'static> Clone for PatternGroup<T> {
    fn clone(&self) -> (r: Self)
        ensures
            r.spec_group_type() == self.spec_group_type(),
            r.spec_children() == self.spec_children(),
    {
        PatternGroup { group_type: self.group_type, children: self.get_children_iter() }
    }
}

impl<T: 'static> Clone for PatternGroupIterator<T> {
    fn clone(&self) -> (r: Self)
        ensures
            r@ == self@,
    {
        let mut stack: Vec<(usize, Rc<PatternGroup<T>>)> = Vec::new();
        let mut i: usize = 0;
        while i < self.stack.len()
            invariant
                i <= self.stack@.len(),
                stack@ == self.stack@.take(i as int),
            decreases self.stack@.len() - i,
        {
            let (index, group) = (self.stack[i].0, share(&self.stack[i].1));
            stack.push((index, group));
            assert(stack@ =~= self.stack@.take(i + 1));
            i = i + 1;
        }
        assert(self.stack@.take(i as int) =~= self.stack@);
        PatternGroupIterator { index: self.index, group: share(&self.group), stack }
    }
}

impl<T: 'static> Clone for PatternIterator<T> {
    fn clone(&self) -> (r: Self)
        ensures
            r@ == self@,
    {
        let group_iter = match &self.group_iter {
            Some(it) => Some(it.clone()),
            None => None,
        };
        PatternIterator { pattern: share(&self.pattern), end_of_stream: self.end_of_stream, group_iter }
    }
}

/// What matching a pattern against a slice comes to.
pub enum MatchOutcome {
    /// The matcher does not handle this combination of symbol and quantifier
    /// (the matching is left unimplemented).
    Unsupported,
    /// The slice matches (`true`) or does not.
    Decided(bool),
    /// The answer rests on the items' equality where their type does not
    /// follow its specification.
    Undetermined,
}

/// A step of a short-circuiting loop, followed by the rest of the loop: a step
/// whose result is `stop_on` makes the whole loop fail at once.
pub open spec fn then_rest(first: MatchOutcome, stop_on: bool, rest: MatchOutcome) -> MatchOutcome {
    match first {
        MatchOutcome::Unsupported => MatchOutcome::Unsupported,
        MatchOutcome::Decided(b) => if b == stop_on {
            MatchOutcome::Decided(false)
        } else {
            rest
        },
        MatchOutcome::Undetermined => match rest {
            MatchOutcome::Unsupported => MatchOutcome::Unsupported,
            MatchOutcome::Decided(false) => MatchOutcome::Decided(false),
            _ => MatchOutcome::Undetermined,
        },
    }
}

/// Whether item `x` passes the terminal symbol `t`, where that is known.
pub open spec fn terminal_test<T: PartialEq>(t: PatternTerminal<T>, x: T) -> Option<bool> {
    match t {
        PatternTerminal::Static(expected) => if T::obeys_eq_spec() {
            Some(x.eq_spec(&expected))
        } else {
            None
        },
        PatternTerminal::Dyn(f) => Some(f.spec_test(x)),
    }
}

/// A terminal symbol matched once: the slice must be a single item that
/// passes the symbol (or, for a negative search, fails it).
pub open spec fn terminal_one<T: PartialEq>(
    t: PatternTerminal<T>,
    negative: bool,
    s: Seq<T>,
) -> MatchOutcome {
    if s.len() != 1 {
        MatchOutcome::Decided(false)
    } else {
        match terminal_test(t, s[0]) {
            Some(b) => MatchOutcome::Decided(if negative {
                !b
            } else {
                b
            }),
            None => MatchOutcome::Undetermined,
        }
    }
}

/// The runs `i..n` of `run` items each, matched against the terminal symbol
/// once each. A positive search fails at the first run that does not match;
/// a negative search matches each run against the negated symbol and fails at
/// the first run that matches it.
pub open spec fn terminal_runs<T: PartialEq>(
    t: PatternTerminal<T>,
    negative: bool,
    s: Seq<T>,
    n: int,
    run: int,
    i: int,
) -> MatchOutcome
    decreases n - i,
{
    if i >= n {
        MatchOutcome::Decided(true)
    } else {
        then_rest(
            terminal_one(t, negative, s.subrange(i * run, (i + 1) * run)),
            negative,
            terminal_runs(t, negative, s, n, run, i + 1),
        )
    }
}

/// A negative search, refused where the positive search matches: a negative
/// search matches only where the symbol does not.
pub open spec fn unless_positive(negative: MatchOutcome, positive: MatchOutcome) -> MatchOutcome {
    match negative {
        MatchOutcome::Decided(true) => match positive {
            MatchOutcome::Decided(b) => MatchOutcome::Decided(!b),
            other => other,
        },
        other => other,
    }
}

/// A terminal symbol under a quantifier: once for `One`; for `ExactCount(n)`,
/// a slice of one to `n` items cut into `n` runs of `len / n` items, matched
/// as `terminal_runs` says, where a negative search is also refused wherever
/// the positive search matches. The other quantifiers are unsupported.
pub open spec fn terminal_outcome<T: PartialEq>(
    t: PatternTerminal<T>,
    quantifier: Quantifier,
    negative: bool,
    s: Seq<T>,
) -> MatchOutcome {
    match quantifier {
        Quantifier::One => terminal_one(t, negative, s),
        Quantifier::ExactCount(n) => if s.len() < 1 || s.len() > n {
            MatchOutcome::Decided(false)
        } else {
            let run = (s.len() as int) / (n as int);
            let runs = terminal_runs(t, negative, s, n as int, run, 0);
            if negative {
                unless_positive(runs, terminal_runs(t, false, s, n as int, run, 0))
            } else {
                runs
            }
        },
        _ => MatchOutcome::Unsupported,
    }
}

/// The children of the group of `p`, or none where its symbol is a terminal.
pub open spec fn group_children<T>(p: Pattern<T>) -> Seq<Rc<Pattern<T>>> {
    match p.spec_symbol() {
        PatternSymbol::Group(g) => g.spec_children(),
        PatternSymbol::Terminal(_) => Seq::empty(),
    }
}

/// What matching `p` against the slice `s` comes to. A terminal symbol is
/// matched as `terminal_outcome` says. A group is matched only once (`One`),
/// item by item as `group_items` says.
pub open spec fn outcome<T: PartialEq>(p: Pattern<T>, s: Seq<T>) -> MatchOutcome
    decreases p, s.len() + 1,
{
    match p.spec_symbol() {
        PatternSymbol::Terminal(t) => terminal_outcome(
            *t,
            p.spec_quantifier(),
            p.spec_is_negative(),
            s,
        ),
        PatternSymbol::Group(_) => if p.spec_quantifier() != Quantifier::One {
            MatchOutcome::Unsupported
        } else {
            group_items(p, s, 0)
        },
    }
}

/// Items `k..` of `s`, each matched alone against the child of the group of
/// `p` at the same position (an item past the last child fails); the first
/// item that fails its child (or, for a negative search, matches it) makes the
/// whole fail.
pub open spec fn group_items<T: PartialEq>(p: Pattern<T>, s: Seq<T>, k: int) -> MatchOutcome
    decreases p, s.len() - k,
{
    if k >= s.len() || k < 0 {
        MatchOutcome::Decided(true)
    } else if k >= group_children(p).len() {
        MatchOutcome::Decided(false)
    } else {
        proof {
            lemma_child_decreases(p, k);
        }
        then_rest(
            outcome(*group_children(p)[k], s.subrange(k, k + 1)),
            p.spec_is_negative(),
            group_items(p, s, k + 1),
        )
    }
}

/// A child of a group is smaller than the pattern of the group.
pub proof fn lemma_child_decreases<T>(p: Pattern<T>, k: int)
    requires
        0 <= k < group_children(p).len(),
    ensures
        decreases_to!(p => *group_children(p)[k]),
{
    if let PatternSymbol::Group(g) = p.symbol {
        assert(decreases_to!(p => *g.children@[k]));
    }
}

/// The value that `r` shares.
spec fn shared_value<A>(r: Rc<A>) -> A {
    *r
}

/// The child at position `k` of the group of `p`.
closed spec fn child_at<T>(p: Pattern<T>, k: int) -> Pattern<T> {
    *group_children(p)[k]
}

/// A terminal symbol matched once against `slice`.
fn terminal_match_one<T: PartialEq>(terminal: &PatternTerminal<T>, negative: bool, slice: &[T]) -> (r:
    bool)
    ensures
        terminal_one(*terminal, negative, slice@) matches MatchOutcome::Decided(b) ==> r == b,
{
    if slice.len() != 1 {
        return false;
    }
    let actual = &slice[0];
    match terminal {
        PatternTerminal::Dyn(test) => {
            let passed = test.test(actual);
            if negative {
                !passed
            } else {
                passed
            }
        },
        PatternTerminal::Static(expected) => {
            if negative {
                *actual != *expected
            } else {
                *actual == *expected
            }
        },
    }
}

/// Why the loops of the matcher may stop early: while a loop has gone on, what
/// it comes to is what the rest of it comes to.
proof fn lemma_then_rest_step(first: MatchOutcome, stop_on: bool, rest: MatchOutcome, result: bool)
    requires
        then_rest(first, stop_on, rest) != MatchOutcome::Unsupported,
        first matches MatchOutcome::Decided(b) ==> result == b,
    ensures
        first != MatchOutcome::Unsupported,
        result == stop_on ==> (then_rest(first, stop_on, rest) matches MatchOutcome::Decided(b)
            ==> !b),
        result != stop_on ==> rest != MatchOutcome::Unsupported,
        result != stop_on ==> (then_rest(first, stop_on, rest) matches MatchOutcome::Decided(b)
            ==> rest == MatchOutcome::Decided(b)),
{
}

proof fn lemma_run_bounds(len: int, n: int, i: int)
    requires
        1 <= len <= n,
        0 <= i < n,
    ensures
        len / n == 0 || len / n == 1,
        len / n == 1 <==> len == n,
        0 <= i * (len / n) <= (i + 1) * (len / n) <= len,
        (i + 1) * (len / n) == i * (len / n) + len / n,
{
    if len < n {
        assert(len / n == 0) by (nonlinear_arith)
            requires
                0 <= len < n,
        ;
    } else {
        assert(len / n == 1) by (nonlinear_arith)
            requires
                len == n,
                n >= 1,
        ;
    }
    let run = len / n;
    if run == 0 {
        assert(i * run == 0 && (i + 1) * run == 0) by (nonlinear_arith)
            requires
                run == 0,
        ;
    } else {
        assert(i * run == i && (i + 1) * run == i + 1) by (nonlinear_arith)
            requires
                run == 1,
        ;
    }
}

/// The runs of a terminal symbol under `ExactCount(n)`, for a slice of one to
/// `n` items.
fn terminal_match_runs<T: PartialEq>(
    terminal: &PatternTerminal<T>,
    negative: bool,
    n: usize,
    slice: &[T],
) -> (r: bool)
    requires
        1 <= slice@.len() <= n,
    ensures
        terminal_runs(
            *terminal,
            negative,
            slice@,
            n as int,
            (slice@.len() as int) / (n as int),
            0,
        ) matches MatchOutcome::Decided(b) ==> r == b,
{
    let len = slice.len();
    let run = len / n;
    let ghost whole = terminal_runs(*terminal, negative, slice@, n as int, run as int, 0);
    let mut i: usize = 0;
    while i < n
        invariant
            1 <= len <= n,
            len == slice@.len(),
            run == len / n,
            i <= n,
            whole == terminal_runs(*terminal, negative, slice@, n as int, run as int, 0),
            whole != MatchOutcome::Unsupported ==> terminal_runs(
                *terminal,
                negative,
                slice@,
                n as int,
                run as int,
                i as int,
            ) != MatchOutcome::Unsupported,
            whole matches MatchOutcome::Decided(b) ==> terminal_runs(
                *terminal,
                negative,
                slice@,
                n as int,
                run as int,
                i as int,
            ) == MatchOutcome::Decided(b),
        decreases n - i,
    {
        proof {
            lemma_run_bounds(len as int, n as int, i as int);
        }
        let start = i * run;
        let end = start + run;
        let sub_slice = slice_subrange(slice, start, end);
        let matched = terminal_match_one(terminal, negative, sub_slice);
        proof {
            let first = terminal_one(*terminal, negative, sub_slice@);
            let rest = terminal_runs(*terminal, negative, slice@, n as int, run as int, i + 1);
            assert(first == terminal_one(
                *terminal,
                negative,
                slice@.subrange(i * run, (i + 1) * run),
            ));
            if then_rest(first, negative, rest) != MatchOutcome::Unsupported {
                lemma_then_rest_step(first, negative, rest, matched);
            }
        }
        if matched == negative {
            return false;
        }
        i = i + 1;
    }
    true
}

/// A terminal symbol under `ExactCount(n)`.
fn terminal_match_count<T: PartialEq>(
    terminal: &PatternTerminal<T>,
    negative: bool,
    n: usize,
    slice: &[T],
) -> (r: bool)
    ensures
        terminal_outcome(*terminal, Quantifier::ExactCount(n), negative, slice@) matches MatchOutcome::Decided(
            b,
        ) ==> r == b,
{
    let len = slice.len();
    if len < 1 || len > n {
        return false;
    }
    let matched = terminal_match_runs(terminal, negative, n, slice);
    if negative && matched {
        return !terminal_match_runs(terminal, false, n, slice);
    }
    matched
}

impl<T: PartialEq + 'static> Pattern<T> {
    /// Whether `slice` matches the pattern.
    pub fn is_match(&self, slice: &[T]) -> (r: bool)
        requires
            outcome(*self, slice@) != MatchOutcome::Unsupported,
        ensures
            outcome(*self, slice@) matches MatchOutcome::Decided(b) ==> r == b,
        decreases *self,
    {
        match &self.symbol {
            PatternSymbol::Group(group) => {
                match &self.quantifier {
                    Quantifier::One => {},
                    _ => {
                        return false;
                    },
                }
                let children = &group.children;
                assert(group_children(*self) == children@);
                let mut k: usize = 0;
                while k < slice.len()
                    invariant
                        self.symbol == PatternSymbol::Group(*group),
                        self.quantifier == Quantifier::One,
                        *children == group.children,
                        group_children(*self) == children@,
                        k <= slice@.len(),
                        group_items(*self, slice@, k as int) != MatchOutcome::Unsupported,
                        outcome(*self, slice@) matches MatchOutcome::Decided(b) ==> group_items(
                            *self,
                            slice@,
                            k as int,
                        ) == MatchOutcome::Decided(b),
                    decreases slice@.len() - k,
                {
                    if k >= children.len() {
                        return false;
                    }
                    let child = &children[k];
                    let item = slice_subrange(slice, k, k + 1);
                    assert(decreases_to!(*self => child_at(*self, k as int)));
                    let matched = child.is_match(item);
                    proof {
                        lemma_then_rest_step(
                            outcome(child_at(*self, k as int), item@),
                            self.is_negative,
                            group_items(*self, slice@, k + 1),
                            matched,
                        );
                    }
                    if self.is_negative {
                        if matched {
                            return false;
                        }
                    } else {
                        if !matched {
                            return false;
                        }
                    }
                    k = k + 1;
                }
                true
            },
            PatternSymbol::Terminal(terminal) => match &self.quantifier {
                Quantifier::One => terminal_match_one(terminal, self.is_negative, slice),
                Quantifier::ExactCount(n) => terminal_match_count(
                    terminal,
                    self.is_negative,
                    *n,
                    slice,
                ),
                _ => false,
            },
        }
    }
}

/// Selects the slices that `p` decidedly matches.
pub open spec fn decidedly_matching<T: PartialEq>(p: Pattern<T>) -> spec_fn(Seq<T>) -> bool {
    |s: Seq<T>| outcome(p, s) == MatchOutcome::Decided(true)
}

/// Every slice of `items` can be matched against `p`.
pub open spec fn supported_on<T: PartialEq>(p: Pattern<T>, items: Seq<T>) -> bool {
    forall|i: int, j: int|
        0 <= i <= j <= items.len() ==> #[trigger] outcome(p, items.subrange(i, j))
            != MatchOutcome::Unsupported
}

/// Whether matching `p` is decided on every slice of `items`.
pub open spec fn decided_on<T: PartialEq>(p: Pattern<T>, items: Seq<T>) -> bool {
    forall|i: int, j: int|
        0 <= i <= j <= items.len() ==> #[trigger] outcome(p, items.subrange(i, j)) is Decided
}

/// A reported match: a slice of `items` at its range, which `p` does not
/// decidedly fail to match.
pub open spec fn plausible_match<T: PartialEq>(p: Pattern<T>, items: Seq<T>, m: (int, int, Seq<T>)) -> bool {
    &&& 0 <= m.0 <= m.1 <= items.len()
    &&& m.2 == items.subrange(m.0, m.1)
    &&& outcome(p, m.2) != MatchOutcome::Decided(false)
}

impl<T: PartialEq + 'static> Pattern<T> {
    /// Each slice of `collection` that matches the pattern, ordered by start and
    /// then by end.
    pub fn matches<'collection>(&self, collection: &'collection [T]) -> (r: Vec<
        PatternMatch<'collection, T>,
    >)
        requires
            supported_on(*self, collection@),
        ensures
            decided_on(*self, collection@) ==> match_views(r@) == span_matches(
                collection@,
                decidedly_matching(*self),
                collection@.len() + 1int,
            ),
            forall|k: int|
                0 <= k < r@.len() ==> plausible_match(*self, collection@, #[trigger] r@[k]@),
    {
        let ghost keep = decidedly_matching(*self);
        let ghost items = collection@;
        let len = collection.len();
        let mut matches: Vec<PatternMatch<'collection, T>> = Vec::new();
        let mut i: usize = 0;
        loop
            invariant_except_break
                len == items.len(),
                items == collection@,
                i <= len,
                keep == decidedly_matching(*self),
                supported_on(*self, items),
                decided_on(*self, items) ==> match_views(matches@) == span_matches(
                    items,
                    keep,
                    i as int,
                ),
                forall|k: int|
                    0 <= k < matches@.len() ==> plausible_match(*self, items, #[trigger] matches@[k]@),
            ensures
                decided_on(*self, items) ==> match_views(matches@) == span_matches(
                    items,
                    keep,
                    items.len() + 1int,
                ),
                forall|k: int|
                    0 <= k < matches@.len() ==> plausible_match(*self, items, #[trigger] matches@[k]@),
            decreases len - i,
        {
            let ghost before = match_views(matches@);
            let mut j: usize = i;
            assert(spans_from(items, keep, i as int, j as int) =~= Seq::empty());
            loop
                invariant_except_break
                    len == items.len(),
                    items == collection@,
                    i <= j <= len,
                    keep == decidedly_matching(*self),
                    supported_on(*self, items),
                    decided_on(*self, items) ==> match_views(matches@) == before + spans_from(
                        items,
                        keep,
                        i as int,
                        j as int,
                    ),
                    forall|k: int|
                        0 <= k < matches@.len() ==> plausible_match(*self, items, #[trigger] matches@[k]@),
                ensures
                    decided_on(*self, items) ==> match_views(matches@) == before + spans_from(
                        items,
                        keep,
                        i as int,
                        len + 1int,
                    ),
                    forall|k: int|
                        0 <= k < matches@.len() ==> plausible_match(*self, items, #[trigger] matches@[k]@),
                decreases len - j,
            {
                let slice = slice_subrange(collection, i, j);
                assert(outcome(*self, items.subrange(i as int, j as int)) != MatchOutcome::Unsupported);
                if self.is_match(slice) {
                    let m = PatternMatch::new(Range { start: i, end: j }, slice);
                    proof {
                        lemma_views_push(matches@, m);
                        assert(before + spans_from(items, keep, i as int, j as int).push(m@) =~= (before
                            + spans_from(items, keep, i as int, j as int)).push(m@));
                        if decided_on(*self, items) {
                            assert(outcome(*self, items.subrange(i as int, j as int)) is Decided);
                        }
                    }
                    matches.push(m);
                    assert(matches@[matches@.len() - 1] == m);
                } else {
                    proof {
                        if decided_on(*self, items) {
                            assert(outcome(*self, items.subrange(i as int, j as int)) is Decided);
                        }
                    }
                }
                if j == len {
                    break;
                }
                j = j + 1;
            }
            if i == len {
                break;
            }
            i = i + 1;
        }
        matches
    }
}

/// Law: a terminal symbol matched once never matches a slice that is not a
/// single item, negative search or not.
pub proof fn lemma_terminal_one_single_item<T: PartialEq>(t: PatternTerminal<T>, negative: bool, s: Seq<T>)
    requires
        s.len() != 1,
    ensures
        terminal_one(t, negative, s) == MatchOutcome::Decided(false),
{
}

/// Law: on a single item, a negative search matches exactly where the
/// positive search does not.
pub proof fn lemma_negation_flips<T: PartialEq>(t: PatternTerminal<T>, s: Seq<T>)
    requires
        s.len() == 1,
    ensures
        terminal_one(t, false, s) matches MatchOutcome::Decided(b) ==> terminal_one(t, true, s)
            == MatchOutcome::Decided(!b),
        terminal_one(t, false, s) == MatchOutcome::Undetermined <==> terminal_one(t, true, s)
            == MatchOutcome::Undetermined,
{
}

/// The runs of one item each, from `i` on, positive or negative: they all
/// match exactly where every item from `i` on passes the symbol.
proof fn lemma_single_item_runs<T: PartialEq>(t: PatternTerminal<T>, negative: bool, s: Seq<T>, i: int)
    requires
        0 <= i <= s.len(),
        forall|j: int| 0 <= j < s.len() ==> #[trigger] terminal_test(t, s[j]) is Some,
    ensures
        terminal_runs(t, negative, s, s.len() as int, 1, i) == MatchOutcome::Decided(
            forall|j: int| i <= j < s.len() ==> #[trigger] terminal_test(t, s[j]) == Some(true),
        ),
    decreases s.len() - i,
{
    if i < s.len() {
        lemma_single_item_runs(t, negative, s, i + 1);
        let item = s.subrange(i * 1, (i + 1) * 1);
        assert(item.len() == 1);
        assert(item[0] == s[i]);
        assert(terminal_test(t, s[i]) is Some);
        if terminal_test(t, s[i]) == Some(true) {
            assert forall|j: int| i <= j < s.len() && #[trigger] terminal_test(t, s[j]) == Some(
                true,
            ) implies (j == i || i + 1 <= j) by {}
        }
    }
}

/// Runs of no item at all, from `i` on: a positive search fails at the first
/// of them, and a negative search passes them all.
proof fn lemma_empty_runs<T: PartialEq>(t: PatternTerminal<T>, negative: bool, s: Seq<T>, n: int, i: int)
    requires
        i <= n,
    ensures
        terminal_runs(t, negative, s, n, 0, i) == MatchOutcome::Decided(negative || i >= n),
    decreases n - i,
{
    if i < n {
        lemma_empty_runs(t, negative, s, n, i + 1);
        assert(s.subrange(i * 0, (i + 1) * 0).len() == 0);
    }
}

/// Law: a terminal symbol under `ExactCount(n)` matches exactly the slices of
/// `n` items each of which passes the symbol. A negative search matches
/// exactly the slices of one to `n - 1` items: on `n` items it is refused
/// where all of them pass, and stops at the first that fails.
pub proof fn lemma_exact_count_item_by_item<T: PartialEq>(
    t: PatternTerminal<T>,
    n: usize,
    s: Seq<T>,
)
    requires
        forall|j: int| 0 <= j < s.len() ==> #[trigger] terminal_test(t, s[j]) is Some,
    ensures
        terminal_outcome(t, Quantifier::ExactCount(n), false, s) == MatchOutcome::Decided(
            1 <= s.len() == n && forall|j: int|
                0 <= j < s.len() ==> #[trigger] terminal_test(t, s[j]) == Some(true),
        ),
        terminal_outcome(t, Quantifier::ExactCount(n), true, s) == MatchOutcome::Decided(
            1 <= s.len() < n,
        ),
{
    if 1 <= s.len() <= n {
        lemma_run_bounds(s.len() as int, n as int, 0);
        if s.len() == n {
            lemma_single_item_runs(t, false, s, 0);
            lemma_single_item_runs(t, true, s, 0);
        } else {
            lemma_empty_runs(t, false, s, n as int, 0);
            lemma_empty_runs(t, true, s, n as int, 0);
        }
    }
}

/// Law: a negative search never matches where the positive search with the
/// same terminal symbol and quantifier matches.
pub proof fn lemma_negative_excludes_positive<T: PartialEq>(
    t: PatternTerminal<T>,
    quantifier: Quantifier,
    s: Seq<T>,
)
    requires
        terminal_outcome(t, quantifier, false, s) == MatchOutcome::Decided(true),
    ensures
        terminal_outcome(t, quantifier, true, s) == MatchOutcome::Decided(false),
{
    if let Quantifier::ExactCount(n) = quantifier {
        lemma_run_bounds(s.len() as int, n as int, 0);
        let run = (s.len() as int) / (n as int);
        lemma_positive_runs_known(t, s, n as int, run, 0);
        lemma_runs_decided(t, true, s, n as int, run, 0);
    }
}

/// Where the positive runs from `i` on all match, each of them is one item
/// whose test is known.
proof fn lemma_positive_runs_known<T: PartialEq>(t: PatternTerminal<T>, s: Seq<T>, n: int, run: int, i: int)
    requires
        0 <= i,
        run == 0 || run == 1,
        run == 1 ==> n <= s.len(),
        terminal_runs(t, false, s, n, run, i) == MatchOutcome::Decided(true),
    ensures
        i < n ==> run == 1,
        forall|j: int| i <= j < n ==> #[trigger] terminal_test(t, s[j]) is Some,
    decreases n - i,
{
    if i < n {
        let item = s.subrange(i * run, (i + 1) * run);
        if run == 1 {
            assert(item[0] == s[i]);
        }
        lemma_positive_runs_known(t, s, n, run, i + 1);
        assert forall|j: int| i <= j < n implies #[trigger] terminal_test(t, s[j]) is Some by {
            if j > i {
            }
        }
    }
}

/// Where each item's test is known, or the runs are empty, every run is
/// decided, and so are the runs together.
proof fn lemma_runs_decided<T: PartialEq>(
    t: PatternTerminal<T>,
    negative: bool,
    s: Seq<T>,
    n: int,
    run: int,
    i: int,
)
    requires
        0 <= run,
        0 <= i,
        run == 0 || run == 1,
        run == 1 ==> n <= s.len(),
        run == 1 ==> forall|j: int| 0 <= j < s.len() ==> #[trigger] terminal_test(t, s[j]) is Some,
    ensures
        terminal_runs(t, negative, s, n, run, i) is Decided,
    decreases n - i,
{
    if i < n {
        lemma_runs_decided(t, negative, s, n, run, i + 1);
        if run == 1 {
            assert(s.subrange(i * 1, (i + 1) * 1)[0] == s[i]);
            assert(terminal_test(t, s[i]) is Some);
        } else {
            assert(s.subrange(i * 0, (i + 1) * 0).len() == 0);
        }
    }
}

/// Law: a group matched once matches item by item: the slice has at most one
/// item per child, and each item matches its child (or, for a negative
/// search, fails to match it). This holds where the matching of each item
/// against its child is decided.
pub proof fn lemma_group_item_by_item<T: PartialEq>(p: Pattern<T>, s: Seq<T>)
    requires
        p.spec_symbol() is Group,
        p.spec_quantifier() == Quantifier::One,
        forall|k: int|
            0 <= k < s.len() && k < group_children(p).len() ==> #[trigger] outcome(
                *group_children(p)[k],
                s.subrange(k, k + 1),
            ) is Decided,
    ensures
        outcome(p, s) == MatchOutcome::Decided(
            s.len() <= group_children(p).len() && forall|k: int|
                0 <= k < s.len() ==> #[trigger] outcome(*group_children(p)[k], s.subrange(k, k + 1))
                    == MatchOutcome::Decided(!p.spec_is_negative()),
        ),
{
    lemma_group_items_item_by_item(p, s, 0);
}

proof fn lemma_group_items_item_by_item<T: PartialEq>(p: Pattern<T>, s: Seq<T>, i: int)
    requires
        0 <= i <= s.len(),
        i <= group_children(p).len(),
        forall|k: int|
            0 <= k < s.len() && k < group_children(p).len() ==> #[trigger] outcome(
                *group_children(p)[k],
                s.subrange(k, k + 1),
            ) is Decided,
    ensures
        group_items(p, s, i) == MatchOutcome::Decided(
            s.len() <= group_children(p).len() && forall|k: int|
                i <= k < s.len() ==> #[trigger] outcome(*group_children(p)[k], s.subrange(k, k + 1))
                    == MatchOutcome::Decided(!p.spec_is_negative()),
        ),
    decreases s.len() - i,
{
    if i < s.len() && i < group_children(p).len() {
        lemma_group_items_item_by_item(p, s, i + 1);
        assert(outcome(*group_children(p)[i], s.subrange(i, i + 1)) is Decided);
        if outcome(child_at(p, i), s.subrange(i, i + 1)) == MatchOutcome::Decided(
            !p.spec_is_negative(),
        ) {
            assert forall|k: int| i <= k < s.len() && #[trigger] outcome(
                *group_children(p)[k],
                s.subrange(k, k + 1),
            ) == MatchOutcome::Decided(!p.spec_is_negative()) implies (k == i || i + 1 <= k) by {}
        }
    }
}

/// The matcher handles `p` and every pattern below it: a terminal symbol under
/// `One` or `ExactCount`, or a group under `One` whose children it handles.
pub open spec fn matcher_handles<T>(p: Pattern<T>) -> bool
    decreases p, group_children(p).len() + 1,
{
    match p.spec_symbol() {
        PatternSymbol::Terminal(_) => p.spec_quantifier() is One || p.spec_quantifier() is ExactCount,
        PatternSymbol::Group(_) => p.spec_quantifier() == Quantifier::One && children_handled(p, 0),
    }
}

/// The matcher handles the children of the group of `p` from position `k` on.
pub open spec fn children_handled<T>(p: Pattern<T>, k: int) -> bool
    decreases p, group_children(p).len() - k,
{
    if k < 0 || k >= group_children(p).len() {
        true
    } else {
        proof {
            lemma_child_decreases(p, k);
        }
        matcher_handles(*group_children(p)[k]) && children_handled(p, k + 1)
    }
}

proof fn lemma_runs_supported<T: PartialEq>(
    t: PatternTerminal<T>,
    negative: bool,
    s: Seq<T>,
    n: int,
    run: int,
    i: int,
)
    ensures
        terminal_runs(t, negative, s, n, run, i) != MatchOutcome::Unsupported,
    decreases n - i,
{
    if i < n {
        lemma_runs_supported(t, negative, s, n, run, i + 1);
    }
}

/// Law: matching a pattern that the matcher handles is never left
/// unimplemented, whatever the slice.
pub proof fn lemma_handled_outcome<T: PartialEq>(p: Pattern<T>, s: Seq<T>)
    requires
        matcher_handles(p),
    ensures
        outcome(p, s) != MatchOutcome::Unsupported,
    decreases p, s.len() + 1,
{
    match p.spec_symbol() {
        PatternSymbol::Terminal(t) => {
            if let Quantifier::ExactCount(n) = p.spec_quantifier() {
                let run = (s.len() as int) / (n as int);
                lemma_runs_supported(shared_value(t), p.spec_is_negative(), s, n as int, run, 0);
                lemma_runs_supported(shared_value(t), false, s, n as int, run, 0);
            }
        },
        PatternSymbol::Group(_) => {
            lemma_handled_items(p, s, 0);
        },
    }
}

proof fn lemma_handled_items<T: PartialEq>(p: Pattern<T>, s: Seq<T>, k: int)
    requires
        0 <= k,
        children_handled(p, k),
    ensures
        group_items(p, s, k) != MatchOutcome::Unsupported,
    decreases p, s.len() - k,
{
    if k < s.len() && k < group_children(p).len() {
        lemma_child_decreases(p, k);
        lemma_handled_outcome(child_at(p, k), s.subrange(k, k + 1));
        lemma_handled_items(p, s, k + 1);
    }
}

/// Law: a pattern that the matcher handles can be matched against every
/// slice of any collection.
pub proof fn lemma_handled_supported_on<T: PartialEq>(p: Pattern<T>, items: Seq<T>)
    requires
        matcher_handles(p),
    ensures
        supported_on(p, items),
{
    assert forall|i: int, j: int| 0 <= i <= j <= items.len() implies #[trigger] outcome(
        p,
        items.subrange(i, j),
    ) != MatchOutcome::Unsupported by {
        lemma_handled_outcome(p, items.subrange(i, j));
    }
}

/// Going down through first children from `p`, one reaches a terminal: no
/// group on the way is empty.
pub open spec fn leads_to_terminal<T>(p: Pattern<T>) -> bool
    decreases p,
{
    match p.spec_symbol() {
        PatternSymbol::Terminal(_) => true,
        PatternSymbol::Group(_) => if group_children(p).len() == 0 {
            false
        } else {
            proof {
                lemma_child_decreases(p, 0);
            }
            leads_to_terminal(*group_children(p)[0])
        },
    }
}

proof fn lemma_walk_reaches<T>(w: GroupWalk<T>) -> (fuel: nat)
    requires
        w.index < w.group.spec_children().len(),
        leads_to_terminal(*w.group.spec_children()[w.index as int]),
    ensures
        walk(w, fuel) is Some,
    decreases *w.group.spec_children()[w.index as int],
{
    let child = w.group.spec_children()[w.index as int];
    match child.spec_symbol() {
        PatternSymbol::Group(sub) => {
            let next = GroupWalk { index: 0, group: sub, stack: w.stack.push((w.index, w.group)) };
            assert(group_children(*child) == sub.spec_children());
            lemma_child_decreases(shared_value(child), 0);
            let f = lemma_walk_reaches(next);
            f + 1
        },
        PatternSymbol::Terminal(_) => 1,
    }
}

/// Law: the walk from `w` ends or yields after finitely many moves where it
/// stands on a child from which going down through first children reaches a
/// terminal (so where no group below the walk is empty), or past the last
/// child of the outermost group.
pub proof fn lemma_walk_finishes<T>(w: GroupWalk<T>)
    requires
        w.index >= w.group.spec_children().len() ==> w.stack.len() == 0,
        w.index < w.group.spec_children().len() ==> leads_to_terminal(
            *w.group.spec_children()[w.index as int],
        ),
    ensures
        walk_finishes(w),
{
    if w.index >= w.group.spec_children().len() {
        assert(walk(w, 1) is Some);
    } else {
        let fuel = lemma_walk_reaches(w);
        assert(walk(w, fuel) is Some);
    }
}

/// Law: a terminal symbol matched once against a single item: a static
/// symbol matches an item equal to its value, a dynamic one an item that
/// passes its test; a negative search matches exactly where these fail.
pub proof fn lemma_terminal_one_by_item<T: PartialEq>(t: PatternTerminal<T>, negative: bool, s: Seq<T>)
    requires
        s.len() == 1,
    ensures
        T::obeys_eq_spec() ==> (t matches PatternTerminal::Static(v) ==> terminal_outcome(
            t,
            Quantifier::One,
            negative,
            s,
        ) == MatchOutcome::Decided(s[0].eq_spec(&v) != negative)),
        t matches PatternTerminal::Dyn(f) ==> terminal_outcome(t, Quantifier::One, negative, s)
            == MatchOutcome::Decided(f.spec_test(s[0]) != negative),
{
}

/// Law: where matching is decided on every slice, `Pattern::matches` reports
/// the slice `items[i..j]` exactly where the pattern matches it.
pub proof fn lemma_pattern_matches_selects<T: PartialEq>(p: Pattern<T>, items: Seq<T>, i: int, j: int)
    requires
        0 <= i <= j <= items.len(),
    ensures
        span_matches(items, decidedly_matching(p), items.len() + 1int).contains(
            crate::quantify::span(items, i, j),
        ) == (outcome(p, items.subrange(i, j)) == MatchOutcome::Decided(true)),
{
    crate::quantify::lemma_span_matches_contains(
        items,
        decidedly_matching(p),
        items.len() + 1int,
        i,
        j,
    );
}

} // verus!
