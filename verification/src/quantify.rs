use std::ops::Range;
use std::rc::Rc;
use vstd::prelude::*;
use vstd::slice::slice_subrange;
use vstd::std_specs::cmp::PartialEqSpec;

use crate::pattern::PatternMatch;
use crate::quantifier::Quantifier;

verus! {

/// A node of a chain of pattern items: an optional value and an optional
/// shared link to the next node.
pub struct PatternNode<T> {
    value: Option<T>,
    children: Option<Rc<PatternNode<T>>>,
}

impl<T> PatternNode<T> {
    /// The node's value.
    pub closed spec fn spec_value(&self) -> Option<T> {
        self.value
    }

    /// The node's link to the next node.
    pub closed spec fn spec_children(&self) -> Option<Rc<PatternNode<T>>> {
        self.children
    }

    pub fn new(value: Option<T>, children: Option<Rc<PatternNode<T>>>) -> (r: PatternNode<T>)
        ensures
            r.spec_value() == value,
            r.spec_children() == children,
    {
        PatternNode { value, children }
    }

    /// The node's value.
    pub fn value(&self) -> (r: &Option<T>)
        ensures
            *r == self.spec_value(),
    {
        &self.value
    }

    /// The node's link to the next node.
    pub fn children(&self) -> (r: &Option<Rc<PatternNode<T>>>)
        ensures
            *r == self.spec_children(),
    {
        &self.children
    }
}

/// `pattern` and `slice` have the same length and agree item by item, by the
/// items' own equality.
pub open spec fn elements_match<T: PartialEq>(pattern: Seq<T>, slice: Seq<T>) -> bool {
    &&& pattern.len() == slice.len()
    &&& forall|i: int| 0 <= i < slice.len() ==> #[trigger] pattern[i].eq_spec(&slice[i])
}

/// The `k`-th run of `len` items of `slice`.
pub open spec fn chunk<T>(slice: Seq<T>, len: int, k: int) -> Seq<T> {
    slice.subrange(k * len, (k + 1) * len)
}

/// `slice` is `count` runs of items, each of which matches `pattern`.
pub open spec fn repeats<T: PartialEq>(pattern: Seq<T>, slice: Seq<T>, count: nat) -> bool {
    &&& slice.len() == count * pattern.len()
    &&& forall|k: int|
        0 <= k < count ==> #[trigger] elements_match(pattern, chunk(slice, pattern.len() as int, k))
}

/// Whether `slice` matches `pattern` repeated as `quantifier` says: once for
/// `One`; `n` times in a row for `ExactCount(n)`; once or not at all (the
/// empty slice) for `ZeroOrOne`; any number of times for `ZeroOrMore`; at least
/// once for `OneOrMore`; a number of times within the range (`start` included,
/// `end` excluded) for `Range`. `Invalid` and `Not` match nothing.
pub open spec fn spec_try_match<T: PartialEq>(
    pattern: Seq<T>,
    quantifier: Quantifier,
    slice: Seq<T>,
) -> bool {
    match quantifier {
        Quantifier::One => elements_match(pattern, slice),
        Quantifier::ExactCount(n) => repeats(pattern, slice, n as nat),
        Quantifier::ZeroOrOne => slice.len() == 0 || elements_match(pattern, slice),
        Quantifier::ZeroOrMore => exists|count: nat| #[trigger] repeats(pattern, slice, count),
        Quantifier::OneOrMore => exists|count: nat| count >= 1 && #[trigger] repeats(pattern, slice, count),
        Quantifier::Range(range) => exists|count: nat|
            range.start <= count < range.end && #[trigger] repeats(pattern, slice, count),
        _ => false,
    }
}

/// Matching a slice against a pattern only divides by the pattern's length for
/// `ExactCount`, which needs a pattern of at least one item.
pub open spec fn matchable<T>(pattern: Seq<T>, quantifier: Quantifier) -> bool {
    quantifier matches Quantifier::ExactCount(_) ==> pattern.len() > 0
}

/// Item-by-item comparison of a pattern and a slice of the same length.
fn elements_equal<T: PartialEq>(pattern: &[T], slice: &[T]) -> (r: bool)
    ensures
        T::obeys_eq_spec() ==> r == elements_match(pattern@, slice@),
{
    if pattern.len() != slice.len() {
        return false;
    }
    let mut i: usize = 0;
    while i < slice.len()
        invariant
            pattern@.len() == slice@.len(),
            i <= slice@.len(),
            T::obeys_eq_spec() ==> forall|k: int| 0 <= k < i ==> #[trigger] pattern@[k].eq_spec(
                &slice@[k],
            ),
        decreases slice@.len() - i,
    {
        if pattern[i] != slice[i] {
            return false;
        }
        i = i + 1;
    }
    true
}

proof fn lemma_exact_len(len: int, p: int, n: int)
    requires
        len >= 0,
        p > 0,
        n >= 0,
    ensures
        (len % p == 0 && len / p == n) <==> len == n * p,
{
    vstd::arithmetic::div_mod::lemma_fundamental_div_mod(len, p);
    assert(p * n == n * p) by (nonlinear_arith);
    if len % p == 0 && len / p == n {
        assert(len == p * n);
    }
    if len == n * p {
        vstd::arithmetic::div_mod::lemma_mod_multiples_basic(n, p);
        vstd::arithmetic::div_mod::lemma_div_multiples_vanish(n, p);
    }
}

proof fn lemma_chunk_bounds(i: int, p: int, n: int)
    requires
        0 <= i < n,
        p > 0,
    ensures
        0 <= i * p,
        (i + 1) * p == i * p + p,
        (i + 1) * p <= n * p,
{
    assert(0 <= i * p) by (nonlinear_arith)
        requires
            0 <= i,
            p > 0,
    ;
    assert((i + 1) * p == i * p + p) by (nonlinear_arith);
    assert((i + 1) * p <= n * p) by (nonlinear_arith)
        requires
            i + 1 <= n,
            p > 0,
    ;
}

/// Whether `slice` is `n` runs of items that each match `pattern`.
fn exact_count_match<T: PartialEq>(pattern: &[T], n: usize, slice: &[T]) -> (r: bool)
    requires
        pattern@.len() > 0,
    ensures
        T::obeys_eq_spec() ==> r == repeats(pattern@, slice@, n as nat),
{
    let slice_len = slice.len();
    let pattern_len = pattern.len();
    proof {
        lemma_exact_len(slice_len as int, pattern_len as int, n as int);
    }
    if slice_len % pattern_len != 0 || slice_len / pattern_len != n {
        return false;
    }
    let mut i: usize = 0;
    while i < n
        invariant
            pattern_len == pattern@.len() > 0,
            slice_len == slice@.len(),
            slice_len == n * pattern_len,
            i <= n,
            T::obeys_eq_spec() ==> forall|k: int|
                0 <= k < i ==> #[trigger] elements_match(
                    pattern@,
                    chunk(slice@, pattern_len as int, k),
                ),
        decreases n - i,
    {
        proof {
            lemma_chunk_bounds(i as int, pattern_len as int, n as int);
        }
        let start = i * pattern_len;
        let end = start + pattern_len;
        let sub_slice = slice_subrange(slice, start, end);
        assert(sub_slice@ == chunk(slice@, pattern_len as int, i as int));
        if !elements_equal(pattern, sub_slice) {
            return false;
        }
        i = i + 1;
    }
    true
}

/// With a pattern of at least one item, a slice repeats it only as many times
/// as the pattern's length goes into the slice's length.
proof fn lemma_repeats_count<T: PartialEq>(pattern: Seq<T>, slice: Seq<T>, count: nat)
    requires
        pattern.len() > 0,
        repeats(pattern, slice, count),
    ensures
        slice.len() % pattern.len() == 0,
        slice.len() / pattern.len() == count,
{
    lemma_exact_len(slice.len() as int, pattern.len() as int, count as int);
}

/// With an empty pattern, exactly the empty slice repeats it, as many times as
/// one likes.
proof fn lemma_repeats_empty_pattern<T: PartialEq>(pattern: Seq<T>, slice: Seq<T>, count: nat)
    requires
        pattern.len() == 0,
    ensures
        repeats(pattern, slice, count) == (slice.len() == 0),
{
    assert(count * pattern.len() == 0) by (nonlinear_arith)
        requires
            pattern.len() == 0,
    ;
    if slice.len() == 0 {
        assert forall|k: int| 0 <= k < count implies #[trigger] elements_match(
            pattern,
            chunk(slice, pattern.len() as int, k),
        ) by {
            assert(k * 0 == 0);
            assert((k + 1) * 0 == 0);
            assert(chunk(slice, 0, k) =~= Seq::<T>::empty());
        }
    }
}

/// Whether `slice` repeats `pattern` a number of times that `quantifier`
/// (`ZeroOrMore`, `OneOrMore` or `Range`) allows.
fn repetition_match<T: PartialEq>(pattern: &[T], quantifier: &Quantifier, slice: &[T]) -> (r: bool)
    requires
        quantifier matches Quantifier::ZeroOrMore || quantifier matches Quantifier::OneOrMore
            || quantifier matches Quantifier::Range(_),
    ensures
        T::obeys_eq_spec() ==> r == spec_try_match(pattern@, *quantifier, slice@),
{
    let pattern_len = pattern.len();
    let slice_len = slice.len();
    if pattern_len == 0 {
        proof {
            assert forall|count: nat| #[trigger] repeats(pattern@, slice@, count) == (slice_len == 0) by {
                lemma_repeats_empty_pattern(pattern@, slice@, count);
            }
        }
        if slice_len != 0 {
            return false;
        }
        return match quantifier {
            Quantifier::Range(range) => {
                if range.start < range.end {
                    assert(repeats(pattern@, slice@, range.start as nat));
                    true
                } else {
                    false
                }
            },
            _ => {
                assert(repeats(pattern@, slice@, 1));
                true
            },
        };
    }
    proof {
        assert forall|count: nat| #[trigger] repeats(pattern@, slice@, count) implies slice_len
            % pattern_len == 0 && slice_len / pattern_len == count by {
            lemma_repeats_count(pattern@, slice@, count);
        }
    }
    if slice_len % pattern_len != 0 {
        return false;
    }
    let count = slice_len / pattern_len;
    let allowed = match quantifier {
        Quantifier::Range(range) => range.start <= count && count < range.end,
        Quantifier::OneOrMore => count >= 1,
        _ => true,
    };
    if !allowed {
        return false;
    }
    exact_count_match(pattern, count, slice)
}

/// Whether `slice` matches `pattern` repeated as `quantifier` says.
fn match_quantified<T: PartialEq>(pattern: &[T], quantifier: &Quantifier, slice: &[T]) -> (r: bool)
    requires
        matchable(pattern@, *quantifier),
    ensures
        T::obeys_eq_spec() ==> r == spec_try_match(pattern@, *quantifier, slice@),
{
    match quantifier {
        Quantifier::One => elements_equal(pattern, slice),
        Quantifier::ExactCount(n) => exact_count_match(pattern, *n, slice),
        Quantifier::ZeroOrOne => {
            if slice.len() < 1 {
                return true;
            }
            elements_equal(pattern, slice)
        },
        Quantifier::ZeroOrMore | Quantifier::OneOrMore | Quantifier::Range(_) => repetition_match(
            pattern,
            quantifier,
            slice,
        ),
        Quantifier::Invalid | Quantifier::Not => false,
    }
}

/// The view of a match of `items[start..end]`.
pub open spec fn span<T>(items: Seq<T>, start: int, end: int) -> (int, int, Seq<T>) {
    (start, end, items.subrange(start, end))
}

/// The views of a sequence of matches.
pub open spec fn match_views<'a, T>(ms: Seq<PatternMatch<'a, T>>) -> Seq<(int, int, Seq<T>)> {
    ms.map_values(|m: PatternMatch<'a, T>| m@)
}

/// The suffixes `items[i..]`, for `i` from `0` up to (not including) `upto`
/// in increasing order, that `keep` selects.
pub open spec fn suffix_matches<T>(items: Seq<T>, keep: spec_fn(Seq<T>) -> bool, upto: int) -> Seq<
    (int, int, Seq<T>),
>
    decreases upto,
{
    if upto <= 0 {
        Seq::empty()
    } else {
        let prev = suffix_matches(items, keep, upto - 1);
        if keep(items.subrange(upto - 1, items.len() as int)) {
            prev.push(span(items, upto - 1, items.len() as int))
        } else {
            prev
        }
    }
}

/// The slices `items[i..j]`, for `j` from `i` up to (not including) `upto`
/// in increasing order, that `keep` selects.
pub open spec fn spans_from<T>(
    items: Seq<T>,
    keep: spec_fn(Seq<T>) -> bool,
    i: int,
    upto: int,
) -> Seq<(int, int, Seq<T>)>
    decreases upto - i,
{
    if upto <= i {
        Seq::empty()
    } else {
        let prev = spans_from(items, keep, i, upto - 1);
        if keep(items.subrange(i, upto - 1)) {
            prev.push(span(items, i, upto - 1))
        } else {
            prev
        }
    }
}

/// The slices `items[i..j]` with `0 <= i < upto` and `i <= j <= items.len()`,
/// ordered by `i` and then by `j`, that `keep` selects.
pub open spec fn span_matches<T>(items: Seq<T>, keep: spec_fn(Seq<T>) -> bool, upto: int) -> Seq<
    (int, int, Seq<T>),
>
    decreases upto,
{
    if upto <= 0 {
        Seq::empty()
    } else {
        span_matches(items, keep, upto - 1) + spans_from(items, keep, upto - 1, items.len() + 1int)
    }
}

/// The items of each pattern.
pub open spec fn pattern_views<T>(patterns: Seq<&[T]>) -> Seq<Seq<T>> {
    patterns.map_values(|p: &[T]| p@)
}

/// Every pattern can be matched with `quantifier`.
pub open spec fn all_matchable<T>(patterns: Seq<Seq<T>>, quantifier: Quantifier) -> bool {
    forall|k: int| 0 <= k < patterns.len() ==> matchable(#[trigger] patterns[k], quantifier)
}

/// Going through `patterns` in order on `slice`, and stopping at the first
/// whose match comes out `stop_on`, one stops before any pattern that cannot
/// be matched with `quantifier`.
pub open spec fn stops_before_unmatchable<T: PartialEq>(
    patterns: Seq<Seq<T>>,
    quantifier: Quantifier,
    slice: Seq<T>,
    stop_on: bool,
) -> bool {
    forall|k: int|
        0 <= k < patterns.len() && !matchable(#[trigger] patterns[k], quantifier) ==> exists|j: int|
            0 <= j < k && spec_try_match(#[trigger] patterns[j], quantifier, slice) == stop_on
}

/// Matching `patterns` against `slice`, stopping at the first match that comes
/// out `stop_on`, never reaches a pattern that cannot be matched: no pattern
/// is such, or else the items' equality follows its specification and the
/// stop comes first.
pub open spec fn safe_on<T: PartialEq>(
    patterns: Seq<Seq<T>>,
    quantifier: Quantifier,
    slice: Seq<T>,
    stop_on: bool,
) -> bool {
    ||| all_matchable(patterns, quantifier)
    ||| T::obeys_eq_spec() && stops_before_unmatchable(patterns, quantifier, slice, stop_on)
}

/// `safe_on` holds for every suffix of `items`.
pub open spec fn safe_on_suffixes<T: PartialEq>(
    items: Seq<T>,
    patterns: Seq<Seq<T>>,
    quantifier: Quantifier,
    stop_on: bool,
) -> bool {
    forall|i: int|
        0 <= i < items.len() ==> #[trigger] safe_on(
            patterns,
            quantifier,
            items.subrange(i, items.len() as int),
            stop_on,
        )
}

/// Selects the slices that match `pattern` under `quantifier`.
pub open spec fn matching<T: PartialEq>(pattern: Seq<T>, quantifier: Quantifier) -> spec_fn(
    Seq<T>,
) -> bool {
    |s: Seq<T>| spec_try_match(pattern, quantifier, s)
}

/// Selects the slices that do not match `pattern` under `quantifier`.
pub open spec fn not_matching<T: PartialEq>(pattern: Seq<T>, quantifier: Quantifier) -> spec_fn(
    Seq<T>,
) -> bool {
    |s: Seq<T>| !spec_try_match(pattern, quantifier, s)
}

/// Selects the slices that match every one of `patterns`.
pub open spec fn matching_all<T: PartialEq>(patterns: Seq<Seq<T>>, quantifier: Quantifier) -> spec_fn(
    Seq<T>,
) -> bool {
    |s: Seq<T>| forall|k: int| 0 <= k < patterns.len() ==> spec_try_match(#[trigger] patterns[k], quantifier, s)
}

/// Selects the slices that match at least one of `patterns`.
pub open spec fn matching_any<T: PartialEq>(patterns: Seq<Seq<T>>, quantifier: Quantifier) -> spec_fn(
    Seq<T>,
) -> bool {
    |s: Seq<T>| exists|k: int| 0 <= k < patterns.len() && spec_try_match(#[trigger] patterns[k], quantifier, s)
}

/// Selects the slices that fail to match at least one of `patterns`.
pub open spec fn failing_any<T: PartialEq>(patterns: Seq<Seq<T>>, quantifier: Quantifier) -> spec_fn(
    Seq<T>,
) -> bool {
    |s: Seq<T>| exists|k: int| 0 <= k < patterns.len() && !spec_try_match(#[trigger] patterns[k], quantifier, s)
}

/// Selects the slices that match none of `patterns`.
pub open spec fn matching_none<T: PartialEq>(patterns: Seq<Seq<T>>, quantifier: Quantifier) -> spec_fn(
    Seq<T>,
) -> bool {
    |s: Seq<T>| forall|k: int| 0 <= k < patterns.len() ==> !spec_try_match(#[trigger] patterns[k], quantifier, s)
}

pub(crate) proof fn lemma_views_push<'a, T>(ms: Seq<PatternMatch<'a, T>>, m: PatternMatch<'a, T>)
    ensures
        match_views(ms.push(m)) == match_views(ms).push(m@),
{
    assert(match_views(ms.push(m)) =~= match_views(ms).push(m@));
}

/// Whether `slice` matches every one of `patterns`; stops at the first that fails.
fn all_patterns_match<T: PartialEq>(patterns: &Vec<&[T]>, quantifier: &Quantifier, slice: &[T]) -> (r:
    bool)
    requires
        safe_on(pattern_views(patterns@), *quantifier, slice@, false),
    ensures
        T::obeys_eq_spec() ==> r == matching_all(pattern_views(patterns@), *quantifier)(slice@),
{
    let ghost views = pattern_views(patterns@);
    let mut k: usize = 0;
    while k < patterns.len()
        invariant
            k <= patterns@.len(),
            views == pattern_views(patterns@),
            safe_on(views, *quantifier, slice@, false),
            T::obeys_eq_spec() ==> forall|j: int|
                0 <= j < k ==> spec_try_match(#[trigger] views[j], *quantifier, slice@),
        decreases patterns@.len() - k,
    {
        assert(views[k as int] == patterns@[k as int]@);
        assert(matchable(views[k as int], *quantifier));
        if !match_quantified(patterns[k], quantifier, slice) {
            return false;
        }
        k = k + 1;
    }
    true
}

/// Whether `slice` matches at least one of `patterns`; stops at the first that matches.
fn any_pattern_matches<T: PartialEq>(patterns: &Vec<&[T]>, quantifier: &Quantifier, slice: &[T]) -> (r:
    bool)
    requires
        safe_on(pattern_views(patterns@), *quantifier, slice@, true),
    ensures
        T::obeys_eq_spec() ==> r == matching_any(pattern_views(patterns@), *quantifier)(slice@),
{
    let ghost views = pattern_views(patterns@);
    let mut k: usize = 0;
    while k < patterns.len()
        invariant
            k <= patterns@.len(),
            views == pattern_views(patterns@),
            safe_on(views, *quantifier, slice@, true),
            T::obeys_eq_spec() ==> forall|j: int|
                0 <= j < k ==> !spec_try_match(#[trigger] views[j], *quantifier, slice@),
        decreases patterns@.len() - k,
    {
        assert(views[k as int] == patterns@[k as int]@);
        assert(matchable(views[k as int], *quantifier));
        if match_quantified(patterns[k], quantifier, slice) {
            return true;
        }
        k = k + 1;
    }
    false
}

/// The suffixes that `suffixes_selected` keeps: with `every`, those that
/// every pattern matches (`wanted`) or that some pattern fails to match;
/// otherwise those that some pattern matches (`wanted`) or that no pattern
/// matches.
pub open spec fn suffix_selector<T: PartialEq>(
    patterns: Seq<Seq<T>>,
    quantifier: Quantifier,
    every: bool,
    wanted: bool,
) -> spec_fn(Seq<T>) -> bool {
    if every {
        if wanted {
            matching_all(patterns, quantifier)
        } else {
            failing_any(patterns, quantifier)
        }
    } else {
        if wanted {
            matching_any(patterns, quantifier)
        } else {
            matching_none(patterns, quantifier)
        }
    }
}

/// The suffixes of `items` on which matching every one of `patterns` (with
/// `every`; else at least one of them) gives `wanted`.
fn suffixes_selected<'a, T: PartialEq>(
    items: &'a [T],
    patterns: &Vec<&[T]>,
    quantifier: &Quantifier,
    every: bool,
    wanted: bool,
) -> (r: Vec<PatternMatch<'a, T>>)
    requires
        safe_on_suffixes(items@, pattern_views(patterns@), *quantifier, !every),
    ensures
        T::obeys_eq_spec() ==> match_views(r@) == suffix_matches(
            items@,
            suffix_selector(pattern_views(patterns@), *quantifier, every, wanted),
            items@.len() as int,
        ),
{
    let ghost keep = suffix_selector(pattern_views(patterns@), *quantifier, every, wanted);
    let len = items.len();
    let mut matches: Vec<PatternMatch<'a, T>> = Vec::new();
    let mut i: usize = 0;
    while i < len
        invariant
            len == items@.len(),
            i <= len,
            keep == suffix_selector(pattern_views(patterns@), *quantifier, every, wanted),
            safe_on_suffixes(items@, pattern_views(patterns@), *quantifier, !every),
            T::obeys_eq_spec() ==> match_views(matches@) == suffix_matches(items@, keep, i as int),
        decreases len - i,
    {
        let slice = slice_subrange(items, i, len);
        assert(safe_on(pattern_views(patterns@), *quantifier, items@.subrange(i as int, len as int), !every));
        let matched = if every {
            all_patterns_match(patterns, quantifier, slice)
        } else {
            any_pattern_matches(patterns, quantifier, slice)
        };
        if matched == wanted {
            let m = PatternMatch::new(Range { start: i, end: len }, slice);
            proof {
                lemma_views_push(matches@, m);
            }
            matches.push(m);
        }
        i = i + 1;
    }
    matches
}

/// Every slice `items[i..j]`, ordered by `i` and then by `j`, on which
/// matching `pattern` under `quantifier` gives `wanted`.
fn spans_with_outcome<'a, T: PartialEq>(
    items: &'a [T],
    pattern: &[T],
    quantifier: &Quantifier,
    wanted: bool,
) -> (r: Vec<PatternMatch<'a, T>>)
    requires
        matchable(pattern@, *quantifier),
    ensures
        T::obeys_eq_spec() ==> match_views(r@) == span_matches(
            items@,
            if wanted {
                matching(pattern@, *quantifier)
            } else {
                not_matching(pattern@, *quantifier)
            },
            items@.len() + 1int,
        ),
{
    let ghost keep = if wanted {
        matching(pattern@, *quantifier)
    } else {
        not_matching(pattern@, *quantifier)
    };
    let len = items.len();
    let mut matches: Vec<PatternMatch<'a, T>> = Vec::new();
    let mut i: usize = 0;
    loop
        invariant_except_break
            len == items@.len(),
            i <= len,
            matchable(pattern@, *quantifier),
            keep == (if wanted {
                matching(pattern@, *quantifier)
            } else {
                not_matching(pattern@, *quantifier)
            }),
            T::obeys_eq_spec() ==> match_views(matches@) == span_matches(items@, keep, i as int),
        ensures
            T::obeys_eq_spec() ==> match_views(matches@) == span_matches(
                items@,
                keep,
                items@.len() + 1int,
            ),
        decreases len - i,
    {
        let ghost before = match_views(matches@);
        let mut j: usize = i;
        assert(spans_from(items@, keep, i as int, j as int) =~= Seq::empty());
        loop
            invariant_except_break
                len == items@.len(),
                i <= j <= len,
                matchable(pattern@, *quantifier),
                keep == (if wanted {
                    matching(pattern@, *quantifier)
                } else {
                    not_matching(pattern@, *quantifier)
                }),
                T::obeys_eq_spec() ==> match_views(matches@) == before + spans_from(
                    items@,
                    keep,
                    i as int,
                    j as int,
                ),
            ensures
                T::obeys_eq_spec() ==> match_views(matches@) == before + spans_from(
                    items@,
                    keep,
                    i as int,
                    len + 1int,
                ),
            decreases len - j,
        {
            let slice = slice_subrange(items, i, j);
            let matched = match_quantified(pattern, quantifier, slice);
            if matched == wanted {
                let m = PatternMatch::new(Range { start: i, end: j }, slice);
                proof {
                    lemma_views_push(matches@, m);
                    assert(before + spans_from(items@, keep, i as int, j as int).push(m@) =~= (before
                        + spans_from(items@, keep, i as int, j as int)).push(m@));
                }
                matches.push(m);
            }
            if j == len {
                break;
            }
            j = j + 1;
        }
        if i == len {
            break;
        }
        i = i + 1;
    }
    matches
}

proof fn lemma_suffix_count<T>(
    items: Seq<T>,
    keep: spec_fn(Seq<T>) -> bool,
    other: spec_fn(Seq<T>) -> bool,
    upto: int,
)
    requires
        upto >= 0,
        forall|s: Seq<T>| #[trigger] other(s) == !keep(s),
    ensures
        suffix_matches(items, keep, upto).len() + suffix_matches(items, other, upto).len() == upto,
    decreases upto,
{
    if upto > 0 {
        lemma_suffix_count(items, keep, other, upto - 1);
        let _ = other(items.subrange(upto - 1, items.len() as int));
    }
}

proof fn lemma_suffix_same<T>(
    items: Seq<T>,
    keep: spec_fn(Seq<T>) -> bool,
    other: spec_fn(Seq<T>) -> bool,
    upto: int,
)
    requires
        forall|s: Seq<T>| #[trigger] other(s) == keep(s),
    ensures
        suffix_matches(items, keep, upto) == suffix_matches(items, other, upto),
    decreases upto,
{
    if upto > 0 {
        lemma_suffix_same(items, keep, other, upto - 1);
        let _ = other(items.subrange(upto - 1, items.len() as int));
    }
}

proof fn lemma_spans_from_count<T>(
    items: Seq<T>,
    keep: spec_fn(Seq<T>) -> bool,
    other: spec_fn(Seq<T>) -> bool,
    i: int,
    upto: int,
)
    requires
        i <= upto,
        forall|s: Seq<T>| #[trigger] other(s) == !keep(s),
    ensures
        spans_from(items, keep, i, upto).len() + spans_from(items, other, i, upto).len() == upto - i,
    decreases upto - i,
{
    if upto > i {
        lemma_spans_from_count(items, keep, other, i, upto - 1);
        let _ = other(items.subrange(i, upto - 1));
    }
}

proof fn lemma_span_count<T>(
    items: Seq<T>,
    keep: spec_fn(Seq<T>) -> bool,
    other: spec_fn(Seq<T>) -> bool,
    upto: int,
)
    requires
        0 <= upto <= items.len() + 1,
        forall|s: Seq<T>| #[trigger] other(s) == !keep(s),
    ensures
        2 * (span_matches(items, keep, upto).len() + span_matches(items, other, upto).len())
            == upto * (2 * items.len() + 3 - upto),
    decreases upto,
{
    if upto > 0 {
        let n = items.len() as int;
        lemma_span_count(items, keep, other, upto - 1);
        lemma_spans_from_count(items, keep, other, upto - 1, n + 1);
        assert(span_matches(items, keep, upto).len() == span_matches(items, keep, upto - 1).len()
            + spans_from(items, keep, upto - 1, n + 1).len());
        assert(span_matches(items, other, upto).len() == span_matches(items, other, upto - 1).len()
            + spans_from(items, other, upto - 1, n + 1).len());
        assert(upto * (2 * n + 3 - upto) == (upto - 1) * (2 * n + 3 - (upto - 1)) + 2 * (n + 2
            - upto)) by (nonlinear_arith);
    } else {
        assert(upto * (2 * items.len() + 3 - upto) == 0) by (nonlinear_arith)
            requires
                upto == 0,
        ;
    }
}

/// `m` is the view of the suffix of `items` from a start within `items`.
pub open spec fn is_suffix_span<T>(items: Seq<T>, m: (int, int, Seq<T>)) -> bool {
    0 <= m.0 < items.len() && m == span(items, m.0, items.len() as int)
}

/// `a` and `b` report suffixes of `items` only, and each start of `items`
/// has its suffix reported by exactly one of them.
pub open spec fn splits_suffixes<T>(
    items: Seq<T>,
    a: Seq<(int, int, Seq<T>)>,
    b: Seq<(int, int, Seq<T>)>,
) -> bool {
    &&& forall|k: int| 0 <= k < a.len() ==> is_suffix_span(items, #[trigger] a[k])
    &&& forall|k: int| 0 <= k < b.len() ==> is_suffix_span(items, #[trigger] b[k])
    &&& forall|i: int|
        0 <= i < items.len() ==> (a.contains(#[trigger] span(items, i, items.len() as int))
            <==> !b.contains(span(items, i, items.len() as int)))
}

/// `m` is the view of a slice of `items` at a range within `items`.
pub open spec fn is_span<T>(items: Seq<T>, m: (int, int, Seq<T>)) -> bool {
    0 <= m.0 <= m.1 <= items.len() && m == span(items, m.0, m.1)
}

/// `a` and `b` report slices of `items` only, and each slice of `items` is
/// reported by exactly one of them.
pub open spec fn splits_spans<T>(
    items: Seq<T>,
    a: Seq<(int, int, Seq<T>)>,
    b: Seq<(int, int, Seq<T>)>,
) -> bool {
    &&& forall|k: int| 0 <= k < a.len() ==> is_span(items, #[trigger] a[k])
    &&& forall|k: int| 0 <= k < b.len() ==> is_span(items, #[trigger] b[k])
    &&& forall|i: int, j: int|
        0 <= i <= j <= items.len() ==> (a.contains(#[trigger] span(items, i, j)) <==> !b.contains(
            span(items, i, j),
        ))
}

/// With `other` the complement of `keep`, the suffixes that each selects
/// split the suffixes of `items`.
proof fn lemma_suffix_split<T>(
    items: Seq<T>,
    keep: spec_fn(Seq<T>) -> bool,
    other: spec_fn(Seq<T>) -> bool,
)
    requires
        forall|s: Seq<T>| #[trigger] other(s) == !keep(s),
    ensures
        splits_suffixes(
            items,
            suffix_matches(items, keep, items.len() as int),
            suffix_matches(items, other, items.len() as int),
        ),
{
    let n = items.len() as int;
    let a = suffix_matches(items, keep, n);
    let b = suffix_matches(items, other, n);
    lemma_suffix_matches_within(items, keep, n);
    lemma_suffix_matches_within(items, other, n);
    assert forall|k: int| 0 <= k < a.len() implies is_suffix_span(items, #[trigger] a[k]) by {}
    assert forall|k: int| 0 <= k < b.len() implies is_suffix_span(items, #[trigger] b[k]) by {}
    assert forall|i: int| 0 <= i < n implies (a.contains(#[trigger] span(items, i, n)) <==> !b.contains(
        span(items, i, n),
    )) by {
        lemma_suffix_matches_contains(items, keep, n, i);
        lemma_suffix_matches_contains(items, other, n, i);
    }
}

/// With `other` the complement of `keep`, the slices that each selects split
/// the slices of `items`.
proof fn lemma_span_split<T>(items: Seq<T>, keep: spec_fn(Seq<T>) -> bool, other: spec_fn(Seq<T>) -> bool)
    requires
        forall|s: Seq<T>| #[trigger] other(s) == !keep(s),
    ensures
        splits_spans(
            items,
            span_matches(items, keep, items.len() + 1int),
            span_matches(items, other, items.len() + 1int),
        ),
{
    let n = items.len() as int;
    let a = span_matches(items, keep, n + 1);
    let b = span_matches(items, other, n + 1);
    lemma_span_matches_within(items, keep, n + 1);
    lemma_span_matches_within(items, other, n + 1);
    assert forall|k: int| 0 <= k < a.len() implies is_span(items, #[trigger] a[k]) by {}
    assert forall|k: int| 0 <= k < b.len() implies is_span(items, #[trigger] b[k]) by {}
    assert forall|i: int, j: int| 0 <= i <= j <= n implies (a.contains(#[trigger] span(items, i, j))
        <==> !b.contains(span(items, i, j))) by {
        lemma_span_matches_contains(items, keep, n + 1, i, j);
        lemma_span_matches_contains(items, other, n + 1, i, j);
    }
}

/// Law: every suffix of a collection is reported by exactly one of
/// `matches_all` and `matches_any_not`, and they report nothing else, so
/// together they report as many matches as the collection has items.
pub proof fn lemma_matches_all_any_not_partition<T: PartialEq>(
    items: Seq<T>,
    patterns: Seq<Seq<T>>,
    quantifier: Quantifier,
)
    ensures
        suffix_matches(items, matching_all(patterns, quantifier), items.len() as int).len()
            + suffix_matches(items, failing_any(patterns, quantifier), items.len() as int).len()
            == items.len(),
        splits_suffixes(
            items,
            suffix_matches(items, matching_all(patterns, quantifier), items.len() as int),
            suffix_matches(items, failing_any(patterns, quantifier), items.len() as int),
        ),
{
    let keep = matching_all(patterns, quantifier);
    let other = failing_any(patterns, quantifier);
    assert forall|s: Seq<T>| #[trigger] other(s) == !keep(s) by {}
    lemma_suffix_count(items, keep, other, items.len() as int);
    lemma_suffix_split(items, keep, other);
}

/// Law: every suffix of a collection is reported by exactly one of
/// `matches_any` and `matches_none`, and they report nothing else, so
/// together they report as many matches as the collection has items.
pub proof fn lemma_matches_any_none_partition<T: PartialEq>(
    items: Seq<T>,
    patterns: Seq<Seq<T>>,
    quantifier: Quantifier,
)
    ensures
        suffix_matches(items, matching_any(patterns, quantifier), items.len() as int).len()
            + suffix_matches(items, matching_none(patterns, quantifier), items.len() as int).len()
            == items.len(),
        splits_suffixes(
            items,
            suffix_matches(items, matching_any(patterns, quantifier), items.len() as int),
            suffix_matches(items, matching_none(patterns, quantifier), items.len() as int),
        ),
{
    let keep = matching_any(patterns, quantifier);
    let other = matching_none(patterns, quantifier);
    assert forall|s: Seq<T>| #[trigger] other(s) == !keep(s) by {}
    lemma_suffix_count(items, keep, other, items.len() as int);
    lemma_suffix_split(items, keep, other);
}

/// Law: every slice of a collection of `n` items is reported by exactly one of
/// `matches_pattern` and `matches_pattern_not`, and they report nothing else,
/// so together they report all `(n + 1) * (n + 2) / 2` slices.
pub proof fn lemma_matches_pattern_partition<T: PartialEq>(
    items: Seq<T>,
    pattern: Seq<T>,
    quantifier: Quantifier,
)
    ensures
        2 * (span_matches(items, matching(pattern, quantifier), items.len() + 1int).len()
            + span_matches(items, not_matching(pattern, quantifier), items.len() + 1int).len())
            == (items.len() + 1) * (items.len() + 2),
        splits_spans(
            items,
            span_matches(items, matching(pattern, quantifier), items.len() + 1int),
            span_matches(items, not_matching(pattern, quantifier), items.len() + 1int),
        ),
{
    let keep = matching(pattern, quantifier);
    let other = not_matching(pattern, quantifier);
    let n = items.len() as int;
    assert forall|s: Seq<T>| #[trigger] other(s) == !keep(s) by {}
    lemma_span_split(items, keep, other);
    lemma_span_count(items, keep, other, n + 1);
    assert((n + 1) * (2 * n + 3 - (n + 1)) == (n + 1) * (n + 2));
}

/// Law: with a single pattern, `matches_all` and `matches_any` report the same
/// suffixes.
pub proof fn lemma_single_pattern_all_is_any<T: PartialEq>(
    items: Seq<T>,
    pattern: Seq<T>,
    quantifier: Quantifier,
)
    ensures
        suffix_matches(items, matching_all(seq![pattern], quantifier), items.len() as int)
            == suffix_matches(items, matching_any(seq![pattern], quantifier), items.len() as int),
{
    let keep = matching_all(seq![pattern], quantifier);
    let other = matching_any(seq![pattern], quantifier);
    assert forall|s: Seq<T>| #[trigger] other(s) == keep(s) by {
        if keep(s) {
            assert(spec_try_match(seq![pattern][0], quantifier, s));
        }
    }
    lemma_suffix_same(items, keep, other, items.len() as int);
}

/// Law: a pattern of at least one item repeated exactly once matches the same
/// slices as the pattern itself.
pub proof fn lemma_exact_count_one_is_one<T: PartialEq>(pattern: Seq<T>, slice: Seq<T>)
    requires
        pattern.len() > 0,
    ensures
        spec_try_match(pattern, Quantifier::ExactCount(1), slice) == spec_try_match(
            pattern,
            Quantifier::One,
            slice,
        ),
{
    let p = pattern.len() as int;
    assert(0 * p == 0 && 1 * p == p);
    if slice.len() == p {
        assert(chunk(slice, p, 0) =~= slice);
    }
}

/// Law: `ZeroOrOne` and `ZeroOrMore` match the empty slice, whatever the
/// pattern.
pub proof fn lemma_empty_slice_matches<T: PartialEq>(pattern: Seq<T>)
    ensures
        spec_try_match(pattern, Quantifier::ZeroOrOne, Seq::empty()),
        spec_try_match(pattern, Quantifier::ZeroOrMore, Seq::empty()),
{
    assert(0 * pattern.len() == 0);
    assert(repeats(pattern, Seq::<T>::empty(), 0));
}

/// Law: a slice that matches a pattern repeated exactly `n` times also matches
/// it under `ZeroOrMore`, and under `OneOrMore` when `n` is at least one.
pub proof fn lemma_exact_count_is_repetition<T: PartialEq>(pattern: Seq<T>, n: usize, slice: Seq<T>)
    requires
        spec_try_match(pattern, Quantifier::ExactCount(n), slice),
    ensures
        spec_try_match(pattern, Quantifier::ZeroOrMore, slice),
        n >= 1 ==> spec_try_match(pattern, Quantifier::OneOrMore, slice),
{
    assert(repeats(pattern, slice, n as nat));
}

proof fn lemma_spans_from_within<T>(items: Seq<T>, keep: spec_fn(Seq<T>) -> bool, i: int, upto: int)
    requires
        0 <= i,
        upto <= items.len() + 1,
    ensures
        forall|k: int|
            0 <= k < spans_from(items, keep, i, upto).len() ==> {
                let m = #[trigger] spans_from(items, keep, i, upto)[k];
                &&& m.0 == i
                &&& i <= m.1 <= items.len()
                &&& m.1 < upto
                &&& m.2 == items.subrange(m.0, m.1)
            },
    decreases upto - i,
{
    if upto > i {
        lemma_spans_from_within(items, keep, i, upto - 1);
        let prev = spans_from(items, keep, i, upto - 1);
        let cur = spans_from(items, keep, i, upto);
        assert forall|k: int| 0 <= k < cur.len() implies {
            let m = #[trigger] cur[k];
            &&& m.0 == i
            &&& i <= m.1 <= items.len()
            &&& m.1 < upto
            &&& m.2 == items.subrange(m.0, m.1)
        } by {
            if k < prev.len() {
                assert(cur[k] == prev[k]);
            }
        }
    }
}

/// Law: each slice that `matches_pattern` or `matches_pattern_not` reports is
/// the collection's items at the reported range, which lies within the
/// collection.
pub proof fn lemma_span_matches_within<T>(items: Seq<T>, keep: spec_fn(Seq<T>) -> bool, upto: int)
    requires
        upto <= items.len() + 1,
    ensures
        forall|k: int|
            0 <= k < span_matches(items, keep, upto).len() ==> {
                let m = #[trigger] span_matches(items, keep, upto)[k];
                &&& 0 <= m.0 <= m.1 <= items.len()
                &&& m.0 < upto
                &&& m.2 == items.subrange(m.0, m.1)
            },
    decreases upto,
{
    if upto > 0 {
        lemma_span_matches_within(items, keep, upto - 1);
        lemma_spans_from_within(items, keep, upto - 1, items.len() + 1int);
        let prev = span_matches(items, keep, upto - 1);
        let tail = spans_from(items, keep, upto - 1, items.len() + 1int);
        let cur = span_matches(items, keep, upto);
        assert(cur == prev + tail);
        assert forall|k: int| 0 <= k < cur.len() implies {
            let m = #[trigger] cur[k];
            &&& 0 <= m.0 <= m.1 <= items.len()
            &&& m.0 < upto
            &&& m.2 == items.subrange(m.0, m.1)
        } by {
            if k < prev.len() {
                assert(cur[k] == prev[k]);
            } else {
                assert(cur[k] == tail[k - prev.len()]);
            }
        }
    }
}

/// Law: each suffix that `matches_all`, `matches_any`, `matches_any_not` or
/// `matches_none` reports ends at the end of the collection, and is the
/// collection's items from its start on.
pub proof fn lemma_suffix_matches_within<T>(items: Seq<T>, keep: spec_fn(Seq<T>) -> bool, upto: int)
    requires
        upto <= items.len(),
    ensures
        forall|k: int|
            0 <= k < suffix_matches(items, keep, upto).len() ==> {
                let m = #[trigger] suffix_matches(items, keep, upto)[k];
                &&& 0 <= m.0 < upto
                &&& m.1 == items.len()
                &&& m.2 == items.subrange(m.0, m.1)
            },
    decreases upto,
{
    if upto > 0 {
        lemma_suffix_matches_within(items, keep, upto - 1);
        let prev = suffix_matches(items, keep, upto - 1);
        let cur = suffix_matches(items, keep, upto);
        assert forall|k: int| 0 <= k < cur.len() implies {
            let m = #[trigger] cur[k];
            &&& 0 <= m.0 < upto
            &&& m.1 == items.len()
            &&& m.2 == items.subrange(m.0, m.1)
        } by {
            if k < prev.len() {
                assert(cur[k] == prev[k]);
            }
        }
    }
}

proof fn lemma_contains_push<A>(a: Seq<A>, x: A, y: A)
    ensures
        a.push(y).contains(x) == (a.contains(x) || x == y),
{
    if a.contains(x) {
        let k = choose|k: int| 0 <= k < a.len() && a[k] == x;
        assert(a.push(y)[k] == x);
    }
    if x == y {
        assert(a.push(y)[a.len() as int] == x);
    }
    if a.push(y).contains(x) {
        let k = choose|k: int| 0 <= k < a.push(y).len() && a.push(y)[k] == x;
        if k < a.len() {
            assert(a[k] == x);
        }
    }
}

proof fn lemma_contains_add<A>(a: Seq<A>, b: Seq<A>, x: A)
    ensures
        (a + b).contains(x) == (a.contains(x) || b.contains(x)),
{
    if a.contains(x) {
        let k = choose|k: int| 0 <= k < a.len() && a[k] == x;
        assert((a + b)[k] == x);
    }
    if b.contains(x) {
        let k = choose|k: int| 0 <= k < b.len() && b[k] == x;
        assert((a + b)[a.len() + k] == x);
    }
    if (a + b).contains(x) {
        let k = choose|k: int| 0 <= k < (a + b).len() && (a + b)[k] == x;
        if k < a.len() {
            assert(a[k] == x);
        } else {
            assert(b[k - a.len()] == x);
        }
    }
}

/// Law: the suffix `items[i..]`, for `i` below `upto`, is reported exactly
/// where `keep` selects it.
pub proof fn lemma_suffix_matches_contains<T>(
    items: Seq<T>,
    keep: spec_fn(Seq<T>) -> bool,
    upto: int,
    i: int,
)
    requires
        0 <= i < upto <= items.len(),
    ensures
        suffix_matches(items, keep, upto).contains(span(items, i, items.len() as int)) == keep(
            items.subrange(i, items.len() as int),
        ),
    decreases upto,
{
    let n = items.len() as int;
    let prev = suffix_matches(items, keep, upto - 1);
    lemma_suffix_matches_within(items, keep, upto - 1);
    if i < upto - 1 {
        lemma_suffix_matches_contains(items, keep, upto - 1, i);
    } else if prev.contains(span(items, i, n)) {
        let k = choose|k: int| 0 <= k < prev.len() && prev[k] == span(items, i, n);
        assert(prev[k].0 < upto - 1);
    }
    lemma_contains_push(prev, span(items, i, n), span(items, upto - 1, n));
}

/// The slice `items[i..j]`, for `j` below `upto`, is among the slices from `i`
/// exactly where `keep` selects it.
proof fn lemma_spans_from_contains<T>(
    items: Seq<T>,
    keep: spec_fn(Seq<T>) -> bool,
    i: int,
    upto: int,
    j: int,
)
    requires
        0 <= i <= j < upto <= items.len() + 1,
    ensures
        spans_from(items, keep, i, upto).contains(span(items, i, j)) == keep(items.subrange(i, j)),
    decreases upto - i,
{
    let prev = spans_from(items, keep, i, upto - 1);
    lemma_spans_from_within(items, keep, i, upto - 1);
    if j < upto - 1 {
        lemma_spans_from_contains(items, keep, i, upto - 1, j);
    } else if prev.contains(span(items, i, j)) {
        let k = choose|k: int| 0 <= k < prev.len() && prev[k] == span(items, i, j);
        assert(prev[k].1 < upto - 1);
    }
    lemma_contains_push(prev, span(items, i, j), span(items, i, upto - 1));
}

/// Law: the slice `items[i..j]`, for `i` below `upto`, is reported exactly
/// where `keep` selects it.
pub proof fn lemma_span_matches_contains<T>(
    items: Seq<T>,
    keep: spec_fn(Seq<T>) -> bool,
    upto: int,
    i: int,
    j: int,
)
    requires
        0 <= i <= j <= items.len(),
        i < upto <= items.len() + 1,
    ensures
        span_matches(items, keep, upto).contains(span(items, i, j)) == keep(items.subrange(i, j)),
    decreases upto,
{
    let n = items.len() as int;
    let prev = span_matches(items, keep, upto - 1);
    let tail = spans_from(items, keep, upto - 1, n + 1);
    lemma_contains_add(prev, tail, span(items, i, j));
    lemma_spans_from_within(items, keep, upto - 1, n + 1);
    lemma_span_matches_within(items, keep, upto - 1);
    if i < upto - 1 {
        lemma_span_matches_contains(items, keep, upto - 1, i, j);
        if tail.contains(span(items, i, j)) {
            let k = choose|k: int| 0 <= k < tail.len() && tail[k] == span(items, i, j);
            assert(tail[k].0 == upto - 1);
        }
    } else {
        lemma_spans_from_contains(items, keep, i, n + 1, j);
        if prev.contains(span(items, i, j)) {
            let k = choose|k: int| 0 <= k < prev.len() && prev[k] == span(items, i, j);
            assert(prev[k].0 < upto - 1);
        }
    }
}

/// Law: the suffixes are reported in increasing order of their start.
pub proof fn lemma_suffix_matches_ordered<T>(items: Seq<T>, keep: spec_fn(Seq<T>) -> bool, upto: int)
    requires
        upto <= items.len(),
    ensures
        forall|a: int, b: int|
            0 <= a < b < suffix_matches(items, keep, upto).len() ==> #[trigger] suffix_matches(
                items,
                keep,
                upto,
            )[a].0 < #[trigger] suffix_matches(items, keep, upto)[b].0,
    decreases upto,
{
    if upto > 0 {
        lemma_suffix_matches_ordered(items, keep, upto - 1);
        lemma_suffix_matches_within(items, keep, upto - 1);
        let prev = suffix_matches(items, keep, upto - 1);
        let cur = suffix_matches(items, keep, upto);
        assert forall|a: int, b: int| 0 <= a < b < cur.len() implies #[trigger] cur[a].0
            < #[trigger] cur[b].0 by {
            assert(cur[a] == prev[a]);
            if b < prev.len() {
                assert(cur[b] == prev[b]);
            }
        }
    }
}

/// `m1` comes before `m2` by start, and then by end.
pub open spec fn span_before<T>(m1: (int, int, Seq<T>), m2: (int, int, Seq<T>)) -> bool {
    m1.0 < m2.0 || (m1.0 == m2.0 && m1.1 < m2.1)
}

proof fn lemma_spans_from_ordered<T>(items: Seq<T>, keep: spec_fn(Seq<T>) -> bool, i: int, upto: int)
    requires
        0 <= i,
        upto <= items.len() + 1,
    ensures
        forall|a: int, b: int|
            0 <= a < b < spans_from(items, keep, i, upto).len() ==> span_before(
                #[trigger] spans_from(items, keep, i, upto)[a],
                #[trigger] spans_from(items, keep, i, upto)[b],
            ),
    decreases upto - i,
{
    if upto > i {
        lemma_spans_from_ordered(items, keep, i, upto - 1);
        lemma_spans_from_within(items, keep, i, upto - 1);
        let prev = spans_from(items, keep, i, upto - 1);
        let cur = spans_from(items, keep, i, upto);
        assert forall|a: int, b: int| 0 <= a < b < cur.len() implies span_before(
            #[trigger] cur[a],
            #[trigger] cur[b],
        ) by {
            assert(cur[a] == prev[a]);
            if b < prev.len() {
                assert(cur[b] == prev[b]);
            }
        }
    }
}

/// Law: the slices are reported ordered by their start, and then by their
/// end.
pub proof fn lemma_span_matches_ordered<T>(items: Seq<T>, keep: spec_fn(Seq<T>) -> bool, upto: int)
    requires
        upto <= items.len() + 1,
    ensures
        forall|a: int, b: int|
            0 <= a < b < span_matches(items, keep, upto).len() ==> span_before(
                #[trigger] span_matches(items, keep, upto)[a],
                #[trigger] span_matches(items, keep, upto)[b],
            ),
    decreases upto,
{
    if upto > 0 {
        let n = items.len() as int;
        lemma_span_matches_ordered(items, keep, upto - 1);
        lemma_span_matches_within(items, keep, upto - 1);
        lemma_spans_from_ordered(items, keep, upto - 1, n + 1);
        lemma_spans_from_within(items, keep, upto - 1, n + 1);
        let prev = span_matches(items, keep, upto - 1);
        let tail = spans_from(items, keep, upto - 1, n + 1);
        let cur = span_matches(items, keep, upto);
        assert(cur == prev + tail);
        assert forall|a: int, b: int| 0 <= a < b < cur.len() implies span_before(
            #[trigger] cur[a],
            #[trigger] cur[b],
        ) by {
            if a < prev.len() {
                assert(cur[a] == prev[a]);
            } else {
                assert(cur[a] == tail[a - prev.len()]);
            }
            if b < prev.len() {
                assert(cur[b] == prev[b]);
            } else {
                assert(cur[b] == tail[b - prev.len()]);
            }
        }
    }
}

/// Law: `ZeroOrOne` matches the empty slice, and otherwise what `One` matches.
pub proof fn lemma_zero_or_one_is_empty_or_one<T: PartialEq>(pattern: Seq<T>, slice: Seq<T>)
    ensures
        spec_try_match(pattern, Quantifier::ZeroOrOne, slice) == (slice.len() == 0
            || spec_try_match(pattern, Quantifier::One, slice)),
{
}

/// Where item `i` of a slice of `count` runs of `p` items falls: run `i / p`,
/// at position `i % p`.
proof fn lemma_position(i: int, p: int, count: int)
    requires
        p > 0,
        0 <= i < count * p,
    ensures
        0 <= i / p < count,
        0 <= i % p < p,
        i == (i / p) * p + i % p,
{
    vstd::arithmetic::div_mod::lemma_fundamental_div_mod(i, p);
    let q = i / p;
    let r = i % p;
    assert(0 <= r < p) by (nonlinear_arith)
        requires
            p > 0,
            r == i % p,
    ;
    assert(p * q == q * p) by (nonlinear_arith);
    assert(0 <= q < count) by (nonlinear_arith)
        requires
            i == q * p + r,
            0 <= r < p,
            0 <= i < count * p,
            p > 0,
    ;
}

/// Position `j` of run `k` is item `k * p + j`, which lies within the slice.
proof fn lemma_position_back(k: int, j: int, p: int, count: int)
    requires
        p > 0,
        0 <= j < p,
        0 <= k < count,
    ensures
        (k * p + j) % p == j,
        0 <= k * p + j < count * p,
{
    vstd::arithmetic::div_mod::lemma_fundamental_div_mod_converse(k * p + j, p, k, j);
    assert(0 <= k * p + j < count * p) by (nonlinear_arith)
        requires
            p > 0,
            0 <= j < p,
            0 <= k < count,
    ;
}

/// `count` runs of a pattern of at least one item are the slices of
/// `count * p.len()` items each equal to the pattern's item at its position
/// modulo the pattern's length.
proof fn lemma_repeats_items<T: PartialEq>(p: Seq<T>, s: Seq<T>, count: nat)
    requires
        p.len() > 0,
    ensures
        repeats(p, s, count) == (s.len() == count * p.len() && forall|i: int|
            0 <= i < s.len() ==> p[i % (p.len() as int)].eq_spec(&#[trigger] s[i])),
{
    let n = p.len() as int;
    let c = count as int;
    if s.len() == count * p.len() {
        if repeats(p, s, count) {
            assert forall|i: int| 0 <= i < s.len() implies p[i % n].eq_spec(&#[trigger] s[i]) by {
                lemma_position(i, n, c);
                let k = i / n;
                let j = i % n;
                lemma_chunk_bounds(k, n, c);
                assert(elements_match(p, chunk(s, n, k)));
                assert(chunk(s, n, k)[j] == s[k * n + j]);
            }
        }
        if forall|i: int| 0 <= i < s.len() ==> p[i % n].eq_spec(&#[trigger] s[i]) {
            assert forall|k: int| 0 <= k < count implies #[trigger] elements_match(p, chunk(s, n, k)) by {
                lemma_chunk_bounds(k, n, c);
                assert forall|j: int| 0 <= j < chunk(s, n, k).len() implies #[trigger] p[j].eq_spec(
                    &chunk(s, n, k)[j],
                ) by {
                    lemma_position_back(k, j, n, c);
                    assert(chunk(s, n, k)[j] == s[k * n + j]);
                }
            }
        }
    }
}

/// Law: how a slice matches a pattern under each quantifier, item by item.
/// `One` asks for the pattern's items in order; `ZeroOrOne` also takes the
/// empty slice. With a pattern of at least one item, the repeating
/// quantifiers ask that every item of the slice equal the pattern's item at
/// its position modulo the pattern's length, and that the slice's length be
/// the pattern's length times a count that the quantifier allows: exactly `n`
/// for `ExactCount(n)`, any for `ZeroOrMore`, at least one for `OneOrMore`,
/// and within the range (end excluded) for `Range`. An empty pattern repeated
/// matches only the empty slice (under `Range`, where the range is not
/// empty). `Invalid` and `Not` match nothing.
pub proof fn lemma_try_match_by_items<T: PartialEq>(
    p: Seq<T>,
    s: Seq<T>,
    n: usize,
    range: Range<usize>,
)
    ensures
        spec_try_match(p, Quantifier::One, s) == (s.len() == p.len() && forall|i: int|
            0 <= i < s.len() ==> p[i].eq_spec(&#[trigger] s[i])),
        spec_try_match(p, Quantifier::ZeroOrOne, s) == (s.len() == 0 || (s.len() == p.len()
            && forall|i: int| 0 <= i < s.len() ==> p[i].eq_spec(&#[trigger] s[i]))),
        p.len() > 0 ==> spec_try_match(p, Quantifier::ExactCount(n), s) == (s.len() == n * p.len()
            && forall|i: int| 0 <= i < s.len() ==> p[i % (p.len() as int)].eq_spec(&#[trigger] s[i])),
        p.len() > 0 ==> spec_try_match(p, Quantifier::ZeroOrMore, s) == (s.len() % p.len() == 0
            && forall|i: int| 0 <= i < s.len() ==> p[i % (p.len() as int)].eq_spec(&#[trigger] s[i])),
        p.len() > 0 ==> spec_try_match(p, Quantifier::OneOrMore, s) == (s.len() % p.len() == 0
            && s.len() >= p.len() && forall|i: int|
            0 <= i < s.len() ==> p[i % (p.len() as int)].eq_spec(&#[trigger] s[i])),
        p.len() > 0 ==> spec_try_match(p, Quantifier::Range(range), s) == (s.len() % p.len() == 0
            && range.start <= s.len() / p.len() < range.end && forall|i: int|
            0 <= i < s.len() ==> p[i % (p.len() as int)].eq_spec(&#[trigger] s[i])),
        p.len() == 0 ==> spec_try_match(p, Quantifier::ExactCount(n), s) == (s.len() == 0),
        p.len() == 0 ==> spec_try_match(p, Quantifier::ZeroOrMore, s) == (s.len() == 0),
        p.len() == 0 ==> spec_try_match(p, Quantifier::OneOrMore, s) == (s.len() == 0),
        p.len() == 0 ==> spec_try_match(p, Quantifier::Range(range), s) == (s.len() == 0
            && range.start < range.end),
        !spec_try_match(p, Quantifier::Invalid, s),
        !spec_try_match(p, Quantifier::Not, s),
{
    if p.len() == 0 {
        assert forall|c: nat| #[trigger] repeats(p, s, c) == (s.len() == 0) by {
            lemma_repeats_empty_pattern(p, s, c);
        }
        assert(repeats(p, s, 1) == (s.len() == 0));
        assert(repeats(p, s, range.start as nat) == (s.len() == 0));
    }
    if p.len() > 0 {
        let len = p.len() as int;
        let count = (s.len() / p.len()) as nat;
        lemma_repeats_items(p, s, n as nat);
        lemma_repeats_items(p, s, count);
        lemma_exact_len(s.len() as int, len, count as int);
        assert forall|c: nat| #[trigger] repeats(p, s, c) implies s.len() % p.len() == 0 && s.len()
            / p.len() == c by {
            lemma_repeats_count(p, s, c);
        }
        if s.len() % p.len() == 0 {
            assert(s.len() == count * p.len());
            assert(s.len() >= p.len() <==> count >= 1) by (nonlinear_arith)
                requires
                    s.len() == count * p.len(),
                    p.len() > 0,
            ;
        }
    }
}

/// Law: `matches_all` reports the suffix from `i` exactly where every one of
/// the patterns matches it under the quantifier, and `matches_any_not`
/// exactly where at least one of them does not.
pub proof fn lemma_matches_all_selects<T: PartialEq>(
    items: Seq<T>,
    patterns: Seq<Seq<T>>,
    quantifier: Quantifier,
    i: int,
)
    requires
        0 <= i < items.len(),
    ensures
        suffix_matches(items, matching_all(patterns, quantifier), items.len() as int).contains(
            span(items, i, items.len() as int),
        ) == (forall|k: int|
            0 <= k < patterns.len() ==> spec_try_match(
                #[trigger] patterns[k],
                quantifier,
                items.subrange(i, items.len() as int),
            )),
        suffix_matches(items, failing_any(patterns, quantifier), items.len() as int).contains(
            span(items, i, items.len() as int),
        ) == (exists|k: int|
            0 <= k < patterns.len() && !spec_try_match(
                #[trigger] patterns[k],
                quantifier,
                items.subrange(i, items.len() as int),
            )),
{
    let n = items.len() as int;
    lemma_suffix_matches_contains(items, matching_all(patterns, quantifier), n, i);
    lemma_suffix_matches_contains(items, failing_any(patterns, quantifier), n, i);
}

/// Law: `matches_any` reports the suffix from `i` exactly where at least one
/// of the patterns matches it under the quantifier, and `matches_none` exactly
/// where none of them does.
pub proof fn lemma_matches_any_selects<T: PartialEq>(
    items: Seq<T>,
    patterns: Seq<Seq<T>>,
    quantifier: Quantifier,
    i: int,
)
    requires
        0 <= i < items.len(),
    ensures
        suffix_matches(items, matching_any(patterns, quantifier), items.len() as int).contains(
            span(items, i, items.len() as int),
        ) == (exists|k: int|
            0 <= k < patterns.len() && spec_try_match(
                #[trigger] patterns[k],
                quantifier,
                items.subrange(i, items.len() as int),
            )),
        suffix_matches(items, matching_none(patterns, quantifier), items.len() as int).contains(
            span(items, i, items.len() as int),
        ) == (forall|k: int|
            0 <= k < patterns.len() ==> !spec_try_match(
                #[trigger] patterns[k],
                quantifier,
                items.subrange(i, items.len() as int),
            )),
{
    let n = items.len() as int;
    lemma_suffix_matches_contains(items, matching_any(patterns, quantifier), n, i);
    lemma_suffix_matches_contains(items, matching_none(patterns, quantifier), n, i);
}

/// Law: `matches_pattern` reports the slice `items[i..j]` exactly where the
/// pattern matches it under the quantifier, and `matches_pattern_not` exactly
/// where it does not.
pub proof fn lemma_matches_pattern_selects<T: PartialEq>(
    items: Seq<T>,
    pattern: Seq<T>,
    quantifier: Quantifier,
    i: int,
    j: int,
)
    requires
        0 <= i <= j <= items.len(),
    ensures
        span_matches(items, matching(pattern, quantifier), items.len() + 1int).contains(
            span(items, i, j),
        ) == spec_try_match(pattern, quantifier, items.subrange(i, j)),
        span_matches(items, not_matching(pattern, quantifier), items.len() + 1int).contains(
            span(items, i, j),
        ) == !spec_try_match(pattern, quantifier, items.subrange(i, j)),
{
    lemma_span_matches_contains(items, matching(pattern, quantifier), items.len() + 1int, i, j);
    lemma_span_matches_contains(items, not_matching(pattern, quantifier), items.len() + 1int, i, j);
}

/// Matching of patterns against a collection of items, and against the
/// collection's slices.
pub trait Quantify<T: PartialEq>: Sized {
    /// The items of the collection, in order.
    spec fn spec_items(&self) -> Seq<T>;

    /// The items of the collection as a slice.
    fn items(&self) -> (r: &[T])
        ensures
            r@ == self.spec_items(),
    ;

    /// The number of items of the collection.
    fn calculate_length(quantify: &Self) -> (r: usize)
        ensures
            r == quantify.spec_items().len(),
    {
        quantify.items().len()
    }

    /// The number of items of a pattern.
    fn calculate_pattern_length(pattern: &[T]) -> (r: usize)
        ensures
            r == pattern@.len(),
    {
        pattern.len()
    }

    /// Whether `slice` matches `pattern` repeated as `quantifier` says.
    fn try_match(pattern: &[T], quantifier: &Quantifier, slice: &[T]) -> (r: bool)
        requires
            matchable(pattern@, *quantifier),
        ensures
            T::obeys_eq_spec() ==> r == spec_try_match(pattern@, *quantifier, slice@),
    {
        match_quantified(pattern, quantifier, slice)
    }

    /// The first slice of the collection that matches the quantified pattern.
    fn first_match<'a>(&'a self, pattern: &[T], quantifier: &Quantifier) -> (r: Option<
        PatternMatch<'a, T>,
    >)
        requires
            matchable(pattern@, *quantifier),
        ensures
            T::obeys_eq_spec() ==> ({
                let all = span_matches(
                    self.spec_items(),
                    matching(pattern@, *quantifier),
                    self.spec_items().len() + 1int,
                );
                match r {
                    Some(m) => all.len() > 0 && m@ == all[0],
                    None => all.len() == 0,
                }
            }),
    {
        let matches = self.matches_pattern(pattern, quantifier);
        if matches.len() == 0 {
            None
        } else {
            assert(match_views(matches@)[0] == matches@[0]@);
            Some(matches[0].clone())
        }
    }

    /// Whether some slice of the collection matches the quantified pattern.
    fn is_match<'a>(&'a self, pattern: &[T], quantifier: &Quantifier) -> (r: bool)
        requires
            matchable(pattern@, *quantifier),
        ensures
            T::obeys_eq_spec() ==> r == (span_matches(
                self.spec_items(),
                matching(pattern@, *quantifier),
                self.spec_items().len() + 1int,
            ).len() > 0),
    {
        let matches = self.matches_pattern(pattern, quantifier);
        matches.len() != 0
    }

    /// The last slice of the collection that matches the quantified pattern.
    fn last_match<'a>(&'a self, pattern: &[T], quantifier: &Quantifier) -> (r: Option<
        PatternMatch<'a, T>,
    >)
        requires
            matchable(pattern@, *quantifier),
        ensures
            T::obeys_eq_spec() ==> ({
                let all = span_matches(
                    self.spec_items(),
                    matching(pattern@, *quantifier),
                    self.spec_items().len() + 1int,
                );
                match r {
                    Some(m) => all.len() > 0 && m@ == all.last(),
                    None => all.len() == 0,
                }
            }),
    {
        let matches = self.matches_pattern(pattern, quantifier);
        let n = matches.len();
        if n == 0 {
            None
        } else {
            assert(match_views(matches@)[n - 1] == matches@[n - 1]@);
            Some(matches[n - 1].clone())
        }
    }

    /// Each suffix of the collection that matches all of the quantified patterns.
    fn matches_all<'a>(&'a self, patterns: &Vec<&[T]>, quantifier: &Quantifier) -> (r: Vec<
        PatternMatch<'a, T>,
    >)
        requires
            safe_on_suffixes(self.spec_items(), pattern_views(patterns@), *quantifier, false),
        ensures
            T::obeys_eq_spec() ==> match_views(r@) == suffix_matches(
                self.spec_items(),
                matching_all(pattern_views(patterns@), *quantifier),
                self.spec_items().len() as int,
            ),
    {
        suffixes_selected(self.items(), patterns, quantifier, true, true)
    }

    /// Each suffix of the collection that matches any of the quantified patterns.
    fn matches_any<'a>(&'a self, patterns: &Vec<&[T]>, quantifier: &Quantifier) -> (r: Vec<
        PatternMatch<'a, T>,
    >)
        requires
            safe_on_suffixes(self.spec_items(), pattern_views(patterns@), *quantifier, true),
        ensures
            T::obeys_eq_spec() ==> match_views(r@) == suffix_matches(
                self.spec_items(),
                matching_any(pattern_views(patterns@), *quantifier),
                self.spec_items().len() as int,
            ),
    {
        suffixes_selected(self.items(), patterns, quantifier, false, true)
    }

    /// Each suffix of the collection that some of the quantified patterns do
    /// not match.
    fn matches_any_not<'a>(&'a self, patterns: &Vec<&[T]>, quantifier: &Quantifier) -> (r: Vec<
        PatternMatch<'a, T>,
    >)
        requires
            safe_on_suffixes(self.spec_items(), pattern_views(patterns@), *quantifier, false),
        ensures
            T::obeys_eq_spec() ==> match_views(r@) == suffix_matches(
                self.spec_items(),
                failing_any(pattern_views(patterns@), *quantifier),
                self.spec_items().len() as int,
            ),
    {
        suffixes_selected(self.items(), patterns, quantifier, true, false)
    }

    /// Each suffix of the collection that matches none of the quantified patterns.
    fn matches_none<'a>(&'a self, patterns: &Vec<&[T]>, quantifier: &Quantifier) -> (r: Vec<
        PatternMatch<'a, T>,
    >)
        requires
            safe_on_suffixes(self.spec_items(), pattern_views(patterns@), *quantifier, true),
        ensures
            T::obeys_eq_spec() ==> match_views(r@) == suffix_matches(
                self.spec_items(),
                matching_none(pattern_views(patterns@), *quantifier),
                self.spec_items().len() as int,
            ),
    {
        suffixes_selected(self.items(), patterns, quantifier, false, false)
    }

    /// Each slice of the collection that matches the quantified pattern.
    fn matches_pattern<'a>(&'a self, pattern: &[T], quantifier: &Quantifier) -> (r: Vec<
        PatternMatch<'a, T>,
    >)
        requires
            matchable(pattern@, *quantifier),
        ensures
            T::obeys_eq_spec() ==> match_views(r@) == span_matches(
                self.spec_items(),
                matching(pattern@, *quantifier),
                self.spec_items().len() + 1int,
            ),
    {
        spans_with_outcome(self.items(), pattern, quantifier, true)
    }

    /// Each slice of the collection that does not match the quantified pattern.
    fn matches_pattern_not<'a>(&'a self, pattern: &[T], quantifier: &Quantifier) -> (r: Vec<
        PatternMatch<'a, T>,
    >)
        requires
            matchable(pattern@, *quantifier),
        ensures
            T::obeys_eq_spec() ==> match_views(r@) == span_matches(
                self.spec_items(),
                not_matching(pattern@, *quantifier),
                self.spec_items().len() + 1int,
            ),
    {
        spans_with_outcome(self.items(), pattern, quantifier, false)
    }
}

} // verus!
