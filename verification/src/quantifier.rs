use std::ops::Range;
use vstd::prelude::*;

verus! {

/// Errors which can occur when attempting to interpret a string as a quantifier.
#[derive(Clone, Copy, Debug, PartialEq, Eq, Structural)]
pub struct QuantifierParseError;

/// Quantifiers specify how many times a pattern must be repeated to achieve a match.
#[derive(Debug, PartialEq)]
pub enum Quantifier {
    /// Invalid quantifier.
    Invalid,
    /// Match the pattern exactly.
    One,
    /// Match the pattern zero or one time(s).
    ZeroOrOne,
    /// Match the pattern zero or more times.
    ZeroOrMore,
    /// Match the pattern one or more times.
    OneOrMore,
    /// Match the pattern an exact number of times.
    ExactCount(usize),
    /// Match the pattern any number of times within a range.
    Range(Range<usize>),
    /// Negation.
    Not,
}

impl Clone for Quantifier {
    fn clone(&self) -> (r: Self)
        ensures
            r == *self,
    {
        match self {
            Quantifier::Invalid => Quantifier::Invalid,
            Quantifier::One => Quantifier::One,
            Quantifier::ZeroOrOne => Quantifier::ZeroOrOne,
            Quantifier::ZeroOrMore => Quantifier::ZeroOrMore,
            Quantifier::OneOrMore => Quantifier::OneOrMore,
            Quantifier::ExactCount(n) => Quantifier::ExactCount(*n),
            Quantifier::Range(range) => Quantifier::Range(Range { start: range.start, end: range.end }),
            Quantifier::Not => Quantifier::Not,
        }
    }
}

/// Whether `c` is one of the ASCII digits `0` to `9`.
pub open spec fn is_digit(c: char) -> bool {
    48 <= (c as u32) <= 57
}

/// The value of the ASCII digit `c`.
pub open spec fn digit_value(c: char) -> nat {
    ((c as u32) - 48) as nat
}

/// Every character of `t` is an ASCII digit.
pub open spec fn all_digits(t: Seq<char>) -> bool {
    forall|i: int| 0 <= i < t.len() ==> is_digit(#[trigger] t[i])
}

/// The number that the digits `t` denote in base ten, most significant first.
pub open spec fn digits_value(t: Seq<char>) -> nat
    decreases t.len(),
{
    if t.len() == 0 {
        0
    } else {
        digits_value(t.drop_last()) * 10 + digit_value(t.last())
    }
}

/// The grammar of an unsigned integer: an optional `+`, then one or more
/// ASCII digits whose value fits in a `usize`.
pub open spec fn parse_unsigned(t: Seq<char>) -> Option<usize> {
    let body = if t.len() > 0 && t[0] == '+' {
        t.drop_first()
    } else {
        t
    };
    if body.len() > 0 && all_digits(body) && digits_value(body) <= usize::MAX {
        Some(digits_value(body) as usize)
    } else {
        None
    }
}

/// A prefix never denotes more than the whole sequence of digits.
proof fn lemma_digits_value_prefix(t: Seq<char>, k: int)
    requires
        0 <= k <= t.len(),
    ensures
        digits_value(t.take(k)) <= digits_value(t),
    decreases t.len(),
{
    if k == t.len() {
        assert(t.take(k) =~= t);
    } else {
        assert(t.drop_last().take(k) =~= t.take(k));
        lemma_digits_value_prefix(t.drop_last(), k);
    }
}

/// Parses `s[from..to]` (counted in characters) by the grammar of `parse_unsigned`.
fn parse_unsigned_at(s: &str, from: usize, to: usize) -> (r: Option<usize>)
    requires
        from <= to <= s@.len(),
    ensures
        r == parse_unsigned(s@.subrange(from as int, to as int)),
{
    let ghost t = s@.subrange(from as int, to as int);
    let mut start = from;
    if from < to && s.get_char(from) == '+' {
        start = from + 1;
    }
    let ghost body = s@.subrange(start as int, to as int);
    assert(body =~= (if t.len() > 0 && t[0] == '+' { t.drop_first() } else { t }));
    if start == to {
        return None;
    }
    let mut acc: usize = 0;
    let mut i: usize = start;
    assert(s@.subrange(start as int, start as int) =~= Seq::<char>::empty());
    while i < to
        invariant
            from <= start <= i <= to <= s@.len(),
            body == s@.subrange(start as int, to as int),
            t == s@.subrange(from as int, to as int),
            body == (if t.len() > 0 && t[0] == '+' { t.drop_first() } else { t }),
            body.len() > 0,
            all_digits(s@.subrange(start as int, i as int)),
            acc as nat == digits_value(s@.subrange(start as int, i as int)),
        decreases to - i,
    {
        let c = s.get_char(i);
        let v = c as u32;
        let ghost next = s@.subrange(start as int, i + 1);
        assert(next.drop_last() =~= s@.subrange(start as int, i as int));
        assert(next.last() == c);
        if v < 48 || v > 57 {
            assert(!is_digit(body[i - start]));
            return None;
        }
        let d = (v - 48) as usize;
        match acc.checked_mul(10) {
            Some(m) => match m.checked_add(d) {
                Some(a) => {
                    acc = a;
                },
                None => {
                    proof {
                        assert(body.take(i + 1 - start) =~= next);
                        lemma_digits_value_prefix(body, i + 1 - start);
                    }
                    return None;
                },
            },
            None => {
                proof {
                    assert(body.take(i + 1 - start) =~= next);
                    lemma_digits_value_prefix(body, i + 1 - start);
                }
                return None;
            },
        }
        i = i + 1;
    }
    Some(acc)
}

/// The pieces of `t` between its commas, in order (`t` split at every `,`).
pub open spec fn split_commas(t: Seq<char>) -> Seq<Seq<char>>
    decreases t.len(),
{
    if t.len() == 0 {
        seq![Seq::empty()]
    } else {
        let rest = split_commas(t.drop_first());
        if t[0] == ',' {
            seq![Seq::empty()] + rest
        } else {
            rest.update(0, seq![t[0]] + rest[0])
        }
    }
}

/// `t` holds no comma.
pub open spec fn comma_free(t: Seq<char>) -> bool {
    forall|i: int| 0 <= i < t.len() ==> #[trigger] t[i] != ','
}

proof fn lemma_split_nonempty(t: Seq<char>)
    ensures
        split_commas(t).len() >= 1,
    decreases t.len(),
{
    if t.len() > 0 {
        lemma_split_nonempty(t.drop_first());
    }
}

proof fn lemma_split_comma_free(t: Seq<char>)
    requires
        comma_free(t),
    ensures
        split_commas(t) == seq![t],
    decreases t.len(),
{
    if t.len() > 0 {
        let u = t.drop_first();
        assert(comma_free(u)) by {
            assert forall|i: int| 0 <= i < u.len() implies #[trigger] u[i] != ',' by {
                assert(u[i] == t[i + 1]);
            }
        }
        lemma_split_comma_free(u);
        assert(t[0] != ',');
        assert(seq![t[0]] + u =~= t);
        assert(split_commas(t) =~= seq![t]);
    } else {
        assert(t =~= Seq::<char>::empty());
    }
}

/// Splitting at the first comma `c`.
proof fn lemma_split_first_comma(t: Seq<char>, c: int)
    requires
        0 <= c < t.len(),
        t[c] == ',',
        comma_free(t.take(c)),
    ensures
        split_commas(t) == seq![t.take(c)] + split_commas(t.skip(c + 1)),
    decreases c,
{
    let u = t.drop_first();
    if c == 0 {
        assert(t.skip(1) =~= u);
        assert(t.take(0) =~= Seq::<char>::empty());
    } else {
        assert(t.take(c)[0] == t[0]);
        assert(u.take(c - 1) =~= t.take(c).drop_first());
        assert(comma_free(u.take(c - 1))) by {
            assert forall|i: int| 0 <= i < c - 1 implies #[trigger] u.take(c - 1)[i] != ',' by {
                assert(u.take(c - 1)[i] == t.take(c)[i + 1]);
            }
        }
        lemma_split_first_comma(u, c - 1);
        assert(u.skip(c) =~= t.skip(c + 1));
        assert(seq![t[0]] + u.take(c - 1) =~= t.take(c));
        assert(split_commas(t) =~= seq![t.take(c)] + split_commas(t.skip(c + 1)));
    }
}

/// What the text between the braces of `{...}` denotes: one piece is an exact
/// count, two pieces are the bounds of a range (an empty bound is open), and
/// any other number of pieces is an error.
pub open spec fn spec_parse_braced(inner: Seq<char>) -> Result<Quantifier, QuantifierParseError> {
    let pieces = split_commas(inner);
    if pieces.len() == 1 {
        match parse_unsigned(pieces[0]) {
            Some(n) => Ok(Quantifier::ExactCount(n)),
            None => Err(QuantifierParseError),
        }
    } else if pieces.len() == 2 {
        let min = if pieces[0].len() > 0 {
            parse_unsigned(pieces[0])
        } else {
            Some(0usize)
        };
        let max = if pieces[1].len() > 0 {
            parse_unsigned(pieces[1])
        } else {
            Some(usize::MAX)
        };
        match (min, max) {
            (Some(a), Some(b)) => if a == 0 && b == usize::MAX {
                Err(QuantifierParseError)
            } else {
                Ok(Quantifier::Range(Range { start: a, end: b }))
            },
            _ => Err(QuantifierParseError),
        }
    } else {
        Err(QuantifierParseError)
    }
}

/// The grammar of a quantifier: `^`, `?`, `*`, `+`, the empty string or a
/// single space, or a brace-delimited count or range.
pub open spec fn spec_parse(s: Seq<char>) -> Result<Quantifier, QuantifierParseError> {
    if s.len() == 0 {
        Ok(Quantifier::One)
    } else if s.len() == 1 {
        if s[0] == '^' {
            Ok(Quantifier::Not)
        } else if s[0] == '?' {
            Ok(Quantifier::ZeroOrOne)
        } else if s[0] == '*' {
            Ok(Quantifier::ZeroOrMore)
        } else if s[0] == '+' {
            Ok(Quantifier::OneOrMore)
        } else if s[0] == ' ' {
            Ok(Quantifier::One)
        } else {
            Err(QuantifierParseError)
        }
    } else if s[0] == '{' && s.last() == '}' {
        spec_parse_braced(s.subrange(1, s.len() - 1))
    } else {
        Err(QuantifierParseError)
    }
}

/// The first index in `from..to` of a comma in `s`, if there is one.
fn find_comma(s: &str, from: usize, to: usize) -> (r: Option<usize>)
    requires
        from <= to <= s@.len(),
    ensures
        match r {
            Some(c) => from <= c < to && s@[c as int] == ',' && comma_free(
                s@.subrange(from as int, c as int),
            ),
            None => comma_free(s@.subrange(from as int, to as int)),
        },
{
    let mut i = from;
    while i < to
        invariant
            from <= i <= to <= s@.len(),
            comma_free(s@.subrange(from as int, i as int)),
        decreases to - i,
    {
        if s.get_char(i) == ',' {
            return Some(i);
        }
        assert(comma_free(s@.subrange(from as int, i + 1))) by {
            assert forall|k: int| 0 <= k < i + 1 - from implies #[trigger] s@.subrange(
                from as int,
                i + 1,
            )[k] != ',' by {
                if k < i - from {
                    assert(s@.subrange(from as int, i + 1)[k] == s@.subrange(from as int, i as int)[k]);
                }
            }
        }
        i = i + 1;
    }
    None
}

/// An optional bound of a range: an empty piece stands for `default`.
fn parse_bound(s: &str, from: usize, to: usize, default: usize) -> (r: Option<usize>)
    requires
        from <= to <= s@.len(),
    ensures
        r == (if to > from {
            parse_unsigned(s@.subrange(from as int, to as int))
        } else {
            Some(default)
        }),
{
    if to > from {
        parse_unsigned_at(s, from, to)
    } else {
        Some(default)
    }
}

/// Parses the text `s[from..to]` between the braces of a quantifier.
fn parse_braced(s: &str, from: usize, to: usize) -> (r: Result<Quantifier, QuantifierParseError>)
    requires
        from <= to <= s@.len(),
    ensures
        r == spec_parse_braced(s@.subrange(from as int, to as int)),
{
    let ghost inner = s@.subrange(from as int, to as int);
    match find_comma(s, from, to) {
        None => {
            proof {
                lemma_split_comma_free(inner);
            }
            match parse_unsigned_at(s, from, to) {
                Some(n) => Ok(Quantifier::ExactCount(n)),
                None => Err(QuantifierParseError),
            }
        },
        Some(c) => {
            let ghost k = c - from;
            proof {
                assert(inner.take(k) =~= s@.subrange(from as int, c as int));
                assert(inner.skip(k + 1) =~= s@.subrange(c + 1, to as int));
                lemma_split_first_comma(inner, k);
            }
            match find_comma(s, c + 1, to) {
                Some(c2) => {
                    proof {
                        let rest = s@.subrange(c + 1, to as int);
                        let k2 = c2 - (c + 1);
                        assert(rest.take(k2) =~= s@.subrange(c + 1, c2 as int));
                        lemma_split_first_comma(rest, k2);
                        lemma_split_nonempty(rest.skip(k2 + 1));
                    }
                    Err(QuantifierParseError)
                },
                None => {
                    proof {
                        lemma_split_comma_free(s@.subrange(c + 1, to as int));
                    }
                    let min = parse_bound(s, from, c, 0);
                    let max = parse_bound(s, c + 1, to, usize::MAX);
                    match (min, max) {
                        (Some(a), Some(b)) => if a == 0 && b == usize::MAX {
                            Err(QuantifierParseError)
                        } else {
                            Ok(Quantifier::Range(Range { start: a, end: b }))
                        },
                        _ => Err(QuantifierParseError),
                    }
                },
            }
        },
    }
}

impl Quantifier {
    /// Parse a `Quantifier`.
    pub fn from_str(s: &str) -> (r: Result<Quantifier, QuantifierParseError>)
        ensures
            r == spec_parse(s@),
    {
        let n = s.unicode_len();
        if n == 0 {
            return Ok(Quantifier::One);
        }
        if n == 1 {
            let c = s.get_char(0);
            if c == '^' {
                return Ok(Quantifier::Not);
            } else if c == '?' {
                return Ok(Quantifier::ZeroOrOne);
            } else if c == '*' {
                return Ok(Quantifier::ZeroOrMore);
            } else if c == '+' {
                return Ok(Quantifier::OneOrMore);
            } else if c == ' ' {
                return Ok(Quantifier::One);
            }
            return Err(QuantifierParseError);
        }
        if s.get_char(0) == '{' && s.get_char(n - 1) == '}' {
            parse_braced(s, 1, n - 1)
        } else {
            Err(QuantifierParseError)
        }
    }
}

/// The decimal digits of `n`, most significant first, without leading zeros
/// (`0` is written as the single digit `0`).
pub open spec fn decimal(n: nat) -> Seq<char>
    decreases n,
{
    if n < 10 {
        seq![digit_char(n)]
    } else {
        decimal(n / 10).push(digit_char(n % 10))
    }
}

/// The ASCII digit for `d`, for `d` below ten.
pub open spec fn digit_char(d: nat) -> char {
    ((d + 48) as u32) as char
}

/// What `Quantifier::from` gives for a text: the parsed quantifier, or `One`
/// (a single match) where the text does not parse.
pub open spec fn spec_from_text(s: Seq<char>) -> Quantifier {
    match spec_parse(s) {
        Ok(q) => q,
        Err(_) => Quantifier::One,
    }
}

impl std::str::FromStr for Quantifier {
    type Err = QuantifierParseError;

    /// Parse a `Quantifier`.
    fn from_str(s: &str) -> (r: Result<Self, Self::Err>)
        ensures
            r == spec_parse(s@),
    {
        Quantifier::from_str(s)
    }
}

impl<'a> From<&'a str> for Quantifier {
    /// Parse a `Quantifier`; a text that does not parse gives `One`.
    fn from(value: &'a str) -> (r: Self) {
        match Quantifier::from_str(value) {
            Ok(q) => q,
            Err(_) => Quantifier::One,
        }
    }
}

impl<'a> vstd::std_specs::convert::FromSpecImpl<&'a str> for Quantifier {
    open spec fn obeys_from_spec() -> bool {
        true
    }

    open spec fn from_spec(value: &'a str) -> Self {
        spec_from_text(value@)
    }
}

impl From<String> for Quantifier {
    /// Parse a `Quantifier`; a text that does not parse gives `One`.
    fn from(value: String) -> (r: Self) {
        Quantifier::from(value.as_str())
    }
}

impl vstd::std_specs::convert::FromSpecImpl<String> for Quantifier {
    open spec fn obeys_from_spec() -> bool {
        true
    }

    open spec fn from_spec(value: String) -> Self {
        spec_from_text(value@)
    }
}

/// The text of a quantifier: the inverse of `spec_parse` on every quantifier
/// but `Invalid` and the unbounded range, which is written as `*`.
pub open spec fn spec_to_string(q: Quantifier) -> Seq<char> {
    match q {
        Quantifier::Invalid => seq!['\0'],
        Quantifier::One => Seq::empty(),
        Quantifier::ZeroOrOne => seq!['?'],
        Quantifier::ZeroOrMore => seq!['*'],
        Quantifier::OneOrMore => seq!['+'],
        Quantifier::ExactCount(n) => seq!['{'] + decimal(n as nat) + seq!['}'],
        Quantifier::Range(range) => if range.start == 0 && range.end == usize::MAX {
            seq!['*']
        } else if range.start == 0 {
            seq!['{', ','] + decimal(range.end as nat) + seq!['}']
        } else if range.end == usize::MAX {
            seq!['{'] + decimal(range.start as nat) + seq![',', '}']
        } else {
            seq!['{'] + decimal(range.start as nat) + seq![','] + decimal(range.end as nat) + seq![
                '}',
            ]
        },
        Quantifier::Not => seq!['^'],
    }
}

/// Appends `c` to `s` with `String::push`, which appends the given character
/// to the end of the string and changes nothing else.
#[verifier::external_body]
fn push_char(s: &mut String, c: char)
    ensures
        final(s)@ == old(s)@.push(c),
{
    s.push(c);
}

fn digit_char_of(d: usize) -> (c: char)
    requires
        d < 10,
    ensures
        c == digit_char(d as nat),
{
    let b: u8 = 48 + d as u8;
    b as char
}

/// Appends the decimal digits of `n` to `s`.
fn push_decimal(s: &mut String, n: usize)
    ensures
        final(s)@ == old(s)@ + decimal(n as nat),
    decreases n,
{
    if n >= 10 {
        push_decimal(s, n / 10);
    }
    push_char(s, digit_char_of(n % 10));
    proof {
        if n < 10 {
            assert(old(s)@.push(digit_char((n % 10) as nat)) =~= old(s)@ + decimal(n as nat));
        } else {
            assert(old(s)@ + decimal((n / 10) as nat) + seq![digit_char((n % 10) as nat)]
                =~= old(s)@ + decimal(n as nat));
        }
    }
}

impl Quantifier {
    /// Convert the `Quantifier` into a `String`.
    pub fn to_string(&self) -> (r: String)
        ensures
            r@ == spec_to_string(*self),
    {
        let mut out = String::new();
        match self {
            Quantifier::Invalid => push_char(&mut out, '\0'),
            Quantifier::One => {},
            Quantifier::ZeroOrOne => push_char(&mut out, '?'),
            Quantifier::ZeroOrMore => push_char(&mut out, '*'),
            Quantifier::OneOrMore => push_char(&mut out, '+'),
            Quantifier::ExactCount(count) => {
                push_char(&mut out, '{');
                push_decimal(&mut out, *count);
                push_char(&mut out, '}');
            },
            Quantifier::Range(range) => {
                if range.start == 0 && range.end == usize::MAX {
                    push_char(&mut out, '*');
                } else if range.start == 0 {
                    push_char(&mut out, '{');
                    push_char(&mut out, ',');
                    push_decimal(&mut out, range.end);
                    push_char(&mut out, '}');
                } else if range.end == usize::MAX {
                    push_char(&mut out, '{');
                    push_decimal(&mut out, range.start);
                    push_char(&mut out, ',');
                    push_char(&mut out, '}');
                } else {
                    push_char(&mut out, '{');
                    push_decimal(&mut out, range.start);
                    push_char(&mut out, ',');
                    push_decimal(&mut out, range.end);
                    push_char(&mut out, '}');
                }
            },
            Quantifier::Not => push_char(&mut out, '^'),
        }
        proof {
            assert(out@ =~= spec_to_string(*self));
        }
        out
    }
}

/// The digits of `decimal(n)` are ASCII digits without a comma or a sign, and
/// denote `n`.
proof fn lemma_decimal(n: nat)
    ensures
        decimal(n).len() > 0,
        all_digits(decimal(n)),
        comma_free(decimal(n)),
        decimal(n)[0] != '+',
        digits_value(decimal(n)) == n,
    decreases n,
{
    let d = n % 10;
    assert(digit_value(digit_char(d)) == d);
    if n >= 10 {
        lemma_decimal(n / 10);
        let prev = decimal(n / 10);
        let cur = decimal(n);
        assert(cur == prev.push(digit_char(d)));
        assert(cur.drop_last() =~= prev);
        assert(n == (n / 10) * 10 + d);
        assert(cur.last() == digit_char(d));
        assert(digits_value(cur) == digits_value(prev) * 10 + digit_value(digit_char(d)));
        assert forall|i: int| 0 <= i < cur.len() implies is_digit(#[trigger] cur[i]) by {
            if i < prev.len() {
                assert(cur[i] == prev[i]);
            }
        }
        assert forall|i: int| 0 <= i < cur.len() implies #[trigger] cur[i] != ',' by {
            if i < prev.len() {
                assert(cur[i] == prev[i]);
            }
        }
    } else {
        assert(decimal(n).drop_last() =~= Seq::<char>::empty());
        assert(digits_value(Seq::<char>::empty()) == 0);
    }
}

proof fn lemma_parse_decimal(n: usize)
    ensures
        parse_unsigned(decimal(n as nat)) == Some(n),
        split_commas(decimal(n as nat)) == seq![decimal(n as nat)],
        comma_free(decimal(n as nat)),
{
    lemma_decimal(n as nat);
    lemma_split_comma_free(decimal(n as nat));
}

/// The text of a count or range is `{`, the text between the braces, and `}`.
proof fn lemma_parse_braces(s: Seq<char>, inner: Seq<char>)
    requires
        s == seq!['{'] + inner + seq!['}'],
    ensures
        spec_parse(s) == spec_parse_braced(inner),
{
    assert(s.len() >= 2);
    assert(s[0] == '{');
    assert(s.last() == '}');
    assert(s.subrange(1, s.len() - 1) =~= inner);
}

proof fn lemma_exact_count_parses_back(n: usize)
    ensures
        spec_parse(spec_to_string(Quantifier::ExactCount(n))) == Ok::<
            Quantifier,
            QuantifierParseError,
        >(Quantifier::ExactCount(n)),
{
    lemma_parse_decimal(n);
    lemma_parse_braces(spec_to_string(Quantifier::ExactCount(n)), decimal(n as nat));
}

proof fn lemma_range_parses_back(a: usize, b: usize)
    requires
        !(a == 0 && b == usize::MAX),
    ensures
        spec_parse(spec_to_string(Quantifier::Range(Range { start: a, end: b }))) == Ok::<
            Quantifier,
            QuantifierParseError,
        >(Quantifier::Range(Range { start: a, end: b })),
{
    let s = spec_to_string(Quantifier::Range(Range { start: a, end: b }));
    lemma_parse_decimal(a);
    lemma_parse_decimal(b);
    if a == 0 {
        let inner = seq![','] + decimal(b as nat);
        assert(s =~= seq!['{'] + inner + seq!['}']);
        lemma_parse_braces(s, inner);
        assert(inner.take(0) =~= Seq::<char>::empty());
        assert(inner.skip(1) =~= decimal(b as nat));
        lemma_split_first_comma(inner, 0);
        assert(split_commas(inner) =~= seq![Seq::<char>::empty(), decimal(b as nat)]);
    } else if b == usize::MAX {
        lemma_range_open_end_parses_back(a);
    } else {
        lemma_range_closed_parses_back(a, b);
    }
}

proof fn lemma_range_open_end_parses_back(a: usize)
    requires
        a != 0,
    ensures
        spec_parse(spec_to_string(Quantifier::Range(Range { start: a, end: usize::MAX }))) == Ok::<
            Quantifier,
            QuantifierParseError,
        >(Quantifier::Range(Range { start: a, end: usize::MAX })),
{
    let s = spec_to_string(Quantifier::Range(Range { start: a, end: usize::MAX }));
    lemma_parse_decimal(a);
    let inner = decimal(a as nat) + seq![','];
    assert(s =~= seq!['{'] + inner + seq!['}']);
    lemma_parse_braces(s, inner);
    let k = decimal(a as nat).len() as int;
    assert(inner.take(k) =~= decimal(a as nat));
    assert(inner.skip(k + 1) =~= Seq::<char>::empty());
    lemma_split_first_comma(inner, k);
    assert(split_commas(Seq::<char>::empty()) == seq![Seq::<char>::empty()]);
    assert(split_commas(inner) =~= seq![decimal(a as nat), Seq::<char>::empty()]);
}

proof fn lemma_range_closed_parses_back(a: usize, b: usize)
    requires
        a != 0,
        b != usize::MAX,
    ensures
        spec_parse(spec_to_string(Quantifier::Range(Range { start: a, end: b }))) == Ok::<
            Quantifier,
            QuantifierParseError,
        >(Quantifier::Range(Range { start: a, end: b })),
{
    let s = spec_to_string(Quantifier::Range(Range { start: a, end: b }));
    lemma_parse_decimal(a);
    lemma_parse_decimal(b);
    let inner = decimal(a as nat) + seq![','] + decimal(b as nat);
    assert(s =~= seq!['{'] + inner + seq!['}']);
    lemma_parse_braces(s, inner);
    let k = decimal(a as nat).len() as int;
    assert(inner.take(k) =~= decimal(a as nat));
    assert(inner.skip(k + 1) =~= decimal(b as nat));
    lemma_split_first_comma(inner, k);
    assert(split_commas(inner) =~= seq![decimal(a as nat), decimal(b as nat)]);
}

/// Law: printing a quantifier and parsing the text gives the quantifier back,
/// for every quantifier but `Invalid` (printed as a NUL character, which does
/// not parse) and the unbounded range `0..usize::MAX` (printed as `*`, which
/// parses as `ZeroOrMore`).
pub proof fn lemma_to_string_parses_back(q: Quantifier)
    requires
        q != Quantifier::Invalid,
        !(q matches Quantifier::Range(range) && range.start == 0 && range.end == usize::MAX),
    ensures
        spec_parse(spec_to_string(q)) == Ok::<Quantifier, QuantifierParseError>(q),
{
    match q {
        Quantifier::ExactCount(n) => lemma_exact_count_parses_back(n),
        Quantifier::Range(range) => {
            lemma_range_parses_back(range.start, range.end);
            assert(Range { start: range.start, end: range.end } == range);
        },
        _ => {},
    }
}

/// Law: parsing never yields `Invalid` or the unbounded range, so the text of a
/// parsed quantifier parses to the same quantifier.
pub proof fn lemma_parse_print_parse(s: Seq<char>)
    ensures
        spec_parse(s) matches Ok(q) ==> spec_parse(spec_to_string(q)) == Ok::<
            Quantifier,
            QuantifierParseError,
        >(q),
{
    if let Ok(q) = spec_parse(s) {
        lemma_to_string_parses_back(q);
    }
}

/// Law: `Quantifier::from` of the text of a quantifier gives the quantifier
/// back, for every quantifier but `Invalid`, which comes back as `One`, and
/// the unbounded range `0..usize::MAX`, which comes back as `ZeroOrMore`.
pub proof fn lemma_from_to_string(q: Quantifier)
    requires
        q != Quantifier::Invalid,
        !(q matches Quantifier::Range(range) && range.start == 0 && range.end == usize::MAX),
    ensures
        spec_from_text(spec_to_string(q)) == q,
{
    lemma_to_string_parses_back(q);
}

/// Law: text that does not parse is read by `Quantifier::from` as `One`, and
/// no text is read as `Invalid`.
pub proof fn lemma_from_never_invalid(s: Seq<char>)
    ensures
        spec_parse(s) is Err ==> spec_from_text(s) == Quantifier::One,
        spec_from_text(s) != Quantifier::Invalid,
{
}

/// Law: what the braced forms read, for every count and bounds written in
/// decimal: `{n}` (or `{+n}`) is `ExactCount(n)`; `{a,b}` is the range
/// `a..b`; `{a,}` is the range from `a` on and `{,b}` the range up to `b`;
/// a range that leaves out nothing (from `0` to `usize::MAX`, as `{0,}`,
/// `{,}` or with both bounds written) is refused.
pub proof fn lemma_parse_braced_forms(a: usize, b: usize)
    ensures
        spec_parse(seq!['{'] + decimal(a as nat) + seq!['}']) == Ok::<
            Quantifier,
            QuantifierParseError,
        >(Quantifier::ExactCount(a)),
        spec_parse(seq!['{', '+'] + decimal(a as nat) + seq!['}']) == Ok::<
            Quantifier,
            QuantifierParseError,
        >(Quantifier::ExactCount(a)),
        spec_parse(seq!['{'] + decimal(a as nat) + seq![','] + decimal(b as nat) + seq!['}']) == if a
            == 0 && b == usize::MAX {
            Err::<Quantifier, QuantifierParseError>(QuantifierParseError)
        } else {
            Ok(Quantifier::Range(Range { start: a, end: b }))
        },
        spec_parse(seq!['{'] + decimal(a as nat) + seq![',', '}']) == if a == 0 {
            Err::<Quantifier, QuantifierParseError>(QuantifierParseError)
        } else {
            Ok(Quantifier::Range(Range { start: a, end: usize::MAX }))
        },
        spec_parse(seq!['{', ','] + decimal(b as nat) + seq!['}']) == if b == usize::MAX {
            Err::<Quantifier, QuantifierParseError>(QuantifierParseError)
        } else {
            Ok(Quantifier::Range(Range { start: 0, end: b }))
        },
        spec_parse(seq!['{', ',', '}']) == Err::<Quantifier, QuantifierParseError>(
            QuantifierParseError,
        ),
{
    let da = decimal(a as nat);
    let db = decimal(b as nat);
    let empty = Seq::<char>::empty();
    lemma_parse_decimal(a);
    lemma_parse_decimal(b);
    // `{n}`
    lemma_parse_braces(seq!['{'] + da + seq!['}'], da);
    // `{+n}`
    let signed = seq!['+'] + da;
    lemma_decimal(a as nat);
    assert(signed.drop_first() =~= da);
    assert(signed[0] == '+');
    assert(parse_unsigned(signed) == Some(a));
    assert(comma_free(signed)) by {
        assert forall|i: int| 0 <= i < signed.len() implies #[trigger] signed[i] != ',' by {
            if i > 0 {
                assert(signed[i] == da[i - 1]);
            }
        }
    }
    lemma_split_comma_free(signed);
    assert(seq!['{', '+'] + da + seq!['}'] =~= seq!['{'] + signed + seq!['}']);
    lemma_parse_braces(seq!['{', '+'] + da + seq!['}'], signed);
    // `{a,b}`
    let both = da + seq![','] + db;
    assert(seq!['{'] + da + seq![','] + db + seq!['}'] =~= seq!['{'] + both + seq!['}']);
    lemma_parse_braces(seq!['{'] + da + seq![','] + db + seq!['}'], both);
    let k = da.len() as int;
    assert(both.take(k) =~= da);
    assert(both.skip(k + 1) =~= db);
    lemma_split_first_comma(both, k);
    assert(split_commas(both) =~= seq![da, db]);
    // `{a,}`
    let open_end = da + seq![','];
    assert(seq!['{'] + da + seq![',', '}'] =~= seq!['{'] + open_end + seq!['}']);
    lemma_parse_braces(seq!['{'] + open_end + seq!['}'], open_end);
    assert(open_end.take(k) =~= da);
    assert(open_end.skip(k + 1) =~= empty);
    lemma_split_first_comma(open_end, k);
    assert(split_commas(empty) == seq![empty]);
    assert(split_commas(open_end) =~= seq![da, empty]);
    // `{,b}`
    let open_start = seq![','] + db;
    assert(seq!['{', ','] + db + seq!['}'] =~= seq!['{'] + open_start + seq!['}']);
    lemma_parse_braces(seq!['{'] + open_start + seq!['}'], open_start);
    assert(open_start.take(0) =~= empty);
    assert(open_start.skip(1) =~= db);
    lemma_split_first_comma(open_start, 0);
    assert(split_commas(open_start) =~= seq![empty, db]);
    // `{,}`
    let bare = seq![','];
    assert(seq!['{', ',', '}'] =~= seq!['{'] + bare + seq!['}']);
    lemma_parse_braces(seq!['{'] + bare + seq!['}'], bare);
    assert(bare.take(0) =~= empty);
    assert(bare.skip(1) =~= empty);
    lemma_split_first_comma(bare, 0);
    assert(split_commas(bare) =~= seq![empty, empty]);
}

} // verus!
