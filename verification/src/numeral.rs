//! Numerals: what counts as one, what a decimal numeral is worth in
//! millionths, the words for unbounded numbers and for not-a-number, and the
//! reader that tells them apart.

use crate::fixed::{append_rounded, clamp_of, min_of, saturated, two_decimal_text, Fixed};
use crate::text::{chars_of, eq_ignoring_ascii_case, folded, same_ignoring_ascii_case, tail_of};
use vstd::arithmetic::div_mod::{lemma_basic_div, lemma_fundamental_div_mod_converse};
use vstd::prelude::*;
use vstd::string::*;

verus! {

pub open spec fn is_digit(c: char) -> bool {
    '0' <= c && c <= '9'
}

pub open spec fn digit_value(c: char) -> int {
    c as int - '0' as int
}

pub open spec fn all_digits(s: Seq<char>) -> bool {
    forall|i: int| 0 <= i < s.len() ==> is_digit(#[trigger] s[i])
}

/// The number that a run of decimal digits writes.
pub open spec fn digits_value(s: Seq<char>) -> int
    decreases s.len(),
{
    if s.len() == 0 {
        0
    } else {
        digits_value(s.drop_last()) * 10 + digit_value(s.last())
    }
}

pub open spec fn pow10(n: nat) -> int
    decreases n,
{
    if n == 0 {
        1
    } else {
        10 * pow10((n - 1) as nat)
    }
}

/// Index of the first `.` in `s`, or `s.len()` where it has none.
pub open spec fn first_point(s: Seq<char>) -> int
    decreases s.len(),
{
    if s.len() == 0 {
        0
    } else if s[0] == '.' {
        0
    } else {
        1 + first_point(s.drop_first())
    }
}

/// The letter that opens an exponent.
pub open spec fn is_mark(c: char) -> bool {
    c == 'e' || c == 'E'
}

/// Index of the first exponent mark in `s`, or `s.len()` where it has none.
pub open spec fn first_mark(s: Seq<char>) -> int
    decreases s.len(),
{
    if s.len() == 0 {
        0
    } else if is_mark(s[0]) {
        0
    } else {
        1 + first_mark(s.drop_first())
    }
}

pub open spec fn has_sign(s: Seq<char>) -> bool {
    s.len() > 0 && (s[0] == '+' || s[0] == '-')
}

pub open spec fn is_negative(s: Seq<char>) -> bool {
    s.len() > 0 && s[0] == '-'
}

/// A text without its leading sign, if it has one.
pub open spec fn unsigned_part(s: Seq<char>) -> Seq<char> {
    if has_sign(s) { s.skip(1) } else { s }
}

/// What stands before the exponent mark of an unsigned numeral.
pub open spec fn mantissa(u: Seq<char>) -> Seq<char> {
    u.take(first_mark(u))
}

/// Whether an unsigned numeral has an exponent mark.
pub open spec fn has_exponent(u: Seq<char>) -> bool {
    first_mark(u) < u.len()
}

/// What stands after the exponent mark of an unsigned numeral that has one.
pub open spec fn exponent_part(u: Seq<char>) -> Seq<char> {
    u.skip(first_mark(u) + 1)
}

/// The digits before the point of a mantissa.
pub open spec fn whole_digits(m: Seq<char>) -> Seq<char> {
    m.take(first_point(m))
}

/// The digits after the point of a mantissa; empty where it has no point.
pub open spec fn fraction_digits(m: Seq<char>) -> Seq<char> {
    if first_point(m) < m.len() { m.skip(first_point(m) + 1) } else { Seq::empty() }
}

/// All digits of a mantissa, the point left out.
pub open spec fn mantissa_digits(m: Seq<char>) -> Seq<char> {
    whole_digits(m) + fraction_digits(m)
}

/// Digits with at most one point among them, before them or after them, and
/// at least one digit in all.
pub open spec fn is_mantissa(m: Seq<char>) -> bool {
    &&& all_digits(whole_digits(m))
    &&& all_digits(fraction_digits(m))
    &&& mantissa_digits(m).len() > 0
}

/// An optional sign and at least one digit.
pub open spec fn is_exponent(x: Seq<char>) -> bool {
    unsigned_part(x).len() > 0 && all_digits(unsigned_part(x))
}

pub open spec fn exponent_value(x: Seq<char>) -> int {
    if is_negative(x) {
        -digits_value(unsigned_part(x))
    } else {
        digits_value(unsigned_part(x))
    }
}

/// Whether `s` is a decimal numeral: an optional sign, a mantissa, and
/// optionally `e` or `E` with a signed whole exponent. `12`, `-0.5`, `+.75`,
/// `3.`, `1e3` and `2.5E-1` are numerals; `.`, `e5`, `1e`, `0x10`, `abc`,
/// ` 1` and the empty text are not. The words `inf`, `infinity` and `nan`
/// are no decimal numerals either; [`parsed_reading`] reads them apart.
pub open spec fn is_decimal(s: Seq<char>) -> bool {
    let u = unsigned_part(s);
    &&& is_mantissa(mantissa(u))
    &&& has_exponent(u) ==> is_exponent(exponent_part(u))
}

/// `v` times ten to the power `p`, cut to a whole number.
pub open spec fn scaled(v: int, p: int) -> int {
    if p >= 0 {
        v * pow10(p as nat)
    } else {
        v / pow10((-p) as nat)
    }
}

/// The exponent that an unsigned numeral carries, zero where it has none.
pub open spec fn exponent_of(u: Seq<char>) -> int {
    if has_exponent(u) { exponent_value(exponent_part(u)) } else { 0 }
}

/// The number that the digits of an unsigned numeral's mantissa write, the
/// point left out.
pub open spec fn mantissa_value(u: Seq<char>) -> int {
    digits_value(mantissa_digits(mantissa(u)))
}

/// The power of ten by which that number is a count of millionths.
pub open spec fn micro_power(u: Seq<char>) -> int {
    6 + exponent_of(u) - fraction_digits(mantissa(u)).len()
}

/// Whether an unsigned numeral writes more than whole millionths: a digit
/// other than zero past the sixth fractional place.
pub open spec fn writes_beyond(u: Seq<char>) -> bool {
    micro_power(u) < 0 && mantissa_value(u) % pow10((-micro_power(u)) as nat) != 0
}

/// Millionths written by an unsigned numeral: its value cut toward zero,
/// but one millionth for a value above zero that is less than that, so that
/// only zero is read as zero.
pub open spec fn magnitude_micros(u: Seq<char>) -> int {
    let cut = scaled(mantissa_value(u), micro_power(u));
    if cut == 0 && mantissa_value(u) > 0 {
        1
    } else {
        cut
    }
}

/// Millionths written by a decimal numeral, before any limit of size.
pub open spec fn decimal_micros(s: Seq<char>) -> int {
    if is_negative(s) {
        -magnitude_micros(unsigned_part(s))
    } else {
        magnitude_micros(unsigned_part(s))
    }
}

/// The value that a text is read as: the numeral's value in millionths,
/// cut toward zero to six fractional digits, never zero unless the numeral
/// is, and limited to the range of `i64` millionths; or `None` for a text
/// that is no numeral.
pub open spec fn parsed_decimal(s: Seq<char>) -> Option<int> {
    if is_decimal(s) { Some(saturated(decimal_micros(s))) } else { None }
}

/// The word for a number beyond every bound.
pub open spec fn inf_word() -> Seq<char> {
    seq!['i', 'n', 'f']
}

/// The same word in full.
pub open spec fn infinity_word() -> Seq<char> {
    seq!['i', 'n', 'f', 'i', 'n', 'i', 't', 'y']
}

/// The word for what is no number.
pub open spec fn nan_word() -> Seq<char> {
    seq!['n', 'a', 'n']
}

/// Whether `s` writes a number beyond every bound: an optional sign, then
/// `inf` or `infinity` in any mix of upper and lower case.
pub open spec fn is_unbounded(s: Seq<char>) -> bool {
    same_ignoring_ascii_case(unsigned_part(s), inf_word()) || same_ignoring_ascii_case(
        unsigned_part(s),
        infinity_word(),
    )
}

/// Whether `s` writes not-a-number: an optional sign, then `nan` in any mix
/// of upper and lower case.
pub open spec fn is_not_a_number(s: Seq<char>) -> bool {
    same_ignoring_ascii_case(unsigned_part(s), nan_word())
}

/// How an unbounded number is written out.
pub open spec fn unbounded_text() -> Seq<char> {
    seq!['i', 'n', 'f']
}

/// How not-a-number is written out.
pub open spec fn not_a_number_text() -> Seq<char> {
    seq!['N', 'a', 'N']
}

/// What a numeral is read as.
#[derive(Clone, Copy, Debug, PartialEq, Eq, Structural)]
pub enum Reading {
    /// A number within bounds: `value` in millionths. With `beyond` the
    /// numeral writes more than whole millionths, so that its own value is
    /// not `value` but lies within a millionth of it.
    Finite { value: Fixed, beyond: bool },
    /// A number beyond every bound, below all others if `negative` and
    /// above them if not.
    Unbounded { negative: bool },
    /// No number.
    NotANumber,
}

impl Reading {
    /// The count of millionths that stands for the reading wherever a bet is
    /// worked out from it. An unbounded number counts as the largest or the
    /// smallest count there is. A bet is only ever held to limits and scaled,
    /// and not-a-number yields to every limit, so it counts as zero.
    pub open spec fn micros(self) -> int {
        match self {
            Reading::Finite { value, beyond } => value@,
            Reading::Unbounded { negative } => if negative {
                i64::MIN as int
            } else {
                i64::MAX as int
            },
            Reading::NotANumber => 0,
        }
    }

    /// Whether the numeral writes more than the millionths counted.
    pub open spec fn writes_more(self) -> bool {
        match self {
            Reading::Finite { value, beyond } => beyond,
            _ => false,
        }
    }

    pub open spec fn is_unbounded_above(self) -> bool {
        self == (Reading::Unbounded { negative: false })
    }

    /// The reading written out: a number within bounds with two fractional
    /// digits, the others by their names.
    pub open spec fn text(self) -> Seq<char> {
        match self {
            Reading::Finite { value, beyond } => two_decimal_text(value@, beyond),
            Reading::Unbounded { negative } => if negative {
                seq!['-'] + unbounded_text()
            } else {
                unbounded_text()
            },
            Reading::NotANumber => not_a_number_text(),
        }
    }
}

/// What a text is read as: a decimal numeral as its value, `inf` and
/// `infinity` as unbounded, `nan` as not-a-number, and anything else as
/// `None`.
pub open spec fn parsed_reading(s: Seq<char>) -> Option<Reading> {
    if is_decimal(s) {
        Some(
            Reading::Finite {
                value: Fixed { micros: saturated(decimal_micros(s)) as i64 },
                beyond: writes_beyond(unsigned_part(s)),
            },
        )
    } else if is_unbounded(s) {
        Some(Reading::Unbounded { negative: is_negative(s) })
    } else if is_not_a_number(s) {
        Some(Reading::NotANumber)
    } else {
        None
    }
}

proof fn lemma_first_point(s: Seq<char>, p: int)
    requires
        0 <= p <= s.len(),
        forall|j: int| 0 <= j < p ==> s[j] != '.',
    ensures
        p <= first_point(s) <= s.len(),
        p == s.len() ==> first_point(s) == p,
        p < s.len() && s[p] == '.' ==> first_point(s) == p,
    decreases s.len(),
{
    if s.len() == 0 {
    } else if s[0] == '.' {
    } else {
        let t = s.drop_first();
        if p == 0 {
            lemma_first_point(t, 0);
        } else {
            assert forall|j: int| 0 <= j < p - 1 implies t[j] != '.' by {
                assert(t[j] == s[j + 1]);
            }
            lemma_first_point(t, p - 1);
        }
    }
}

proof fn lemma_first_mark(s: Seq<char>, p: int)
    requires
        0 <= p <= s.len(),
        forall|j: int| 0 <= j < p ==> !is_mark(s[j]),
    ensures
        p <= first_mark(s) <= s.len(),
        p == s.len() ==> first_mark(s) == p,
        p < s.len() && is_mark(s[p]) ==> first_mark(s) == p,
    decreases s.len(),
{
    if s.len() == 0 {
    } else if is_mark(s[0]) {
    } else {
        let t = s.drop_first();
        if p == 0 {
            lemma_first_mark(t, 0);
        } else {
            assert forall|j: int| 0 <= j < p - 1 implies !is_mark(t[j]) by {
                assert(t[j] == s[j + 1]);
            }
            lemma_first_mark(t, p - 1);
        }
    }
}

proof fn lemma_digits_value_push(s: Seq<char>, n: int)
    requires
        0 <= n < s.len(),
    ensures
        digits_value(s.take(n + 1)) == digits_value(s.take(n)) * 10 + digit_value(s[n]),
{
    assert(s.take(n + 1).drop_last() =~= s.take(n));
}

proof fn lemma_pow10_positive(n: nat)
    ensures
        pow10(n) >= 1,
    decreases n,
{
    if n > 0 {
        lemma_pow10_positive((n - 1) as nat);
    }
}

proof fn lemma_pow10_add(a: nat, b: nat)
    ensures
        pow10(a + b) == pow10(a) * pow10(b),
    decreases a,
{
    if a == 0 {
        assert(pow10(0) == 1);
        assert(1 * pow10(b) == pow10(b));
    } else {
        lemma_pow10_add((a - 1) as nat, b);
        let x = pow10((a - 1) as nat);
        let y = pow10(b);
        assert(pow10(a + b) == 10 * pow10(((a - 1) + b) as nat));
        assert(10 * (x * y) == (10 * x) * y) by (nonlinear_arith);
    }
}

proof fn lemma_pow10_monotone(a: nat, b: nat)
    requires
        a <= b,
    ensures
        pow10(a) <= pow10(b),
{
    lemma_pow10_add(a, (b - a) as nat);
    lemma_pow10_positive(a);
    lemma_pow10_positive((b - a) as nat);
    let x = pow10(a);
    let y = pow10((b - a) as nat);
    assert(x <= x * y) by (nonlinear_arith)
        requires
            x >= 1,
            y >= 1,
    ;
}

proof fn lemma_digits_value_bounds(d: Seq<char>)
    requires
        all_digits(d),
    ensures
        0 <= digits_value(d) < pow10(d.len()),
    decreases d.len(),
{
    if d.len() > 0 {
        let t = d.drop_last();
        assert forall|i: int| 0 <= i < t.len() implies is_digit(#[trigger] t[i]) by {
            assert(t[i] == d[i]);
        }
        lemma_digits_value_bounds(t);
        assert(is_digit(d[d.len() - 1]));
        assert(pow10(d.len()) == 10 * pow10(t.len()));
    }
}

/// The digits of a mantissa, the point left out, are digits, and are worth
/// a number that is not negative.
proof fn lemma_mantissa_digits(m: Seq<char>)
    requires
        all_digits(whole_digits(m)),
        all_digits(fraction_digits(m)),
    ensures
        all_digits(mantissa_digits(m)),
        0 <= digits_value(mantissa_digits(m)) < pow10(mantissa_digits(m).len()),
{
    let d = mantissa_digits(m);
    assert forall|j: int| 0 <= j < d.len() implies is_digit(#[trigger] d[j]) by {
        if j < whole_digits(m).len() {
            assert(d[j] == whole_digits(m)[j]);
        } else {
            assert(d[j] == fraction_digits(m)[j - whole_digits(m).len()]);
        }
    }
    lemma_digits_value_bounds(d);
}

/// A run of digits is worth its first `j` digits, moved up by the places
/// of the rest, plus the rest.
proof fn lemma_digits_value_split(d: Seq<char>, j: int)
    requires
        all_digits(d),
        0 <= j <= d.len(),
    ensures
        all_digits(d.take(j)),
        all_digits(d.skip(j)),
        digits_value(d) == digits_value(d.take(j)) * pow10((d.len() - j) as nat) + digits_value(
            d.skip(j),
        ),
    decreases d.len(),
{
    assert forall|i: int| 0 <= i < d.take(j).len() implies is_digit(#[trigger] d.take(j)[i]) by {
        assert(d.take(j)[i] == d[i]);
    }
    assert forall|i: int| 0 <= i < d.skip(j).len() implies is_digit(#[trigger] d.skip(j)[i]) by {
        assert(d.skip(j)[i] == d[j + i]);
    }
    if j == d.len() {
        assert(d.take(j) =~= d);
        assert(d.skip(j) =~= Seq::<char>::empty());
        assert(pow10(0) == 1);
        assert(digits_value(d) * 1 == digits_value(d));
    } else {
        let before = d.drop_last();
        assert forall|i: int| 0 <= i < before.len() implies is_digit(#[trigger] before[i]) by {
            assert(before[i] == d[i]);
        }
        lemma_digits_value_split(before, j);
        assert(before.take(j) =~= d.take(j));
        assert(d.skip(j).drop_last() =~= before.skip(j));
        assert(d.skip(j).last() == d.last());
        let h = digits_value(d.take(j));
        let p = pow10((before.len() - j) as nat);
        let t = digits_value(before.skip(j));
        let last = digit_value(d.last());
        assert(pow10((d.len() - j) as nat) == 10 * p);
        assert((h * p + t) * 10 + last == h * (10 * p) + (t * 10 + last)) by (nonlinear_arith);
    }
}

/// Dividing the value of a run of digits by ten to the `k` leaves the value
/// of all but its last `k` digits, with the value of those as remainder.
proof fn lemma_digits_value_parts(d: Seq<char>, k: nat)
    requires
        all_digits(d),
        k <= d.len(),
    ensures
        digits_value(d) / pow10(k) == digits_value(d.take(d.len() - k)),
        digits_value(d) % pow10(k) == digits_value(d.skip(d.len() - k)),
{
    let j = d.len() - k;
    lemma_digits_value_split(d, j);
    lemma_digits_value_bounds(d.skip(j));
    lemma_pow10_positive(k);
    lemma_fundamental_div_mod_converse(
        digits_value(d),
        pow10(k),
        digits_value(d.take(j)),
        digits_value(d.skip(j)),
    );
}

/// A run of zeros is worth nothing.
proof fn lemma_digits_zero(d: Seq<char>)
    requires
        forall|i: int| 0 <= i < d.len() ==> d[i] == '0',
    ensures
        digits_value(d) == 0,
    decreases d.len(),
{
    if d.len() > 0 {
        let before = d.drop_last();
        assert forall|i: int| 0 <= i < before.len() implies before[i] == '0' by {
            assert(before[i] == d[i]);
        }
        lemma_digits_zero(before);
        assert(d.last() == d[d.len() - 1]);
    }
}

/// A run of digits with a digit other than zero is worth something.
proof fn lemma_digits_nonzero(d: Seq<char>, at: int)
    requires
        all_digits(d),
        0 <= at < d.len(),
        d[at] != '0',
    ensures
        digits_value(d) > 0,
    decreases d.len(),
{
    let before = d.drop_last();
    assert forall|i: int| 0 <= i < before.len() implies is_digit(#[trigger] before[i]) by {
        assert(before[i] == d[i]);
    }
    lemma_digits_value_bounds(before);
    assert(is_digit(d[d.len() - 1]));
    if at < d.len() - 1 {
        assert(before[at] == d[at]);
        lemma_digits_nonzero(before, at);
    }
}

proof fn lemma_scaled_vanishes(v: int, len: nat, p: int)
    requires
        0 <= v < pow10(len),
        p < 0,
        -p >= len,
    ensures
        scaled(v, p) == 0,
{
    lemma_pow10_monotone(len, (-p) as nat);
    lemma_basic_div(v, pow10((-p) as nat));
}

proof fn lemma_scaled_exceeds(v: int, p: int)
    requires
        v >= 1,
        p >= 19,
    ensures
        scaled(v, p) >= 10_000_000_000_000_000_000,
{
    lemma_pow10_monotone(19, p as nat);
    assert(pow10(19) == 10_000_000_000_000_000_000) by {
        reveal_with_fuel(pow10, 20);
    }
    let y = pow10(p as nat);
    assert(v * y >= y) by (nonlinear_arith)
        requires
            v >= 1,
            y >= 1,
    ;
}

/// Magnitudes at or above this already exceed every `i64`, so larger ones
/// need not be told apart.
const LIMIT: u128 = 10_000_000_000_000_000_000;

/// Exponents beyond this in size move every mantissa out of range or down
/// to nothing, so larger ones need not be told apart.
const EXPONENT_LIMIT: u128 = 1_000_000_000_000_000_000_000_000;

pub fn is_digit_char(c: char) -> (b: bool)
    ensures
        b == is_digit(c),
{
    '0' <= c && c <= '9'
}

/// The value of a digit character.
pub fn digit_of(c: char) -> (d: u8)
    requires
        is_digit(c),
    ensures
        d as int == digit_value(c),
        d <= 9,
{
    let code: u32 = c as u32;
    (code - 48) as u8
}

/// The end of the run of digits that starts at `from`.
fn scan_digits(text: &[char], from: usize) -> (to: usize)
    requires
        from <= text.len(),
    ensures
        from <= to <= text.len(),
        forall|j: int| from <= j < to ==> is_digit(#[trigger] text@[j]),
        to < text.len() ==> !is_digit(text@[to as int]),
{
    let mut to: usize = from;
    while to < text.len() && is_digit_char(text[to])
        invariant
            from <= to <= text.len(),
            forall|j: int| from <= j < to ==> is_digit(#[trigger] text@[j]),
        decreases text.len() - to,
    {
        to += 1;
    }
    to
}

/// The value of the digits in `text[from..to]`, held at `limit`.
fn digits_held(text: &[char], from: usize, to: usize, limit: u128) -> (value: u128)
    requires
        from <= to <= text.len(),
        limit <= 1_000_000_000_000_000_000_000_000_000_000,
        all_digits(text@.subrange(from as int, to as int)),
    ensures
        value as int == min_of(digits_value(text@.subrange(from as int, to as int)), limit as int),
{
    let ghost d = text@.subrange(from as int, to as int);
    let mut value: u128 = 0;
    let mut i: usize = from;
    while i < to
        invariant
            from <= i <= to <= text.len(),
            d == text@.subrange(from as int, to as int),
            all_digits(d),
            limit <= 1_000_000_000_000_000_000_000_000_000_000,
            value as int == min_of(digits_value(d.take(i - from)), limit as int),
        decreases to - i,
    {
        proof {
            lemma_digits_value_push(d, i - from);
            assert(d[i - from] == text@[i as int]);
            assert(is_digit(d[i - from]));
        }
        value = value * 10 + digit_of(text[i]) as u128;
        if value > limit {
            value = limit;
        }
        i += 1;
    }
    assert(d.take(to - from) =~= d);
    value
}

/// Reads the exponent that starts at `from`, held to the exponent limit.
fn parse_exponent(text: &[char], from: usize) -> (r: Option<i128>)
    requires
        from <= text.len(),
    ensures
        r is Some <==> is_exponent(text@.skip(from as int)),
        r is Some ==> r->0 as int == clamp_of(
            exponent_value(text@.skip(from as int)),
            -(EXPONENT_LIMIT as int),
            EXPONENT_LIMIT as int,
        ),
{
    let n: usize = text.len();
    let ghost x = text@.skip(from as int);
    let mut negative: bool = false;
    let mut start: usize = from;
    if from < n {
        let c = text[from];
        assert(x[0] == c);
        if c == '+' || c == '-' {
            negative = c == '-';
            start = from + 1;
        }
    }
    let ghost d = unsigned_part(x);
    assert(d =~= text@.subrange(start as int, n as int));
    let to = scan_digits(text, start);
    if to < n {
        assert(d[to - start] == text@[to as int]);
        return None;
    }
    if start == n {
        return None;
    }
    let size: u128 = digits_held(text, start, n, EXPONENT_LIMIT);
    proof {
        lemma_digits_value_bounds(d);
    }
    let held: i128 = size as i128;
    if negative {
        Some(-held)
    } else {
        Some(held)
    }
}

/// The digits of a mantissa as they lie in a text: those of
/// `text[start..whole_end]`, then those of `text[fraction_start..fraction_end]`.
spec fn run_of(text: Seq<char>, start: int, whole_end: int, fraction_start: int, fraction_end: int) -> Seq<
    char,
> {
    text.subrange(start, whole_end) + text.subrange(fraction_start, fraction_end)
}

/// The value of the first `keep` digits of a mantissa, held at [`LIMIT`].
fn leading_value(
    text: &[char],
    start: usize,
    whole_end: usize,
    fraction_start: usize,
    fraction_end: usize,
    keep: usize,
) -> (value: u128)
    requires
        start <= whole_end <= fraction_start <= fraction_end <= text.len(),
        all_digits(
            run_of(text@, start as int, whole_end as int, fraction_start as int, fraction_end as int),
        ),
        keep <= (whole_end - start) + (fraction_end - fraction_start),
    ensures
        value as int == min_of(
            digits_value(
                run_of(
                    text@,
                    start as int,
                    whole_end as int,
                    fraction_start as int,
                    fraction_end as int,
                ).take(keep as int),
            ),
            LIMIT as int,
        ),
{
    let ghost d = run_of(
        text@,
        start as int,
        whole_end as int,
        fraction_start as int,
        fraction_end as int,
    );
    let mut value: u128 = 0;
    let mut taken: usize = 0;
    let mut i: usize = start;
    while i < whole_end && taken < keep
        invariant
            start <= i <= whole_end <= fraction_start <= fraction_end <= text.len(),
            d == run_of(
                text@,
                start as int,
                whole_end as int,
                fraction_start as int,
                fraction_end as int,
            ),
            all_digits(d),
            taken == i - start,
            taken <= keep <= d.len(),
            value as int == min_of(digits_value(d.take(taken as int)), LIMIT as int),
        decreases whole_end - i,
    {
        proof {
            lemma_digits_value_push(d, taken as int);
            assert(d[taken as int] == text@[i as int]);
            assert(is_digit(d[taken as int]));
        }
        value = value * 10 + digit_of(text[i]) as u128;
        if value > LIMIT {
            value = LIMIT;
        }
        i += 1;
        taken += 1;
    }
    if taken < keep {
        let mut j: usize = fraction_start;
        while j < fraction_end && taken < keep
            invariant
                start <= whole_end <= fraction_start <= j <= fraction_end <= text.len(),
                d == run_of(
                    text@,
                    start as int,
                    whole_end as int,
                    fraction_start as int,
                    fraction_end as int,
                ),
                all_digits(d),
                taken == (whole_end - start) + (j - fraction_start),
                taken <= keep <= d.len(),
                value as int == min_of(digits_value(d.take(taken as int)), LIMIT as int),
            decreases fraction_end - j,
        {
            proof {
                lemma_digits_value_push(d, taken as int);
                assert(d[taken as int] == text@[j as int]);
                assert(is_digit(d[taken as int]));
            }
            value = value * 10 + digit_of(text[j]) as u128;
            if value > LIMIT {
                value = LIMIT;
            }
            j += 1;
            taken += 1;
        }
    }
    value
}

/// Whether a digit other than zero stands among the digits of a mantissa
/// from the one at index `from` on.
fn any_nonzero(
    text: &[char],
    start: usize,
    whole_end: usize,
    fraction_start: usize,
    fraction_end: usize,
    from: usize,
) -> (found: bool)
    requires
        start <= whole_end <= fraction_start <= fraction_end <= text.len(),
        all_digits(
            run_of(text@, start as int, whole_end as int, fraction_start as int, fraction_end as int),
        ),
        from <= (whole_end - start) + (fraction_end - fraction_start),
    ensures
        found == (digits_value(
            run_of(
                text@,
                start as int,
                whole_end as int,
                fraction_start as int,
                fraction_end as int,
            ).skip(from as int),
        ) != 0),
{
    let ghost d = run_of(
        text@,
        start as int,
        whole_end as int,
        fraction_start as int,
        fraction_end as int,
    );
    let whole: usize = whole_end - start;
    let mut found: bool = false;
    let ghost mut at: int = 0;
    let mut i: usize = start;
    while i < whole_end
        invariant
            start <= i <= whole_end <= fraction_start <= fraction_end <= text.len(),
            d == run_of(
                text@,
                start as int,
                whole_end as int,
                fraction_start as int,
                fraction_end as int,
            ),
            found ==> from <= at < d.len() && d[at] != '0',
            !found ==> forall|x: int| from <= x < i - start ==> d[x] == '0',
        decreases whole_end - i,
    {
        assert(d[i - start] == text@[i as int]);
        if i - start >= from && text[i] != '0' {
            found = true;
            proof {
                at = i - start;
            }
        }
        i += 1;
    }
    let mut j: usize = fraction_start;
    while j < fraction_end
        invariant
            start <= whole_end <= fraction_start <= j <= fraction_end <= text.len(),
            whole == whole_end - start,
            d == run_of(
                text@,
                start as int,
                whole_end as int,
                fraction_start as int,
                fraction_end as int,
            ),
            found ==> from <= at < d.len() && d[at] != '0',
            !found ==> forall|x: int| from <= x < whole + (j - fraction_start) ==> d[x] == '0',
        decreases fraction_end - j,
    {
        assert(d[whole + (j - fraction_start)] == text@[j as int]);
        if whole + (j - fraction_start) >= from && text[j] != '0' {
            found = true;
            proof {
                at = whole + (j - fraction_start);
            }
        }
        j += 1;
    }
    proof {
        let rest = d.skip(from as int);
        if found {
            assert forall|x: int| 0 <= x < rest.len() implies is_digit(#[trigger] rest[x]) by {
                assert(rest[x] == d[from + x]);
            }
            assert(rest[at - from] == d[at]);
            lemma_digits_nonzero(rest, at - from);
        } else {
            assert forall|x: int| 0 <= x < rest.len() implies rest[x] == '0' by {
                assert(rest[x] == d[from + x]);
            }
            lemma_digits_zero(rest);
        }
    }
    found
}

/// `value` times ten to the power `power`, held at [`LIMIT`].
fn scaled_up(value: u128, power: i128) -> (r: u128)
    requires
        value <= LIMIT,
        power >= 0,
    ensures
        r as int == min_of(value * pow10(power as nat), LIMIT as int),
{
    let mut r: u128 = value;
    let mut done: i128 = 0;
    proof {
        assert(pow10(0) == 1);
        assert(value * 1 == value);
    }
    while done < power && 0 < r && r < LIMIT
        invariant
            0 <= done <= power,
            value <= LIMIT,
            r as int == min_of(value * pow10(done as nat), LIMIT as int),
        decreases power - done,
    {
        proof {
            let x = pow10(done as nat);
            assert(pow10((done + 1) as nat) == 10 * x);
            assert(value * (10 * x) == 10 * (value * x)) by (nonlinear_arith);
        }
        r = r * 10;
        if r > LIMIT {
            r = LIMIT;
        }
        done += 1;
    }
    proof {
        if done < power {
            let x = pow10(done as nat);
            let y = pow10((power - done) as nat);
            lemma_pow10_add(done as nat, (power - done) as nat);
            lemma_pow10_positive(done as nat);
            lemma_pow10_positive((power - done) as nat);
            if r == 0 {
                assert(value == 0) by (nonlinear_arith)
                    requires
                        value * x == 0,
                        x >= 1,
                        value >= 0,
                ;
                assert(value * (x * y) == 0) by (nonlinear_arith)
                    requires
                        value == 0,
                ;
            } else {
                assert(value * (x * y) >= value * x) by (nonlinear_arith)
                    requires
                        value >= 0,
                        x >= 1,
                        y >= 1,
                ;
            }
        }
    }
    r
}

/// A text that breaks off at a character that can stand in no mantissa and
/// opens no exponent is no numeral.
proof fn lemma_stray_character(u: Seq<char>, point: int, stop: int, pointed: bool)
    requires
        0 <= point <= stop < u.len(),
        forall|j: int| 0 <= j < stop ==> !is_mark(u[j]) && (j != point ==> is_digit(u[j])),
        pointed ==> point < stop && u[point] == '.',
        !pointed ==> point == stop && u[stop] != '.',
        !is_mark(u[stop]),
        !is_digit(u[stop]),
    ensures
        !is_mantissa(mantissa(u)),
{
    lemma_first_mark(u, stop + 1);
    let m = mantissa(u);
    assert(m[stop] == u[stop]);
    if pointed {
        assert forall|j: int| 0 <= j < point implies m[j] != '.' by {
            assert(m[j] == u[j]);
        }
        assert(m[point] == u[point]);
        lemma_first_point(m, point);
        assert(fraction_digits(m)[stop - point - 1] == m[stop]);
    } else {
        assert forall|j: int| 0 <= j < stop + 1 implies m[j] != '.' by {
            assert(m[j] == u[j]);
        }
        lemma_first_point(m, stop + 1);
        assert(whole_digits(m)[stop] == m[stop]);
    }
}

/// Where a run of digits with at most one point ends at an exponent mark or
/// at the end of the text, the run is the mantissa.
proof fn lemma_mantissa_parts(u: Seq<char>, point: int, stop: int, pointed: bool)
    requires
        0 <= point <= stop <= u.len(),
        forall|j: int| 0 <= j < stop ==> !is_mark(u[j]) && (j != point ==> is_digit(u[j])),
        pointed ==> point < stop && u[point] == '.',
        !pointed ==> point == stop,
        stop < u.len() ==> is_mark(u[stop]),
    ensures
        first_mark(u) == stop,
        whole_digits(mantissa(u)) == u.subrange(0, point),
        fraction_digits(mantissa(u)) == if pointed {
            u.subrange(point + 1, stop)
        } else {
            Seq::<char>::empty()
        },
        all_digits(whole_digits(mantissa(u))),
        all_digits(fraction_digits(mantissa(u))),
{
    lemma_first_mark(u, stop);
    let m = mantissa(u);
    assert(m =~= u.take(stop));
    if pointed {
        assert forall|j: int| 0 <= j < point implies m[j] != '.' by {
            assert(m[j] == u[j]);
        }
        assert(m[point] == u[point]);
        lemma_first_point(m, point);
        assert(fraction_digits(m) =~= u.subrange(point + 1, stop));
    } else {
        assert forall|j: int| 0 <= j < stop implies m[j] != '.' by {
            assert(m[j] == u[j]);
        }
        lemma_first_point(m, stop);
        assert(fraction_digits(m) =~= Seq::<char>::empty());
    }
    assert(whole_digits(m) =~= u.subrange(0, point));
    assert forall|j: int| 0 <= j < whole_digits(m).len() implies is_digit(
        #[trigger] whole_digits(m)[j],
    ) by {
        assert(whole_digits(m)[j] == u[j]);
    }
    assert forall|j: int| 0 <= j < fraction_digits(m).len() implies is_digit(
        #[trigger] fraction_digits(m)[j],
    ) by {
        assert(fraction_digits(m)[j] == u[point + 1 + j]);
    }
}

/// Where the parts of a numeral lie in its text.
struct Shape {
    negative: bool,
    start: usize,
    whole_end: usize,
    fraction_start: usize,
    fraction_end: usize,
    exponent: i128,
}

impl Shape {
    spec fn fits(&self, text: Seq<char>) -> bool {
        let u = unsigned_part(text);
        let m = mantissa(u);
        &&& self.start <= self.whole_end <= self.fraction_start <= self.fraction_end <= text.len()
        &&& self.negative == is_negative(text)
        &&& whole_digits(m) == text.subrange(self.start as int, self.whole_end as int)
        &&& fraction_digits(m) == text.subrange(
            self.fraction_start as int,
            self.fraction_end as int,
        )
        &&& self.exponent as int == clamp_of(
            exponent_of(u),
            -(EXPONENT_LIMIT as int),
            EXPONENT_LIMIT as int,
        )
    }
}

/// Finds the parts of a numeral, or that the text is none.
fn read_shape(text: &[char]) -> (r: Option<Shape>)
    ensures
        r is Some <==> is_decimal(text@),
        r is Some ==> r->0.fits(text@),
{
    let n: usize = text.len();
    let mut negative: bool = false;
    let mut start: usize = 0;
    if n > 0 {
        let c = text[0];
        if c == '+' || c == '-' {
            negative = c == '-';
            start = 1;
        }
    }
    let ghost u = unsigned_part(text@);
    assert(u =~= text@.skip(start as int));
    let whole_end: usize = scan_digits(text, start);
    let mut fraction_start: usize = whole_end;
    let mut fraction_end: usize = whole_end;
    if whole_end < n && text[whole_end] == '.' {
        fraction_start = whole_end + 1;
        fraction_end = scan_digits(text, fraction_start);
    }
    let ghost stop = fraction_end - start;
    let ghost point = whole_end - start;
    let ghost pointed = fraction_start > whole_end;
    assert forall|j: int| 0 <= j < stop implies !is_mark(u[j]) && (j != point ==> is_digit(
        u[j],
    )) by {
        assert(u[j] == text@[start + j]);
    }
    proof {
        if pointed {
            assert(u[point] == text@[whole_end as int]);
        }
        if fraction_end < n {
            assert(u[stop] == text@[fraction_end as int]);
        }
    }
    if fraction_end < n && !(text[fraction_end] == 'e' || text[fraction_end] == 'E') {
        proof {
            lemma_stray_character(u, point, stop, pointed);
        }
        return None;
    }
    proof {
        lemma_mantissa_parts(u, point, stop, pointed);
        assert(u.subrange(0, point) =~= text@.subrange(start as int, whole_end as int));
        if pointed {
            assert(u.subrange(point + 1, stop) =~= text@.subrange(
                fraction_start as int,
                fraction_end as int,
            ));
        } else {
            assert(text@.subrange(fraction_start as int, fraction_end as int) =~= Seq::<
                char,
            >::empty());
        }
    }
    if (whole_end - start) + (fraction_end - fraction_start) == 0 {
        return None;
    }
    let mut exponent: i128 = 0;
    if fraction_end < n {
        assert(exponent_part(u) =~= text@.skip(fraction_end + 1));
        match parse_exponent(text, fraction_end + 1) {
            Some(e) => {
                exponent = e;
            },
            None => {
                return None;
            },
        }
    }
    Some(Shape { negative, start, whole_end, fraction_start, fraction_end, exponent })
}

/// The millionths that the numeral of a shape writes, held at [`LIMIT`],
/// and whether it writes more than whole millionths.
fn magnitude_held(text: &[char], shape: &Shape) -> (held: (u128, bool))
    requires
        is_decimal(text@),
        shape.fits(text@),
    ensures
        held.0 as int == min_of(magnitude_micros(unsigned_part(text@)), LIMIT as int),
        held.1 == writes_beyond(unsigned_part(text@)),
{
    let ghost u = unsigned_part(text@);
    let ghost m = mantissa(u);
    let ghost d = mantissa_digits(m);
    let ghost v = digits_value(d);
    let ghost exact_power = micro_power(u);
    let count: usize = (shape.whole_end - shape.start) + (shape.fraction_end
        - shape.fraction_start);
    let places: i128 = (shape.fraction_end - shape.fraction_start) as i128;
    let power: i128 = 6 + shape.exponent - places;
    proof {
        assert(d == run_of(
            text@,
            shape.start as int,
            shape.whole_end as int,
            shape.fraction_start as int,
            shape.fraction_end as int,
        ));
        lemma_mantissa_digits(m);
    }
    if power >= 0 {
        let lead: u128 = leading_value(
            text,
            shape.start,
            shape.whole_end,
            shape.fraction_start,
            shape.fraction_end,
            count,
        );
        let r = scaled_up(lead, power);
        proof {
            assert(d.take(count as int) =~= d);
            let y = pow10(power as nat);
            let z = pow10(exact_power as nat);
            lemma_pow10_positive(power as nat);
            lemma_pow10_positive(exact_power as nat);
            assert(min_of(min_of(v, LIMIT as int) * y, LIMIT as int) == min_of(v * y, LIMIT as int))
                by (nonlinear_arith)
                requires
                    v >= 0,
                    y >= 1,
            ;
            assert(v >= 1 ==> v * z >= 1) by (nonlinear_arith)
                requires
                    z >= 1,
            ;
            if exact_power != power {
                if v >= 1 {
                    lemma_scaled_exceeds(v, power as int);
                    lemma_scaled_exceeds(v, exact_power);
                } else {
                    assert(0 * z == 0);
                    assert(0 * y == 0);
                }
            }
        }
        (r, false)
    } else if -power >= count as i128 {
        let nonzero: bool = any_nonzero(
            text,
            shape.start,
            shape.whole_end,
            shape.fraction_start,
            shape.fraction_end,
            0,
        );
        proof {
            assert(d.skip(0) =~= d);
            lemma_scaled_vanishes(v, d.len(), exact_power);
            lemma_pow10_monotone(d.len(), (-exact_power) as nat);
            lemma_fundamental_div_mod_converse(v, pow10((-exact_power) as nat), 0, v);
        }
        (if nonzero { 1 } else { 0 }, nonzero)
    } else {
        let cut: usize = (-power) as usize;
        proof {
            lemma_digits_value_parts(d, cut as nat);
            lemma_digits_value_split(d, d.len() - cut);
        }
        let head: u128 = leading_value(
            text,
            shape.start,
            shape.whole_end,
            shape.fraction_start,
            shape.fraction_end,
            count - cut,
        );
        let more: bool = any_nonzero(
            text,
            shape.start,
            shape.whole_end,
            shape.fraction_start,
            shape.fraction_end,
            count - cut,
        );
        proof {
            let p = pow10(cut as nat);
            let h = digits_value(d.take(d.len() - cut));
            assert(h == 0 ==> h * p == 0) by (nonlinear_arith);
        }
        if head == 0 && more {
            (1, true)
        } else {
            (head, more)
        }
    }
}

/// The sign that a text starts with: how many characters it takes, and
/// whether it is a minus.
fn read_sign(text: &[char]) -> (sign: (usize, bool))
    ensures
        sign.0 <= text.len(),
        text@.skip(sign.0 as int) == unsigned_part(text@),
        sign.1 == is_negative(text@),
{
    let mut start: usize = 0;
    let mut negative: bool = false;
    if text.len() > 0 {
        let c = text[0];
        if c == '+' || c == '-' {
            negative = c == '-';
            start = 1;
        }
    }
    assert(text@.skip(start as int) =~= unsigned_part(text@));
    (start, negative)
}

/// Reads the words that stand for no decimal number.
fn read_word(text: &[char]) -> (r: Option<Reading>)
    ensures
        r == if is_unbounded(text@) {
            Some(Reading::Unbounded { negative: is_negative(text@) })
        } else if is_not_a_number(text@) {
            Some(Reading::NotANumber)
        } else {
            None
        },
{
    let sign = read_sign(text);
    let rest = tail_of(text, sign.0);
    proof {
        reveal_strlit("inf");
        reveal_strlit("infinity");
        reveal_strlit("nan");
    }
    let inf = chars_of("inf");
    assert(inf@ =~= inf_word());
    let infinity = chars_of("infinity");
    assert(infinity@ =~= infinity_word());
    let nan = chars_of("nan");
    assert(nan@ =~= nan_word());
    if eq_ignoring_ascii_case(rest, inf.as_slice()) || eq_ignoring_ascii_case(
        rest,
        infinity.as_slice(),
    ) {
        Some(Reading::Unbounded { negative: sign.1 })
    } else if eq_ignoring_ascii_case(rest, nan.as_slice()) {
        Some(Reading::NotANumber)
    } else {
        None
    }
}

impl Reading {
    /// Reads a numeral. Of a decimal numeral, what it writes beyond the
    /// sixth fractional digit is cut off and only remembered in `beyond`; a
    /// value other than zero is never read as zero; a value beyond the range
    /// of `i64` millionths becomes the nearest end of that range.
    pub fn parse(text: &[char]) -> (r: Option<Reading>)
        ensures
            r == parsed_reading(text@),
    {
        let shape = match read_shape(text) {
            Some(shape) => shape,
            None => {
                return read_word(text);
            },
        };
        let held = magnitude_held(text, &shape);
        let magnitude: u128 = held.0;
        let micros: i64 = if shape.negative {
            if magnitude >= 9_223_372_036_854_775_808 {
                i64::MIN
            } else {
                -(magnitude as i64)
            }
        } else {
            if magnitude > 9_223_372_036_854_775_807 {
                i64::MAX
            } else {
                magnitude as i64
            }
        };
        Some(Reading::Finite { value: Fixed { micros }, beyond: held.1 })
    }

    /// The count of millionths that stands for the reading.
    pub fn value(self) -> (value: Fixed)
        ensures
            value@ == self.micros(),
    {
        match self {
            Reading::Finite { value, beyond } => value,
            Reading::Unbounded { negative } => if negative {
                Fixed { micros: i64::MIN }
            } else {
                Fixed { micros: i64::MAX }
            },
            Reading::NotANumber => Fixed { micros: 0 },
        }
    }

    /// Whether the numeral writes more than the millionths counted.
    pub fn beyond(self) -> (beyond: bool)
        ensures
            beyond == self.writes_more(),
    {
        match self {
            Reading::Finite { value, beyond } => beyond,
            _ => false,
        }
    }

    /// Appends the reading, written out, to `out`. A number halfway between
    /// two hundredths is settled by what the numeral writes beyond the
    /// millionths.
    pub fn append_text(self, out: &mut String)
        ensures
            final(out)@ == old(out)@ + self.text(),
    {
        proof {
            reveal_strlit("-");
            reveal_strlit("inf");
            reveal_strlit("NaN");
        }
        match self {
            Reading::Finite { value, beyond } => {
                append_rounded(out, value, beyond);
            },
            Reading::Unbounded { negative } => {
                if negative {
                    out.append("-");
                }
                out.append("inf");
                assert(out@ =~= old(out)@ + self.text());
            },
            Reading::NotANumber => {
                out.append("NaN");
                assert(out@ =~= old(out)@ + self.text());
            },
        }
    }
}

impl Fixed {
    /// Reads a decimal numeral as [`Reading::parse`] does and keeps the
    /// value; the words for unbounded numbers and for not-a-number have no
    /// value to keep.
    pub fn parse(text: &[char]) -> (r: Option<Fixed>)
        ensures
            r is Some <==> is_decimal(text@),
            r is Some ==> r->0@ == saturated(decimal_micros(text@)),
    {
        match Reading::parse(text) {
            Some(Reading::Finite { value, beyond }) => Some(value),
            _ => None,
        }
    }
}

/// The digits of a numeral's mantissa never write a negative number.
pub proof fn lemma_mantissa_value_nonnegative(s: Seq<char>)
    requires
        is_decimal(s),
    ensures
        mantissa_value(unsigned_part(s)) >= 0,
{
    lemma_mantissa_digits(mantissa(unsigned_part(s)));
}

/// Only zero is read as zero: a numeral with a digit other than zero in its
/// mantissa is read as at least one millionth in size, with its sign, and
/// any other numeral as zero.
pub proof fn lemma_only_zero_reads_as_zero(s: Seq<char>)
    requires
        is_decimal(s),
    ensures
        mantissa_value(unsigned_part(s)) > 0 && !is_negative(s) ==> parsed_decimal(s)->0 >= 1,
        mantissa_value(unsigned_part(s)) > 0 && is_negative(s) ==> parsed_decimal(s)->0 <= -1,
        mantissa_value(unsigned_part(s)) == 0 ==> parsed_decimal(s)->0 == 0,
{
    let u = unsigned_part(s);
    lemma_mantissa_digits(mantissa(u));
    let v = mantissa_value(u);
    let p = micro_power(u);
    if p >= 0 {
        lemma_pow10_positive(p as nat);
        let y = pow10(p as nat);
        assert(v * y >= 0 && (v == 0 ==> v * y == 0)) by (nonlinear_arith)
            requires
                v >= 0,
                y >= 1,
        ;
    } else {
        lemma_pow10_positive((-p) as nat);
        let y = pow10((-p) as nat);
        assert(v / y >= 0 && (v == 0 ==> v / y == 0)) by (nonlinear_arith)
            requires
                v >= 0,
                y >= 1,
        ;
    }
}

/// The words for unbounded numbers and for not-a-number are no decimal
/// numerals, so a text is read in one way at most.
pub proof fn lemma_words_are_no_decimals(s: Seq<char>)
    requires
        is_unbounded(s) || is_not_a_number(s),
    ensures
        !is_decimal(s),
{
    let u = unsigned_part(s);
    assert(u.len() >= 3);
    assert(folded(u[0]) == folded(inf_word()[0]) || folded(u[0]) == folded(infinity_word()[0])
        || folded(u[0]) == folded(nan_word()[0]));
    assert(!is_mark(u[0]) && !is_digit(u[0]) && u[0] != '.');
    lemma_first_mark(u, 1);
    let m = mantissa(u);
    assert(m[0] == u[0]);
    lemma_first_point(m, 1);
    assert(whole_digits(m)[0] == m[0]);
}

} // verus!
