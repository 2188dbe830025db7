//! Exact decimal quantities in millionths, and how they are written out.

use vstd::prelude::*;
use vstd::string::*;

verus! {

/// Units per whole: a [`Fixed`] counts millionths.
pub const SCALE: i64 = 1_000_000;

/// A signed decimal quantity with six fractional digits, held as a count of
/// millionths. Chip amounts, big-blind multiples and bet fractions are all
/// carried in this form, so every result is exact and reproducible.
#[derive(Clone, Copy, Debug, PartialEq, Eq, Structural)]
pub struct Fixed {
    pub micros: i64,
}

impl View for Fixed {
    type V = int;

    open spec fn view(&self) -> int {
        self.micros as int
    }
}

pub open spec fn max_of(a: int, b: int) -> int {
    if a < b { b } else { a }
}

pub open spec fn min_of(a: int, b: int) -> int {
    if a < b { a } else { b }
}

/// `x` limited to `[lo, hi]`; meant for `lo <= hi`.
pub open spec fn clamp_of(x: int, lo: int, hi: int) -> int {
    if x < lo { lo } else if x > hi { hi } else { x }
}

/// `x` limited to what an `i64` holds.
pub open spec fn saturated(x: int) -> int {
    clamp_of(x, i64::MIN as int, i64::MAX as int)
}

impl Fixed {
    pub fn from_micros(micros: i64) -> (r: Fixed)
        ensures
            r@ == micros,
    {
        Fixed { micros }
    }

    /// The whole number `n`.
    pub fn from_int(n: i32) -> (r: Fixed)
        ensures
            r@ == n * SCALE,
    {
        let wide: i64 = n as i64;
        Fixed { micros: wide * SCALE }
    }

    pub fn zero() -> (r: Fixed)
        ensures
            r@ == 0,
    {
        Fixed { micros: 0 }
    }

    pub fn one() -> (r: Fixed)
        ensures
            r@ == SCALE,
    {
        Fixed { micros: SCALE }
    }

    /// One half, the smallest bet that a pot or stack fraction is rounded up to.
    pub fn half() -> (r: Fixed)
        ensures
            r@ == SCALE / 2,
    {
        Fixed { micros: SCALE / 2 }
    }

    pub fn max(self, other: Fixed) -> (r: Fixed)
        ensures
            r@ == max_of(self@, other@),
    {
        if self.micros < other.micros { other } else { self }
    }

    pub fn min(self, other: Fixed) -> (r: Fixed)
        ensures
            r@ == min_of(self@, other@),
    {
        if self.micros < other.micros { self } else { other }
    }

    /// The product of two quantities that are not negative, in millionths,
    /// with what lies below one millionth cut off.
    pub fn scaled_product(self, other: Fixed) -> (r: i128)
        requires
            self@ >= 0,
            other@ >= 0,
        ensures
            r == self@ * other@ / (SCALE as int),
            r >= 0,
    {
        let a: i128 = self.micros as i128;
        let b: i128 = other.micros as i128;
        assert(0 <= a * b <= 0x7fff_ffff_ffff_ffff * 0x7fff_ffff_ffff_ffff) by (nonlinear_arith)
            requires
                0 <= a <= 0x7fff_ffff_ffff_ffff,
                0 <= b <= 0x7fff_ffff_ffff_ffff,
        ;
        a * b / 1_000_000
    }

    /// A wide count of millionths limited to `[lo, hi]`.
    pub fn limited(wide: i128, lo: Fixed, hi: Fixed) -> (r: Fixed)
        ensures
            r@ == clamp_of(wide as int, lo@, hi@),
    {
        if wide < lo.micros as i128 {
            lo
        } else if wide > hi.micros as i128 {
            hi
        } else {
            Fixed { micros: wide as i64 }
        }
    }

    pub fn clamp(self, lo: Fixed, hi: Fixed) -> (r: Fixed)
        ensures
            r@ == clamp_of(self@, lo@, hi@),
    {
        if self.micros < lo.micros {
            lo
        } else if self.micros > hi.micros {
            hi
        } else {
            self
        }
    }
}

pub open spec fn digit_char(d: int) -> char {
    if d == 0 {
        '0'
    } else if d == 1 {
        '1'
    } else if d == 2 {
        '2'
    } else if d == 3 {
        '3'
    } else if d == 4 {
        '4'
    } else if d == 5 {
        '5'
    } else if d == 6 {
        '6'
    } else if d == 7 {
        '7'
    } else if d == 8 {
        '8'
    } else {
        '9'
    }
}

/// The decimal digits of `n`, most significant first, without leading zeros.
pub open spec fn decimal_digits(n: int) -> Seq<char>
    decreases n,
{
    if n < 10 {
        seq![digit_char(n)]
    } else {
        decimal_digits(n / 10).push(digit_char(n % 10))
    }
}

/// The count of hundredths nearest to a value of at least `m >= 0`
/// millionths. With `beyond` the value lies above `m` and below the next
/// millionth, without it the value is `m`. A value that lies halfway between
/// two counts goes to the even one. The value rounded is the decimal one:
/// 0.125 goes to 12 hundredths and 0.135 to 14, whatever a binary
/// approximation of 0.135 would round to.
pub open spec fn nearest_hundredths(m: int, beyond: bool) -> int {
    let q = m / 10_000;
    let r = m % 10_000;
    if r > 5_000 || (r == 5_000 && (beyond || q % 2 == 1)) {
        q + 1
    } else {
        q
    }
}

/// A value written with two fractional digits, as in `0.50`, `12.00` or
/// `-3.25`. The value is `m` millionths, or with `beyond` lies less than a
/// millionth further from zero.
pub open spec fn two_decimal_text(m: int, beyond: bool) -> Seq<char> {
    let h = nearest_hundredths(if m < 0 { -m } else { m }, beyond);
    let sign = if m < 0 { seq!['-'] } else { Seq::<char>::empty() };
    sign + decimal_digits(h / 100) + seq!['.', digit_char(h / 10 % 10), digit_char(h % 10)]
}

fn digit_text(d: u64) -> (t: &'static str)
    requires
        d <= 9,
    ensures
        t@ == seq![digit_char(d as int)],
{
    proof {
        reveal_strlit("0");
        reveal_strlit("1");
        reveal_strlit("2");
        reveal_strlit("3");
        reveal_strlit("4");
        reveal_strlit("5");
        reveal_strlit("6");
        reveal_strlit("7");
        reveal_strlit("8");
        reveal_strlit("9");
    }
    let t = if d == 0 {
        "0"
    } else if d == 1 {
        "1"
    } else if d == 2 {
        "2"
    } else if d == 3 {
        "3"
    } else if d == 4 {
        "4"
    } else if d == 5 {
        "5"
    } else if d == 6 {
        "6"
    } else if d == 7 {
        "7"
    } else if d == 8 {
        "8"
    } else {
        "9"
    };
    assert(t@ =~= seq![digit_char(d as int)]);
    t
}

/// Appends the decimal digits of `n` to `out`.
pub fn append_decimal(out: &mut String, n: u64)
    ensures
        final(out)@ == old(out)@ + decimal_digits(n as int),
    decreases n,
{
    if n >= 10 {
        append_decimal(out, n / 10);
    }
    out.append(digit_text(n % 10));
}

/// Appends a value, rounded to two fractional digits, to `out`. The value
/// is `value`, or with `beyond` lies less than a millionth further from zero.
pub fn append_rounded(out: &mut String, value: Fixed, beyond: bool)
    ensures
        final(out)@ == old(out)@ + two_decimal_text(value@, beyond),
{
    let magnitude: u64 = if value.micros >= 0 {
        value.micros as u64
    } else if value.micros == i64::MIN {
        9_223_372_036_854_775_808
    } else {
        (-value.micros) as u64
    };
    let q: u64 = magnitude / 10_000;
    let r: u64 = magnitude % 10_000;
    let h: u64 = if r > 5_000 || (r == 5_000 && (beyond || q % 2 == 1)) { q + 1 } else { q };
    if value.micros < 0 {
        proof {
            reveal_strlit("-");
        }
        out.append("-");
    }
    append_decimal(out, h / 100);
    proof {
        reveal_strlit(".");
    }
    out.append(".");
    out.append(digit_text(h / 10 % 10));
    out.append(digit_text(h % 10));
    assert(out@ =~= old(out)@ + two_decimal_text(value@, beyond));
}

impl Fixed {
    /// Appends the value, rounded to two fractional digits, to `out`.
    pub fn append_two_decimals(self, out: &mut String)
        ensures
            final(out)@ == old(out)@ + two_decimal_text(self@, false),
    {
        append_rounded(out, self, false);
    }
}

} // verus!
