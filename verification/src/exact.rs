//! The numbers that decimals stand for, and their written form.
//!
//! An [`Exact`] is the number `unscaled / 10^scale`. Everything here is
//! mathematics: integers of any size, sequences of characters, and the
//! functions between them that the executable code is held to.

use crate::digits::{is_digits, lemma_pow10_positive, lemma_value_at_least, pow10, value};
use vstd::prelude::*;

verus! {

/// The number `unscaled / 10^scale`.
pub struct Exact {
    pub unscaled: int,
    pub scale: nat,
}

/// The integer nearest to `n / d`, for a positive `d`; a tie goes away from
/// zero.
pub open spec fn round_half_away(n: int, d: int) -> int {
    if n >= 0 {
        (2 * n + d) / (2 * d)
    } else {
        -((2 * (-n) + d) / (2 * d))
    }
}

/// The integer of the given sign and magnitude.
pub open spec fn signed(negative: bool, magnitude: nat) -> int {
    if negative {
        -(magnitude as int)
    } else {
        magnitude as int
    }
}

impl Exact {
    /// No digit behind the point is kept in vain: the last one is not zero.
    /// Two canonical values are the same number only if they are equal.
    pub open spec fn canonical(self) -> bool {
        self.scale == 0 || self.unscaled % 10 != 0
    }

    /// The canonical value that is the same number as this one.
    pub open spec fn normalized(self) -> Exact
        decreases self.scale,
    {
        if self.scale > 0 && self.unscaled % 10 == 0 {
            (Exact { unscaled: self.unscaled / 10, scale: (self.scale - 1) as nat }).normalized()
        } else {
            self
        }
    }

    /// Whether two values are the same number.
    pub open spec fn same_number(self, other: Exact) -> bool {
        self.unscaled * pow10(other.scale) == other.unscaled * pow10(self.scale)
    }

    /// The number `(a * x + b) / d`, where `x` is this number, rounded to the
    /// nearest tenth, a tie going away from zero.
    ///
    /// With `x = unscaled / 10^scale`, ten times that number is the fraction
    /// `10 * (a * unscaled + b * 10^scale) / (d * 10^scale)`. Its nearest
    /// integer counts the tenths of the result.
    pub open spec fn affine_tenths(self, a: int, b: int, d: int) -> Exact {
        let p = pow10(self.scale) as int;
        (Exact { unscaled: round_half_away(10 * (a * self.unscaled + b * p), d * p), scale: 1 })
            .normalized()
    }

    /// This number rounded to one decimal place.
    pub open spec fn rounded(self) -> Exact {
        self.affine_tenths(1, 0, 1)
    }

    /// A Fahrenheit reading as Celsius: `(f - 32) / 1.8`, that is
    /// `(10 * f - 320) / 18`, rounded to one decimal place.
    pub open spec fn to_celsius(self) -> Exact {
        self.affine_tenths(10, -320, 18)
    }

    /// A Celsius reading as Fahrenheit: `c * 1.8 + 32`, that is
    /// `(18 * c + 320) / 10`, rounded to one decimal place.
    pub open spec fn to_fahrenheit(self) -> Exact {
        self.affine_tenths(18, 320, 10)
    }
}

/// Removing `i` zeros from the end of the digits behind the point leaves the
/// canonical form as it was.
pub proof fn lemma_normalized_strip(u: int, s: nat, i: nat, w: int)
    requires
        i <= s,
        u == pow10(i) * w,
    ensures
        (Exact { unscaled: u, scale: s }).normalized() == (Exact {
            unscaled: w,
            scale: (s - i) as nat,
        }).normalized(),
    decreases i,
{
    if i == 0 {
        assert(pow10(0) * w == w) by (nonlinear_arith)
            requires
                pow10(0) == 1,
        ;
    } else {
        let q = pow10((i - 1) as nat);
        let u1 = q * w;
        assert(u == 10 * u1) by (nonlinear_arith)
            requires
                u == pow10(i) * w,
                pow10(i) == 10 * q,
                u1 == q * w,
        ;
        lemma_normalized_strip(u1, (s - 1) as nat, (i - 1) as nat, w);
    }
}

/// The character is one of `0` to `9`.
pub open spec fn is_digit(c: char) -> bool {
    '0' <= c && c <= '9'
}

/// The number that a digit character stands for.
pub open spec fn digit_of(c: char) -> nat {
    (c as nat - '0' as nat) as nat
}

/// The character that stands for a digit.
pub open spec fn digit_char(d: nat) -> char {
    (d + '0' as nat) as char
}

/// Every character is a digit.
pub open spec fn all_digits(s: Seq<char>) -> bool {
    forall|i: int| 0 <= i < s.len() ==> is_digit(#[trigger] s[i])
}

/// The number that a run of digit characters stands for, read as usual with
/// the most significant digit first.
pub open spec fn numeral_value(s: Seq<char>) -> nat
    decreases s.len(),
{
    if s.len() == 0 {
        0
    } else {
        10 * numeral_value(s.drop_last()) + digit_of(s.last())
    }
}

/// The position of the first decimal point in `s`, or the length of `s` if it
/// has none.
pub open spec fn first_point(s: Seq<char>) -> int
    decreases s.len(),
{
    if s.len() == 0 || s[0] == '.' {
        0
    } else {
        1 + first_point(s.skip(1))
    }
}

/// The text starts with a plus or a minus sign.
pub open spec fn has_sign(s: Seq<char>) -> bool {
    s.len() > 0 && (s[0] == '+' || s[0] == '-')
}

/// The text without its sign, if it has one.
pub open spec fn unsigned_part(s: Seq<char>) -> Seq<char> {
    if has_sign(s) {
        s.skip(1)
    } else {
        s
    }
}

/// What stands in front of the first decimal point: all of the text if it
/// has no point.
pub open spec fn whole_part(s: Seq<char>) -> Seq<char> {
    s.take(first_point(s))
}

/// What stands behind the first decimal point: nothing if the text has no
/// point.
pub open spec fn fraction_part(s: Seq<char>) -> Seq<char> {
    if first_point(s) < s.len() {
        s.skip(first_point(s) + 1)
    } else {
        Seq::<char>::empty()
    }
}

/// The number that a decimal numeral stands for, or `None` if the text is not
/// a decimal numeral.
///
/// A numeral is an optional sign and then digits, with at most one decimal
/// point among them, before them or behind them. At least one digit is
/// required. The digits in front of the point and those behind it, read
/// together, give the unscaled number, and the digits behind the point are
/// counted by the scale.
pub open spec fn decimal_of_text(s: Seq<char>) -> Option<Exact> {
    let whole = whole_part(unsigned_part(s));
    let fraction = fraction_part(unsigned_part(s));
    if all_digits(whole) && all_digits(fraction) && whole.len() + fraction.len() > 0 {
        Some(
            (Exact {
                unscaled: signed(has_sign(s) && s[0] == '-', numeral_value(whole + fraction)),
                scale: fraction.len(),
            }).normalized(),
        )
    } else {
        None
    }
}

/// The digits of a natural number, most significant first, without leading
/// zeros; zero is written `0`.
pub open spec fn digits_text(n: nat) -> Seq<char>
    decreases n,
{
    if n < 10 {
        seq![digit_char(n)]
    } else {
        digits_text(n / 10).push(digit_char(n % 10))
    }
}

/// The lowest `width` digits of a natural number, most significant first,
/// with leading zeros where the number is short.
pub open spec fn fraction_text(n: nat, width: nat) -> Seq<char>
    decreases width,
{
    if width == 0 {
        Seq::<char>::empty()
    } else {
        fraction_text(n / 10, (width - 1) as nat).push(digit_char(n % 10))
    }
}

/// The size of an integer.
pub open spec fn magnitude(n: int) -> nat {
    if n < 0 {
        (-n) as nat
    } else {
        n as nat
    }
}

impl Exact {
    /// The written form: a minus sign if the number is negative, the digits
    /// in front of the point, and, if there are digits behind the point, the
    /// point and those digits.
    pub open spec fn text(self) -> Seq<char> {
        let m = magnitude(self.unscaled);
        let p = pow10(self.scale);
        let sign = if self.unscaled < 0 {
            seq!['-']
        } else {
            Seq::<char>::empty()
        };
        let fraction = if self.scale > 0 {
            seq!['.'] + fraction_text(m % p, self.scale)
        } else {
            Seq::<char>::empty()
        };
        sign + digits_text(m / p) + fraction
    }
}

/// Digits stored least significant first, written most significant first.
pub open spec fn written(t: Seq<u8>) -> Seq<char> {
    Seq::new(t.len(), |j: int| digit_char(t[t.len() - 1 - j] as nat))
}

/// A point that is the first one is where `first_point` says.
pub proof fn lemma_first_point(s: Seq<char>, k: int)
    requires
        0 <= k <= s.len(),
        forall|i: int| 0 <= i < k ==> s[i] != '.',
        k < s.len() ==> s[k] == '.',
    ensures
        first_point(s) == k,
    decreases k,
{
    if k > 0 {
        lemma_first_point(s.skip(1), k - 1);
    }
}

/// The digits of a numeral, stored in reverse, stand for the same number.
pub proof fn lemma_numeral_reversed(w: Seq<char>, t: Seq<u8>)
    requires
        t.len() == w.len(),
        forall|j: int| 0 <= j < t.len() ==> t[j] as nat == digit_of(#[trigger] w[w.len() - 1 - j]),
    ensures
        numeral_value(w) == value(t),
    decreases w.len(),
{
    if w.len() > 0 {
        let w1 = w.drop_last();
        let t1 = t.skip(1);
        assert forall|j: int| 0 <= j < t1.len() implies t1[j] as nat == digit_of(
            #[trigger] w1[w1.len() - 1 - j],
        ) by {
            assert(t1[j] == t[j + 1]);
            assert(w1[w1.len() - 1 - j] == w[w.len() - 1 - (j + 1)]);
        }
        lemma_numeral_reversed(w1, t1);
        assert(t[0] as nat == digit_of(w[w.len() - 1 - 0]));
    }
}

/// The digits of a number without needless leading zeros are its written
/// form.
pub proof fn lemma_digits_text(t: Seq<u8>)
    requires
        is_digits(t),
        t.len() > 0,
        t.len() > 1 ==> t.last() != 0,
    ensures
        digits_text(value(t)) == written(t),
    decreases t.len(),
{
    let t1 = t.skip(1);
    if t.len() == 1 {
        assert(t1.len() == 0);
        assert(value(t1) == 0);
        assert(value(t) == t[0]);
        assert(digits_text(value(t)) =~= written(t));
    } else {
        assert(t1.last() == t.last());
        lemma_value_at_least(t1);
        lemma_pow10_positive((t1.len() - 1) as nat);
        lemma_digits_text(t1);
        let v = value(t);
        assert(v == t[0] as nat + 10 * value(t1));
        assert(v / 10 == value(t1) && v % 10 == t[0] as nat);
        assert(written(t1).push(digit_char(t[0] as nat)) =~= written(t));
    }
}

/// The lowest digits of a number, kept with their zeros, are their written
/// form.
pub proof fn lemma_fraction_text(t: Seq<u8>)
    requires
        is_digits(t),
    ensures
        fraction_text(value(t), t.len()) == written(t),
    decreases t.len(),
{
    if t.len() == 0 {
        assert(fraction_text(value(t), t.len()) =~= written(t));
    } else {
        let t1 = t.skip(1);
        lemma_fraction_text(t1);
        let v = value(t);
        assert(v == t[0] as nat + 10 * value(t1));
        assert(v / 10 == value(t1) && v % 10 == t[0] as nat);
        assert(written(t1).push(digit_char(t[0] as nat)) =~= written(t));
    }
}

} // verus!
