//! What holds of the library as a whole, stated over the functions that its
//! contracts are written in, and proved.

use crate::digits::{lemma_pow10_positive, pow10};
use crate::error::FcError;
use crate::exact::{
    all_digits, decimal_of_text, digit_char, digit_of, digits_text, fraction_text, has_sign,
    is_digit, lemma_first_point, magnitude, numeral_value, round_half_away, signed, Exact,
};
use crate::temperature::{parse_text, unit_of, Reading, TUnit};
use vstd::arithmetic::div_mod::{lemma_fundamental_div_mod, lemma_fundamental_div_mod_converse};
use vstd::prelude::*;

verus! {

/// Rounding picks a nearest integer: the result is at most one half away
/// from the quotient, and where two integers are that near, it is the one
/// further from zero.
pub proof fn lemma_round_half_away_is_nearest(n: int, d: int)
    requires
        d > 0,
    ensures
        2 * (round_half_away(n, d) * d - n) <= d,
        2 * (n - round_half_away(n, d) * d) <= d,
        n >= 0 ==> 2 * (n - round_half_away(n, d) * d) < d,
        n <= 0 ==> 2 * (round_half_away(n, d) * d - n) < d,
{
    let m = if n >= 0 {
        n
    } else {
        -n
    };
    let x = 2 * m + d;
    let q = x / (2 * d);
    lemma_fundamental_div_mod(x, 2 * d);
    assert(0 <= x % (2 * d) < 2 * d) by (nonlinear_arith)
        requires
            d > 0,
    ;
    assert((2 * d) * q == 2 * (q * d)) by (nonlinear_arith);
    if n == 0 {
        lemma_fundamental_div_mod_converse(d, 2 * d, 0, d);
    }
    if n >= 0 {
        assert(round_half_away(n, d) == q);
    } else {
        assert(round_half_away(n, d) == -q);
        assert((-q) * d == -(q * d)) by (nonlinear_arith);
    }
}

/// Rounding the opposite number gives the opposite result.
pub proof fn lemma_round_half_away_is_odd(n: int, d: int)
    requires
        d > 0,
    ensures
        round_half_away(-n, d) == -round_half_away(n, d),
{
    if n == 0 {
        lemma_fundamental_div_mod_converse(d, 2 * d, 0, d);
    }
}

/// An integer is its own rounding.
pub proof fn lemma_round_half_away_of_integer(k: int, d: int)
    requires
        d > 0,
    ensures
        round_half_away(k * d, d) == k,
{
    let m = if k >= 0 {
        k
    } else {
        -k
    };
    assert(2 * (m * d) + d == m * (2 * d) + d) by (nonlinear_arith);
    lemma_fundamental_div_mod_converse(2 * (m * d) + d, 2 * d, m, d);
    if k >= 0 {
        assert(k * d >= 0) by (nonlinear_arith)
            requires
                k >= 0,
                d > 0,
        ;
    } else {
        assert(k * d < 0 && -(k * d) == m * d) by (nonlinear_arith)
            requires
                k < 0,
                d > 0,
                m == -k,
        ;
    }
}

/// The canonical form is canonical, is the same number, and has no more
/// digits behind the point than the value it was made from.
pub proof fn lemma_normalized(v: Exact)
    ensures
        v.normalized().canonical(),
        v.normalized().same_number(v),
        v.normalized().scale <= v.scale,
        v.canonical() ==> v.normalized() == v,
    decreases v.scale,
{
    if v.scale > 0 && v.unscaled % 10 == 0 {
        let w = Exact { unscaled: v.unscaled / 10, scale: (v.scale - 1) as nat };
        lemma_normalized(w);
        let r = w.normalized();
        let pr = pow10(r.scale);
        let pw = pow10(w.scale);
        assert(pow10(v.scale) == 10 * pw);
        assert(r.unscaled * (10 * pw) == v.unscaled * pr) by (nonlinear_arith)
            requires
                r.unscaled * pw == w.unscaled * pr,
                v.unscaled == 10 * w.unscaled,
        ;
    }
}

/// Two canonical values that are the same number are equal.
pub proof fn lemma_canonical_is_unique(a: Exact, b: Exact)
    requires
        a.canonical(),
        b.canonical(),
        a.same_number(b),
    ensures
        a == b,
    decreases a.scale + b.scale,
{
    if a.scale == 0 && b.scale == 0 {
    } else if a.scale > 0 && b.scale > 0 {
        let a1 = Exact { unscaled: a.unscaled, scale: (a.scale - 1) as nat };
        let b1 = Exact { unscaled: b.unscaled, scale: (b.scale - 1) as nat };
        let qa = pow10(a1.scale);
        let qb = pow10(b1.scale);
        assert(a.unscaled * qb == b.unscaled * qa) by (nonlinear_arith)
            requires
                a.unscaled * (10 * qb) == b.unscaled * (10 * qa),
        ;
        lemma_canonical_is_unique(a1, b1);
    } else if a.scale > 0 {
        let q = pow10((a.scale - 1) as nat);
        assert(a.unscaled == 10 * (b.unscaled * q)) by (nonlinear_arith)
            requires
                a.unscaled * 1 == b.unscaled * (10 * q),
        ;
    } else {
        let q = pow10((b.scale - 1) as nat);
        assert(b.unscaled == 10 * (a.unscaled * q)) by (nonlinear_arith)
            requires
                a.unscaled * (10 * q) == b.unscaled * 1,
        ;
    }
}

/// Every conversion gives a canonical value with at most one digit behind
/// the point.
pub proof fn lemma_conversions_have_one_decimal(v: Exact)
    ensures
        v.rounded().canonical() && v.rounded().scale <= 1,
        v.to_celsius().canonical() && v.to_celsius().scale <= 1,
        v.to_fahrenheit().canonical() && v.to_fahrenheit().scale <= 1,
{
    let p = pow10(v.scale) as int;
    lemma_normalized(
        Exact { unscaled: round_half_away(10 * (1 * v.unscaled + 0 * p), 1 * p), scale: 1 },
    );
    lemma_normalized(
        Exact { unscaled: round_half_away(10 * (10 * v.unscaled + (-320) * p), 18 * p), scale: 1 },
    );
    lemma_normalized(
        Exact { unscaled: round_half_away(10 * (18 * v.unscaled + 320 * p), 10 * p), scale: 1 },
    );
}

/// Rounding to one decimal place leaves a value that has at most one digit
/// behind the point as it is.
pub proof fn lemma_rounding_keeps_one_decimal(v: Exact)
    requires
        v.canonical(),
        v.scale <= 1,
    ensures
        v.rounded() == v,
{
    let u = v.unscaled;
    if v.scale == 0 {
        assert(pow10(0) == 1);
        lemma_round_half_away_of_integer(10 * u, 1);
        let tenths = Exact { unscaled: 10 * u, scale: 1 };
        assert(tenths.normalized() == (Exact { unscaled: u, scale: 0 }).normalized());
    } else {
        assert(pow10(1) == 10 * pow10(0));
        lemma_round_half_away_of_integer(u, 10);
    }
}

/// Rounding twice is rounding once.
pub proof fn lemma_rounding_is_idempotent(v: Exact)
    ensures
        v.rounded().rounded() == v.rounded(),
{
    lemma_conversions_have_one_decimal(v);
    lemma_rounding_keeps_one_decimal(v.rounded());
}

/// A converted value is already rounded: rounding it again changes nothing.
pub proof fn lemma_conversions_are_rounded(v: Exact)
    ensures
        v.to_celsius().rounded() == v.to_celsius(),
        v.to_fahrenheit().rounded() == v.to_fahrenheit(),
{
    lemma_conversions_have_one_decimal(v);
    lemma_rounding_keeps_one_decimal(v.to_celsius());
    lemma_rounding_keeps_one_decimal(v.to_fahrenheit());
}

/// Converting a temperature to the unit it already has gives it back
/// unchanged, whatever its value.
pub proof fn lemma_own_unit_is_identity(t: Reading)
    ensures
        t.unit == TUnit::C ==> t.to_c() == t,
        t.unit == TUnit::F ==> t.to_f() == t,
{
}

/// A digit's character is a digit, stands for that digit, and is neither a
/// sign, a point nor a unit letter.
pub proof fn lemma_digit_char(d: nat)
    requires
        d < 10,
    ensures
        is_digit(digit_char(d)),
        digit_of(digit_char(d)) == d,
        digit_char(d) != '.',
        digit_char(d) != '+',
        digit_char(d) != '-',
        unit_of(digit_char(d)) == Some(TUnit::Unknown),
{
}

/// A numeral followed by another stands for the first, shifted by the
/// length of the second, plus the second.
pub proof fn lemma_numeral_concat(a: Seq<char>, b: Seq<char>)
    ensures
        numeral_value(a + b) == numeral_value(a) * pow10(b.len()) + numeral_value(b),
    decreases b.len(),
{
    if b.len() == 0 {
        assert(a + b =~= a);
        assert(numeral_value(a) * pow10(0) == numeral_value(a)) by (nonlinear_arith)
            requires
                pow10(0) == 1,
        ;
    } else {
        let b1 = b.drop_last();
        lemma_numeral_concat(a, b1);
        assert((a + b).drop_last() =~= a + b1);
        let na = numeral_value(a);
        let p = pow10(b1.len());
        assert(pow10(b.len()) == 10 * p);
        assert(10 * (na * p) == na * (10 * p)) by (nonlinear_arith);
    }
}

/// The written digits of a number are digits, and read back as the number.
pub proof fn lemma_digits_text_reads_back(n: nat)
    ensures
        digits_text(n).len() >= 1,
        all_digits(digits_text(n)),
        numeral_value(digits_text(n)) == n,
    decreases n,
{
    if n < 10 {
        let s = seq![digit_char(n)];
        lemma_digit_char(n);
        assert(s.drop_last() =~= Seq::<char>::empty());
        assert(numeral_value(s.drop_last()) == 0);
    } else {
        lemma_digits_text_reads_back(n / 10);
        lemma_digit_char(n % 10);
        let a = digits_text(n / 10);
        let s = a.push(digit_char(n % 10));
        assert(s.drop_last() =~= a);
        assert forall|i: int| 0 <= i < s.len() implies is_digit(#[trigger] s[i]) by {
            if i < a.len() {
                assert(s[i] == a[i]);
            }
        }
    }
}

/// The written fraction digits of a number are as many digits as asked for,
/// and read back as the number below that power of ten.
pub proof fn lemma_fraction_text_reads_back(n: nat, width: nat)
    ensures
        fraction_text(n, width).len() == width,
        all_digits(fraction_text(n, width)),
        numeral_value(fraction_text(n, width)) == n % pow10(width),
    decreases width,
{
    if width == 0 {
        assert(n % 1 == 0);
    } else {
        let w1 = (width - 1) as nat;
        lemma_fraction_text_reads_back(n / 10, w1);
        lemma_digit_char(n % 10);
        let a = fraction_text(n / 10, w1);
        let s = a.push(digit_char(n % 10));
        assert(s.drop_last() =~= a);
        assert forall|i: int| 0 <= i < s.len() implies is_digit(#[trigger] s[i]) by {
            if i < a.len() {
                assert(s[i] == a[i]);
            }
        }
        let q = pow10(w1) as int;
        lemma_pow10_positive(w1);
        let h = (n / 10) as int;
        lemma_fundamental_div_mod(h, q);
        assert(0 <= h % q < q) by (nonlinear_arith)
            requires
                q > 0,
                h >= 0,
        ;
        let r = 10 * (h % q) + n % 10;
        assert(n == (h / q) * (10 * q) + r) by (nonlinear_arith)
            requires
                n == 10 * h + n % 10,
                h == q * (h / q) + h % q,
                r == 10 * (h % q) + n % 10,
        ;
        lemma_fundamental_div_mod_converse(n as int, 10 * q, h / q, r);
    }
}

/// The written form of a canonical value is a decimal numeral that ends in a
/// digit and stands for that value.
pub proof fn lemma_exact_text_reads_back(v: Exact)
    requires
        v.canonical(),
    ensures
        v.text().len() > 0,
        unit_of(v.text().last()) == Some(TUnit::Unknown),
        decimal_of_text(v.text()) == Some(v),
{
    let m = magnitude(v.unscaled);
    let p = pow10(v.scale);
    lemma_pow10_positive(v.scale);
    let sign = if v.unscaled < 0 {
        seq!['-']
    } else {
        Seq::<char>::empty()
    };
    let whole = digits_text(m / p);
    let fraction = fraction_text(m % p, v.scale);
    let tail = if v.scale > 0 {
        seq!['.'] + fraction
    } else {
        Seq::<char>::empty()
    };
    let body = whole + tail;
    let s = sign + whole + tail;
    assert(s == v.text());
    lemma_digits_text_reads_back(m / p);
    lemma_fraction_text_reads_back(m % p, v.scale);
    lemma_digit_char(digit_of(whole[0]));
    assert(is_digit(whole[0]));
    assert(s =~= sign + body);
    if v.unscaled < 0 {
        assert(s[0] == '-');
        assert(s.skip(1) =~= body);
    } else {
        assert(s[0] == whole[0]);
        assert(s =~= body);
    }
    assert(has_sign(s) == (v.unscaled < 0));
    let k = whole.len() as int;
    assert forall|i: int| 0 <= i < k implies body[i] != '.' by {
        assert(body[i] == whole[i]);
        assert(is_digit(whole[i]));
    }
    if v.scale > 0 {
        assert(body[k] == '.');
        assert(body.skip(k + 1) =~= fraction);
    } else {
        assert(body.len() == k);
    }
    lemma_first_point(body, k);
    assert(body.take(k) =~= whole);
    let behind = if k < body.len() {
        body.skip(k + 1)
    } else {
        Seq::<char>::empty()
    };
    assert(behind =~= if v.scale > 0 {
        fraction
    } else {
        Seq::<char>::empty()
    });
    lemma_numeral_concat(whole, behind);
    lemma_fundamental_div_mod(m as int, p as int);
    assert(0 <= m % p < p) by (nonlinear_arith)
        requires
            p > 0,
            m >= 0,
    ;
    lemma_fundamental_div_mod_converse((m % p) as int, p as int, 0, (m % p) as int);
    if v.scale > 0 {
        assert(numeral_value(whole + behind) == m) by (nonlinear_arith)
            requires
                numeral_value(whole + behind) == (m / p) * p + m % p,
                m == p * (m / p) + m % p,
        ;
        assert(is_digit(fraction.last()));
        assert(s.last() == fraction.last());
    } else {
        assert(p == 1);
        assert(numeral_value(behind) == 0);
        assert(numeral_value(whole + behind) == m) by (nonlinear_arith)
            requires
                numeral_value(whole + behind) == (m / 1) * 1 + 0,
        ;
        assert(is_digit(whole.last()));
        assert(s.last() == whole.last());
    }
    lemma_digit_char(digit_of(s.last()));
    assert(signed(v.unscaled < 0, m) == v.unscaled);
    lemma_normalized(v);
}

/// Writing a temperature and reading the text gives the temperature back:
/// the value digit for digit, and the unit, also where there is none.
pub proof fn lemma_text_reads_back(t: Reading)
    requires
        t.value.canonical(),
    ensures
        parse_text(t.text()) == Ok::<Reading, FcError>(t),
{
    lemma_exact_text_reads_back(t.value);
    let written = t.value.text();
    let s = t.text();
    match t.unit {
        TUnit::Unknown => {
            assert(s =~= written);
        },
        TUnit::C => {
            assert(s.last() == 'C');
            assert(s.drop_last() =~= written);
        },
        TUnit::F => {
            assert(s.last() == 'F');
            assert(s.drop_last() =~= written);
        },
    }
}

} // verus!
