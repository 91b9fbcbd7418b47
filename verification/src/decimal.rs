//! Exact decimal numbers of any size and precision.
//!
//! A [`Decimal`] holds a sign, the decimal digits of a magnitude and the number
//! of those digits that stand behind the decimal point. Its view is an
//! [`Exact`]: an integer together with a power of ten that divides it.

use crate::digits::{
    digit_at, digit_or_zero, distance, dropped, is_digits, lemma_low_all, lemma_low_step,
    lemma_pow10_grows, lemma_pow10_positive, lemma_value_at_least, lemma_value_bound,
    lemma_value_injective, lemma_value_push, lemma_value_split, low, pow10, quotient, scaled,
    shifted_number, sum, value,
};
use crate::exact::{
    all_digits, decimal_of_text, digit_char, digit_of, fraction_part, is_digit,
    lemma_digits_text, lemma_first_point, lemma_fraction_text, lemma_normalized_strip,
    lemma_numeral_reversed, magnitude, round_half_away, signed, unsigned_part, whole_part,
    written, Exact,
};
use vstd::arithmetic::div_mod::lemma_div_denominator;
use vstd::prelude::*;
use vstd::std_specs::cmp::PartialEqSpecImpl;
use vstd::string::StringExecFns;

verus! {

/// An exact decimal number, of any size and with any number of digits behind
/// the point. Two decimals are equal if they are the same number, however
/// they were written: `23`, `23.0` and `+023` are one value.
#[derive(Debug)]
pub struct Decimal {
    negative: bool,
    digits: Vec<u8>,
    scale: usize,
}

impl View for Decimal {
    type V = Exact;

    closed spec fn view(&self) -> Exact {
        Exact { unscaled: signed(self.negative, value(self.digits@)), scale: self.scale as nat }
    }
}

impl Decimal {
    /// The digits are those of the written form: at least one in front of the
    /// point, no needless zero at either end, and no sign on zero.
    #[verifier::type_invariant]
    spec fn wf(self) -> bool {
        &&& is_digits(self.digits@)
        &&& self.digits@.len() > self.scale
        &&& self.scale > 0 ==> self.digits@[0] != 0
        &&& self.digits@.len() > self.scale + 1 ==> self.digits@.last() != 0
        &&& self.negative ==> value(self.digits@) != 0
    }

    /// The canonical decimal of the given sign, digits and scale.
    pub(crate) fn normal(negative: bool, digits: Vec<u8>, scale: usize) -> (r: Decimal)
        requires
            is_digits(digits@),
            scale < usize::MAX,
        ensures
            r@ == (Exact {
                unscaled: signed(negative, value(digits@)),
                scale: scale as nat,
            }).normalized(),
            r@.canonical(),
    {
        let mut i: usize = 0;
        let mut more: bool = scale > 0 && digit_or_zero(&digits, 0) == 0;
        proof {
            assert(digits@.take(0).len() == 0);
        }
        while more
            invariant
                i <= scale,
                is_digits(digits@),
                low(digits@, i as nat) == 0,
                more == (i < scale && digit_at(digits@, i as int) == 0),
            decreases scale - i,
        {
            proof {
                lemma_low_step(digits@, i as nat);
                assert(0 * pow10(i as nat) == 0) by (nonlinear_arith);
            }
            i = i + 1;
            more = i < scale && digit_or_zero(&digits, i) == 0;
        }
        let mut rest = dropped(&digits, i);
        let kept: usize = scale - i;
        let ghost whole = value(digits@);
        let ghost part = value(rest@);
        proof {
            let p = pow10(i as nat);
            if i <= digits@.len() {
                lemma_value_split(digits@, i as int);
            } else {
                lemma_low_all(digits@, i as nat);
                lemma_pow10_positive(i as nat);
                assert(0nat / p == 0) by (nonlinear_arith)
                    requires
                        p > 0,
                ;
                assert(p * 0 == 0) by (nonlinear_arith);
            }
            assert(whole == p * part);
            assert(signed(negative, whole) == p * signed(negative, part)) by (nonlinear_arith)
                requires
                    whole == p * part,
                    signed(negative, whole) == if negative {
                        -whole
                    } else {
                        whole as int
                    },
                    signed(negative, part) == if negative {
                        -part
                    } else {
                        part as int
                    },
            ;
            lemma_normalized_strip(
                signed(negative, whole),
                scale as nat,
                i as nat,
                signed(negative, part),
            );
        }
        while rest.len() <= kept
            invariant
                kept < usize::MAX,
                is_digits(rest@),
                value(rest@) == part,
                kept > 0 ==> rest@.len() > 0 && rest@[0] != 0,
            decreases kept + 1 - rest.len(),
        {
            proof {
                lemma_value_push(rest@, 0);
                assert(0 * pow10(rest@.len()) == 0) by (nonlinear_arith);
            }
            rest.push(0);
        }
        while rest.len() - 1 > kept && rest[rest.len() - 1] == 0
            invariant
                rest@.len() > kept,
                is_digits(rest@),
                value(rest@) == part,
                kept > 0 ==> rest@[0] != 0,
            decreases rest.len(),
        {
            proof {
                let shorter = rest@.drop_last();
                assert(rest@ =~= shorter.push(0));
                lemma_value_push(shorter, 0);
                assert(0 * pow10(shorter.len()) == 0) by (nonlinear_arith);
            }
            rest.pop();
        }
        let zero: bool = rest.len() == 1 && rest[0] == 0;
        proof {
            if zero {
                assert(rest@.skip(1).len() == 0);
                assert(value(rest@.skip(1)) == 0);
                assert(value(rest@) == rest@[0] as nat + 10 * value(rest@.skip(1)));
            } else if rest@[0] == 0 {
                lemma_value_at_least(rest@);
                lemma_pow10_positive((rest@.len() - 1) as nat);
            }
            assert(part % 10 == rest@[0] as nat);
        }
        Decimal { negative: negative && !zero, digits: rest, scale: kept }
    }

    /// The number `(a * self + b) / d`, rounded to one decimal place, a tie
    /// going away from zero. The sign of `b` is given apart from its size.
    pub(crate) fn affine_tenths(&self, a: u32, b: u32, b_negative: bool, d: u32) -> (r: Decimal)
        requires
            a <= 1000,
            b <= 1000,
            0 < d <= 1000,
        ensures
            r@ == self@.affine_tenths(a as int, signed(b_negative, b as nat), d as int),
            r@.canonical(),
    {
        proof {
            use_type_invariant(self);
        }
        let ghost p = pow10(self.scale as nat);
        let ghost m = value(self.digits@);
        let ghost n = 10 * (a * self@.unscaled + signed(b_negative, b as nat) * p);
        let first = scaled(&self.digits, 10 * a);
        let second = shifted_number(10 * (b as u64), self.scale);
        let (size, negative) = if self.negative == b_negative {
            (sum(&first, &second), b_negative)
        } else {
            let (apart, smaller) = distance(&first, &second);
            (apart, if smaller {
                b_negative
            } else {
                self.negative
            })
        };
        let ghost x = value(size@);
        proof {
            let t1 = value(first@) as int;
            let t2 = value(second@) as int;
            let u = self@.unscaled;
            let c = signed(b_negative, b as nat);
            assert(10 * (a * u) == if self.negative {
                -t1
            } else {
                t1
            }) by (nonlinear_arith)
                requires
                    t1 == (10 * a) * m,
                    u == if self.negative {
                        -m
                    } else {
                        m as int
                    },
            ;
            assert(10 * (c * p) == if b_negative {
                -t2
            } else {
                t2
            }) by (nonlinear_arith)
                requires
                    t2 == (10 * b) * p,
                    c == if b_negative {
                        -b
                    } else {
                        b as int
                    },
            ;
            assert(n == signed(negative, x));
        }
        let twice = scaled(&size, 2);
        let half = shifted_number(d as u64, self.scale);
        let above = sum(&twice, &half);
        let whole = dropped(&above, self.scale);
        let tenths = quotient(&whole, 2 * d);
        proof {
            let y = value(above@) as int;
            let dp = d * p;
            lemma_pow10_positive(self.scale as nat);
            assert(y == 2 * x + dp);
            lemma_div_denominator(y, p as int, 2 * d);
            assert(p * (2 * d) == 2 * dp) by (nonlinear_arith)
                requires
                    dp == d * p,
            ;
            assert(dp > 0) by (nonlinear_arith)
                requires
                    dp == d * p,
                    d > 0,
                    p > 0,
            ;
            assert(value(tenths@) == (2 * x + dp) / (2 * dp));
            if x == 0 {
                assert(dp / (2 * dp) == 0) by (nonlinear_arith)
                    requires
                        dp > 0,
                ;
            }
            assert(signed(negative, value(tenths@)) == round_half_away(n, dp));
        }
        Decimal::normal(negative, tenths, 1)
    }

    /// This number rounded to one decimal place, a tie going away from zero.
    pub fn round_to_one_dec(&self) -> (r: Decimal)
        ensures
            r@ == self@.rounded(),
            r@.canonical(),
    {
        self.affine_tenths(1, 0, false, 1)
    }
}

/// The characters of a text, one by one.
pub(crate) fn chars_of(text: &str) -> (r: Vec<char>)
    ensures
        r@ == text@,
{
    let mut out: Vec<char> = Vec::new();
    for c in it: text.chars()
        invariant
            it.seq() == text@,
            out@ == it.seq().take(it.index() as int),
    {
        proof {
            assert(it.seq().take(it.index() + 1) =~= it.seq().take(it.index() as int).push(c));
        }
        out.push(c);
    }
    proof {
        assert(text@.take(text@.len() as int) =~= text@);
    }
    out
}

/// The digit that a character stands for, if it is one.
pub(crate) fn digit(c: char) -> (r: Option<u8>)
    ensures
        r is Some <==> is_digit(c),
        r is Some ==> r->0 == digit_of(c) && r->0 < 10,
{
    if '0' <= c && c <= '9' {
        Some(((c as u32) - ('0' as u32)) as u8)
    } else {
        None
    }
}

/// The one-character text of a digit.
fn digit_text(d: u8) -> (r: &'static str)
    requires
        d < 10,
    ensures
        r@ == seq![digit_char(d as nat)],
{
    proof {
        reveal_strlit("0");
        reveal_strlit("1");
        reveal_strlit("2");
        reveal_strlit("3");
        reveal_strlit("4");
        reveal_strlit("5");
        reveal_strlit("6");
        reveal_strlit("7");
        reveal_strlit("8");
        reveal_strlit("9");
    }
    let r = match d {
        0 => "0",
        1 => "1",
        2 => "2",
        3 => "3",
        4 => "4",
        5 => "5",
        6 => "6",
        7 => "7",
        8 => "8",
        _ => "9",
    };
    assert(r@ =~= seq![digit_char(d as nat)]);
    r
}

impl Decimal {
    /// Reads the decimal numeral that the first `end` characters make up.
    #[verifier::loop_isolation(false)]
    pub(crate) fn from_chars(chars: &Vec<char>, end: usize) -> (r: Option<Decimal>)
        requires
            end <= chars@.len(),
        ensures
            match r {
                Some(d) => decimal_of_text(chars@.take(end as int)) == Some(d@) && d@.canonical(),
                None => decimal_of_text(chars@.take(end as int)) is None,
            },
    {
        let ghost s = chars@.take(end as int);
        let negative: bool = end > 0 && chars[0] == '-';
        let start: usize = if end > 0 && (chars[0] == '+' || chars[0] == '-') {
            1
        } else {
            0
        };
        let ghost body = unsigned_part(s);
        assert(body =~= chars@.subrange(start as int, end as int));
        // The first point, or the end where there is none.
        let mut k: usize = start;
        while k < end && chars[k] != '.'
            invariant
                start <= k <= end,
                forall|j: int| start <= j < k ==> chars@[j] != '.',
            decreases end - k,
        {
            k = k + 1;
        }
        proof {
            lemma_first_point(body, k - start);
        }
        let ghost whole = whole_part(body);
        let ghost fraction = fraction_part(body);
        let ghost w = whole + fraction;
        assert(whole =~= chars@.subrange(start as int, k as int));
        assert(k < end ==> fraction =~= chars@.subrange(k + 1, end as int));
        // The digits, from the last character to the first, the point left out.
        let mut digits: Vec<u8> = Vec::new();
        let mut i: usize = end;
        while i > start
            invariant
                start <= i <= end,
                is_digits(digits@),
                digits@.len() == (end - i) - (if i <= k && k < end {
                    1int
                } else {
                    0int
                }),
                forall|j: int| i <= j < end && j != k ==> is_digit(chars@[j]),
                forall|t: int|
                    0 <= t < digits@.len() ==> digits@[t] as nat == digit_of(
                        #[trigger] w[w.len() - 1 - t],
                    ),
            decreases i,
        {
            i = i - 1;
            if i != k {
                proof {
                    if i < k {
                        assert(whole[i - start] == chars@[i as int]);
                        assert(w[i - start] == chars@[i as int]);
                    } else {
                        assert(fraction[i - k - 1] == chars@[i as int]);
                        assert(w[i - start - 1] == chars@[i as int]);
                    }
                }
                match digit(chars[i]) {
                    None => {
                        assert(!all_digits(whole) || !all_digits(fraction));
                        return None;
                    },
                    Some(d) => {
                        digits.push(d);
                    },
                }
            }
        }
        if digits.len() == 0 {
            return None;
        }
        let scale: usize = if k < end {
            end - k - 1
        } else {
            0
        };
        proof {
            assert forall|j: int| 0 <= j < whole.len() implies is_digit(#[trigger] whole[j]) by {
                assert(whole[j] == chars@[start + j]);
            }
            assert forall|j: int| 0 <= j < fraction.len() implies is_digit(
                #[trigger] fraction[j],
            ) by {
                assert(fraction[j] == chars@[k + 1 + j]);
            }
            lemma_numeral_reversed(w, digits@);
        }
        Some(Decimal::normal(negative, digits, scale))
    }

    /// Reads a decimal numeral: an optional sign, then digits with at most
    /// one decimal point among them, and at least one digit.
    pub fn parse(text: &str) -> (r: Option<Decimal>)
        ensures
            match r {
                Some(d) => decimal_of_text(text@) == Some(d@) && d@.canonical(),
                None => decimal_of_text(text@) is None,
            },
    {
        let chars = chars_of(text);
        proof {
            assert(chars@.take(chars@.len() as int) =~= chars@);
        }
        Decimal::from_chars(&chars, chars.len())
    }

    /// The written form of this number: a minus sign if it is negative, its
    /// digits, and a decimal point in front of the fractional digits if
    /// there are any.
    pub fn to_text(&self) -> (r: String)
        ensures
            r@ == self@.text(),
            self@.canonical(),
    {
        proof {
            use_type_invariant(self);
            self.lemma_canonical();
            reveal_strlit("-");
            reveal_strlit(".");
        }
        let n = self.digits.len();
        let ghost high = self.digits@.skip(self.scale as int);
        let ghost lower = self.digits@.take(self.scale as int);
        let ghost sign = if self.negative {
            seq!['-']
        } else {
            Seq::<char>::empty()
        };
        let mut out = String::new();
        if self.negative {
            out.append("-");
        }
        assert(out@ =~= sign);
        let mut i: usize = n;
        while i > self.scale
            invariant
                self.scale <= i <= n,
                n == self.digits@.len(),
                is_digits(self.digits@),
                out@ == sign + written(self.digits@.subrange(i as int, n as int)),
            decreases i,
        {
            let ghost before = self.digits@.subrange(i as int, n as int);
            i = i - 1;
            out.append(digit_text(self.digits[i]));
            proof {
                let now = self.digits@.subrange(i as int, n as int);
                assert(written(now) =~= written(before).push(digit_char(now[0] as nat)));
                assert(out@ =~= sign + written(now));
            }
        }
        proof {
            assert(self.digits@.subrange(self.scale as int, n as int) =~= high);
        }
        if self.scale > 0 {
            out.append(".");
            let ghost front = sign + written(high) + seq!['.'];
            assert(out@ =~= front);
            while i > 0
                invariant
                    i <= self.scale,
                    self.scale < self.digits@.len(),
                    is_digits(self.digits@),
                    out@ == front + written(self.digits@.subrange(i as int, self.scale as int)),
                decreases i,
            {
                let ghost before = self.digits@.subrange(i as int, self.scale as int);
                i = i - 1;
                out.append(digit_text(self.digits[i]));
                proof {
                    let now = self.digits@.subrange(i as int, self.scale as int);
                    assert(written(now) =~= written(before).push(digit_char(now[0] as nat)));
                    assert(out@ =~= front + written(now));
                }
            }
            proof {
                assert(self.digits@.subrange(0, self.scale as int) =~= lower);
            }
        }
        proof {
            let m = value(self.digits@);
            let p = pow10(self.scale as nat);
            lemma_value_split(self.digits@, self.scale as int);
            lemma_value_bound(lower);
            lemma_pow10_positive(self.scale as nat);
            let lo = value(lower);
            let hi = value(high);
            assert((lo + p * hi) / p == hi && (lo + p * hi) % p == lo) by (nonlinear_arith)
                requires
                    0 <= lo < p,
                    hi >= 0,
            ;
            assert(high.len() > 1 ==> high.last() == self.digits@.last());
            lemma_digits_text(high);
            lemma_fraction_text(lower);
            assert(magnitude(self@.unscaled) == m);
            assert((self@.unscaled < 0) == self.negative);
            assert(out@ =~= self@.text());
        }
        out
    }
}

impl Decimal {
    /// A decimal stands for a canonical value.
    proof fn lemma_canonical(self)
        requires
            self.wf(),
        ensures
            self@.canonical(),
    {
        assert(value(self.digits@) % 10 == self.digits@[0] as nat);
    }

    /// Two decimals that stand for the same number have the same sign, the
    /// same digits and the same scale.
    proof fn lemma_one_form(self, other: Decimal)
        requires
            self.wf(),
            other.wf(),
            self@ == other@,
        ensures
            self.negative == other.negative,
            self.scale == other.scale,
            self.digits@ == other.digits@,
    {
        let a = self.digits@;
        let b = other.digits@;
        assert(value(a) == value(b));
        if a.len() > b.len() {
            lemma_value_at_least(a);
            lemma_value_bound(b);
            lemma_pow10_grows(b.len(), (a.len() - 1) as nat);
        } else if b.len() > a.len() {
            lemma_value_at_least(b);
            lemma_value_bound(a);
            lemma_pow10_grows(a.len(), (b.len() - 1) as nat);
        } else {
            lemma_value_injective(a, b);
        }
    }
}

impl PartialEq for Decimal {
    /// Whether the two stand for the same number.
    fn eq(&self, other: &Self) -> (r: bool) {
        proof {
            use_type_invariant(self);
            use_type_invariant(other);
            if self@ == other@ {
                self.lemma_one_form(*other);
            }
        }
        if self.negative != other.negative || self.scale != other.scale || self.digits.len()
            != other.digits.len() {
            return false;
        }
        let n = self.digits.len();
        let mut i: usize = 0;
        while i < n
            invariant
                i <= n,
                n == self.digits@.len(),
                n == other.digits@.len(),
                self@ == other@ ==> self.digits@ == other.digits@,
                forall|j: int| 0 <= j < i ==> self.digits@[j] == other.digits@[j],
            decreases n - i,
        {
            if self.digits[i] != other.digits[i] {
                return false;
            }
            i = i + 1;
        }
        proof {
            assert(self.digits@ =~= other.digits@);
        }
        true
    }
}

impl Eq for Decimal {}

impl PartialEqSpecImpl for Decimal {
    open spec fn obeys_eq_spec() -> bool {
        true
    }

    open spec fn eq_spec(&self, other: &Decimal) -> bool {
        self@ == other@
    }
}

impl Clone for Decimal {
    fn clone(&self) -> (r: Self)
        ensures
            r@ == self@,
            r@.canonical(),
    {
        proof {
            use_type_invariant(self);
            self.lemma_canonical();
        }
        let digits = self.digits.clone();
        assert(digits@ =~= self.digits@);
        Decimal { negative: self.negative, digits, scale: self.scale }
    }
}

} // verus!
