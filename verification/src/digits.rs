//! Natural numbers of any size, written as decimal digits with the least
//! significant digit first.
//!
//! A sequence `s` of digits stands for `s[0] + 10 * s[1] + 100 * s[2] + ...`.
//! Leading zeros (at the end of the sequence) are allowed and change nothing.

use vstd::prelude::*;

verus! {

/// Ten to the power `n`.
pub open spec fn pow10(n: nat) -> nat
    decreases n,
{
    if n == 0 {
        1
    } else {
        10 * pow10((n - 1) as nat)
    }
}

/// Every element is a decimal digit.
pub open spec fn is_digits(s: Seq<u8>) -> bool {
    forall|i: int| 0 <= i < s.len() ==> s[i] < 10
}

/// The number that the digits `s` stand for, least significant digit first.
pub open spec fn value(s: Seq<u8>) -> nat
    decreases s.len(),
{
    if s.len() == 0 {
        0
    } else {
        s[0] as nat + 10 * value(s.skip(1))
    }
}

/// The digit at position `i`, or zero beyond the end.
pub open spec fn digit_at(s: Seq<u8>, i: int) -> nat {
    if 0 <= i < s.len() {
        s[i] as nat
    } else {
        0
    }
}

/// The number made of the lowest `k` digits of `s`.
pub open spec fn low(s: Seq<u8>, k: nat) -> nat {
    if k <= s.len() {
        value(s.take(k as int))
    } else {
        value(s)
    }
}

/// Every power of ten is positive.
pub proof fn lemma_pow10_positive(n: nat)
    ensures
        pow10(n) > 0,
    decreases n,
{
    if n > 0 {
        lemma_pow10_positive((n - 1) as nat);
    }
}

/// Powers of ten grow with the exponent.
pub proof fn lemma_pow10_grows(a: nat, b: nat)
    requires
        a <= b,
    ensures
        pow10(a) <= pow10(b),
    decreases b - a,
{
    if a < b {
        lemma_pow10_grows(a, (b - 1) as nat);
    }
}

/// A digit appended at the most significant end counts with its power of ten.
pub proof fn lemma_value_push(s: Seq<u8>, d: u8)
    ensures
        value(s.push(d)) == value(s) + d * pow10(s.len()),
    decreases s.len(),
{
    let t = s.push(d);
    if s.len() == 0 {
        assert(t.skip(1) =~= Seq::<u8>::empty());
        assert(value(t.skip(1)) == 0);
        assert(d * pow10(0) == d) by (nonlinear_arith)
            requires
                pow10(0) == 1,
        ;
    } else {
        lemma_value_push(s.skip(1), d);
        assert(t.skip(1) =~= s.skip(1).push(d));
        let p = pow10((s.len() - 1) as nat);
        assert(pow10(s.len()) == 10 * p);
        assert(10 * (d * p) == d * (10 * p)) by (nonlinear_arith);
    }
}

/// A number of `n` digits is below ten to the `n`.
pub proof fn lemma_value_bound(s: Seq<u8>)
    requires
        is_digits(s),
    ensures
        value(s) < pow10(s.len()),
    decreases s.len(),
{
    if s.len() > 0 {
        lemma_value_bound(s.skip(1));
    }
}

/// A number whose leading digit is not zero is at least the power of ten of
/// that digit's place.
pub proof fn lemma_value_at_least(s: Seq<u8>)
    requires
        s.len() > 0,
        s.last() != 0,
    ensures
        value(s) >= pow10((s.len() - 1) as nat),
{
    let shorter = s.drop_last();
    assert(s =~= shorter.push(s.last()));
    lemma_value_push(shorter, s.last());
    assert(s.last() * pow10(shorter.len()) >= pow10(shorter.len())) by (nonlinear_arith)
        requires
            s.last() >= 1,
    ;
}

/// Two numbers of as many digits are equal only if they have the same digits.
pub proof fn lemma_value_injective(a: Seq<u8>, b: Seq<u8>)
    requires
        is_digits(a),
        is_digits(b),
        a.len() == b.len(),
        value(a) == value(b),
    ensures
        a == b,
    decreases a.len(),
{
    if a.len() > 0 {
        assert(a[0] as nat == value(a) % 10);
        assert(b[0] as nat == value(b) % 10);
        lemma_value_injective(a.skip(1), b.skip(1));
        assert forall|i: int| 0 <= i < a.len() implies a[i] == b[i] by {
            if i > 0 {
                assert(a[i] == a.skip(1)[i - 1]);
                assert(b[i] == b.skip(1)[i - 1]);
            }
        }
    }
    assert(a =~= b);
}

/// The digits below position `k` and those from `k` on make up the number.
pub proof fn lemma_value_split(s: Seq<u8>, k: int)
    requires
        0 <= k <= s.len(),
    ensures
        value(s) == value(s.take(k)) + pow10(k as nat) * value(s.skip(k)),
    decreases s.len() - k,
{
    if k == s.len() {
        assert(s.take(k) =~= s);
        assert(s.skip(k) =~= Seq::<u8>::empty());
        assert(pow10(k as nat) * value(s.skip(k)) == 0) by (nonlinear_arith)
            requires
                value(s.skip(k)) == 0,
        ;
    } else {
        lemma_value_split(s, k + 1);
        assert(s.take(k + 1) =~= s.take(k).push(s[k]));
        lemma_value_push(s.take(k), s[k]);
        assert(s.skip(k).skip(1) =~= s.skip(k + 1));
        let p = pow10(k as nat);
        let hi = value(s.skip(k + 1));
        assert(value(s.skip(k)) == s[k] as nat + 10 * hi);
        assert(pow10((k + 1) as nat) == 10 * p);
        assert(s[k] * p + (10 * p) * hi == p * (s[k] as nat + 10 * hi)) by (nonlinear_arith);
    }
}

/// The lowest `k + 1` digits are the lowest `k` and the digit at `k`.
pub proof fn lemma_low_step(s: Seq<u8>, k: nat)
    ensures
        low(s, k + 1) == low(s, k) + digit_at(s, k as int) * pow10(k),
{
    if k < s.len() {
        assert(s.take(k as int + 1) =~= s.take(k as int).push(s[k as int]));
        lemma_value_push(s.take(k as int), s[k as int]);
        if k + 1 == s.len() {
            assert(s.take(k as int + 1) =~= s);
        }
    } else {
        if k == s.len() {
            assert(s.take(k as int) =~= s);
        }
        assert(0 * pow10(k) == 0) by (nonlinear_arith);
    }
}

/// Appends the decimal digits of `n` above those of `out`.
pub(crate) fn with_number(out: Vec<u8>, n: u64) -> (r: Vec<u8>)
    requires
        is_digits(out@),
    ensures
        is_digits(r@),
        value(r@) == value(out@) + n * pow10(out@.len()),
        r@.len() >= out@.len(),
        r@.take(out@.len() as int) == out@,
{
    let mut r = out;
    let mut rest: u64 = n;
    let ghost start = r@;
    while rest > 0
        invariant
            is_digits(r@),
            r@.len() >= start.len(),
            r@.take(start.len() as int) == start,
            value(r@) + rest * pow10(r@.len()) == value(start) + n * pow10(start.len()),
        decreases rest,
    {
        let d: u8 = (rest % 10) as u8;
        proof {
            lemma_value_push(r@, d);
            let p = pow10(r@.len());
            assert(pow10(r@.len() + 1) == 10 * p);
            assert(d * p + (rest / 10) * (10 * p) == rest * p) by (nonlinear_arith)
                requires
                    d == rest % 10,
            ;
            assert(r@.push(d).take(start.len() as int) =~= r@.take(start.len() as int));
        }
        r.push(d);
        rest = rest / 10;
    }
    proof {
        assert(0 * pow10(r@.len()) == 0) by (nonlinear_arith);
        assert(start.take(start.len() as int) =~= start);
    }
    r
}

/// The digits of `k` times the number `x`.
pub(crate) fn scaled(x: &Vec<u8>, k: u32) -> (r: Vec<u8>)
    requires
        is_digits(x@),
    ensures
        is_digits(r@),
        value(r@) == k * value(x@),
{
    let mut out: Vec<u8> = Vec::new();
    let mut carry: u64 = 0;
    let mut i: usize = 0;
    proof {
        assert(k * value(x@.take(0)) == 0) by (nonlinear_arith)
            requires
                value(x@.take(0)) == 0,
        ;
        assert(0 * pow10(0) == 0) by (nonlinear_arith);
    }
    while i < x.len()
        invariant
            i <= x.len(),
            is_digits(x@),
            is_digits(out@),
            out@.len() == i,
            carry <= k,
            value(out@) + carry * pow10(i as nat) == k * value(x@.take(i as int)),
        decreases x.len() - i,
    {
        let xd: u8 = x[i];
        proof {
            assert(k * xd <= 9 * k) by (nonlinear_arith)
                requires
                    xd <= 9,
            ;
        }
        let t: u64 = (k as u64) * (xd as u64) + carry;
        let d: u8 = (t % 10) as u8;
        proof {
            let p = pow10(i as nat);
            let xi = x@[i as int];
            assert(x@.take(i + 1) =~= x@.take(i as int).push(xi));
            lemma_value_push(x@.take(i as int), xi);
            lemma_value_push(out@, d);
            assert(pow10((i + 1) as nat) == 10 * p);
            assert(d * p + (t / 10) * (10 * p) == t * p) by (nonlinear_arith)
                requires
                    d == t % 10,
            ;
            assert(t * p == k * (xi * p) + carry * p) by (nonlinear_arith)
                requires
                    t == k * xi + carry,
            ;
            assert(k * (value(x@.take(i as int)) + xi * p) == k * value(x@.take(i as int)) + k * (
            xi * p)) by (nonlinear_arith);
        }
        out.push(d);
        carry = t / 10;
        i = i + 1;
    }
    proof {
        assert(x@.take(i as int) =~= x@);
    }
    with_number(out, carry)
}

/// Once `k` reaches the length, the lowest `k` digits are the whole number.
pub proof fn lemma_low_all(s: Seq<u8>, k: nat)
    requires
        k >= s.len(),
    ensures
        low(s, k) == value(s),
{
    if k == s.len() {
        assert(s.take(k as int) =~= s);
    }
}

/// The digit of `x` at position `i`, or zero beyond its end.
pub(crate) fn digit_or_zero(x: &Vec<u8>, i: usize) -> (d: u8)
    requires
        is_digits(x@),
    ensures
        d == digit_at(x@, i as int),
        d < 10,
{
    if i < x.len() {
        x[i]
    } else {
        0
    }
}

/// The larger of two lengths.
fn longer(a: usize, b: usize) -> (n: usize)
    ensures
        n >= a,
        n >= b,
        n == a || n == b,
{
    if a >= b {
        a
    } else {
        b
    }
}

/// The digits of the sum of `x` and `y`.
pub(crate) fn sum(x: &Vec<u8>, y: &Vec<u8>) -> (r: Vec<u8>)
    requires
        is_digits(x@),
        is_digits(y@),
    ensures
        is_digits(r@),
        value(r@) == value(x@) + value(y@),
{
    let n = longer(x.len(), y.len());
    let mut out: Vec<u8> = Vec::new();
    let mut carry: u8 = 0;
    let mut i: usize = 0;
    proof {
        assert(0 * pow10(0) == 0) by (nonlinear_arith);
        assert(x@.take(0).len() == 0);
        assert(y@.take(0).len() == 0);
    }
    while i < n
        invariant
            i <= n,
            n >= x.len(),
            n >= y.len(),
            is_digits(x@),
            is_digits(y@),
            is_digits(out@),
            out@.len() == i,
            carry <= 1,
            value(out@) + carry * pow10(i as nat) == low(x@, i as nat) + low(y@, i as nat),
        decreases n - i,
    {
        let a = digit_or_zero(x, i);
        let b = digit_or_zero(y, i);
        let t: u8 = a + b + carry;
        let d: u8 = t % 10;
        proof {
            let p = pow10(i as nat);
            lemma_low_step(x@, i as nat);
            lemma_low_step(y@, i as nat);
            lemma_value_push(out@, d);
            assert(pow10((i + 1) as nat) == 10 * p);
            assert(d * p + (t / 10) * (10 * p) == a * p + b * p + carry * p) by (nonlinear_arith)
                requires
                    d == t % 10,
                    t == a + b + carry,
            ;
        }
        out.push(d);
        carry = t / 10;
        i = i + 1;
    }
    proof {
        lemma_low_all(x@, n as nat);
        lemma_low_all(y@, n as nat);
    }
    with_number(out, carry as u64)
}

/// The digits of `x - y`, counted modulo ten to the longer length, and
/// whether a borrow was left over, which is the case exactly when `x < y`.
fn difference(x: &Vec<u8>, y: &Vec<u8>) -> (r: (Vec<u8>, bool))
    requires
        is_digits(x@),
        is_digits(y@),
    ensures
        is_digits(r.0@),
        r.0@.len() >= x@.len(),
        r.0@.len() >= y@.len(),
        value(r.0@) == value(x@) - value(y@) + (if r.1 {
            pow10(r.0@.len())
        } else {
            0
        }),
{
    let n = longer(x.len(), y.len());
    let mut out: Vec<u8> = Vec::new();
    let mut borrow: u8 = 0;
    let mut i: usize = 0;
    proof {
        assert(0 * pow10(0) == 0) by (nonlinear_arith);
        assert(x@.take(0).len() == 0);
        assert(y@.take(0).len() == 0);
    }
    while i < n
        invariant
            i <= n,
            n >= x.len(),
            n >= y.len(),
            is_digits(x@),
            is_digits(y@),
            is_digits(out@),
            out@.len() == i,
            borrow <= 1,
            value(out@) == low(x@, i as nat) - low(y@, i as nat) + borrow * pow10(i as nat),
        decreases n - i,
    {
        let a = digit_or_zero(x, i);
        let b = digit_or_zero(y, i);
        let take: u8 = b + borrow;
        let d: u8 = if a >= take {
            a - take
        } else {
            a + 10 - take
        };
        let next: u8 = if a >= take {
            0
        } else {
            1
        };
        proof {
            let p = pow10(i as nat);
            lemma_low_step(x@, i as nat);
            lemma_low_step(y@, i as nat);
            lemma_value_push(out@, d);
            assert(pow10((i + 1) as nat) == 10 * p);
            assert(borrow * p + d * p == a * p - b * p + next * (10 * p)) by (nonlinear_arith)
                requires
                    d + b + borrow == a + 10 * next,
            ;
        }
        out.push(d);
        borrow = next;
        i = i + 1;
    }
    proof {
        lemma_low_all(x@, n as nat);
        lemma_low_all(y@, n as nat);
        assert(1 * pow10(n as nat) == pow10(n as nat)) by (nonlinear_arith);
        assert(0 * pow10(n as nat) == 0) by (nonlinear_arith);
    }
    (out, borrow == 1)
}

/// The digits of the distance between `x` and `y`, and whether `x` is the
/// smaller of the two.
pub(crate) fn distance(x: &Vec<u8>, y: &Vec<u8>) -> (r: (Vec<u8>, bool))
    requires
        is_digits(x@),
        is_digits(y@),
    ensures
        is_digits(r.0@),
        r.1 == (value(x@) < value(y@)),
        !r.1 ==> value(r.0@) == value(x@) - value(y@),
        r.1 ==> value(r.0@) == value(y@) - value(x@),
{
    let (forward, borrowed) = difference(x, y);
    proof {
        lemma_value_bound(forward@);
    }
    if !borrowed {
        (forward, false)
    } else {
        let (backward, again) = difference(y, x);
        proof {
            lemma_value_bound(backward@);
            lemma_pow10_positive(backward@.len());
        }
        (backward, true)
    }
}

/// The digits of `x` divided by `d`, rounded down.
pub(crate) fn quotient(x: &Vec<u8>, d: u32) -> (r: Vec<u8>)
    requires
        is_digits(x@),
        d > 0,
    ensures
        is_digits(r@),
        value(r@) == value(x@) / (d as nat),
{
    let n = x.len();
    let mut out: Vec<u8> = vec![0u8; n];
    let mut rest: u64 = 0;
    let mut i: usize = n;
    proof {
        assert(x@.skip(n as int).len() == 0);
        assert(out@.skip(n as int).len() == 0);
        assert(d * 0 == 0) by (nonlinear_arith);
    }
    while i > 0
        invariant
            i <= n,
            n == x.len(),
            out@.len() == n,
            d > 0,
            is_digits(x@),
            is_digits(out@),
            rest < d,
            value(x@.skip(i as int)) == d * value(out@.skip(i as int)) + rest,
        decreases i,
    {
        let ghost before = out@;
        i = i - 1;
        let cur: u64 = rest * 10 + x[i] as u64;
        let q: u64 = cur / (d as u64);
        proof {
            assert(q < 10 && cur == d * q + cur % (d as u64)) by (nonlinear_arith)
                requires
                    q == cur / (d as u64),
                    cur < 10 * d,
                    d > 0,
            ;
        }
        out.set(i, q as u8);
        rest = cur % (d as u64);
        proof {
            let hi = value(before.skip(i + 1));
            assert(x@.skip(i as int).skip(1) =~= x@.skip(i + 1));
            assert(out@.skip(i as int).skip(1) =~= before.skip(i + 1));
            assert(value(out@.skip(i as int)) == q + 10 * hi);
            assert(d * (q + 10 * hi) == d * q + 10 * (d * hi)) by (nonlinear_arith);
        }
    }
    proof {
        assert(x@.skip(0) =~= x@);
        assert(out@.skip(0) =~= out@);
        let v = value(out@);
        assert((d * v + rest) / (d as int) == v) by (nonlinear_arith)
            requires
                0 <= rest < d,
                v >= 0,
        ;
    }
    out
}

/// The digits of `x` from position `k` on: `x` divided by ten to the `k`,
/// rounded down.
pub(crate) fn dropped(x: &Vec<u8>, k: usize) -> (r: Vec<u8>)
    requires
        is_digits(x@),
    ensures
        is_digits(r@),
        value(r@) == value(x@) / pow10(k as nat),
        k <= x@.len() ==> r@ == x@.skip(k as int),
        k > x@.len() ==> r@.len() == 0,
{
    let mut out: Vec<u8> = Vec::new();
    let mut i: usize = k;
    while i < x.len()
        invariant
            k <= i,
            k <= x.len() ==> i <= x.len(),
            is_digits(x@),
            k <= x.len() ==> out@ == x@.subrange(k as int, i as int),
            k > x.len() ==> out@.len() == 0,
        decreases x.len() - i,
    {
        out.push(x[i]);
        i = i + 1;
    }
    proof {
        let p = pow10(k as nat);
        lemma_pow10_positive(k as nat);
        if k <= x.len() {
            assert(out@ =~= x@.skip(k as int));
            lemma_value_split(x@, k as int);
            lemma_value_bound(x@.take(k as int));
            let lo = value(x@.take(k as int));
            let hi = value(x@.skip(k as int));
            assert((lo + p * hi) / p == hi) by (nonlinear_arith)
                requires
                    0 <= lo < p,
                    hi >= 0,
            ;
        } else {
            lemma_value_bound(x@);
            lemma_pow10_grows(x@.len(), k as nat);
            let v = value(x@);
            assert(v / p == 0) by (nonlinear_arith)
                requires
                    0 <= v < p,
            ;
        }
    }
    out
}

/// The digits of `c` times ten to the `k`.
pub(crate) fn shifted_number(c: u64, k: usize) -> (r: Vec<u8>)
    ensures
        is_digits(r@),
        value(r@) == c * pow10(k as nat),
{
    let mut out: Vec<u8> = Vec::new();
    let mut i: usize = 0;
    while i < k
        invariant
            i <= k,
            out@.len() == i,
            is_digits(out@),
            value(out@) == 0,
        decreases k - i,
    {
        proof {
            lemma_value_push(out@, 0);
            assert(0 * pow10(out@.len()) == 0) by (nonlinear_arith);
        }
        out.push(0);
        i = i + 1;
    }
    with_number(out, c)
}

} // verus!
