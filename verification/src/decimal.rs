//! Decimal numbers as exact values: a natural mantissa and a power of ten.

use crate::text::{digit_of, digit_run, is_digit};
use vstd::arithmetic::div_mod::{
    lemma_div_denominator, lemma_fundamental_div_mod_converse, lemma_small_mod,
};
use vstd::arithmetic::power::{lemma_pow_adds, lemma_pow_increases, lemma_pow_positive, pow};
use vstd::prelude::*;

verus! {

/// Ten to the power `k`.
pub open spec fn pow10(k: nat) -> nat {
    pow(10, k) as nat
}

/// The non-negative number `mantissa * 10^exponent`.
pub struct Decimal {
    pub mantissa: nat,
    pub exponent: int,
}

impl Decimal {
    /// The number as a fraction: what stands above the line.
    pub open spec fn numerator(self) -> nat {
        if self.exponent >= 0 {
            self.mantissa * pow10(self.exponent as nat)
        } else {
            self.mantissa
        }
    }

    /// The number as a fraction: what stands below the line, a power of ten.
    pub open spec fn denominator(self) -> nat {
        if self.exponent >= 0 {
            1
        } else {
            pow10((-self.exponent) as nat)
        }
    }

    /// The product of this number and `m`, rounded down to a whole number.
    pub open spec fn scaled(self, m: nat) -> nat {
        (self.numerator() * m) / self.denominator()
    }

    /// Whether the product of this number and `m` is a whole number.
    pub open spec fn exact(self, m: nat) -> bool {
        (self.numerator() * m) % self.denominator() == 0
    }

    /// This number rounded down to a whole number.
    pub open spec fn whole_part(self) -> nat {
        self.scaled(1)
    }

    /// Whether this number has no fractional part.
    pub open spec fn is_whole(self) -> bool {
        self.exact(1)
    }
}

/// Whether every character of `s` is a decimal digit.
pub open spec fn all_digits(s: Seq<char>) -> bool {
    forall|i: int| 0 <= i < s.len() ==> is_digit(#[trigger] s[i])
}

/// The number that a string of decimal digits denotes; zero for the empty
/// string.
pub open spec fn digits_value(s: Seq<char>) -> nat
    decreases s.len(),
{
    if s.len() == 0 {
        0
    } else {
        digits_value(s.drop_last()) * 10 + digit_of(s.last())
    }
}

/// The power of ten written from index `at` to the end of `s`: nothing,
/// which is zero, or `e`, an optional sign and at least one digit.
pub open spec fn exponent_of(s: Seq<char>, at: int) -> Option<int> {
    if at == s.len() {
        Some(0)
    } else if s[at] == 'e' {
        let signed = at + 1 < s.len() && (s[at + 1] == '+' || s[at + 1] == '-');
        let first: int = if signed {
            at + 2
        } else {
            at + 1
        };
        let last = digit_run(s, first);
        if first < last && last == s.len() {
            let magnitude = digits_value(s.subrange(first, last)) as int;
            if s[at + 1] == '-' {
                Some(-magnitude)
            } else {
                Some(magnitude)
            }
        } else {
            None
        }
    } else {
        None
    }
}

/// The decimal number that `s` denotes, if it is one: an optional `+`, then
/// digits with at most one point among them and at least one digit in all,
/// then optionally a power of ten.
pub open spec fn decimal_of(s: Seq<char>) -> Option<Decimal> {
    let start: int = if s.len() > 0 && s[0] == '+' {
        1
    } else {
        0
    };
    let point = digit_run(s, start);
    let fraction: int = if point < s.len() && s[point] == '.' {
        point + 1
    } else {
        point
    };
    let end = digit_run(s, fraction);
    let digits = s.subrange(start, point) + s.subrange(fraction, end);
    if digits.len() == 0 {
        None
    } else {
        match exponent_of(s, end) {
            Some(power) => Some(
                Decimal { mantissa: digits_value(digits), exponent: power + fraction - end },
            ),
            None => None,
        }
    }
}

/// The part of `0.f * m` before the point, where `f` is a string of digits:
/// worked out from the last digit to the first, dropping at each step what
/// falls behind the point.
pub open spec fn fraction_floor(f: Seq<char>, m: nat) -> nat
    decreases f.len(),
{
    if f.len() == 0 {
        0
    } else {
        (digit_of(f[0]) * m + fraction_floor(f.skip(1), m)) / 10
    }
}

/// Whether nothing falls behind the point of `0.f * m`, where `f` is a
/// string of digits: worked out together with `fraction_floor`.
pub open spec fn fraction_exact(f: Seq<char>, m: nat) -> bool
    decreases f.len(),
{
    if f.len() == 0 {
        true
    } else {
        fraction_exact(f.skip(1), m) && (digit_of(f[0]) * m + fraction_floor(f.skip(1), m)) % 10
            == 0
    }
}

/// A power of ten is above zero.
pub(crate) proof fn lemma_pow10_positive(k: nat)
    ensures
        pow10(k) > 0,
{
    lemma_pow_positive(10, k);
}

/// Each power of ten is ten times the one before, from one on.
pub(crate) proof fn lemma_pow10_step(k: nat)
    ensures
        pow10(k + 1) == 10 * pow10(k),
        pow10(0) == 1,
{
    lemma_pow_positive(10, k);
    lemma_pow_positive(10, k + 1);
    reveal(pow);
}

/// Powers of ten multiply by adding their exponents.
pub(crate) proof fn lemma_pow10_adds(j: nat, k: nat)
    ensures
        pow10(j + k) == pow10(j) * pow10(k),
{
    lemma_pow_adds(10, j, k);
    lemma_pow_positive(10, j);
    lemma_pow_positive(10, k);
    lemma_pow_positive(10, j + k);
}

/// Powers of ten grow with their exponents.
pub(crate) proof fn lemma_pow10_increases(j: nat, k: nat)
    requires
        j <= k,
    ensures
        pow10(j) <= pow10(k),
{
    lemma_pow_increases(10, j, k);
    lemma_pow_positive(10, j);
    lemma_pow_positive(10, k);
}

/// Ten to the twentieth is beyond sixty-four bits.
pub(crate) proof fn lemma_pow10_20()
    ensures
        pow10(20) == 100000000000000000000,
        pow10(20) > u64::MAX,
{
    lemma_pow_positive(10, 20);
    reveal_with_fuel(pow, 21);
}

/// Two strings of digits, one after the other, make a string of digits.
pub(crate) proof fn lemma_all_digits_concat(a: Seq<char>, b: Seq<char>)
    requires
        all_digits(a),
        all_digits(b),
    ensures
        all_digits(a + b),
{
    assert forall|i: int| 0 <= i < (a + b).len() implies is_digit(#[trigger] (a + b)[i]) by {
        if i < a.len() {
            assert((a + b)[i] == a[i]);
        } else {
            assert((a + b)[i] == b[i - a.len()]);
        }
    }
}

/// The value of two digit strings written one after the other.
pub(crate) proof fn lemma_value_concat(a: Seq<char>, b: Seq<char>)
    ensures
        digits_value(a + b) == digits_value(a) * pow10(b.len()) + digits_value(b),
    decreases b.len(),
{
    if b.len() == 0 {
        assert(a + b =~= a);
        lemma_pow10_step(0);
        assert(digits_value(a) * pow10(b.len()) == digits_value(a)) by (nonlinear_arith)
            requires
                pow10(b.len()) == 1,
        ;
    } else {
        assert((a + b).drop_last() =~= a + b.drop_last());
        assert((a + b).last() == b.last());
        lemma_value_concat(a, b.drop_last());
        lemma_pow10_step(b.drop_last().len());
        let p = pow10(b.drop_last().len());
        let va = digits_value(a);
        let vb = digits_value(b.drop_last());
        assert(digits_value(a + b) == (va * p + vb) * 10 + digit_of(b.last()));
        assert(pow10(b.len()) == 10 * p);
        assert((va * p + vb) * 10 == va * (10 * p) + vb * 10) by (nonlinear_arith);
        assert(digits_value(b) == vb * 10 + digit_of(b.last()));
    }
}

/// A string of `n` digits denotes a number below ten to the `n`.
pub(crate) proof fn lemma_value_bound(s: Seq<char>)
    requires
        all_digits(s),
    ensures
        digits_value(s) < pow10(s.len()),
    decreases s.len(),
{
    if s.len() == 0 {
        lemma_pow10_step(0);
    } else {
        lemma_value_bound(s.drop_last());
        lemma_pow10_step(s.drop_last().len());
        assert(is_digit(s[s.len() - 1]));
    }
}

/// A string of digits denotes zero exactly when every digit is `0`.
pub(crate) proof fn lemma_value_zero(s: Seq<char>)
    requires
        all_digits(s),
    ensures
        digits_value(s) == 0 <==> (forall|i: int| 0 <= i < s.len() ==> s[i] == '0'),
    decreases s.len(),
{
    if s.len() > 0 {
        let t = s.drop_last();
        lemma_value_zero(t);
        assert(is_digit(s[s.len() - 1]));
        if digits_value(s) == 0 {
            assert forall|i: int| 0 <= i < s.len() implies s[i] == '0' by {
                if i < s.len() - 1 {
                    assert(t[i] == s[i]);
                }
            }
        } else {
            if digits_value(t) != 0 {
                let i = choose|i: int| 0 <= i < t.len() && t[i] != '0';
                assert(s[i] == t[i]);
            }
        }
    }
}

/// What `fraction_floor` works out digit by digit is the floor of the whole
/// quotient.
#[verifier::rlimit(40)]
pub(crate) proof fn lemma_fraction_floor(f: Seq<char>, m: nat)
    requires
        all_digits(f),
    ensures
        fraction_floor(f, m) == (digits_value(f) * m) / pow10(f.len()),
        fraction_exact(f, m) <==> (digits_value(f) * m) % pow10(f.len()) == 0,
        m > 0 ==> fraction_floor(f, m) < m,
    decreases f.len(),
{
    lemma_pow10_positive(f.len());
    if f.len() == 0 {
        lemma_pow10_step(0);
        assert(digits_value(f) * m == 0) by (nonlinear_arith)
            requires
                digits_value(f) == 0,
        ;
    } else {
        let head = f.subrange(0, 1);
        let tail = f.skip(1);
        assert(all_digits(tail)) by {
            assert forall|i: int| 0 <= i < tail.len() implies is_digit(#[trigger] tail[i]) by {
                assert(tail[i] == f[i + 1]);
            }
        }
        lemma_fraction_floor(tail, m);
        assert(f =~= head + tail);
        lemma_value_concat(head, tail);
        assert(head.drop_last() =~= Seq::<char>::empty());
        assert(digits_value(head.drop_last()) == 0);
        assert(digits_value(head) == digit_of(f[0]));
        assert(is_digit(f[0]));
        let d = digit_of(f[0]);
        let r = digits_value(tail);
        let p = pow10(tail.len());
        lemma_pow10_positive(tail.len());
        lemma_pow10_step(tail.len());
        lemma_value_bound(tail);
        // (d*p + r) * m / (p * 10) == ((d*m*p + r*m) / p) / 10
        let x = (d * p + r) * m;
        assert(x == p * (d * m) + r * m) by (nonlinear_arith)
            requires
                x == (d * p + r) * m,
        ;
        assert(0 <= r * m) by (nonlinear_arith)
            requires
                r >= 0,
                m >= 0,
        ;
        lemma_split_quotient(d * m, r * m, p);
        assert(x / p == d * m + (r * m) / p);
        lemma_div_denominator(x as int, p as int, 10);
        assert(pow10(f.len()) == p * 10);
        vstd::arithmetic::div_mod::lemma_breakdown(x as int, p as int, 10);
        assert(x % (p * 10) == p * ((x / p) % 10) + x % p);
        assert(x % p == (r * m) % p);
        let hi = (x / p) % 10;
        assert((p * hi + x % p == 0) <==> (hi == 0 && x % p == 0)) by (nonlinear_arith)
            requires
                p > 0,
                hi >= 0,
                x % p >= 0,
        ;
        assert(d * m <= 9 * m) by (nonlinear_arith)
            requires
                d <= 9,
                m >= 0,
        ;
        assert(fraction_floor(f, m) == (d * m + fraction_floor(tail, m)) / 10);
        assert(digits_value(f) * m == x);
    }
}

/// Dividing `p * a + b` by `p` gives `a` and the quotient of `b`.
pub(crate) proof fn lemma_split_quotient(a: nat, b: nat, p: nat)
    requires
        p > 0,
    ensures
        (p * a + b) / p == a + b / p,
        (p * a + b) % p == b % p,
{
    let q = b / p;
    let r = b % p;
    vstd::arithmetic::div_mod::lemma_fundamental_div_mod(b as int, p as int);
    assert(p * a + b == (a + q) * p + r) by (nonlinear_arith)
        requires
            b == p * q + r,
    ;
    lemma_fundamental_div_mod_converse((p * a + b) as int, p as int, (a + q) as int, r as int);
}

/// The number that `digits` denotes with the decimal point put `point`
/// places from the left: before the first digit where `point` is zero or
/// less, behind the last where it is the length or more.
pub open spec fn placed(digits: Seq<char>, point: int) -> Decimal {
    Decimal { mantissa: digits_value(digits), exponent: point - digits.len() }
}

/// The digits before any place denote no more than the whole string.
pub(crate) proof fn lemma_value_prefix(digits: Seq<char>, i: int)
    requires
        0 <= i <= digits.len(),
    ensures
        digits_value(digits.subrange(0, i)) <= digits_value(digits),
{
    let a = digits.subrange(0, i);
    let b = digits.subrange(i, digits.len() as int);
    assert(digits =~= a + b);
    lemma_value_concat(a, b);
    lemma_pow10_positive(b.len());
    let va = digits_value(a);
    let p = pow10(b.len());
    assert(va * p >= va) by (nonlinear_arith)
        requires
            va >= 0,
            p >= 1,
    ;
}

/// With the point inside the string, scaling adds up the scaled whole part
/// and the floor of the scaled fraction.
#[verifier::rlimit(40)]
pub(crate) proof fn lemma_scaled_split(digits: Seq<char>, point: int, m: nat)
    requires
        all_digits(digits),
        0 <= point < digits.len(),
    ensures
        placed(digits, point).scaled(m) == digits_value(digits.subrange(0, point)) * m
            + fraction_floor(digits.subrange(point, digits.len() as int), m),
        placed(digits, point).is_whole() <==> digits_value(
            digits.subrange(point, digits.len() as int),
        ) == 0,
        placed(digits, point).exact(m) <==> fraction_exact(
            digits.subrange(point, digits.len() as int),
            m,
        ),
{
    let a = digits.subrange(0, point);
    let f = digits.subrange(point, digits.len() as int);
    assert(digits =~= a + f);
    lemma_value_concat(a, f);
    lemma_fraction_floor(f, m);
    lemma_value_bound(f);
    let p = pow10(f.len());
    lemma_pow10_positive(f.len());
    let va = digits_value(a);
    let vf = digits_value(f);
    assert((va * p + vf) * m == p * (va * m) + vf * m) by (nonlinear_arith);
    lemma_split_quotient(va * m, vf * m, p);
    assert(va * p + vf == p * va + vf) by (nonlinear_arith);
    lemma_split_quotient(va, vf, p);
    lemma_small_mod(vf, p);
}

/// With the point before the first digit, scaling is the floor of the scaled
/// digits, cut down by the places in between.
#[verifier::rlimit(40)]
pub(crate) proof fn lemma_scaled_padded(digits: Seq<char>, point: int, m: nat)
    requires
        all_digits(digits),
        point < 0,
    ensures
        placed(digits, point).scaled(m) == fraction_floor(digits, m) / pow10((-point) as nat),
        placed(digits, point).is_whole() <==> digits_value(digits) == 0,
{
    let n = digits.len();
    let pad = (-point) as nat;
    lemma_fraction_floor(digits, m);
    lemma_value_bound(digits);
    lemma_pow10_adds(n, pad);
    lemma_pow10_positive(n);
    lemma_pow10_positive(pad);
    lemma_pow10_positive(n + pad);
    let v = digits_value(digits);
    assert(0 <= v * m) by (nonlinear_arith)
        requires
            v >= 0,
            m >= 0,
    ;
    lemma_div_denominator((v * m) as int, pow10(n) as int, pow10(pad) as int);
    lemma_pow10_increases(n, n + pad);
    lemma_small_mod(v, pow10(n + pad));
}

} // verus!
