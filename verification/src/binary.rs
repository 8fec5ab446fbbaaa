//! Numbers of fifty-three significant bits, and the nearest of them to a
//! decimal number.

use crate::decimal::Decimal;
use crate::number::Number;
use vstd::arithmetic::div_mod::{
    lemma_breakdown, lemma_div_denominator, lemma_div_is_ordered, lemma_fundamental_div_mod,
    lemma_fundamental_div_mod_converse, lemma_multiply_divide_lt,
};
use vstd::arithmetic::power2::{
    lemma2_to64, lemma_pow2_adds, lemma_pow2_pos, lemma_pow2_unfold, pow2,
};
use vstd::prelude::*;

verus! {

/// The non-negative number `mantissa * 2^exponent`.
pub struct Binary {
    pub mantissa: nat,
    pub exponent: int,
}

impl Binary {
    /// The product of this number and `m`, rounded down to a whole number.
    pub open spec fn scaled(self, m: nat) -> nat {
        if self.exponent >= 0 {
            self.mantissa * pow2(self.exponent as nat) * m
        } else {
            (self.mantissa * m) / pow2((-self.exponent) as nat)
        }
    }

    /// Whether this number has no fractional part.
    pub open spec fn is_whole(self) -> bool {
        self.exponent >= 0 || self.mantissa % pow2((-self.exponent) as nat) == 0
    }
}

/// The whole number nearest to `num / den`; of two equally near, the even
/// one.
pub open spec fn nearest_even(num: nat, den: nat) -> nat {
    let below = num / den;
    let rest = num % den;
    if 2 * rest < den || (2 * rest == den && below % 2 == 0) {
        below
    } else {
        below + 1
    }
}

/// The place of the highest bit of `n` that is set, counted from zero: the
/// largest `e` with `2^e <= n`. Zero for zero.
pub open spec fn bit_floor(n: nat) -> nat
    decreases n,
{
    if n < 2 {
        0
    } else {
        1 + bit_floor(n / 2)
    }
}

/// The nearest number of fifty-three significant bits to `num / den`,
/// which is one or more: the fraction rounded, to the nearest and in a tie
/// to the even one, at the fifty-third bit counted from its highest.
pub open spec fn nearest_ratio(num: nat, den: nat) -> Binary {
    let top = bit_floor(num / den) as int;
    if top <= 52 {
        Binary {
            mantissa: nearest_even(num * pow2((52 - top) as nat), den),
            exponent: top - 52,
        }
    } else {
        Binary {
            mantissa: nearest_even(num, den * pow2((top - 52) as nat)),
            exponent: top - 52,
        }
    }
}

/// The nearest number of fifty-three significant bits to a decimal number
/// that is one or more.
pub open spec fn nearest_binary(number: Decimal) -> Binary {
    nearest_ratio(number.numerator(), number.denominator())
}

/// `2^e <= n < 2^(e+1)` for `e` the place of the highest bit of `n`.
pub(crate) proof fn lemma_bit_floor(n: nat)
    requires
        n >= 1,
    ensures
        pow2(bit_floor(n)) <= n < 2 * pow2(bit_floor(n)),
    decreases n,
{
    lemma2_to64();
    if n >= 2 {
        lemma_bit_floor(n / 2);
        lemma_pow2_unfold(bit_floor(n));
    }
}

/// The place of the highest bit is the only `e` with `2^e <= n < 2^(e+1)`.
pub(crate) proof fn lemma_bit_floor_unique(n: nat, e: nat)
    requires
        pow2(e) <= n < 2 * pow2(e),
    ensures
        bit_floor(n) == e,
    decreases e,
{
    lemma2_to64();
    lemma_pow2_pos(e);
    if e > 0 {
        lemma_pow2_unfold(e);
        lemma_bit_floor_unique(n / 2, (e - 1) as nat);
    }
}

/// Rounding to the nearest, read off the floor of the double.
pub(crate) proof fn lemma_nearest_by_double(y: nat, q: nat)
    requires
        q > 0,
    ensures
        ((2 * y) / q) / 2 == y / q,
        nearest_even(y, q) == if ((2 * y) / q) % 2 == 0 {
            y / q
        } else if (2 * y) % q == 0 {
            if (y / q) % 2 == 0 {
                y / q
            } else {
                y / q + 1
            }
        } else {
            y / q + 1
        },
{
    let f = y / q;
    let r = y % q;
    lemma_fundamental_div_mod(y as int, q as int);
    assert(y == q * f + r);
    if 2 * r < q {
        assert(2 * y == (2 * f) * q + 2 * r) by (nonlinear_arith)
            requires
                y == q * f + r,
        ;
        lemma_fundamental_div_mod_converse((2 * y) as int, q as int, (2 * f) as int, (2 * r) as int);
    } else {
        assert(2 * y == (2 * f + 1) * q + (2 * r - q)) by (nonlinear_arith)
            requires
                y == q * f + r,
        ;
        lemma_fundamental_div_mod_converse(
            (2 * y) as int,
            q as int,
            (2 * f + 1) as int,
            (2 * r - q) as int,
        );
    }
}

/// Rounding at a bit before the point, read off the whole part.
#[verifier::rlimit(40)]
pub(crate) proof fn lemma_nearest_by_whole(n: nat, q: nat, half: nat)
    requires
        q > 0,
        half > 0,
    ensures
        ({
            let whole = n / q;
            let below = whole / (2 * half);
            let rest = whole % (2 * half);
            nearest_even(n, q * (2 * half)) == if rest < half || (rest == half && n % q == 0
                && below % 2 == 0) {
                below
            } else {
                below + 1
            }
        }),
{
    let u = 2 * half;
    let whole = n / q;
    let part = n % q;
    let below = whole / u;
    let rest = whole % u;
    lemma_div_denominator(n as int, q as int, u as int);
    lemma_breakdown(n as int, q as int, u as int);
    assert(n % (q * u) == q * rest + part);
    assert(n / (q * u) == below);
    let r = q * rest + part;
    if rest < half {
        assert(2 * r < q * u) by (nonlinear_arith)
            requires
                r == q * rest + part,
                part < q,
                rest + 1 <= half,
                u == 2 * half,
        ;
    } else if rest > half {
        assert(2 * r > q * u) by (nonlinear_arith)
            requires
                r == q * rest + part,
                part >= 0,
                q > 0,
                rest >= half + 1,
                u == 2 * half,
        ;
    } else {
        assert(2 * r == q * u + 2 * part) by (nonlinear_arith)
            requires
                r == q * rest + part,
                rest == half,
                u == 2 * half,
        ;
    }
}

/// Rounding a fraction does not depend on the terms in which it is
/// written.
pub(crate) proof fn lemma_nearest_even_scale(a: nat, b: nat, c: nat)
    requires
        b > 0,
        c > 0,
    ensures
        nearest_even(a * c, b * c) == nearest_even(a, b),
{
    let q = a / b;
    let r = a % b;
    lemma_fundamental_div_mod(a as int, b as int);
    assert(a * c == q * (b * c) + r * c) by (nonlinear_arith)
        requires
            a == b * q + r,
    ;
    assert(0 <= r * c < b * c) by (nonlinear_arith)
        requires
            0 <= r < b,
            c > 0,
    ;
    lemma_fundamental_div_mod_converse((a * c) as int, (b * c) as int, q as int, (r * c) as int);
    assert(2 * (r * c) == (2 * r) * c) by (nonlinear_arith);
    if 2 * r < b {
        assert((2 * r) * c < b * c) by (nonlinear_arith)
            requires
                2 * r < b,
                c > 0,
        ;
    } else if 2 * r > b {
        assert((2 * r) * c > b * c) by (nonlinear_arith)
            requires
                2 * r > b,
                c > 0,
        ;
    }
}

/// `2^k` for `k` up to a hundred and twenty-six.
pub(crate) fn power_of_two_wide(k: u32) -> (p: u128)
    requires
        k <= 126,
    ensures
        p == pow2(k as nat),
        p >= 1,
{
    proof {
        lemma2_to64();
    }
    let mut p: u128 = 1;
    let mut i: u32 = 0;
    while i < k
        invariant
            i <= k <= 126,
            p == pow2(i as nat),
            p >= 1,
        decreases k - i,
    {
        proof {
            lemma_pow2_unfold((i + 1) as nat);
            lemma_pow2_wide(i as nat);
        }
        p = p * 2;
        i += 1;
    }
    p
}

/// A power of two below the hundred and twenty-sixth can be doubled
/// within a hundred and twenty-eight bits.
proof fn lemma_pow2_wide(i: nat)
    requires
        i < 126,
    ensures
        pow2(i) <= 0x2000_0000_0000_0000_0000_0000_0000_0000,
{
    lemma2_to64();
    vstd::arithmetic::power2::lemma2_to64_rest();
    lemma_pow2_adds(63, 62);
    assert(pow2(63) * pow2(62) == 0x2000_0000_0000_0000_0000_0000_0000_0000) by (nonlinear_arith)
        requires
            pow2(63) == 0x8000_0000_0000_0000,
            pow2(62) == 0x4000_0000_0000_0000,
    ;
    if i < 125 {
        vstd::arithmetic::power2::lemma_pow2_strictly_increases(i, 125);
    }
}

/// `2^k` for `k` up to sixty-three.
pub(crate) fn power_of_two(k: u32) -> (p: u64)
    requires
        k <= 63,
    ensures
        p == pow2(k as nat),
        p >= 1,
{
    proof {
        lemma2_to64();
    }
    let mut p: u64 = 1;
    let mut i: u32 = 0;
    while i < k
        invariant
            i <= k <= 63,
            p == pow2(i as nat),
            p >= 1,
        decreases k - i,
    {
        proof {
            lemma_pow2_unfold((i + 1) as nat);
            lemma_pow2_strictly_increases_to(i as nat);
        }
        p = p * 2;
        i += 1;
    }
    p
}

/// Below the sixty-fourth, a power of two fits in sixty-four bits with room
/// to double once more where the exponent is below sixty-three.
proof fn lemma_pow2_strictly_increases_to(i: nat)
    requires
        i < 63,
    ensures
        pow2(i) <= 0x4000_0000_0000_0000,
{
    lemma2_to64();
    vstd::arithmetic::power2::lemma2_to64_rest();
    if i < 62 {
        vstd::arithmetic::power2::lemma_pow2_strictly_increases(i, 62);
    }
}

/// The place of the highest bit of `n` that is set.
pub(crate) fn highest_bit(n: u64) -> (e: u32)
    requires
        n >= 1,
    ensures
        e == bit_floor(n as nat),
        e <= 63,
        pow2(e as nat) <= n < 2 * pow2(e as nat),
{
    proof {
        lemma2_to64();
    }
    let mut e: u32 = 0;
    let mut top: u64 = 1;
    while top <= n / 2
        invariant
            top == pow2(e as nat),
            1 <= top <= n,
            e <= 63,
        decreases n - top,
    {
        proof {
            lemma_pow2_unfold((e + 1) as nat);
            if e >= 63 {
                vstd::arithmetic::power2::lemma2_to64_rest();
            }
        }
        top = top * 2;
        e += 1;
    }
    proof {
        lemma_bit_floor_unique(n as nat, e as nat);
    }
    e
}

/// Whether a decimal number is so far below one that the nearest number of
/// fifty-three significant bits is below one too: below `1 - 2^-54`.
pub open spec fn below_one(number: Decimal) -> bool {
    number.scaled(pow2(54)) + 1 < pow2(54)
}

/// The number as which a decimal number that is not `below_one` is taken:
/// the nearest of fifty-three significant bits. Just below one that is one.
pub open spec fn taken(number: Decimal) -> Binary {
    if number.whole_part() == 0 {
        Binary { mantissa: 1, exponent: 0 }
    } else {
        nearest_binary(number)
    }
}

/// A decimal number lies between its whole part and the next whole number.
pub(crate) proof fn lemma_whole_part(number: Decimal)
    requires
        number.denominator() > 0,
    ensures
        number.denominator() * number.whole_part() <= number.numerator(),
        number.numerator() < number.denominator() * (number.whole_part() + 1),
        number.is_whole() <==> number.numerator() % number.denominator() == 0,
{
    let n = number.numerator();
    let q = number.denominator();
    assert(n * 1 == n);
    lemma_fundamental_div_mod(n as int, q as int);
    assert(q * (n / q + 1) == q * (n / q) + q) by (nonlinear_arith);
}

/// Scaling keeps a decimal number between its scaled whole part and the
/// scaled next whole number.
pub(crate) proof fn lemma_scaled_bounds(number: Decimal, m: nat)
    requires
        number.denominator() > 0,
        m >= 1,
    ensures
        number.whole_part() * m <= number.scaled(m) < (number.whole_part() + 1) * m,
{
    let n = number.numerator();
    let q = number.denominator();
    let w = number.whole_part();
    lemma_whole_part(number);
    assert(n * m < q * ((w + 1) * m)) by (nonlinear_arith)
        requires
            n < q * (w + 1),
            m >= 1,
    ;
    lemma_multiply_divide_lt((n * m) as int, q as int, ((w + 1) * m) as int);
    assert(q * (w * m) <= n * m) by (nonlinear_arith)
        requires
            q * w <= n,
            m >= 1,
    ;
    lemma_div_is_ordered((q * (w * m)) as int, (n * m) as int, q as int);
    vstd::arithmetic::div_mod::lemma_div_multiples_vanish((w * m) as int, q as int);
}

/// A decimal number beyond sixty-four bits is taken as a whole number
/// beyond sixty-four bits.
#[verifier::rlimit(40)]
pub(crate) proof fn lemma_nearest_huge(number: Decimal, m: nat)
    requires
        number.denominator() > 0,
        number.whole_part() > u64::MAX,
        m >= 1,
    ensures
        !below_one(number),
        taken(number).is_whole(),
        taken(number).scaled(m) > u64::MAX,
{
    lemma2_to64();
    vstd::arithmetic::power2::lemma2_to64_rest();
    let n = number.numerator();
    let q = number.denominator();
    let w = number.whole_part();
    lemma_scaled_bounds(number, pow2(54));
    assert(w * pow2(54) >= pow2(54)) by (nonlinear_arith)
        requires
            w >= 1,
    ;
    let top = bit_floor(w);
    lemma_bit_floor(w);
    if top <= 63 {
        if top < 63 {
            vstd::arithmetic::power2::lemma_pow2_strictly_increases(top, 63);
        }
        assert(false);
    }
    let k = (top - 52) as nat;
    let u = pow2(k);
    lemma_pow2_pos(k);
    lemma_pow2_adds(52, k);
    assert(pow2(top) == pow2(52) * u);
    if top > 64 {
        vstd::arithmetic::power2::lemma_pow2_strictly_increases(64, top);
    }
    assert(pow2(top) >= 0x1_0000_0000_0000_0000);
    // The mantissa is at least the floor, which is at least 2^52.
    assert(n * 1 == n);
    lemma_div_denominator(n as int, q as int, u as int);
    assert(n / (q * u) == w / u);
    lemma_div_is_ordered((u * pow2(52)) as int, w as int, u as int);
    vstd::arithmetic::div_mod::lemma_div_multiples_vanish(pow2(52) as int, u as int);
    let mantissa = nearest_even(n, q * u);
    assert(mantissa >= pow2(52));
    assert(mantissa * u * m >= pow2(52) * u) by (nonlinear_arith)
        requires
            mantissa >= pow2(52),
            u >= 1,
            m >= 1,
    ;
    assert(taken(number) == Binary { mantissa, exponent: top - 52 });
    assert(taken(number).scaled(m) == mantissa * u * m);
}

/// A number of fifty-three significant bits as the parser holds it.
pub(crate) struct Rounded {
    mantissa: u64,
    exponent: i32,
}

impl View for Rounded {
    type V = Binary;

    closed spec fn view(&self) -> Binary {
        Binary { mantissa: self.mantissa as nat, exponent: self.exponent as int }
    }
}

impl Rounded {
    /// The bounds within which the numbers that `nearest` returns lie.
    pub(crate) closed spec fn wf(&self) -> bool {
        &&& self.mantissa <= pow2(53)
        &&& -52 <= self.exponent <= 11
    }

    /// What `wf` says, in terms of the view.
    pub(crate) proof fn lemma_wf(&self)
        requires
            self.wf(),
        ensures
            self@.mantissa <= pow2(53),
            -52 <= self@.exponent <= 11,
    {
    }

    /// The number one.
    pub(crate) fn one() -> (one: Rounded)
        ensures
            one.wf(),
            one@ == (Binary { mantissa: 1, exponent: 0 }),
    {
        proof {
            lemma2_to64();
            vstd::arithmetic::power2::lemma2_to64_rest();
        }
        Rounded { mantissa: 1, exponent: 0 }
    }

    /// The nearest number of fifty-three significant bits to `number`, whose
    /// whole part is `whole`.
    #[verifier::rlimit(40)]
    pub(crate) fn nearest(number: &Number, whole: u64) -> (nearest: Rounded)
        requires
            number.wf(),
            number@.denominator() > 0,
            whole >= 1,
            whole == number@.whole_part(),
        ensures
            nearest.wf(),
            nearest@ == nearest_binary(number@),
    {
        let top = highest_bit(whole);
        let ghost n = number@.numerator();
        let ghost q = number@.denominator();
        proof {
            lemma2_to64();
            vstd::arithmetic::power2::lemma2_to64_rest();
        }
        if top <= 52 {
            let two = power_of_two(53 - top);
            let ghost shift = (52 - top) as nat;
            proof {
                lemma_pow2_unfold((53 - top) as nat);
                lemma_pow2_adds((top + 1) as nat, (53 - top) as nat);
                lemma_pow2_unfold((top + 1) as nat);
                lemma_scaled_bounds(number@, two as nat);
                assert((whole + 1) * two <= pow2(54)) by (nonlinear_arith)
                    requires
                        whole + 1 <= pow2((top + 1) as nat),
                        pow2((top + 1) as nat) * two == pow2(54),
                        two >= 1,
                ;
                assert(n * two == 2 * (n * pow2(shift))) by (nonlinear_arith)
                    requires
                        two == 2 * pow2(shift),
                ;
                lemma_nearest_by_double(n * pow2(shift), q);
            }
            let double = match number.scaled(two) {
                Some(x) => x,
                None => {
                    assert(false);
                    0
                },
            };
            let exact = number.exact(two);
            let below = double / 2;
            let mantissa = if double % 2 == 1 && (!exact || below % 2 == 1) {
                below + 1
            } else {
                below
            };
            Rounded { mantissa, exponent: top as i32 - 52 }
        } else {
            let half = power_of_two(top - 53);
            let unit = half * 2;
            proof {
                lemma_pow2_unfold((top - 52) as nat);
                lemma_pow2_adds(53, (top - 52) as nat);
                lemma_pow2_unfold((top + 1) as nat);
                lemma_whole_part(number@);
                lemma_nearest_by_whole(n, q, half as nat);
                assert(n * 1 == n);
                assert(whole < unit * pow2(53)) by (nonlinear_arith)
                    requires
                        whole < 2 * pow2(top as nat),
                        2 * pow2(top as nat) == pow2(53) * unit,
                ;
                lemma_multiply_divide_lt(whole as int, unit as int, pow2(53) as int);
            }
            let below = whole / unit;
            let rest = whole % unit;
            let fraction = !number.is_whole();
            let mantissa = if rest > half || (rest == half && (fraction || below % 2 == 1)) {
                below + 1
            } else {
                below
            };
            Rounded { mantissa, exponent: top as i32 - 52 }
        }
    }

    /// The nearest number of fifty-three significant bits to `num / 2^down`.
    #[verifier::rlimit(40)]
    pub(crate) fn nearest_dyadic(num: u128, down: u32) -> (nearest: Rounded)
        requires
            down <= 60,
            pow2(down as nat) <= num,
            num / (pow2(down as nat) as u128) <= u64::MAX,
        ensures
            nearest.wf(),
            nearest@ == nearest_ratio(num as nat, pow2(down as nat)),
            nearest@.exponent == bit_floor(num as nat / pow2(down as nat)) - 52,
            nearest@.mantissa >= pow2(52),
            down == 0 ==> nearest@.is_whole(),
    {
        proof {
            lemma2_to64();
            vstd::arithmetic::power2::lemma2_to64_rest();
        }
        let unit = power_of_two_wide(down);
        let whole = (num / unit) as u64;
        proof {
            lemma_fundamental_div_mod(num as int, unit as int);
            assert(whole >= 1) by {
                lemma_div_is_ordered(unit as int, num as int, unit as int);
                vstd::arithmetic::div_mod::lemma_div_multiples_vanish(1, unit as int);
            }
        }
        let top = highest_bit(whole);
        let ghost den = pow2(down as nat);
        proof {
            lemma_pow2_unfold((top + 1) as nat);
            // whole * unit <= num < (whole + 1) * unit <= 2^(top + 1) * unit
            assert(whole * unit <= num < (whole + 1) * unit) by (nonlinear_arith)
                requires
                    num == unit * (num / unit) + num % unit,
                    0 <= num % unit < unit,
                    whole == num / unit,
            ;
        }
        if top + down <= 52 {
            let up = 52 - top - down;
            let lift = power_of_two(up);
            proof {
                lemma_pow2_adds(up as nat, down as nat);
                lemma_pow2_adds((top + 1) as nat, (52 - top) as nat);
                let shift = pow2((52 - top) as nat);
                let lifted = (num * lift) as nat;
                assert(num as nat * shift == lifted * den) by (nonlinear_arith)
                    requires
                        shift == lift * den,
                        lifted == num * lift,
                ;
                assert(nearest_even(lifted * den, den) == lifted) by {
                    lemma_fundamental_div_mod_converse(
                        (lifted * den) as int,
                        den as int,
                        lifted as int,
                        0,
                    );
                }
                assert(num * lift < pow2(53)) by (nonlinear_arith)
                    requires
                        num < (whole + 1) * den,
                        whole + 1 <= pow2((top + 1) as nat),
                        pow2((top + 1) as nat) * (lift * den) == pow2(53),
                        lift >= 1,
                        den >= 1,
                ;
                lemma_pow2_adds(top as nat, (52 - top) as nat);
                assert(num * lift >= pow2(52)) by (nonlinear_arith)
                    requires
                        whole * den <= num,
                        pow2(top as nat) <= whole,
                        pow2(top as nat) * (lift * den) == pow2(52),
                        lift >= 1,
                        den >= 1,
                ;
                if down == 0 {
                    vstd::arithmetic::div_mod::lemma_mod_multiples_basic(num as int, lift as int);
                }
            }
            Rounded { mantissa: (num * (lift as u128)) as u64, exponent: top as i32 - 52 }
        } else {
            let drop = top + down - 52;
            let step = power_of_two_wide(drop);
            let half = step / 2;
            proof {
                lemma_pow2_unfold(drop as nat);
                if top <= 52 {
                    let shift = pow2((52 - top) as nat);
                    lemma_pow2_pos((52 - top) as nat);
                    lemma_pow2_adds(drop as nat, (52 - top) as nat);
                    assert(den == step * shift);
                    lemma_nearest_even_scale(num as nat, step as nat, shift);
                } else {
                    lemma_pow2_adds(down as nat, (top - 52) as nat);
                }
                lemma_pow2_adds((top + 1) as nat, down as nat);
                lemma_pow2_adds(53, drop as nat);
                assert(num < step * pow2(53)) by (nonlinear_arith)
                    requires
                        num < (whole + 1) * den,
                        whole + 1 <= pow2((top + 1) as nat),
                        pow2((top + 1) as nat) * den == pow2(53) * step,
                        den >= 1,
                ;
                lemma_multiply_divide_lt(num as int, step as int, pow2(53) as int);
                lemma_pow2_adds(top as nat, down as nat);
                lemma_pow2_adds(52, drop as nat);
                assert(step * pow2(52) <= num) by (nonlinear_arith)
                    requires
                        whole * den <= num,
                        pow2(top as nat) <= whole,
                        pow2(top as nat) * den == pow2(52) * step,
                        den >= 1,
                ;
                lemma_div_is_ordered((step * pow2(52)) as int, num as int, step as int);
                vstd::arithmetic::div_mod::lemma_div_multiples_vanish(pow2(52) as int, step as int);
            }
            let below = num / step;
            let rest = num % step;
            let mantissa = if rest > half || (rest == half && below % 2 == 1) {
                below + 1
            } else {
                below
            };
            Rounded { mantissa: mantissa as u64, exponent: top as i32 - 52 }
        }
    }

    /// The number, which is whole.
    pub(crate) fn whole_value(&self) -> (value: u128)
        requires
            self.wf(),
            self@.is_whole(),
        ensures
            value == self@.scaled(1),
            value <= 0x1_0000_0000_0000_0000,
    {
        proof {
            lemma2_to64();
            vstd::arithmetic::power2::lemma2_to64_rest();
        }
        if self.exponent >= 0 {
            let unit = power_of_two(self.exponent as u32);
            proof {
                if self.exponent < 11 {
                    vstd::arithmetic::power2::lemma_pow2_strictly_increases(
                        self.exponent as nat,
                        11,
                    );
                }
                assert(self.mantissa * unit <= 0x1_0000_0000_0000_0000) by (nonlinear_arith)
                    requires
                        self.mantissa <= 0x20_0000_0000_0000,
                        unit <= 0x800,
                ;
                assert(self.mantissa * unit * 1 == self.mantissa * unit);
            }
            (self.mantissa as u128) * (unit as u128)
        } else {
            let unit = power_of_two((-self.exponent) as u32);
            proof {
                assert(self.mantissa * 1 == self.mantissa);
                vstd::arithmetic::div_mod::lemma_div_nonincreasing(
                    self.mantissa as int,
                    unit as int,
                );
            }
            (self.mantissa / unit) as u128
        }
    }

    /// Whether the number has no fractional part.
    pub(crate) fn is_whole(&self) -> (whole: bool)
        requires
            self.wf(),
        ensures
            whole == self@.is_whole(),
    {
        if self.exponent >= 0 {
            true
        } else {
            self.mantissa % power_of_two((-self.exponent) as u32) == 0
        }
    }

    /// The product of the number and `m`, rounded down, where it fits in
    /// sixty-four bits.
    pub(crate) fn scaled(&self, m: u64) -> (product: Option<u64>)
        requires
            self.wf(),
        ensures
            match product {
                Some(v) => v == self@.scaled(m as nat),
                None => self@.scaled(m as nat) > u64::MAX,
            },
    {
        proof {
            lemma2_to64();
            vstd::arithmetic::power2::lemma2_to64_rest();
        }
        let total: u128 = if self.exponent >= 0 {
            let unit = power_of_two(self.exponent as u32);
            proof {
                if self.exponent < 11 {
                    vstd::arithmetic::power2::lemma_pow2_strictly_increases(
                        self.exponent as nat,
                        11,
                    );
                }
                assert(self.mantissa * unit <= 0x1_0000_0000_0000_0000) by (nonlinear_arith)
                    requires
                        self.mantissa <= 0x20_0000_0000_0000,
                        unit <= 0x800,
                ;
                assert(self.mantissa * unit * m <= 0x1_0000_0000_0000_0000 * 0xffff_ffff_ffff_ffff)
                    by (nonlinear_arith)
                    requires
                        self.mantissa * unit <= 0x1_0000_0000_0000_0000,
                        m <= 0xffff_ffff_ffff_ffff,
                ;
            }
            (self.mantissa as u128) * (unit as u128) * (m as u128)
        } else {
            let unit = power_of_two((-self.exponent) as u32);
            proof {
                assert(self.mantissa * m <= 0x20_0000_0000_0000 * 0xffff_ffff_ffff_ffff)
                    by (nonlinear_arith)
                    requires
                        self.mantissa <= 0x20_0000_0000_0000,
                        m <= 0xffff_ffff_ffff_ffff,
                ;
            }
            (self.mantissa as u128) * (m as u128) / (unit as u128)
        };
        if total > u64::MAX as u128 {
            None
        } else {
            Some(total as u64)
        }
    }
}

} // verus!
