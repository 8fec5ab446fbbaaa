//! Decimal numbers as the parser holds them: the digits as written and the
//! place of the decimal point among them.

use crate::decimal::{
    all_digits, decimal_of, digits_value, exponent_of, fraction_exact, fraction_floor,
    lemma_all_digits_concat, lemma_fraction_floor, lemma_pow10_20, lemma_pow10_increases,
    lemma_pow10_positive, lemma_pow10_step, lemma_scaled_padded, lemma_scaled_split,
    lemma_value_prefix, lemma_value_zero, placed, pow10, Decimal,
};
use crate::text::{digit_of, digit_run, is_decimal_digit, is_digit};
use vstd::arithmetic::div_mod::{lemma_basic_div, lemma_div_denominator};
use vstd::prelude::*;

verus! {

/// The farthest from the first digit that the place of the point is
/// tracked. Beyond it in either direction only the direction matters: the
/// number is then zero, below one, or far beyond sixty-four bits.
pub(crate) const POINT_LIMIT: i128 = 1_000_000_000_000_000_000_000_000_000_000;

/// The largest magnitude to which a written exponent is followed.
pub(crate) const EXPONENT_LIMIT: i128 = 10_000_000_000_000_000_000_000_000_000_000;

/// Whether a held place of the point stands for the actual one.
pub(crate) open spec fn point_agrees(held: int, actual: int) -> bool {
    ||| held == actual && -POINT_LIMIT <= held <= POINT_LIMIT
    ||| held == POINT_LIMIT && actual >= POINT_LIMIT
    ||| held == -POINT_LIMIT && actual <= -POINT_LIMIT
}

/// A decimal number read from text.
pub(crate) struct Number {
    digits: Vec<char>,
    point: i128,
    model: Ghost<Decimal>,
}

impl View for Number {
    type V = Decimal;

    closed spec fn view(&self) -> Decimal {
        self.model@
    }
}

/// The number a decimal digit stands for.
fn digit(c: char) -> (d: u8)
    requires
        is_digit(c),
    ensures
        d == digit_of(c),
        d <= 9,
{
    c as u8 - '0' as u8
}

/// The index just past the run of decimal digits that starts at `from`.
pub(crate) fn skip_digits(s: &Vec<char>, from: usize) -> (to: usize)
    requires
        from <= s.len(),
    ensures
        from <= to <= s.len(),
        to == digit_run(s@, from as int),
        all_digits(s@.subrange(from as int, to as int)),
{
    let n = s.len();
    let mut to: usize = from;
    while to < n && is_decimal_digit(s[to])
        invariant
            n == s.len(),
            from <= to <= n,
            digit_run(s@, from as int) == digit_run(s@, to as int),
            all_digits(s@.subrange(from as int, to as int)),
        decreases n - to,
    {
        to += 1;
        assert forall|i: int| 0 <= i < to - from implies is_digit(
            #[trigger] s@.subrange(from as int, to as int)[i],
        ) by {
            if i < to - from - 1 {
                assert(s@.subrange(from as int, to as int)[i] == s@.subrange(
                    from as int,
                    to - 1,
                )[i]);
            }
        }
    }
    to
}

/// Appends the characters of `s` from `lo` up to `hi` to `out`.
fn push_range(out: &mut Vec<char>, s: &Vec<char>, lo: usize, hi: usize)
    requires
        lo <= hi <= s.len(),
    ensures
        final(out)@ == old(out)@ + s@.subrange(lo as int, hi as int),
{
    let mut i: usize = lo;
    while i < hi
        invariant
            lo <= i <= hi <= s.len(),
            out@ == old(out)@ + s@.subrange(lo as int, i as int),
        decreases hi - i,
    {
        out.push(s[i]);
        i += 1;
        assert(out@ =~= old(out)@ + s@.subrange(lo as int, i as int));
    }
    assert(out@ =~= old(out)@ + s@.subrange(lo as int, hi as int));
}

/// The value of the first `hi` digits, where it fits in sixty-four bits.
pub(crate) fn leading_value(digits: &Vec<char>, hi: usize) -> (value: Option<u64>)
    requires
        all_digits(digits@),
        hi <= digits.len(),
    ensures
        match value {
            Some(v) => v == digits_value(digits@.subrange(0, hi as int)),
            None => digits_value(digits@.subrange(0, hi as int)) > u64::MAX,
        },
{
    let mut acc: u64 = 0;
    let mut i: usize = 0;
    while i < hi
        invariant
            all_digits(digits@),
            i <= hi <= digits.len(),
            acc == digits_value(digits@.subrange(0, i as int)),
        decreases hi - i,
    {
        let d = digit(digits[i]) as u64;
        proof {
            let next = digits@.subrange(0, i + 1);
            assert(next.drop_last() =~= digits@.subrange(0, i as int));
            assert(digits_value(next) == acc * 10 + d);
            assert(digits@.subrange(0, hi as int).subrange(0, i + 1) =~= next);
            lemma_value_prefix(digits@.subrange(0, hi as int), i + 1);
        }
        if acc > (u64::MAX - d) / 10 {
            return None;
        }
        acc = acc * 10 + d;
        i += 1;
    }
    Some(acc)
}

/// The part before the point of `0.f * m`, where `f` is the digits from
/// `lo` on, and whether nothing falls behind the point.
fn trailing_floor(digits: &Vec<char>, lo: usize, m: u64) -> (floor: (u64, bool))
    requires
        all_digits(digits@),
        lo <= digits.len(),
        m >= 1,
    ensures
        floor.0 == fraction_floor(digits@.subrange(lo as int, digits.len() as int), m as nat),
        floor.1 == fraction_exact(digits@.subrange(lo as int, digits.len() as int), m as nat),
        floor.0 < m,
{
    let n = digits.len();
    let mut acc: u128 = 0;
    let mut exact = true;
    let mut i: usize = n;
    while i > lo
        invariant
            all_digits(digits@),
            n == digits.len(),
            lo <= i <= n,
            m >= 1,
            acc == fraction_floor(digits@.subrange(i as int, n as int), m as nat),
            exact == fraction_exact(digits@.subrange(i as int, n as int), m as nat),
            acc < m,
        decreases i,
    {
        i -= 1;
        let d = digit(digits[i]) as u128;
        proof {
            let f = digits@.subrange(i as int, n as int);
            assert(f.skip(1) =~= digits@.subrange(i + 1, n as int));
            assert(f[0] == digits@[i as int]);
            assert(d * m <= 9 * m) by (nonlinear_arith)
                requires
                    d <= 9,
                    m >= 0,
            ;
        }
        let sum = d * (m as u128) + acc;
        exact = exact && sum % 10 == 0;
        acc = sum / 10;
    }
    (acc as u64, exact)
}

/// `v` with `places` zeros written behind it, where that fits.
fn shift_up(v: u64, places: usize) -> (shifted: Option<u64>)
    ensures
        match shifted {
            Some(x) => x == v * pow10(places as nat),
            None => v * pow10(places as nat) > u64::MAX,
        },
{
    proof {
        lemma_pow10_step(0);
        lemma_pow10_positive(places as nat);
    }
    if v == 0 {
        assert(v * pow10(places as nat) == 0) by (nonlinear_arith)
            requires
                v == 0,
        ;
        return Some(0);
    }
    if places >= 20 {
        proof {
            lemma_pow10_20();
            lemma_pow10_increases(20, places as nat);
            let p = pow10(places as nat);
            assert(v * p >= p) by (nonlinear_arith)
                requires
                    v >= 1,
                    p >= 0,
            ;
        }
        return None;
    }
    let mut x: u64 = v;
    let mut k: usize = 0;
    while k < places
        invariant
            k <= places < 20,
            v >= 1,
            x == v * pow10(k as nat),
        decreases places - k,
    {
        proof {
            lemma_pow10_step(k as nat);
            lemma_pow10_increases((k + 1) as nat, places as nat);
            let pk = pow10(k as nat);
            let pn = pow10((k + 1) as nat);
            let pp = pow10(places as nat);
            assert(v * pn == (v * pk) * 10) by (nonlinear_arith)
                requires
                    pn == 10 * pk,
            ;
            assert(v * pn <= v * pp) by (nonlinear_arith)
                requires
                    pn <= pp,
                    v >= 0,
            ;
        }
        if x > u64::MAX / 10 {
            return None;
        }
        x = x * 10;
        k += 1;
    }
    Some(x)
}

/// `v` without its last `places` digits.
fn shift_down(v: u64, places: usize) -> (shifted: u64)
    ensures
        shifted == (v as nat) / pow10(places as nat),
{
    proof {
        lemma_pow10_step(0);
        lemma_pow10_positive(places as nat);
    }
    if places >= 20 {
        proof {
            lemma_pow10_20();
            lemma_pow10_increases(20, places as nat);
            lemma_basic_div(v as int, pow10(places as nat) as int);
        }
        return 0;
    }
    let mut x: u64 = v;
    let mut k: usize = 0;
    while k < places
        invariant
            k <= places,
            x == (v as nat) / pow10(k as nat),
        decreases places - k,
    {
        proof {
            lemma_pow10_step(k as nat);
            lemma_pow10_positive(k as nat);
            lemma_div_denominator(v as int, pow10(k as nat) as int, 10);
            assert(pow10(k as nat) * 10 == pow10((k + 1) as nat));
        }
        x = x / 10;
        k += 1;
    }
    x
}

/// Whether the digits from `lo` on are all `0`.
fn trailing_zero(digits: &Vec<char>, lo: usize) -> (zero: bool)
    requires
        all_digits(digits@),
        lo <= digits.len(),
    ensures
        zero <==> digits_value(digits@.subrange(lo as int, digits.len() as int)) == 0,
{
    let n = digits.len();
    let ghost rest = digits@.subrange(lo as int, n as int);
    proof {
        lemma_value_zero(rest);
    }
    let mut i: usize = lo;
    while i < n
        invariant
            n == digits.len(),
            lo <= i <= n,
            rest == digits@.subrange(lo as int, n as int),
            digits_value(rest) == 0 <==> (forall|k: int| 0 <= k < rest.len() ==> rest[k] == '0'),
            forall|k: int| 0 <= k < i - lo ==> rest[k] == '0',
        decreases n - i,
    {
        if digits[i] != '0' {
            assert(rest[i - lo] != '0');
            return false;
        }
        i += 1;
    }
    true
}

/// The value of the digits from `lo` up to `hi`, or `EXPONENT_LIMIT` where
/// that is less.
fn clamped_value(s: &Vec<char>, lo: usize, hi: usize) -> (value: i128)
    requires
        lo <= hi <= s.len(),
        all_digits(s@.subrange(lo as int, hi as int)),
    ensures
        0 <= value <= EXPONENT_LIMIT,
        value == EXPONENT_LIMIT || value == digits_value(s@.subrange(lo as int, hi as int)),
        value == EXPONENT_LIMIT ==> digits_value(s@.subrange(lo as int, hi as int))
            >= EXPONENT_LIMIT,
{
    let mut acc: i128 = 0;
    let mut i: usize = lo;
    while i < hi
        invariant
            lo <= i <= hi <= s.len(),
            all_digits(s@.subrange(lo as int, hi as int)),
            0 <= acc <= EXPONENT_LIMIT,
            acc == EXPONENT_LIMIT || acc == digits_value(s@.subrange(lo as int, i as int)),
            acc == EXPONENT_LIMIT ==> digits_value(s@.subrange(lo as int, i as int))
                >= EXPONENT_LIMIT,
        decreases hi - i,
    {
        assert(s@[i as int] == s@.subrange(lo as int, hi as int)[i - lo]);
        let d = digit(s[i]) as i128;
        proof {
            let next = s@.subrange(lo as int, i + 1);
            assert(next.drop_last() =~= s@.subrange(lo as int, i as int));
            assert(digits_value(next) == digits_value(next.drop_last()) * 10 + d);
        }
        acc = acc * 10 + d;
        if acc > EXPONENT_LIMIT {
            acc = EXPONENT_LIMIT;
        }
        i += 1;
    }
    acc
}

/// Reads the power of ten written from index `at` to the end of `s`. A
/// power beyond `EXPONENT_LIMIT` in either direction comes back as the
/// limit.
fn parse_exponent(s: &Vec<char>, at: usize) -> (power: Option<i128>)
    requires
        at <= s.len(),
    ensures
        match power {
            Some(p) => exponent_of(s@, at as int) matches Some(actual) && {
                ||| p == actual && -EXPONENT_LIMIT <= p <= EXPONENT_LIMIT
                ||| p == EXPONENT_LIMIT && actual >= EXPONENT_LIMIT
                ||| p == -EXPONENT_LIMIT && actual <= -EXPONENT_LIMIT
            },
            None => exponent_of(s@, at as int) is None,
        },
{
    let n = s.len();
    if at == n {
        return Some(0);
    }
    if s[at] != 'e' {
        return None;
    }
    let signed = at + 1 < n && (s[at + 1] == '+' || s[at + 1] == '-');
    let first: usize = if signed {
        at + 2
    } else {
        at + 1
    };
    let last = skip_digits(s, first);
    if !(first < last && last == n) {
        return None;
    }
    let magnitude = clamped_value(s, first, last);
    if s[at + 1] == '-' {
        Some(-magnitude)
    } else {
        Some(magnitude)
    }
}

impl Number {
    /// What holds of every number that `parse` returns: the digits are
    /// digits, and with the point in its place they denote the view.
    pub(crate) closed spec fn wf(&self) -> bool {
        &&& all_digits(self.digits@)
        &&& self.model@.mantissa == digits_value(self.digits@)
        &&& point_agrees(self.point as int, self.model@.exponent + self.digits@.len())
    }

    /// Reads `s` as a decimal number.
    #[verifier::rlimit(40)]
    pub(crate) fn parse(s: &Vec<char>) -> (number: Option<Number>)
        ensures
            match number {
                Some(n) => n.wf() && decimal_of(s@) == Some(n@),
                None => decimal_of(s@) is None,
            },
    {
        let n = s.len();
        let start: usize = if n > 0 && s[0] == '+' {
            1
        } else {
            0
        };
        let point = skip_digits(s, start);
        let fraction: usize = if point < n && s[point] == '.' {
            point + 1
        } else {
            point
        };
        let end = skip_digits(s, fraction);
        if point == start && end == fraction {
            return None;
        }
        let power = match parse_exponent(s, end) {
            Some(p) => p,
            None => {
                return None;
            },
        };
        let mut digits: Vec<char> = Vec::new();
        push_range(&mut digits, s, start, point);
        push_range(&mut digits, s, fraction, end);
        let raw: i128 = (point - start) as i128 + power;
        let held: i128 = if raw > POINT_LIMIT {
            POINT_LIMIT
        } else if raw < -POINT_LIMIT {
            -POINT_LIMIT
        } else {
            raw
        };
        let ghost model = decimal_of(s@).unwrap();
        proof {
            let a = s@.subrange(start as int, point as int);
            let b = s@.subrange(fraction as int, end as int);
            assert(digits@ =~= a + b);
            lemma_all_digits_concat(a, b);
        }
        Some(Number { digits, point: held, model: Ghost(model) })
    }

    /// Whether the number has no fractional part.
    pub(crate) fn is_whole(&self) -> (whole: bool)
        requires
            self.wf(),
        ensures
            whole == self@.is_whole(),
    {
        let n = self.digits.len();
        let ghost actual = self.model@.exponent + n;
        assert(self@ == placed(self.digits@, actual));
        if self.point >= n as i128 {
            return true;
        }
        if self.point >= 0 {
            proof {
                lemma_scaled_split(self.digits@, actual, 1);
            }
            trailing_zero(&self.digits, self.point as usize)
        } else {
            proof {
                lemma_scaled_padded(self.digits@, actual, 1);
                assert(self.digits@.subrange(0, n as int) =~= self.digits@);
            }
            trailing_zero(&self.digits, 0)
        }
    }

    /// Whether the number is zero.
    pub(crate) fn is_zero(&self) -> (zero: bool)
        requires
            self.wf(),
        ensures
            zero == (self@.mantissa == 0),
            self@.denominator() > 0,
    {
        proof {
            assert(self.digits@.subrange(0, self.digits@.len() as int) =~= self.digits@);
            if self@.exponent < 0 {
                lemma_pow10_positive((-self@.exponent) as nat);
            }
        }
        trailing_zero(&self.digits, 0)
    }

    /// Whether the product of the number and `m` is a whole number.
    #[verifier::rlimit(40)]
    pub(crate) fn exact(&self, m: u64) -> (exact: bool)
        requires
            self.wf(),
            m >= 1,
            self@.whole_part() >= 1,
        ensures
            exact == self@.exact(m as nat),
    {
        let n = self.digits.len();
        let ghost actual = self.model@.exponent + n;
        assert(self@ == placed(self.digits@, actual));
        if self.point >= n as i128 {
            return true;
        }
        proof {
            lemma_fraction_floor(self.digits@, 1);
            if actual < 0 {
                lemma_scaled_padded(self.digits@, actual, 1);
                lemma_pow10_positive((-actual) as nat);
                lemma_basic_div(0, pow10((-actual) as nat) as int);
            } else {
                if actual == 0 {
                    lemma_scaled_split(self.digits@, 0, 1);
                    assert(self.digits@.subrange(0, n as int) =~= self.digits@);
                    assert(self.digits@.subrange(0, 0) =~= Seq::<char>::empty());
                }
                lemma_scaled_split(self.digits@, actual, m as nat);
            }
        }
        trailing_floor(&self.digits, self.point as usize, m).1
    }

    /// The product of the number and `m`, rounded down, where it fits in
    /// sixty-four bits.
    #[verifier::rlimit(40)]
    pub(crate) fn scaled(&self, m: u64) -> (product: Option<u64>)
        requires
            self.wf(),
            m >= 1,
        ensures
            match product {
                Some(v) => v == self@.scaled(m as nat),
                None => self@.scaled(m as nat) > u64::MAX,
            },
    {
        let n = self.digits.len();
        let ghost actual = self.model@.exponent + n;
        assert(self@ == placed(self.digits@, actual));
        if self.point >= n as i128 {
            let ghost v = digits_value(self.digits@);
            let ghost p = pow10((actual - n) as nat);
            proof {
                assert(self.digits@.subrange(0, n as int) =~= self.digits@);
                lemma_pow10_positive((actual - n) as nat);
                assert(v * p * m >= v * p >= v) by (nonlinear_arith)
                    requires
                        p >= 1,
                        m >= 1,
                        v >= 0,
                ;
            }
            let whole = match leading_value(&self.digits, n) {
                Some(w) => w,
                None => {
                    return None;
                },
            };
            let shift = self.point - n as i128;
            if whole == 0 {
                assert(v * p * m == 0) by (nonlinear_arith)
                    requires
                        v == 0,
                ;
                return Some(0);
            }
            if shift >= 20 {
                proof {
                    lemma_pow10_20();
                    lemma_pow10_increases(20, (actual - n) as nat);
                    assert(v * p * m >= p) by (nonlinear_arith)
                        requires
                            p >= 1,
                            m >= 1,
                            v >= 1,
                    ;
                }
                return None;
            }
            let shifted = match shift_up(whole, shift as usize) {
                Some(x) => x,
                None => {
                    assert(v * p * m >= v * p) by (nonlinear_arith)
                        requires
                            v * p >= 0,
                            m >= 1,
                    ;
                    return None;
                },
            };
            shifted.checked_mul(m)
        } else if self.point >= 0 {
            let lo = self.point as usize;
            proof {
                lemma_scaled_split(self.digits@, actual, m as nat);
                let w = digits_value(self.digits@.subrange(0, lo as int));
                assert(w * m >= w) by (nonlinear_arith)
                    requires
                        w >= 0,
                        m >= 1,
                ;
            }
            let whole = match leading_value(&self.digits, lo) {
                Some(w) => w,
                None => {
                    return None;
                },
            };
            let floor = trailing_floor(&self.digits, lo, m).0;
            assert(whole * m <= u64::MAX * u64::MAX) by (nonlinear_arith)
                requires
                    whole <= u64::MAX,
                    m <= u64::MAX,
            ;
            let total: u128 = (whole as u128) * (m as u128) + floor as u128;
            if total > u64::MAX as u128 {
                None
            } else {
                Some(total as u64)
            }
        } else {
            proof {
                lemma_scaled_padded(self.digits@, actual, m as nat);
                assert(self.digits@.subrange(0, n as int) =~= self.digits@);
            }
            let floor = trailing_floor(&self.digits, 0, m).0;
            if self.point <= -20 {
                proof {
                    lemma_pow10_20();
                    lemma_pow10_increases(20, (-actual) as nat);
                    lemma_basic_div(floor as int, pow10((-actual) as nat) as int);
                }
                Some(0)
            } else {
                Some(shift_down(floor, (-self.point) as usize))
            }
        }
    }
}

} // verus!
