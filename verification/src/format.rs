//! Writing a size: the unit that suits a byte count, and the count in
//! thousandths of that unit.

use crate::binary::{bit_floor, lemma_bit_floor, nearest_ratio, Rounded};
use crate::units::{
    multiplier_of, multiplier_values, suffix_of, unit_multiplier, unit_suffix, UNIT_COUNT,
};
use vstd::arithmetic::div_mod::{lemma_div_nonincreasing, lemma_multiply_divide_lt};
use vstd::arithmetic::power2::{lemma2_to64, lemma2_to64_rest, lemma_pow2_unfold, pow2};
use vstd::prelude::*;

verus! {

/// The largest tier up to `tier` whose unit is no more than `bytes`; tier
/// zero where there is none.
pub open spec fn tier_up_to(bytes: nat, tier: int) -> int
    decreases tier,
{
    if tier <= 0 {
        0
    } else if multiplier_of(tier) <= bytes {
        tier
    } else {
        tier_up_to(bytes, tier - 1)
    }
}

/// The tier in which a byte count is written: the largest whose unit is no
/// more than the count.
pub open spec fn tier_of(bytes: u64) -> int {
    tier_up_to(bytes as nat, UNIT_COUNT - 1)
}

/// A byte count above zero as a number of fifty-three significant bits:
/// the nearest such number, which is whole.
pub open spec fn count_taken(bytes: u64) -> nat {
    nearest_ratio(bytes as nat, 1).scaled(1)
}

/// A byte count in thousandths of the unit of its tier. The count is taken
/// as a number of fifty-three significant bits and divided by the unit; a
/// thousand times that is taken as such a number again, and rounded to the
/// nearest whole number, a half upwards.
pub open spec fn thousandths_of(bytes: u64) -> nat {
    if bytes == 0 {
        0
    } else {
        let units = nearest_ratio(count_taken(bytes) * 1000, multiplier_of(tier_of(bytes)));
        (units.scaled(2) + 1) / 2
    }
}

/// The tier of a byte count is a tier of the table, its unit is no more
/// than a count above zero, and the unit of the next tier is more.
pub proof fn tier_of_bounds(bytes: u64)
    ensures
        0 <= tier_of(bytes) < UNIT_COUNT,
        bytes > 0 ==> multiplier_of(tier_of(bytes)) <= bytes,
        tier_of(bytes) + 1 < UNIT_COUNT ==> bytes < multiplier_of(tier_of(bytes) + 1),
        bytes < 16 * multiplier_of(UNIT_COUNT - 1),
{
    multiplier_values();
    reveal_with_fuel(tier_up_to, 8);
}

/// The unit of a tier is two to the power of ten times the tier.
pub proof fn multiplier_is_power_of_two(tier: int)
    requires
        0 <= tier < UNIT_COUNT,
    ensures
        multiplier_of(tier) == pow2((10 * tier) as nat),
{
    multiplier_values();
    lemma2_to64();
    lemma2_to64_rest();
}

/// Converts a number of bytes to a human-readable size.
///
/// Returns the size in thousandths of a unit, rounded to the nearest, and
/// the suffix of that unit: the largest unit that is no more than the
/// count. `1536` gives `(1500, "KiB")`, one and a half kibibytes; zero
/// gives `(0, "B")`. The thousandths are those of the quotient in double
/// precision, so dividing them by a thousand in double precision gives the
/// size to three decimal places.
#[verifier::rlimit(40)]
pub fn bytify(value: u64) -> (size: (u64, &'static str))
    ensures
        size.0 == thousandths_of(value),
        size.1@ == suffix_of(tier_of(value)),
{
    let mut tier: usize = UNIT_COUNT - 1;
    while tier > 0 && unit_multiplier(tier) > value
        invariant
            tier < UNIT_COUNT,
            tier_of(value) == tier_up_to(value as nat, tier as int),
        decreases tier,
    {
        tier -= 1;
    }
    let suffix = unit_suffix(tier);
    if value == 0 {
        return (0, suffix);
    }
    proof {
        tier_of_bounds(value);
        multiplier_values();
        multiplier_is_power_of_two(tier as int);
        lemma2_to64();
        lemma2_to64_rest();
    }
    let taken = Rounded::nearest_dyadic(value as u128, 0);
    let count = taken.whole_value();
    let ghost unit = multiplier_of(tier as int);
    proof {
        // The count taken lies between the highest bit of the value and its double.
        let top = bit_floor(value as nat);
        lemma_bit_floor(value as nat);
        lemma_count_bounds(value);
        assert(unit <= value);
        if tier + 1 < UNIT_COUNT {
            assert(multiplier_of(tier + 1) == 1024 * unit);
        }
        assert(value < 1024 * unit);
        assert(count * 1000 < 2048000 * unit);
        assert(pow2(top) >= unit) by {
            let down = (10 * tier) as nat;
            if top < down {
                lemma_pow2_unfold(top + 1);
                if top + 1 < down {
                    vstd::arithmetic::power2::lemma_pow2_strictly_increases(top + 1, down);
                }
                assert(false);
            }
            if top > down {
                vstd::arithmetic::power2::lemma_pow2_strictly_increases(down, top);
            }
        }
        assert(count * 1000 >= unit);
        lemma_multiply_divide_lt((count * 1000) as int, unit as int, 2048000);
        vstd::arithmetic::div_mod::lemma_div_is_ordered(
            unit as int,
            (count * 1000) as int,
            unit as int,
        );
        vstd::arithmetic::div_mod::lemma_div_multiples_vanish(1, unit as int);
    }
    let units = Rounded::nearest_dyadic(count * 1000, 10 * tier as u32);
    proof {
        let whole = (count * 1000) as nat / unit;
        assert(whole < 2048000);
        assert(units@.exponent < 0) by {
            lemma_bit_floor(whole);
            let e = bit_floor(whole);
            if e >= 52 {
                if e > 52 {
                    vstd::arithmetic::power2::lemma_pow2_strictly_increases(52, e);
                }
                assert(false);
            }
        }
        vstd::arithmetic::power2::lemma_pow2_pos((-units@.exponent) as nat);
        lemma_div_nonincreasing(
            (units@.mantissa * 2) as int,
            pow2((-units@.exponent) as nat) as int,
        );
        lemma_mantissa_bound(units);
    }
    let doubled = match units.scaled(2) {
        Some(d) => d,
        None => {
            assert(false);
            0
        },
    };
    ((doubled + 1) / 2, suffix)
}

/// A byte count taken as a number of fifty-three significant bits is no
/// less than the count's highest bit and no more than twice the count.
#[verifier::rlimit(40)]
proof fn lemma_count_bounds(bytes: u64)
    requires
        bytes >= 1,
    ensures
        pow2(bit_floor(bytes as nat)) <= count_taken(bytes) <= 2 * bytes,
{
    let value = bytes as nat;
    let top = bit_floor(value);
    lemma_bit_floor(value);
    lemma2_to64();
    lemma2_to64_rest();
    let taken = nearest_ratio(value, 1);
    assert(value / 1 == value);
    if top <= 52 {
        assert(value % pow2(0) == 0);
        lemma_count_exact(bytes, 0);
    } else {
        let k = (top - 52) as nat;
        let u = pow2(k);
        vstd::arithmetic::power2::lemma_pow2_pos(k);
        assert(1 * u == u);
        let below = value / u;
        let m = taken.mantissa;
        assert(below <= m <= below + 1);
        vstd::arithmetic::div_mod::lemma_fundamental_div_mod(value as int, u as int);
        vstd::arithmetic::power2::lemma_pow2_adds(52, k);
        // u <= 2^12 <= value / 2^41, so one more unit stays within the double.
        assert(u <= pow2(top) / 2) by {
            lemma_pow2_unfold(top);
            if k < (top - 1) as nat {
                vstd::arithmetic::power2::lemma_pow2_strictly_increases(k, (top - 1) as nat);
            }
        }
        assert(m * u * 1 <= 2 * value) by (nonlinear_arith)
            requires
                m <= below + 1,
                value == u * below + value % u,
                value % u >= 0,
                u <= pow2(top) / 2,
                pow2(top) <= value,
                u >= 1,
        ;
        vstd::arithmetic::div_mod::lemma_div_is_ordered(
            (u * pow2(52)) as int,
            value as int,
            u as int,
        );
        vstd::arithmetic::div_mod::lemma_div_multiples_vanish(pow2(52) as int, u as int);
        assert(m * u * 1 >= pow2(52) * u) by (nonlinear_arith)
            requires
                m >= pow2(52),
                u >= 1,
        ;
    }
}

/// A byte count whose bits that are set span no more than fifty-three
/// places is taken as it is: one that is a multiple of `2^low` and has its
/// highest bit no higher than `52 + low`.
#[verifier::rlimit(40)]
pub(crate) proof fn lemma_count_exact(bytes: u64, low: nat)
    requires
        bytes >= 1,
        bytes as nat % pow2(low) == 0,
        bit_floor(bytes as nat) <= 52 + low,
    ensures
        count_taken(bytes) == bytes,
{
    let value = bytes as nat;
    let top = bit_floor(value);
    lemma_bit_floor(value);
    let taken = nearest_ratio(value, 1);
    assert(value / 1 == value);
    if top <= 52 {
        let shift = (52 - top) as nat;
        let p = pow2(shift);
        vstd::arithmetic::power2::lemma_pow2_pos(shift);
        let y = value * p;
        assert(taken.mantissa == y);
        if shift == 0 {
            lemma2_to64();
            assert(y * p * 1 == value) by (nonlinear_arith)
                requires
                    y == value * p,
                    p == 1,
            ;
        } else {
            assert(y * 1 == p * value) by (nonlinear_arith)
                requires
                    y == value * p,
            ;
            vstd::arithmetic::div_mod::lemma_div_multiples_vanish(value as int, p as int);
        }
    } else {
        let k = (top - 52) as nat;
        let u = pow2(k);
        let rest = pow2((low - k) as nat);
        vstd::arithmetic::power2::lemma_pow2_pos(k);
        vstd::arithmetic::power2::lemma_pow2_pos((low - k) as nat);
        vstd::arithmetic::power2::lemma_pow2_adds(k, (low - k) as nat);
        assert(pow2(low) == u * rest);
        vstd::arithmetic::div_mod::lemma_mod_mod(value as int, u as int, rest as int);
        assert(value % u == 0);
        assert(1 * u == u);
        vstd::arithmetic::div_mod::lemma_fundamental_div_mod(value as int, u as int);
        let below = value / u;
        assert(taken.mantissa == below);
        assert(below * u * 1 == value) by (nonlinear_arith)
            requires
                value == u * below + 0,
        ;
    }
}

/// A whole number of units, a multiple of the unit of its tier, is written
/// as a thousand times that number.
#[verifier::rlimit(40)]
pub(crate) proof fn lemma_thousandths_of_multiple(value: u64, count: nat)
    requires
        value as nat == count * multiplier_of(tier_of(value)),
    ensures
        thousandths_of(value) == 1000 * count,
{
    let tier = tier_of(value);
    let unit = multiplier_of(tier);
    tier_of_bounds(value);
    multiplier_values();
    multiplier_is_power_of_two(tier);
    lemma2_to64();
    lemma2_to64_rest();
    if value == 0 {
        assert(count == 0) by (nonlinear_arith)
            requires
                0 == count * unit,
                unit > 0,
        ;
    } else {
        let low = (10 * tier) as nat;
        if tier + 1 < UNIT_COUNT {
            assert(multiplier_of(tier + 1) == 1024 * unit);
        }
        assert(1 <= count < 1024) by (nonlinear_arith)
            requires
                value == count * unit,
                0 < value < 1024 * unit,
                unit > 0,
        ;
        // The count of bytes is taken as it is.
        let top = bit_floor(value as nat);
        lemma_bit_floor(value as nat);
        assert(top <= 52 + low) by {
            vstd::arithmetic::power2::lemma_pow2_adds(10, low);
            if top > low + 10 {
                vstd::arithmetic::power2::lemma_pow2_strictly_increases(low + 10, top);
            }
        }
        assert(value as nat % unit == 0) by {
            vstd::arithmetic::div_mod::lemma_mod_multiples_basic(count as int, unit as int);
        }
        lemma_count_exact(value, low);
        // And so is a thousand times the number of units.
        let whole = 1000 * count;
        assert(count_taken(value) * 1000 == whole * unit) by (nonlinear_arith)
            requires
                count_taken(value) == count * unit,
                whole == 1000 * count,
        ;
        vstd::arithmetic::div_mod::lemma_div_multiples_vanish(whole as int, unit as int);
        assert(whole * unit == unit * whole) by (nonlinear_arith);
        assert((whole * unit) / unit == whole);
        let first = bit_floor(whole);
        lemma_bit_floor(whole);
        if first >= 52 {
            if first > 52 {
                vstd::arithmetic::power2::lemma_pow2_strictly_increases(52, first);
            }
            assert(false);
        }
        let shift = (52 - first) as nat;
        let p = pow2(shift);
        vstd::arithmetic::power2::lemma_pow2_pos(shift);
        let units = nearest_ratio(whole * unit, unit);
        let lifted = whole * p;
        assert(whole * unit * p == lifted * unit) by (nonlinear_arith)
            requires
                lifted == whole * p,
        ;
        vstd::arithmetic::div_mod::lemma_fundamental_div_mod_converse(
            (lifted * unit) as int,
            unit as int,
            lifted as int,
            0,
        );
        assert(units.mantissa == lifted);
        assert(lifted * 2 == p * (2 * whole)) by (nonlinear_arith)
            requires
                lifted == whole * p,
        ;
        vstd::arithmetic::div_mod::lemma_div_multiples_vanish((2 * whole) as int, p as int);
        assert(units.scaled(2) == 2 * whole);
    }
}

/// The mantissa of a number that `nearest_dyadic` returns has at most
/// fifty-four bits.
proof fn lemma_mantissa_bound(units: Rounded)
    requires
        units.wf(),
    ensures
        units@.mantissa <= 0x20_0000_0000_0000,
{
    lemma2_to64();
    lemma2_to64_rest();
    units.lemma_wf();
}

} // verus!
