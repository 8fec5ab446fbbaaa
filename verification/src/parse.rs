//! Reading a size: a decimal number and a binary unit.

use crate::binary::{
    below_one, lemma_nearest_huge, lemma_scaled_bounds, power_of_two, taken, Rounded,
};
use crate::decimal::{decimal_of, digits_value, Decimal};
use crate::number::{leading_value, skip_digits, Number};
use crate::text::{
    copy_range, digit_run, find_char, find_from, normalize, normalized, trim_bounds, trimmed,
};
use crate::units::{
    letter_of, multiplier_of, multiplier_values, unit_letter, unit_multiplier, UNIT_COUNT,
};
use vstd::arithmetic::power2::{lemma2_to64, lemma2_to64_rest, pow2};
use vstd::prelude::*;

verus! {

/// Why a text is no size.
#[derive(PartialEq, Eq, PartialOrd, Clone, Copy, Debug, Structural)]
pub enum ParseError {
    /// The text is no number with a unit: a sign, a malformed number, or a
    /// unit that is not one of the table.
    Invalid,
    /// The size is beyond sixty-four bits.
    Overflow,
}

/// The unsigned integer that `s` denotes, if it is one that fits in
/// sixty-four bits: an optional `+` and at least one digit.
pub open spec fn integer_of(s: Seq<char>) -> Option<u64> {
    let start: int = if s.len() > 0 && s[0] == '+' {
        1
    } else {
        0
    };
    if start < s.len() && digit_run(s, start) == s.len() && digits_value(s.skip(start))
        <= u64::MAX {
        Some(digits_value(s.skip(start)) as u64)
    } else {
        None
    }
}

/// What may follow the letter of a unit: nothing, `b` or `ib`.
pub open spec fn unit_tail(rest: Seq<char>) -> bool {
    ||| rest.len() == 0
    ||| rest.len() == 1 && rest[0] == 'b'
    ||| rest.len() == 2 && rest[0] == 'i' && rest[1] == 'b'
}

/// The size of `number` units of the given tier. The number is taken as
/// the nearest of fifty-three significant bits, and that many units are
/// rounded down to whole bytes. Without a unit the number taken must be
/// whole. Below one it is zero bytes whatever the unit, and without a unit
/// only zero itself is.
pub open spec fn size_of(number: Decimal, tier: int, with_unit: bool) -> Result<u64, ParseError> {
    if below_one(number) {
        if with_unit || number.mantissa == 0 {
            Ok(0)
        } else {
            Err(ParseError::Invalid)
        }
    } else if !with_unit && !taken(number).is_whole() {
        Err(ParseError::Invalid)
    } else if taken(number).scaled(multiplier_of(tier)) > u64::MAX {
        Err(ParseError::Overflow)
    } else {
        Ok(taken(number).scaled(multiplier_of(tier)) as u64)
    }
}

/// How `text` reads with the unit of the given tier: its number ends where
/// the letter of the tier first stands, or at the end where it does not
/// stand at all. `None` where what comes before is no number.
pub open spec fn read_at(text: Seq<char>, tier: int) -> Option<Result<u64, ParseError>> {
    let at = find_from(text, letter_of(tier), 0);
    let with_unit = at < text.len();
    match decimal_of(trimmed(text.take(at))) {
        None => None,
        Some(number) => Some(
            if with_unit && !unit_tail(text.skip(at + 1)) {
                Err(ParseError::Invalid)
            } else {
                size_of(number, tier, with_unit)
            },
        ),
    }
}

/// How `text` reads with the first tier from `tier` up under which it has a
/// number.
pub open spec fn read_from(text: Seq<char>, tier: int) -> Result<u64, ParseError>
    decreases UNIT_COUNT - tier,
{
    if tier < 0 || tier >= UNIT_COUNT {
        Err(ParseError::Invalid)
    } else {
        match read_at(text, tier) {
            Some(size) => size,
            None => read_from(text, tier + 1),
        }
    }
}

/// The size that a trimmed, lower-case text denotes.
pub open spec fn size_in(text: Seq<char>) -> Result<u64, ParseError> {
    if text.len() > 0 && text[0] == '-' {
        Err(ParseError::Invalid)
    } else {
        match integer_of(text) {
            Some(bytes) => Ok(bytes),
            None => read_from(text, 0),
        }
    }
}

/// The size that `input` denotes, in bytes.
pub open spec fn parse_size(input: Seq<char>) -> Result<u64, ParseError> {
    size_in(normalized(input))
}

/// Reads `s` as an unsigned integer of sixty-four bits.
fn parse_integer(s: &Vec<char>) -> (value: Option<u64>)
    ensures
        value == integer_of(s@),
{
    let n = s.len();
    let start: usize = if n > 0 && s[0] == '+' {
        1
    } else {
        0
    };
    if start >= n {
        return None;
    }
    let end = skip_digits(s, start);
    if end != n {
        return None;
    }
    let digits = copy_range(s, start, n);
    assert(digits@ =~= s@.skip(start as int));
    assert(digits@.subrange(0, digits.len() as int) =~= digits@);
    leading_value(&digits, digits.len())
}

/// Whether what stands in `text` from `from` on may follow the letter of a
/// unit.
fn is_unit_tail(text: &Vec<char>, from: usize) -> (ok: bool)
    requires
        from <= text.len(),
    ensures
        ok == unit_tail(text@.skip(from as int)),
{
    let left = text.len() - from;
    if left == 0 {
        true
    } else if left == 1 {
        text[from] == 'b'
    } else if left == 2 {
        text[from] == 'i' && text[from + 1] == 'b'
    } else {
        false
    }
}

/// The size of `number` units of the given tier.
#[verifier::rlimit(40)]
fn measure(number: &Number, tier: usize, with_unit: bool) -> (size: Result<u64, ParseError>)
    requires
        number.wf(),
        tier < UNIT_COUNT,
    ensures
        size == size_of(number@, tier as int, with_unit),
{
    let zero = number.is_zero();
    let unit = unit_multiplier(tier);
    proof {
        multiplier_values();
        lemma2_to64();
        lemma2_to64_rest();
        lemma_scaled_bounds(number@, pow2(54));
    }
    let whole = match number.scaled(1) {
        Some(w) => w,
        None => {
            proof {
                lemma_nearest_huge(number@, unit as nat);
            }
            return Err(ParseError::Overflow);
        },
    };
    let taken = if whole == 0 {
        let near = match number.scaled(power_of_two(54)) {
            Some(x) => x + 1 >= power_of_two(54),
            None => false,
        };
        if !near {
            return if with_unit || zero {
                Ok(0)
            } else {
                Err(ParseError::Invalid)
            };
        }
        Rounded::one()
    } else {
        assert(whole * pow2(54) >= pow2(54)) by (nonlinear_arith)
            requires
                whole >= 1,
        ;
        Rounded::nearest(number, whole)
    };
    if !with_unit && !taken.is_whole() {
        return Err(ParseError::Invalid);
    }
    match taken.scaled(unit) {
        Some(bytes) => Ok(bytes),
        None => Err(ParseError::Overflow),
    }
}

/// Reads `text` with the unit of the given tier.
#[verifier::rlimit(40)]
fn read_tier(text: &Vec<char>, tier: usize) -> (size: Option<Result<u64, ParseError>>)
    requires
        tier < UNIT_COUNT,
    ensures
        size == read_at(text@, tier as int),
{
    let found = find_char(text, unit_letter(tier));
    let at = match found {
        Some(i) => i,
        None => text.len(),
    };
    let before = copy_range(text, 0, at);
    assert(before@ =~= text@.take(at as int));
    let (lo, hi) = trim_bounds(&before);
    let body = copy_range(&before, lo, hi);
    let number = match Number::parse(&body) {
        Some(n) => n,
        None => {
            return None;
        },
    };
    if found.is_some() && !is_unit_tail(text, at + 1) {
        return Some(Err(ParseError::Invalid));
    }
    Some(measure(&number, tier, found.is_some()))
}

/// Converts a human-readable size to a number of bytes.
///
/// The text is trimmed and read without regard to case. A leading `-` is
/// refused. An unsigned integer is a number of bytes as it stands.
/// Otherwise the text is a decimal number, with or without a power of ten
/// (`1.5e3`), followed by a unit: the letter of the unit alone (`K`), with
/// `b` (`KB`) or with `ib` (`KiB`). The units are tried from bytes upwards,
/// and the first under which the text before its letter is a number
/// decides: what follows the letter must then be nothing, `b` or `ib`. A
/// number without any unit must be whole.
///
/// The number is taken in double precision, and that many units are rounded
/// down to whole bytes: `1.5K` is 1536 bytes, `1.2K` is 1228. A number below
/// one is zero bytes whatever its unit. A size beyond sixty-four bits is an
/// overflow.
pub fn unbytify(value: &str) -> (size: Result<u64, ParseError>)
    ensures
        size == parse_size(value@),
{
    let text = normalize(value);
    if text.len() > 0 && text[0] == '-' {
        return Err(ParseError::Invalid);
    }
    if let Some(bytes) = parse_integer(&text) {
        return Ok(bytes);
    }
    let mut tier: usize = 0;
    while tier < UNIT_COUNT
        invariant
            tier <= UNIT_COUNT,
            parse_size(value@) == read_from(text@, tier as int),
        decreases UNIT_COUNT - tier,
    {
        if let Some(size) = read_tier(&text, tier) {
            return size;
        }
        tier += 1;
    }
    Err(ParseError::Invalid)
}

} // verus!
