//! What holds of reading and writing sizes, whatever the number and the
//! unit.

use crate::binary::{bit_floor, lemma_bit_floor, nearest_even, taken, Binary};
use crate::decimal::{
    all_digits, decimal_of, digits_value, exponent_of, lemma_pow10_step, pow10, Decimal,
};
use crate::format::{lemma_thousandths_of_multiple, thousandths_of, tier_of, tier_of_bounds};
use crate::parse::{
    integer_of, parse_size, read_at, read_from, size_in, size_of, unit_tail, ParseError,
};
use crate::text::{
    all_spaces, digit_run, find_from, folded, is_digit, is_space, lemma_digit_run_skips,
    lemma_find_from_skips, lemma_trimmed_core, lower_of, normalized, space_run, space_run_back,
    trimmed,
};
use crate::units::{letter_of, multiplier_of, multiplier_values, suffix_of, UNIT_COUNT};
use vstd::arithmetic::power2::{
    lemma2_to64, lemma2_to64_rest, lemma_pow2_pos, lemma_pow2_strictly_increases, pow2,
};
use vstd::prelude::*;

verus! {

/// Whether `unit` is a way to write the unit of the given tier: its letter
/// in either case, alone or with `b` or `ib` in any case behind it.
pub open spec fn spells_unit(unit: Seq<char>, tier: int) -> bool {
    &&& unit.len() >= 1
    &&& lower_of(unit[0]) == letter_of(tier)
    &&& unit_tail(folded(unit.skip(1)))
}

/// `count` units of the given tier in bytes, or the overflow where that is
/// beyond sixty-four bits.
pub open spec fn bytes_of(count: nat, tier: int) -> Result<u64, ParseError> {
    if count * multiplier_of(tier) <= u64::MAX {
        Ok((count * multiplier_of(tier)) as u64)
    } else {
        Err(ParseError::Overflow)
    }
}

/// A text in the form in which sizes are read that holds `digits` digits,
/// `gap` characters of white space, the letter of the tier and what may
/// follow it.
spec fn plain_size(t: Seq<char>, digits: int, gap: int, tier: int) -> bool {
    &&& 0 <= tier < UNIT_COUNT
    &&& digits > 0
    &&& gap >= 0
    &&& t.len() >= digits + gap + 1
    &&& forall|i: int| 0 <= i < digits ==> is_digit(#[trigger] t[i])
    &&& forall|i: int| digits <= i < digits + gap ==> is_space(#[trigger] t[i])
    &&& t[digits + gap] == letter_of(tier)
    &&& unit_tail(t.skip(digits + gap + 1))
}

/// A string of digits is the whole number that it denotes.
proof fn lemma_decimal_of_digits(s: Seq<char>)
    requires
        s.len() > 0,
        all_digits(s),
    ensures
        decimal_of(s) == Some(Decimal { mantissa: digits_value(s), exponent: 0 }),
{
    let n = s.len() as int;
    lemma_digit_run_skips(s, 0, n);
    assert(is_digit(s[0]));
    assert(s.subrange(0, n) + s.subrange(n, n) =~= s);
}

/// Digits with a letter behind them, at once or after white space, are no
/// number.
#[verifier::rlimit(40)]
proof fn lemma_no_number(t: Seq<char>, digits: int, gap: int, tier: int, cut: int)
    requires
        plain_size(t, digits, gap, tier),
        digits + gap < cut <= t.len(),
    ensures
        decimal_of(trimmed(t.take(cut))) is None,
{
    let p = t.take(cut);
    let tail = t.skip(digits + gap + 1);
    assert(is_digit(p[0]));
    assert(!is_space(p.last())) by {
        let k = cut - 1 - (digits + gap + 1);
        if k >= 0 {
            assert(p.last() == tail[k]);
        }
    }
    lemma_trimmed_core(Seq::empty(), p, Seq::empty());
    assert(Seq::<char>::empty() + p + Seq::<char>::empty() =~= p);
    assert forall|i: int| 0 <= i < digits implies is_digit(#[trigger] p[i]) by {
        assert(p[i] == t[i]);
    }
    lemma_digit_run_skips(p, 0, digits);
    assert(p[digits] == t[digits]);
    assert(!is_digit(p[digits]) && p[digits] != '.');
    assert(digit_run(p, digits) == digits);
    if p[digits] == 'e' {
        assert(gap == 0);
        if digits + 1 < p.len() {
            assert(p[digits + 1] == tail[0]);
            assert(digit_run(p, digits + 1) == digits + 1);
        }
        assert(exponent_of(p, digits) is None);
    }
}

/// Under the tiers below its own a plain size is not read at all.
proof fn lemma_lower_tiers(t: Seq<char>, digits: int, gap: int, tier: int, from: int)
    requires
        plain_size(t, digits, gap, tier),
        0 <= from <= tier,
    ensures
        read_from(t, from) == read_from(t, tier),
    decreases tier - from,
{
    if from < tier {
        let c = letter_of(from);
        assert forall|i: int| 0 <= i < digits + gap + 1 implies #[trigger] t[i] != c by {
            if i < digits {
                assert(is_digit(t[i]));
            } else if i < digits + gap {
                assert(is_space(t[i]));
            }
        }
        lemma_find_from_skips(t, c, 0, digits + gap + 1);
        lemma_no_number(t, digits, gap, tier, find_from(t, c, 0));
        lemma_lower_tiers(t, digits, gap, tier, from + 1);
    }
}

/// A whole number below `2^53` is taken as it is.
#[verifier::rlimit(40)]
proof fn lemma_size_of_count(count: nat, tier: int)
    requires
        count < pow2(53),
        0 <= tier < UNIT_COUNT,
    ensures
        size_of(Decimal { mantissa: count, exponent: 0 }, tier, true) == bytes_of(count, tier),
{
    let d = Decimal { mantissa: count, exponent: 0 };
    let m = multiplier_of(tier);
    lemma_pow10_step(0);
    lemma2_to64();
    lemma2_to64_rest();
    multiplier_values();
    assert(d.numerator() == count) by (nonlinear_arith)
        requires
            d.numerator() == count * pow10(0),
            pow10(0) == 1,
    ;
    assert(d.denominator() == 1);
    assert(d.whole_part() == count) by (nonlinear_arith)
        requires
            d.whole_part() == (count * 1) / 1nat,
    ;
    let edge = pow2(54);
    assert(d.scaled(edge) == count * edge);
    if count == 0 {
        assert(count * edge == 0) by (nonlinear_arith)
            requires
                count == 0,
        ;
        assert(count * m == 0) by (nonlinear_arith)
            requires
                count == 0,
        ;
    } else {
        assert(count * edge >= edge) by (nonlinear_arith)
            requires
                count >= 1,
        ;
        let top = bit_floor(count);
        lemma_bit_floor(count);
        if top > 52 {
            if top > 53 {
                lemma_pow2_strictly_increases(53, top);
            }
            assert(false);
        }
        let shift = (52 - top) as nat;
        let p = pow2(shift);
        lemma_pow2_pos(shift);
        let y = count * p;
        assert(nearest_even(y, 1) == y);
        assert(taken(d) == Binary { mantissa: y, exponent: top - 52 });
        if shift == 0 {
            assert(y * p * m == count * m) by (nonlinear_arith)
                requires
                    y == count * p,
                    p == 1,
            ;
        } else {
            assert(y * m == p * (count * m)) by (nonlinear_arith)
                requires
                    y == count * p,
            ;
            vstd::arithmetic::div_mod::lemma_div_multiples_vanish((count * m) as int, p as int);
        }
        assert(taken(d).scaled(m) == count * m);
    }
}

/// A plain size is as many units of its tier as its digits denote.
#[verifier::rlimit(40)]
proof fn lemma_plain_size(t: Seq<char>, digits: int, gap: int, tier: int)
    requires
        plain_size(t, digits, gap, tier),
        digits_value(t.take(digits)) < pow2(53),
    ensures
        size_in(t) == bytes_of(digits_value(t.take(digits)), tier),
{
    let number = t.take(digits);
    let count = digits_value(number);
    assert(is_digit(t[0]));
    // No integer: something follows the digits.
    lemma_digit_run_skips(t, 0, digits);
    assert(!is_digit(t[digits]));
    assert(digit_run(t, digits) == digits);
    assert(integer_of(t) is None);
    // No tier below reads it.
    lemma_lower_tiers(t, digits, gap, tier, 0);
    // Its own tier does.
    let c = letter_of(tier);
    assert forall|i: int| 0 <= i < digits + gap implies #[trigger] t[i] != c by {
        if i < digits {
            assert(is_digit(t[i]));
        } else {
            assert(is_space(t[i]));
        }
    }
    lemma_find_from_skips(t, c, 0, digits + gap);
    assert(find_from(t, c, 0) == digits + gap);
    let before = t.take(digits + gap);
    let spaces = t.subrange(digits, digits + gap);
    assert(before =~= Seq::<char>::empty() + number + spaces);
    assert(all_spaces(spaces));
    assert(number[0] == t[0] && number.last() == t[digits - 1]);
    assert(is_digit(t[digits - 1]));
    lemma_trimmed_core(Seq::empty(), number, spaces);
    assert(all_digits(number));
    lemma_decimal_of_digits(number);
    let d = Decimal { mantissa: count, exponent: 0 };
    lemma_size_of_count(count, tier);
    assert(read_at(t, tier) == Some(size_of(d, tier, true)));
}

/// Folding changes neither a digit nor white space, and what folds to `b`
/// is no white space.
proof fn lemma_fold_keeps(c: char)
    ensures
        is_digit(c) ==> lower_of(c) == c,
        is_space(c) ==> lower_of(c) == c,
        lower_of(c) == 'b' ==> !is_space(c),
        (exists|tier: int| 0 <= tier < UNIT_COUNT && lower_of(c) == letter_of(tier)) ==> !is_space(
            c,
        ),
{
}

/// Folding digits, white space and a unit folds the unit alone.
#[verifier::rlimit(40)]
proof fn lemma_folded_parts(digits: Seq<char>, gap: Seq<char>, unit: Seq<char>)
    requires
        all_digits(digits),
        all_spaces(gap),
    ensures
        folded(digits + gap + unit) == digits + gap + folded(unit),
{
    let text = digits + gap + unit;
    let nd = digits.len() as int;
    let ng = gap.len() as int;
    let right = digits + gap + folded(unit);
    assert forall|i: int| 0 <= i < text.len() implies #[trigger] folded(text)[i] == right[i] by {
        lemma_fold_keeps(text[i]);
        if i < nd {
            assert(text[i] == digits[i]);
            assert(is_digit(digits[i]));
        } else if i < nd + ng {
            assert(text[i] == gap[i - nd]);
            assert(is_space(gap[i - nd]));
        } else {
            assert(text[i] == unit[i - nd - ng]);
        }
    }
    assert(folded(text) =~= right);
}

/// Digits, white space and a way to write a unit make a plain size once
/// they are in the form in which sizes are read.
#[verifier::rlimit(40)]
proof fn lemma_plain_form(digits: Seq<char>, gap: Seq<char>, unit: Seq<char>, tier: int)
    requires
        0 <= tier < UNIT_COUNT,
        digits.len() > 0,
        all_digits(digits),
        all_spaces(gap),
        spells_unit(unit, tier),
    ensures
        plain_size(
            normalized(digits + gap + unit),
            digits.len() as int,
            gap.len() as int,
            tier,
        ),
        normalized(digits + gap + unit).take(digits.len() as int) == digits,
{
    let text = digits + gap + unit;
    let nd = digits.len() as int;
    let ng = gap.len() as int;
    // Nothing is trimmed: the text begins with a digit and ends with a letter.
    assert(text[0] == digits[0]);
    assert(is_digit(digits[0]));
    assert(text.last() == unit.last());
    assert(!is_space(unit.last())) by {
        lemma_fold_keeps(unit.last());
        if unit.len() > 1 {
            let tail = folded(unit.skip(1));
            assert(tail.last() == lower_of(unit.last()));
        }
    }
    lemma_trimmed_core(Seq::empty(), text, Seq::empty());
    assert(Seq::<char>::empty() + text + Seq::<char>::empty() =~= text);
    lemma_folded_parts(digits, gap, unit);
    let small = folded(unit);
    let t = digits + gap + small;
    assert(normalized(text) == t);
    assert forall|i: int| 0 <= i < nd implies is_digit(#[trigger] t[i]) by {
        assert(t[i] == digits[i]);
    }
    assert forall|i: int| nd <= i < nd + ng implies is_space(#[trigger] t[i]) by {
        assert(t[i] == gap[i - nd]);
    }
    assert(t[nd + ng] == small[0]);
    assert(t.skip(nd + ng + 1) =~= small.skip(1));
    assert(small.skip(1) =~= folded(unit.skip(1)));
    assert(t.take(nd) =~= digits);
}

/// A number of units reads as that many times the unit. Whatever whole
/// number below `2^53` the digits denote, in whichever way the unit is
/// spelled (the letter alone or with `b` or `ib`, in either case), with or
/// without white space between the two, the size is the number times the
/// bytes of the unit, or the overflow where that is beyond sixty-four bits.
/// From `2^53` on not every whole number has fifty-three significant bits,
/// and the size is that of the nearest that has.
pub proof fn law_number_of_units(digits: Seq<char>, gap: Seq<char>, unit: Seq<char>, tier: int)
    requires
        0 <= tier < UNIT_COUNT,
        digits.len() > 0,
        all_digits(digits),
        digits_value(digits) < pow2(53),
        all_spaces(gap),
        spells_unit(unit, tier),
    ensures
        parse_size(digits + gap + unit) == bytes_of(digits_value(digits), tier),
{
    lemma_plain_form(digits, gap, unit, tier);
    lemma_plain_size(
        normalized(digits + gap + unit),
        digits.len() as int,
        gap.len() as int,
        tier,
    );
}

/// Digits alone are a number of bytes, read as they stand wherever that
/// fits in sixty-four bits.
pub proof fn law_bare_integer(digits: Seq<char>)
    requires
        digits.len() > 0,
        all_digits(digits),
        digits_value(digits) <= u64::MAX,
    ensures
        parse_size(digits) == Ok::<u64, ParseError>(digits_value(digits) as u64),
{
    assert(is_digit(digits[0]) && is_digit(digits.last()));
    lemma_trimmed_core(Seq::empty(), digits, Seq::empty());
    assert(Seq::<char>::empty() + digits + Seq::<char>::empty() =~= digits);
    let t = normalized(digits);
    assert(t =~= digits) by {
        assert forall|i: int| 0 <= i < digits.len() implies #[trigger] t[i] == digits[i] by {
            assert(is_digit(digits[i]));
        }
    }
    lemma_digit_run_skips(t, 0, t.len() as int);
    assert(t.skip(0) =~= t);
}

/// White space before and behind a text does not change what it reads as.
pub proof fn law_outer_white_space(lead: Seq<char>, text: Seq<char>, trail: Seq<char>)
    requires
        all_spaces(lead),
        all_spaces(trail),
    ensures
        parse_size(lead + text + trail) == parse_size(text),
{
    lemma_outer_white_space(lead, text, trail);
}

/// Trimming a text trimmed already, or one with more white space around
/// it, gives the same.
#[verifier::rlimit(40)]
proof fn lemma_outer_white_space(lead: Seq<char>, text: Seq<char>, trail: Seq<char>)
    requires
        all_spaces(lead),
        all_spaces(trail),
    ensures
        trimmed(lead + text + trail) == trimmed(text),
{
    let core = trimmed(text);
    let lo = space_run(text, 0);
    let hi = space_run_back(text, text.len() as int);
    lemma_space_run_is_spaces(text, 0);
    lemma_space_run_back_is_spaces(text, text.len() as int);
    if lo <= hi {
        let inner_lead = text.subrange(0, lo);
        let inner_trail = text.subrange(hi, text.len() as int);
        assert(text =~= inner_lead + core + inner_trail);
        assert(lead + text + trail =~= (lead + inner_lead) + core + (inner_trail + trail));
        assert(all_spaces(lead + inner_lead)) by {
            assert forall|i: int| 0 <= i < (lead + inner_lead).len() implies is_space(
                #[trigger] (lead + inner_lead)[i],
            ) by {
                if i < lead.len() {
                    assert(is_space(lead[i]));
                } else {
                    assert((lead + inner_lead)[i] == text[i - lead.len()]);
                }
            }
        }
        assert(all_spaces(inner_trail + trail)) by {
            assert forall|i: int| 0 <= i < (inner_trail + trail).len() implies is_space(
                #[trigger] (inner_trail + trail)[i],
            ) by {
                if i < inner_trail.len() {
                    assert((inner_trail + trail)[i] == text[hi + i]);
                } else {
                    assert(is_space(trail[i - inner_trail.len()]));
                }
            }
        }
        if core.len() > 0 {
            assert(core[0] == text[lo]);
            assert(core.last() == text[hi - 1]);
        }
        lemma_trimmed_core(lead + inner_lead, core, inner_trail + trail);
    } else {
        // All of `text` is white space.
        assert(all_spaces(text)) by {
            assert forall|i: int| 0 <= i < text.len() implies is_space(#[trigger] text[i]) by {
                assert(i < lo || hi <= i);
            }
        }
        let whole = lead + text + trail;
        assert(all_spaces(whole)) by {
            assert forall|i: int| 0 <= i < whole.len() implies is_space(#[trigger] whole[i]) by {
                if i < lead.len() {
                    assert(is_space(lead[i]));
                } else if i < lead.len() + text.len() {
                    assert(whole[i] == text[i - lead.len()]);
                } else {
                    assert(whole[i] == trail[i - lead.len() - text.len()]);
                    assert(is_space(trail[i - lead.len() - text.len()]));
                }
            }
        }
        lemma_trimmed_core(whole, Seq::empty(), Seq::empty());
        assert(whole + Seq::<char>::empty() + Seq::<char>::empty() =~= whole);
    }
}

/// What a run of white space passes over is white space, and the run ends
/// before what is none.
proof fn lemma_space_run_is_spaces(s: Seq<char>, from: int)
    requires
        0 <= from <= s.len(),
    ensures
        from <= space_run(s, from) <= s.len(),
        forall|i: int| from <= i < space_run(s, from) ==> is_space(#[trigger] s[i]),
        space_run(s, from) < s.len() ==> !is_space(
            s[space_run(s, from)],
        ),
    decreases s.len() - from,
{
    if from < s.len() && is_space(s[from]) {
        lemma_space_run_is_spaces(s, from + 1);
    }
}

/// The same of a backward run.
proof fn lemma_space_run_back_is_spaces(s: Seq<char>, to: int)
    requires
        0 <= to <= s.len(),
    ensures
        0 <= space_run_back(s, to) <= to,
        forall|i: int|
            space_run_back(s, to) <= i < to ==> is_space(#[trigger] s[i]),
        space_run_back(s, to) > 0 ==> !is_space(
            s[space_run_back(s, to) - 1],
        ),
    decreases to,
{
    if 0 < to && is_space(s[to - 1]) {
        lemma_space_run_back_is_spaces(s, to - 1);
    }
}

/// A text whose first character after white space is `-` is no size,
/// whatever follows.
pub proof fn law_minus_is_invalid(lead: Seq<char>, rest: Seq<char>)
    requires
        all_spaces(lead),
    ensures
        parse_size(lead + seq!['-'] + rest) == Err::<u64, ParseError>(ParseError::Invalid),
{
    let core = seq!['-'] + rest;
    assert(lead + seq!['-'] + rest =~= lead + core + Seq::<char>::empty());
    lemma_outer_white_space(lead, core, Seq::empty());
    assert(core[0] == '-');
    lemma_space_run_back_is_spaces(core, core.len() as int);
    let hi = space_run_back(core, core.len() as int);
    assert(hi > 0) by {
        if hi == 0 {
            assert(is_space(core[0]));
        }
    }
    assert(trimmed(core)[0] == '-');
    assert(normalized(lead + seq!['-'] + rest)[0] == '-');
}

/// The suffix of a tier is a way to write its unit.
pub proof fn law_suffix_spells_unit(tier: int)
    requires
        0 <= tier < UNIT_COUNT,
    ensures
        spells_unit(suffix_of(tier), tier),
{
    let unit = suffix_of(tier);
    if tier > 0 {
        let tail = folded(unit.skip(1));
        assert(tail.len() == 2);
        assert(tail[0] == lower_of(unit[1]));
        assert(tail[1] == lower_of(unit[2]));
    }
}

/// A whole number of units, written out, reads as the same count of bytes.
/// Where `value` is a multiple of the unit of its tier, it is written as a
/// whole number of thousandths, and the digits of that whole number, a
/// space and the suffix of the tier read as `value`.
pub proof fn law_round_trip(value: u64, digits: Seq<char>)
    requires
        value as nat % multiplier_of(tier_of(value)) == 0,
        digits.len() > 0,
        all_digits(digits),
        digits_value(digits) == value as nat / multiplier_of(tier_of(value)),
    ensures
        thousandths_of(value) == 1000 * digits_value(digits),
        parse_size(digits + seq![' '] + suffix_of(tier_of(value))) == Ok::<u64, ParseError>(value),
{
    let tier = tier_of(value);
    let unit = multiplier_of(tier);
    let count = digits_value(digits);
    tier_of_bounds(value);
    multiplier_values();
    assert(unit > 0);
    vstd::arithmetic::div_mod::lemma_fundamental_div_mod(value as int, unit as int);
    assert(value == unit * count);
    assert(count * unit == unit * count) by (nonlinear_arith);
    law_suffix_spells_unit(tier);
    lemma2_to64();
    lemma2_to64_rest();
    if tier + 1 < UNIT_COUNT {
        assert(multiplier_of(tier + 1) == 1024 * unit);
    }
    assert(count < 1024) by (nonlinear_arith)
        requires
            value == unit * count,
            value < 1024 * unit,
            unit > 0,
    ;
    law_number_of_units(digits, seq![' '], suffix_of(tier), tier);
    lemma_thousandths_of_multiple(value, count);
}

} // verus!
