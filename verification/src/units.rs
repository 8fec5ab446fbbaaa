//! The table of binary units: bytes and the first six powers of 1024.

use vstd::arithmetic::power::pow;
use vstd::prelude::*;

verus! {

/// Number of units in the table, from bytes up to exbibytes.
pub const UNIT_COUNT: usize = 7;

/// The number of bytes in one unit of the given tier: 1024 to the power `tier`.
pub open spec fn multiplier_of(tier: int) -> nat {
    pow(1024, tier as nat) as nat
}

/// The display suffix of each tier, in ascending order.
pub open spec fn suffix_of(tier: int) -> Seq<char> {
    if tier == 0 {
        seq!['B']
    } else if tier == 1 {
        seq!['K', 'i', 'B']
    } else if tier == 2 {
        seq!['M', 'i', 'B']
    } else if tier == 3 {
        seq!['G', 'i', 'B']
    } else if tier == 4 {
        seq!['T', 'i', 'B']
    } else if tier == 5 {
        seq!['P', 'i', 'B']
    } else {
        seq!['E', 'i', 'B']
    }
}

/// The lower-case letter by which a tier is recognised in a size expression.
pub open spec fn letter_of(tier: int) -> char {
    if tier == 0 {
        'b'
    } else if tier == 1 {
        'k'
    } else if tier == 2 {
        'm'
    } else if tier == 3 {
        'g'
    } else if tier == 4 {
        't'
    } else if tier == 5 {
        'p'
    } else {
        'e'
    }
}

/// The multipliers written out; each is 1024 times the one before.
pub proof fn multiplier_values()
    ensures
        multiplier_of(0) == 1,
        multiplier_of(1) == 1024,
        multiplier_of(2) == 1048576,
        multiplier_of(3) == 1073741824,
        multiplier_of(4) == 1099511627776,
        multiplier_of(5) == 1125899906842624,
        multiplier_of(6) == 1152921504606846976,
        forall|t: int| 0 <= t < 6 ==> #[trigger] multiplier_of(t + 1) == 1024 * multiplier_of(t),
{
    reveal_with_fuel(pow, 8);
    assert forall|t: int| 0 <= t < 6 implies #[trigger] multiplier_of(t + 1) == 1024
        * multiplier_of(t) by {
        assert(pow(1024, (t + 1) as nat) == 1024 * pow(1024, t as nat));
    }
}

/// No two tiers share a letter, and the letter of a tier is the first
/// letter of its suffix in lower case.
pub proof fn letters_distinct(a: int, b: int)
    requires
        0 <= a < UNIT_COUNT,
        0 <= b < UNIT_COUNT,
    ensures
        a != b ==> letter_of(a) != letter_of(b),
        crate::text::lower_of(suffix_of(a)[0]) == letter_of(a),
{
}

/// Bytes per unit of tier `tier`.
pub fn unit_multiplier(tier: usize) -> (m: u64)
    requires
        tier < UNIT_COUNT,
    ensures
        m == multiplier_of(tier as int),
{
    proof {
        multiplier_values();
    }
    if tier == 0 {
        1
    } else if tier == 1 {
        1024
    } else if tier == 2 {
        1048576
    } else if tier == 3 {
        1073741824
    } else if tier == 4 {
        1099511627776
    } else if tier == 5 {
        1125899906842624
    } else {
        1152921504606846976
    }
}

/// The lower-case letter of tier `tier`.
pub fn unit_letter(tier: usize) -> (c: char)
    requires
        tier < UNIT_COUNT,
    ensures
        c == letter_of(tier as int),
{
    if tier == 0 {
        'b'
    } else if tier == 1 {
        'k'
    } else if tier == 2 {
        'm'
    } else if tier == 3 {
        'g'
    } else if tier == 4 {
        't'
    } else if tier == 5 {
        'p'
    } else {
        'e'
    }
}

/// The display suffix of tier `tier`: `B`, `KiB`, `MiB`, and so on.
pub fn unit_suffix(tier: usize) -> (s: &'static str)
    requires
        tier < UNIT_COUNT,
    ensures
        s@ == suffix_of(tier as int),
{
    proof {
        reveal_strlit("B");
        reveal_strlit("KiB");
        reveal_strlit("MiB");
        reveal_strlit("GiB");
        reveal_strlit("TiB");
        reveal_strlit("PiB");
        reveal_strlit("EiB");
    }
    let s = if tier == 0 {
        "B"
    } else if tier == 1 {
        "KiB"
    } else if tier == 2 {
        "MiB"
    } else if tier == 3 {
        "GiB"
    } else if tier == 4 {
        "TiB"
    } else if tier == 5 {
        "PiB"
    } else {
        "EiB"
    };
    assert(s@ =~= suffix_of(tier as int));
    s
}

} // verus!
