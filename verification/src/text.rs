//! Characters and text: white space, case folding and simple scans.

use vstd::prelude::*;

verus! {

/// White space in the sense of Unicode's `White_Space` property.
pub open spec fn is_space(c: char) -> bool {
    let u = c as u32;
    ||| 0x09 <= u <= 0x0d
    ||| u == 0x20
    ||| u == 0x85
    ||| u == 0xa0
    ||| u == 0x1680
    ||| 0x2000 <= u <= 0x200a
    ||| u == 0x2028
    ||| u == 0x2029
    ||| u == 0x202f
    ||| u == 0x205f
    ||| u == 0x3000
}

/// The lower-case form of a capital among the characters of which sizes
/// are written: of an ASCII capital, and of the Kelvin sign, which is `k`.
/// Any other character is itself.
pub open spec fn lower_of(c: char) -> char {
    if 'A' <= c <= 'Z' {
        ((c as u8) + 32) as u8 as char
    } else if c == '\u{212a}' {
        'k'
    } else {
        c
    }
}

/// A decimal digit, `0` to `9`.
pub open spec fn is_digit(c: char) -> bool {
    '0' <= c <= '9'
}

/// The number a decimal digit stands for.
pub open spec fn digit_of(c: char) -> nat {
    (c as u8 - '0' as u8) as nat
}

/// The index of the first character at or after `from` that is no white
/// space; the length of `s` where there is none.
pub open spec fn space_run(s: Seq<char>, from: int) -> int
    decreases s.len() - from,
{
    if 0 <= from < s.len() && is_space(s[from]) {
        space_run(s, from + 1)
    } else {
        from
    }
}

/// The index just past the last character before `to` that is no white
/// space; zero where there is none.
pub open spec fn space_run_back(s: Seq<char>, to: int) -> int
    decreases to,
{
    if 0 < to <= s.len() && is_space(s[to - 1]) {
        space_run_back(s, to - 1)
    } else {
        to
    }
}

/// `s` without its leading and trailing white space.
pub open spec fn trimmed(s: Seq<char>) -> Seq<char> {
    let lo = space_run(s, 0);
    let hi = space_run_back(s, s.len() as int);
    if lo <= hi {
        s.subrange(lo, hi)
    } else {
        Seq::empty()
    }
}

/// `s` with every capital replaced by its lower-case form.
pub open spec fn folded(s: Seq<char>) -> Seq<char> {
    s.map_values(|c: char| lower_of(c))
}

/// `s` trimmed and folded to lower case: the form in which sizes are read.
pub open spec fn normalized(s: Seq<char>) -> Seq<char> {
    folded(trimmed(s))
}

/// Whether every character of `s` is white space.
pub open spec fn all_spaces(s: Seq<char>) -> bool {
    forall|i: int| 0 <= i < s.len() ==> is_space(#[trigger] s[i])
}

/// The index of the first `c` in `s` at or after `from`; the length of `s`
/// where there is none.
pub open spec fn find_from(s: Seq<char>, c: char, from: int) -> int
    decreases s.len() - from,
{
    if 0 <= from < s.len() && s[from] != c {
        find_from(s, c, from + 1)
    } else {
        from
    }
}

/// The index just past the run of decimal digits that starts at `from`.
pub open spec fn digit_run(s: Seq<char>, from: int) -> int
    decreases s.len() - from,
{
    if 0 <= from < s.len() && is_digit(s[from]) {
        digit_run(s, from + 1)
    } else {
        from
    }
}

/// Whether `c` is white space.
fn is_whitespace(c: char) -> (b: bool)
    ensures
        b == is_space(c),
{
    let u: u32 = c as u32;
    (0x09 <= u && u <= 0x0d) || u == 0x20 || u == 0x85 || u == 0xa0 || u == 0x1680 || (0x2000 <= u
        && u <= 0x200a) || u == 0x2028 || u == 0x2029 || u == 0x202f || u == 0x205f || u == 0x3000
}

/// The lower-case form of `c`.
fn to_lower(c: char) -> (r: char)
    ensures
        r == lower_of(c),
{
    if 'A' <= c && c <= 'Z' {
        ((c as u8) + 32) as char
    } else if c == '\u{212a}' {
        'k'
    } else {
        c
    }
}

/// Whether `c` is a decimal digit.
pub(crate) fn is_decimal_digit(c: char) -> (b: bool)
    ensures
        b == is_digit(c),
{
    '0' <= c && c <= '9'
}

/// The characters of `value`, in order.
fn chars_of(value: &str) -> (chars: Vec<char>)
    ensures
        chars@ == value@,
{
    broadcast use vstd::string::group_string_axioms;

    let mut chars: Vec<char> = Vec::new();
    for c in it: value.chars()
        invariant
            it.seq() == value@,
            chars@ == it.seq().take(it.index()),
    {
        chars.push(c);
        assert(chars@ =~= it.seq().take(it.index() + 1));
    }
    assert(chars@ =~= value@);
    chars
}

/// The bounds of `s` without its leading and trailing white space.
#[verifier::rlimit(40)]
pub(crate) fn trim_bounds(s: &Vec<char>) -> (bounds: (usize, usize))
    ensures
        bounds.0 <= bounds.1 <= s.len(),
        s@.subrange(bounds.0 as int, bounds.1 as int) == trimmed(s@),
{
    let n = s.len();
    let mut lo: usize = 0;
    while lo < n && is_whitespace(s[lo])
        invariant
            n == s.len(),
            lo <= n,
            space_run(s@, 0) == space_run(s@, lo as int),
        decreases n - lo,
    {
        lo += 1;
    }
    let mut hi: usize = n;
    while hi > lo && is_whitespace(s[hi - 1])
        invariant
            n == s.len(),
            lo <= hi <= n,
            lo == space_run(s@, 0),
            lo == n || (lo < hi && !is_space(s@[lo as int])),
            space_run_back(s@, n as int) == space_run_back(s@, hi as int),
        decreases hi,
    {
        hi -= 1;
    }
    proof {
        lemma_space_run_back_le(s@, n as int);
        assert(trimmed(s@) =~= s@.subrange(lo as int, hi as int));
    }
    (lo, hi)
}

/// A backward run ends at or before the place where it starts.
proof fn lemma_space_run_back_le(s: Seq<char>, to: int)
    requires
        0 <= to <= s.len(),
    ensures
        0 <= space_run_back(s, to) <= to,
    decreases to,
{
    if 0 < to && is_space(s[to - 1]) {
        lemma_space_run_back_le(s, to - 1);
    }
}

/// A copy of the characters of `s` from `lo` up to `hi`.
pub(crate) fn copy_range(s: &Vec<char>, lo: usize, hi: usize) -> (part: Vec<char>)
    requires
        lo <= hi <= s.len(),
    ensures
        part@ == s@.subrange(lo as int, hi as int),
{
    let mut part: Vec<char> = Vec::new();
    let mut i: usize = lo;
    while i < hi
        invariant
            lo <= i <= hi <= s.len(),
            part@ == s@.subrange(lo as int, i as int),
        decreases hi - i,
    {
        part.push(s[i]);
        i += 1;
    }
    part
}

/// The trimmed, lower-case form of `value`.
pub(crate) fn normalize(value: &str) -> (text: Vec<char>)
    ensures
        text@ == normalized(value@),
{
    let chars = chars_of(value);
    let (lo, hi) = trim_bounds(&chars);
    let mut text: Vec<char> = Vec::new();
    let mut i: usize = lo;
    while i < hi
        invariant
            lo <= i <= hi <= chars.len(),
            text@ == chars@.subrange(lo as int, i as int).map_values(|c: char| lower_of(c)),
        decreases hi - i,
    {
        text.push(to_lower(chars[i]));
        i += 1;
    }
    text
}

/// The index of the first `c` in `s`, if there is one.
pub(crate) fn find_char(s: &Vec<char>, c: char) -> (at: Option<usize>)
    ensures
        match at {
            Some(i) => i < s.len() && i == find_from(s@, c, 0),
            None => find_from(s@, c, 0) == s.len(),
        },
{
    let n = s.len();
    let mut i: usize = 0;
    while i < n
        invariant
            n == s.len(),
            i <= n,
            find_from(s@, c, 0) == find_from(s@, c, i as int),
        decreases n - i,
    {
        if s[i] == c {
            return Some(i);
        }
        i += 1;
    }
    None
}

/// A search passes over what is not the character sought.
pub(crate) proof fn lemma_find_from_skips(s: Seq<char>, c: char, from: int, to: int)
    requires
        0 <= from <= to <= s.len(),
        forall|i: int| from <= i < to ==> #[trigger] s[i] != c,
    ensures
        find_from(s, c, from) == find_from(s, c, to),
        to <= find_from(s, c, to) <= s.len(),
    decreases s.len() - from,
{
    if from < to {
        lemma_find_from_skips(s, c, from + 1, to);
    } else if to < s.len() && s[to] != c {
        lemma_find_from_skips(s, c, to + 1, to + 1);
    }
}

/// A run of digits passes over digits.
pub(crate) proof fn lemma_digit_run_skips(s: Seq<char>, from: int, to: int)
    requires
        0 <= from <= to <= s.len(),
        forall|i: int| from <= i < to ==> is_digit(#[trigger] s[i]),
    ensures
        digit_run(s, from) == digit_run(s, to),
    decreases to - from,
{
    if from < to {
        lemma_digit_run_skips(s, from + 1, to);
    }
}

/// A backward run of white space passes over white space.
proof fn lemma_space_run_back_skips(s: Seq<char>, from: int, to: int)
    requires
        0 <= from <= to <= s.len(),
        forall|i: int| from <= i < to ==> is_space(#[trigger] s[i]),
    ensures
        space_run_back(s, to) == space_run_back(s, from),
    decreases to - from,
{
    if from < to {
        lemma_space_run_back_skips(s, from, to - 1);
    }
}

/// A run of white space passes over white space.
proof fn lemma_space_run_skips(s: Seq<char>, from: int, to: int)
    requires
        0 <= from <= to <= s.len(),
        forall|i: int| from <= i < to ==> is_space(#[trigger] s[i]),
    ensures
        space_run(s, from) == space_run(s, to),
    decreases to - from,
{
    if from < to {
        lemma_space_run_skips(s, from + 1, to);
    }
}

/// Trimming takes away white space before and behind a text that neither
/// begins nor ends with white space, and nothing else.
#[verifier::rlimit(40)]
pub(crate) proof fn lemma_trimmed_core(lead: Seq<char>, core: Seq<char>, trail: Seq<char>)
    requires
        all_spaces(lead),
        all_spaces(trail),
        core.len() > 0 ==> !is_space(core[0]) && !is_space(core.last()),
    ensures
        trimmed(lead + core + trail) == core,
{
    let s = lead + core + trail;
    let a = lead.len() as int;
    let b = a + core.len();
    let n = s.len() as int;
    assert forall|i: int| 0 <= i < a implies is_space(#[trigger] s[i]) by {
        assert(s[i] == lead[i]);
    }
    assert forall|i: int| b <= i < n implies is_space(#[trigger] s[i]) by {
        assert(s[i] == trail[i - b]);
    }
    lemma_space_run_skips(s, 0, a);
    lemma_space_run_back_skips(s, b, n);
    if core.len() > 0 {
        assert(s[a] == core[0]);
        assert(s[b - 1] == core.last());
        assert(s.subrange(a, b) =~= core);
    } else {
        lemma_space_run_skips(s, a, n);
        lemma_space_run_back_skips(s, 0, b);
        assert(space_run(s, n) == n);
        assert(space_run_back(s, 0) == 0);
        if n == 0 {
            assert(s.subrange(0, 0) =~= core);
        } else {
            assert(core =~= Seq::<char>::empty());
        }
    }
}

} // verus!
