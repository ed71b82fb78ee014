//! Byte classification and the numeric-literal scanner of the format grammar.

use vstd::prelude::*;
use vstd::wrapping::u32_specs;

verus! {

/// ASCII lower-casing of one character; every other character is kept.
pub open spec fn spec_tolower(c: char) -> char {
    if 'A' <= c && c <= 'Z' {
        ((c as u32) + 32) as char
    } else {
        c
    }
}

/// Lower-cases an ASCII letter and leaves every other character unchanged.
pub fn tolower(c: char) -> (r: char)
    ensures
        r == spec_tolower(c),
{
    if 'A' <= c && c <= 'Z' {
        ((c as u8) + 32) as char
    } else {
        c
    }
}

/// ASCII `0`.
pub const DIGIT_ZERO: u8 = 48;

/// ASCII `9`.
pub const DIGIT_NINE: u8 = 57;

/// An ASCII decimal digit.
pub open spec fn is_digit(b: u8) -> bool {
    48 <= b && b <= 57
}

/// Tells whether a byte is an ASCII decimal digit.
pub fn isdigit(b: u8) -> (r: bool)
    ensures
        r == is_digit(b),
{
    DIGIT_ZERO <= b && b <= DIGIT_NINE
}

/// The first position at or after `j` that does not hold a digit.
pub open spec fn digit_run_end(s: Seq<u8>, j: int) -> int
    decreases s.len() - j,
{
    if 0 <= j < s.len() && is_digit(s[j]) {
        digit_run_end(s, j + 1)
    } else {
        j
    }
}

/// The value of a run of decimal digits, accumulated most significant digit
/// first in 32-bit arithmetic that wraps around.
pub open spec fn literal_value(d: Seq<u8>) -> u32
    decreases d.len(),
{
    if d.len() == 0 {
        0
    } else {
        u32_specs::wrapping_add(
            u32_specs::wrapping_mul(literal_value(d.drop_last()), 10),
            (d.last() - 48) as u32,
        )
    }
}

/// A digit run ends within the sequence, covers only digits, and is not
/// empty where a digit stands at its start.
pub proof fn lemma_digit_run_end_bounds(s: Seq<u8>, j: int)
    requires
        0 <= j <= s.len(),
    ensures
        j <= digit_run_end(s, j) <= s.len(),
        j < s.len() && is_digit(s[j]) ==> j < digit_run_end(s, j),
        forall|t: int| j <= t < digit_run_end(s, j) ==> is_digit(#[trigger] s[t]),
    decreases s.len() - j,
{
    if j < s.len() && is_digit(s[j]) {
        lemma_digit_run_end_bounds(s, j + 1);
    }
}

/// Reads the run of decimal digits that starts at `pos`. Returns its value,
/// as the 32-bit arithmetic of the scanner leaves it, and the position of the
/// first byte after the run.
pub fn getnum(fmt: &[u8], pos: usize) -> (r: (i32, usize))
    requires
        pos <= fmt@.len(),
    ensures
        r.1 == digit_run_end(fmt@, pos as int),
        r.0 == literal_value(fmt@.subrange(pos as int, r.1 as int)) as i32,
{
    let mut n: u32 = 0;
    let mut i: usize = pos;
    while i < fmt.len() && isdigit(fmt[i])
        invariant
            pos <= i <= fmt@.len(),
            digit_run_end(fmt@, pos as int) == digit_run_end(fmt@, i as int),
            n == literal_value(fmt@.subrange(pos as int, i as int)),
        decreases fmt@.len() - i,
    {
        let d: u32 = (fmt[i] - DIGIT_ZERO) as u32;
        assert(fmt@.subrange(pos as int, i + 1).drop_last() =~= fmt@.subrange(pos as int, i as int));
        n = n.wrapping_mul(10).wrapping_add(d);
        i = i + 1;
    }
    (n as i32, i)
}

/// The first position at or after `j` that holds the terminating zero byte,
/// or the end of the sequence where none follows.
pub open spec fn nul_from(s: Seq<u8>, j: int) -> int
    decreases s.len() - j,
{
    if 0 <= j < s.len() && s[j] != 0 {
        nul_from(s, j + 1)
    } else {
        j
    }
}

/// The length of a zero-terminated byte string: the bytes before the first
/// zero byte, or all of them where there is none.
pub open spec fn c_strlen(s: Seq<u8>) -> int {
    nul_from(s, 0)
}

/// The terminator search ends within the sequence, at a zero byte or at the
/// end, and passes over no zero byte.
pub proof fn lemma_nul_from_bounds(s: Seq<u8>, j: int)
    requires
        0 <= j <= s.len(),
    ensures
        j <= nul_from(s, j) <= s.len(),
        forall|t: int| j <= t < nul_from(s, j) ==> #[trigger] s[t] != 0,
        nul_from(s, j) < s.len() ==> s[nul_from(s, j)] == 0,
    decreases s.len() - j,
{
    if j < s.len() && s[j] != 0 {
        lemma_nul_from_bounds(s, j + 1);
    }
}

/// Counts the bytes of `s` before its first zero byte.
pub fn strlen(s: &[u8]) -> (r: usize)
    ensures
        r == c_strlen(s@),
{
    let mut i: usize = 0;
    while i < s.len() && s[i] != 0
        invariant
            i <= s@.len(),
            c_strlen(s@) == nul_from(s@, i as int),
        decreases s@.len() - i,
    {
        i = i + 1;
    }
    i
}

} // verus!
