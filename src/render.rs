//! Rendering of one converted value: digits, string copy, and the padding
//! that justifies the result within its field.

use vstd::prelude::*;
use vstd::arithmetic::div_mod::{lemma_div_decreases, lemma_div_is_ordered_by_denominator};
use vstd::arithmetic::power2::{pow2, lemma_pow2_unfold, lemma2_to64};
use crate::scan::{c_strlen, lemma_nul_from_bounds, strlen};

verus! {

/// ASCII space, the default pad character.
pub const SPACE: u8 = 32;

/// ASCII `-`, the sign of a negative decimal number.
pub const MINUS: u8 = 45;

/// The working state of one conversion, reset at every `%`.
#[allow(non_camel_case_types)]
#[derive(Clone, Copy, Debug, PartialEq, Eq)]
pub struct params_t {
    /// Length of the rendered value before padding.
    pub len: i32,
    /// Minimum field width.
    pub num1: i32,
    /// Most bytes a string conversion copies; a negative value sets no bound.
    pub num2: i32,
    /// The byte that pads the field.
    pub pad_character: u8,
    /// Set once width digits have been read.
    pub do_padding: bool,
    /// Pad on the right rather than on the left.
    pub left_flag: bool,
    /// Render integers without a sign.
    pub unsigned_flag: bool,
}

/// The pad bytes that bring a value of `len` bytes up to the field width,
/// where a width was given.
pub open spec fn pad_run(par: params_t, len: int) -> Seq<u8> {
    if par.do_padding && len < par.num1 {
        Seq::new((par.num1 - len) as nat, |_t: int| par.pad_character)
    } else {
        Seq::empty()
    }
}

/// `body`, whose rendered length is `len`, padded on the side the flags ask for.
pub open spec fn justify(par: params_t, len: int, body: Seq<u8>) -> Seq<u8> {
    if par.left_flag {
        body + pad_run(par, len)
    } else {
        pad_run(par, len) + body
    }
}

/// Emits the pad bytes for the rendered length held in `par`, on the side
/// selected by `l_flag`.
pub fn padding(l_flag: bool, par: &params_t, out: &mut Vec<u8>)
    ensures
        final(out)@ == old(out)@ + (if l_flag { pad_run(*par, par.len as int) } else { Seq::empty() }),
{
    if par.do_padding && l_flag && par.len < par.num1 {
        let mut i: i32 = par.len;
        while i < par.num1
            invariant
                par.len <= i <= par.num1,
                out@ == old(out)@ + Seq::new((i - par.len) as nat, |_t: int| par.pad_character),
            decreases par.num1 - i,
        {
            out.push(par.pad_character);
            i = i + 1;
            assert(out@ =~= old(out)@ + Seq::new((i - par.len) as nat, |_t: int| par.pad_character));
        }
    } else {
        assert(out@ =~= old(out)@ + (if l_flag { pad_run(*par, par.len as int) } else { Seq::empty() }));
    }
}

/// The digit glyph for a digit value below sixteen: `0`-`9`, then `A`-`F`.
pub open spec fn glyph(d: int) -> u8 {
    if d < 10 {
        (48 + d) as u8
    } else {
        (55 + d) as u8
    }
}

/// The positional notation of `v` in base `base`, most significant digit
/// first, without leading zeros (zero itself is one digit).
pub open spec fn positional(v: nat, base: nat) -> Seq<u8>
    decreases v,
{
    if base < 2 || v < base {
        seq![glyph(v as int)]
    } else {
        proof {
            lemma_div_decreases(v as int, base as int);
        }
        positional(v / base, base).push(glyph((v % base) as int))
    }
}

/// A value below `2^k` has at most `k` digits in any base.
pub proof fn lemma_positional_len(v: nat, base: nat, k: nat)
    requires
        2 <= base,
        1 <= k,
        v < pow2(k),
    ensures
        1 <= positional(v, base).len() <= k,
    decreases k,
{
    lemma_pow2_unfold(k);
    lemma2_to64();
    if v >= base {
        lemma_div_is_ordered_by_denominator(v as int, 2, base as int);
        assert(v / 2 < pow2((k - 1) as nat));
        lemma_positional_len(v / base, base, (k - 1) as nat);
    }
}

/// Whether `n` is rendered with a leading minus sign.
pub open spec fn is_negative(n: i32, base: u32, par: params_t) -> bool {
    !par.unsigned_flag && base == 10 && n < 0
}

/// The number `n` as the conversion renders it, before padding: a signed
/// decimal, or else the 32-bit pattern of `n` read as unsigned.
pub open spec fn number_core(n: i32, base: u32, par: params_t) -> Seq<u8> {
    if is_negative(n, base, par) {
        seq![MINUS] + positional((-n) as nat, base as nat)
    } else {
        positional((n as u32) as nat, base as nat)
    }
}

/// The whole field that a numeric conversion emits.
pub open spec fn number_field(n: i32, base: u32, par: params_t) -> Seq<u8> {
    justify(par, number_core(n, base, par).len() as int, number_core(n, base, par))
}

/// The digit glyph of `d`.
fn digit_glyph(d: u32) -> (r: u8)
    requires
        d < 16,
    ensures
        r == glyph(d as int),
{
    if d < 10 {
        (48 + d) as u8
    } else {
        (55 + d) as u8
    }
}

/// Appends every byte of `bytes` to `out`.
fn emit_all(bytes: &[u8], out: &mut Vec<u8>)
    ensures
        final(out)@ == old(out)@ + bytes@,
{
    let mut i: usize = 0;
    while i < bytes.len()
        invariant
            i <= bytes@.len(),
            out@ == old(out)@ + bytes@.subrange(0, i as int),
        decreases bytes@.len() - i,
    {
        out.push(bytes[i]);
        i = i + 1;
        assert(out@ =~= old(out)@ + bytes@.subrange(0, i as int));
    }
    assert(bytes@.subrange(0, bytes@.len() as int) =~= bytes@);
}

/// Renders `n` in base `base` into `out`, padded as `par` asks, and records
/// the unpadded length in `par.len`.
pub fn outnum(n: i32, base: u32, par: &mut params_t, out: &mut Vec<u8>)
    requires
        base == 10 || base == 16,
    ensures
        *final(par) == (params_t { len: number_core(n, base, *old(par)).len() as i32, ..*old(par) }),
        number_core(n, base, *old(par)).len() <= 33,
        final(out)@ == old(out)@ + number_field(n, base, *old(par)),
{
    let negative: bool = !par.unsigned_flag && base == 10 && n < 0;
    let mut num: u32 = if negative {
        (0i64 - n as i64) as u32
    } else {
        #[verifier::truncate]
        (n as u32)
    };
    let ghost magnitude: nat = num as nat;
    let mut digits: Vec<u8> = Vec::new();
    loop
        invariant_except_break
            positional(magnitude, base as nat) == positional(num as nat, base as nat) + digits@,
        invariant
            base == 10 || base == 16,
        ensures
            positional(magnitude, base as nat) == digits@,
        decreases num,
    {
        let g: u8 = digit_glyph(num % base);
        let ghost before: Seq<u8> = digits@;
        digits.insert(0, g);
        assert(digits@ =~= seq![g] + before);
        if num < base {
            break;
        }
        assert(positional(num as nat, base as nat) == positional((num / base) as nat, base as nat).push(g));
        assert(positional((num / base) as nat, base as nat).push(g) + before =~= positional((num / base) as nat, base as nat) + digits@);
        num = num / base;
    }
    if negative {
        digits.insert(0, MINUS);
    }
    proof {
        lemma2_to64();
        lemma_positional_len(magnitude, base as nat, 32);
    }
    assert(digits@ =~= number_core(n, base, *old(par)));
    par.len = digits.len() as i32;
    padding(!par.left_flag, par, out);
    emit_all(digits.as_slice(), out);
    padding(par.left_flag, par, out);
    assert(out@ =~= old(out)@ + number_field(n, base, *old(par)));
}

/// How many bytes of a string of `len` bytes a copy budget of `max_chars`
/// lets through; a negative budget sets no bound.
pub open spec fn copy_count(len: int, max_chars: i32) -> int {
    if max_chars < 0 || len <= max_chars {
        len
    } else {
        max_chars as int
    }
}

/// The whole field that a string conversion emits: the string up to its
/// terminator and the copy budget, padded by its full length.
pub open spec fn text_field(s: Seq<u8>, par: params_t) -> Seq<u8> {
    justify(par, c_strlen(s) as i32 as int, s.take(copy_count(c_strlen(s), par.num2)))
}

/// Copies the zero-terminated string `s` into `out`, at most `par.num2`
/// bytes of it, padded as `par` asks; records its full length in `par.len`.
pub fn outs(s: &[u8], par: &mut params_t, out: &mut Vec<u8>)
    ensures
        *final(par) == (params_t { len: c_strlen(s@) as i32, ..*old(par) }),
        final(out)@ == old(out)@ + text_field(s@, *old(par)),
{
    let n: usize = strlen(s);
    proof {
        lemma_nul_from_bounds(s@, 0);
    }
    par.len = #[verifier::truncate] (n as i32);
    padding(!par.left_flag, par, out);
    let ghost mid: Seq<u8> = out@;
    let take: usize = if par.num2 < 0 || n <= par.num2 as usize {
        n
    } else {
        par.num2 as usize
    };
    let mut i: usize = 0;
    while i < take
        invariant
            take <= n <= s@.len(),
            i <= take,
            out@ == mid + s@.subrange(0, i as int),
        decreases take - i,
    {
        out.push(s[i]);
        i = i + 1;
        assert(out@ =~= mid + s@.subrange(0, i as int));
    }
    padding(par.left_flag, par, out);
    assert(out@ =~= old(out)@ + text_field(s@, *old(par)));
}

} // verus!
