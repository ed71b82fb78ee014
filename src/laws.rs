//! Laws of the formatter, stated over the models of `format` and `render`
//! and proved from them.

use vstd::prelude::*;
use vstd::arithmetic::div_mod::{lemma_fundamental_div_mod, lemma_div_pos_is_pos};
use crate::render::{MINUS, SPACE, glyph, justify, number_core, number_field, pad_run, params_t, positional};
use crate::format::{
    Arg, Directive, PERCENT, agree_from, arg_fits, arg_int, arg_text, args_agree, format_from,
    formatted, initial_params, parse_conv,
};
use crate::scan::{DIGIT_ZERO, c_strlen, digit_run_end, is_digit, literal_value};

verus! {

/// The value of a digit glyph `0`-`9` or `A`-`F`.
pub open spec fn glyph_value(g: u8) -> int {
    if 48 <= g && g <= 57 {
        g - 48
    } else {
        g - 55
    }
}

/// The value of a digit string in base `base`, most significant digit first.
pub open spec fn digits_value(d: Seq<u8>, base: nat) -> int
    decreases d.len(),
{
    if d.len() == 0 {
        0
    } else {
        digits_value(d.drop_last(), base) * base + glyph_value(d.last())
    }
}

/// Whether `d` is a digit string in base `base`: each byte is the glyph of
/// a digit below the base.
pub open spec fn is_digit_string(d: Seq<u8>, base: nat) -> bool {
    forall|t: int|
        0 <= t < d.len() ==> 0 <= glyph_value(#[trigger] d[t]) < base && d[t] == glyph(
            glyph_value(d[t]),
        )
}

/// `positional` is the standard notation: a non-empty digit string of the
/// base, with upper-case glyphs, that reads back as `v`, and that starts with
/// `0` only for zero itself.
pub proof fn lemma_positional_standard(v: nat, base: nat)
    requires
        base == 10 || base == 16,
    ensures
        positional(v, base).len() >= 1,
        is_digit_string(positional(v, base), base),
        digits_value(positional(v, base), base) == v,
        v > 0 ==> positional(v, base)[0] != 48,
    decreases v,
{
    if v >= base {
        lemma_div_pos_is_pos(v as int, base as int);
        lemma_positional_standard(v / base, base);
        lemma_fundamental_div_mod(v as int, base as int);
        let p = positional(v / base, base);
        let q = positional(v, base);
        assert(q == p.push(glyph((v % base) as int)));
        assert(q.drop_last() =~= p);
        assert forall|t: int| 0 <= t < q.len() implies 0 <= glyph_value(#[trigger] q[t]) < base
            && q[t] == glyph(glyph_value(q[t])) by {
            if t < p.len() {
                assert(q[t] == p[t]);
            }
        }
        let x = v as int;
        let d = base as int;
        let r = x % d;
        assert(0 <= r < d);
        assert(glyph_value(q.last()) == r);
        assert(digits_value(q, base) == digits_value(p, base) * d + r);
        assert((x / d) * d == d * (x / d)) by (nonlinear_arith);
        assert(digits_value(p, base) == x / d);
        assert(x == d * (x / d) + r);
        assert(digits_value(q, base) == x);
        if x / d == 0 {
            assert(d * (x / d) == 0) by (nonlinear_arith)
                requires
                    x / d == 0,
            ;
        }
    } else {
        assert(positional(v, base).drop_last() =~= Seq::<u8>::empty());
        assert(glyph_value(glyph(v as int)) == v);
        assert(digits_value(Seq::<u8>::empty(), base) == 0);
        assert(digits_value(positional(v, base), base) == v);
    }
}

/// A non-negative number renders, padding aside, as its standard positional
/// notation in the base (upper-case for sixteen).
pub proof fn law_non_negative_digits(n: i32, base: u32, par: params_t)
    requires
        n >= 0,
        base == 10 || base == 16,
    ensures
        number_core(n, base, par) == positional(n as nat, base as nat),
        number_field(n, base, par) == justify(
            par,
            positional(n as nat, base as nat).len() as int,
            positional(n as nat, base as nat),
        ),
        is_digit_string(number_core(n, base, par), base as nat),
        digits_value(number_core(n, base, par), base as nat) == n,
        n > 0 ==> number_core(n, base, par)[0] != 48,
{
    lemma_positional_standard(n as nat, base as nat);
}

/// A negative number in base ten, without the unsigned flag, renders as `-`
/// followed by the digits of its magnitude.
pub proof fn law_negative_decimal(n: i32, par: params_t)
    requires
        n < 0,
        !par.unsigned_flag,
    ensures
        number_core(n, 10, par) == seq![MINUS] + positional((-n) as nat, 10),
        number_core(n, 10, par)[0] == MINUS,
        number_core(n, 10, par).drop_first() == positional((-n) as nat, 10),
        digits_value(number_core(n, 10, par).drop_first(), 10) == -n,
{
    lemma_positional_standard((-n) as nat, 10);
    assert((seq![MINUS] + positional((-n) as nat, 10)).drop_first() =~= positional((-n) as nat, 10));
}

/// `%%` emits one `%` and takes no argument: the scan goes on after it with
/// the same next argument.
pub proof fn law_percent_escape(s: Seq<u8>, i: int, args: Seq<Arg>, k: int)
    requires
        0 <= i,
        i + 1 < s.len(),
        s[i] == PERCENT,
        s[i + 1] == PERCENT,
    ensures
        format_from(s, i, args, k) == seq![PERCENT] + format_from(s, i + 2, args, k),
        agree_from(s, i, args, k) == agree_from(s, i + 2, args, k),
{
    assert(parse_conv(s, i + 1, initial_params(), false) == (Directive::Percent, initial_params(), i + 2));
}

/// An empty format, or one whose first byte is the terminator, emits nothing
/// and asks for no argument.
pub proof fn law_empty_format(fmt: Seq<u8>, args: Seq<Arg>)
    requires
        fmt.len() == 0 || fmt[0] == 0,
    ensures
        formatted(fmt, args) == Seq::<u8>::empty(),
        args_agree(fmt, Seq::empty()),
{
}

/// A digit run that ends where the digits end.
pub proof fn lemma_digit_run_exact(s: Seq<u8>, j: int, e: int)
    requires
        0 <= j <= e <= s.len(),
        forall|t: int| j <= t < e ==> is_digit(#[trigger] s[t]),
        e == s.len() || !is_digit(s[e]),
    ensures
        digit_run_end(s, j) == e,
    decreases e - j,
{
    if j < e {
        lemma_digit_run_exact(s, j + 1, e);
    }
}

/// The scanner reads the decimal notation of a 32-bit value back exactly.
pub proof fn lemma_literal_value_positional(k: nat)
    requires
        k <= u32::MAX,
    ensures
        literal_value(positional(k, 10)) == k,
    decreases k,
{
    let q = positional(k, 10);
    if k >= 10 {
        lemma_div_pos_is_pos(k as int, 10);
        lemma_literal_value_positional(k / 10);
        let p = positional(k / 10, 10);
        assert(q.drop_last() =~= p);
        assert((k / 10) * 10 <= k);
        assert(((k / 10) * 10) % 0x1_0000_0000 == (k / 10) * 10);
    } else {
        assert(q.drop_last() =~= Seq::<u8>::empty());
        assert(literal_value(Seq::<u8>::empty()) == 0);
    }
}

/// Bytes of a digit string of base ten are decimal digits.
proof fn lemma_decimal_string_digits(d: Seq<u8>)
    requires
        is_digit_string(d, 10),
    ensures
        forall|t: int| 0 <= t < d.len() ==> is_digit(#[trigger] d[t]),
{
    assert forall|t: int| 0 <= t < d.len() implies is_digit(#[trigger] d[t]) by {
        assert(0 <= glyph_value(d[t]) < 10);
        assert(d[t] == glyph(glyph_value(d[t])));
    }
}

/// `%.<k>s`, with `k` written in decimal, copies the first `min(len, k)`
/// bytes of the string argument (its length taken up to its terminator),
/// unpadded, and the scan goes on after the conversion with the next
/// argument.
pub proof fn law_string_precision(s: Seq<u8>, i: int, args: Seq<Arg>, a: int, k: nat)
    requires
        0 <= i,
        k <= i32::MAX,
        i + 3 + positional(k, 10).len() <= s.len(),
        s.subrange(i, i + 3 + positional(k, 10).len()) == seq![PERCENT, '.' as u8] + positional(
            k,
            10,
        ) + seq!['s' as u8],
        0 <= a < args.len(),
        args[a] is Str,
    ensures
        format_from(s, i, args, a) == arg_text(args[a]).take(
            if c_strlen(arg_text(args[a])) <= k { c_strlen(arg_text(args[a])) } else { k as int },
        ) + format_from(s, i + 3 + positional(k, 10).len(), args, a + 1),
{
    let d = positional(k, 10);
    let f = s.subrange(i, i + 3 + d.len());
    let e = i + 2 + d.len();
    lemma_positional_standard(k, 10);
    lemma_decimal_string_digits(d);
    lemma_literal_value_positional(k);
    assert(s[i] == f[0]);
    assert(s[i + 1] == f[1]);
    assert(s[e] == f[2 + d.len() as int]);
    assert forall|t: int| i + 2 <= t < e implies is_digit(#[trigger] s[t]) by {
        assert(s[t] == f[t - i]);
        assert(f[t - i] == d[t - i - 2]);
    }
    lemma_digit_run_exact(s, i + 2, e);
    assert(s.subrange(i + 2, e) =~= d) by {
        assert forall|t: int| 0 <= t < d.len() implies s.subrange(i + 2, e)[t] == d[t] by {
            assert(s[i + 2 + t] == f[2 + t]);
        }
    }
    let par = params_t { num2: k as i32, ..initial_params() };
    assert(parse_conv(s, e, par, true) == (Directive::Text, par, e + 1));
    assert(parse_conv(s, i + 2, initial_params(), true) == (Directive::Text, par, e + 1));
    assert(parse_conv(s, i + 1, initial_params(), false) == (Directive::Text, par, e + 1));
    let t = arg_text(args[a]);
    let body = t.take(if c_strlen(t) <= k { c_strlen(t) } else { k as int });
    assert(pad_run(par, c_strlen(t) as i32 as int) =~= Seq::<u8>::empty());
    assert(justify(par, c_strlen(t) as i32 as int, body) =~= body);
}

/// Padding: a field whose rendered length is `L` and whose requested width
/// is `W` is `max(L, W)` bytes long; the pad bytes stand on the left when
/// the `-` flag is absent and on the right when it is present.
pub proof fn law_justify(par: params_t, body: Seq<u8>)
    requires
        par.do_padding,
    ensures
        justify(par, body.len() as int, body).len() == if body.len() < par.num1 {
            par.num1 as int
        } else {
            body.len() as int
        },
        justify(par, body.len() as int, body) == if par.left_flag {
            body + Seq::new(
                (justify(par, body.len() as int, body).len() - body.len()) as nat,
                |_t: int| par.pad_character,
            )
        } else {
            Seq::new(
                (justify(par, body.len() as int, body).len() - body.len()) as nat,
                |_t: int| par.pad_character,
            ) + body
        },
{
    let j = justify(par, body.len() as int, body);
    let pad = Seq::new((j.len() - body.len()) as nat, |_t: int| par.pad_character);
    assert(pad_run(par, body.len() as int) =~= pad);
}

/// `%[-]<w>d`: an integer conversion with a width token `w` pads its
/// rendered number to the width that `w` gives, with `0` when `w` begins
/// with `0` and with spaces otherwise, on the side that the `-` flag picks;
/// the scan goes on after the conversion with the next argument.
pub proof fn law_width(s: Seq<u8>, i: int, args: Seq<Arg>, a: int, left: bool, w: Seq<u8>)
    requires
        0 <= i,
        w.len() >= 1,
        forall|t: int| 0 <= t < w.len() ==> is_digit(#[trigger] w[t]),
        i + 2 + (if left { 1int } else { 0int }) + w.len() <= s.len(),
        s.subrange(i, i + 2 + (if left { 1int } else { 0int }) + w.len()) == seq![PERCENT] + (if left {
            seq![MINUS]
        } else {
            Seq::<u8>::empty()
        }) + w + seq!['d' as u8],
        0 <= a < args.len(),
        arg_fits(Directive::Number(10), args[a]),
    ensures
        ({
            let par = params_t {
                num1: literal_value(w) as i32,
                do_padding: true,
                pad_character: if w[0] == DIGIT_ZERO { DIGIT_ZERO } else { SPACE },
                left_flag: left,
                ..initial_params()
            };
            let core = number_core(arg_int(args[a]), 10, initial_params());
            format_from(s, i, args, a) == justify(par, core.len() as int, core) + format_from(
                s,
                i + 2 + (if left { 1int } else { 0int }) + w.len(),
                args,
                a + 1,
            )
        }),
{
    let m: int = if left { 1 } else { 0 };
    let f = s.subrange(i, i + 2 + m + w.len());
    let j0 = i + 1 + m;
    let e = j0 + w.len();
    assert(s[i] == f[0]);
    assert(s[e] == f[1 + m + w.len() as int]);
    assert forall|t: int| j0 <= t < e implies is_digit(#[trigger] s[t]) by {
        assert(s[t] == f[t - i]);
        assert(f[t - i] == w[t - j0]);
    }
    lemma_digit_run_exact(s, j0, e);
    assert(s.subrange(j0, e) =~= w) by {
        assert forall|t: int| 0 <= t < w.len() implies s.subrange(j0, e)[t] == w[t] by {
            assert(s[j0 + t] == f[1 + m + t]);
        }
    }
    assert(s[j0] == w[0]) by {
        assert(s[j0] == f[1 + m]);
    }
    let start = params_t { left_flag: left, ..initial_params() };
    let par = params_t {
        num1: literal_value(w) as i32,
        do_padding: true,
        pad_character: if w[0] == DIGIT_ZERO { DIGIT_ZERO } else { SPACE },
        left_flag: left,
        ..initial_params()
    };
    assert(parse_conv(s, e, par, false) == (Directive::Number(10), par, e + 1));
    assert(parse_conv(s, j0, start, false) == (Directive::Number(10), par, e + 1));
    if left {
        assert(s[i + 1] == f[1]);
        assert(parse_conv(s, i + 1, initial_params(), false) == (Directive::Number(10), par, e + 1));
    }
    assert(number_core(arg_int(args[a]), 10, par) == number_core(arg_int(args[a]), 10, initial_params()));
}

/// `%c` emits one byte, the low byte of its integer argument, and the scan
/// goes on after it with the next argument.
pub proof fn law_char(s: Seq<u8>, i: int, args: Seq<Arg>, a: int)
    requires
        0 <= i,
        i + 1 < s.len(),
        s[i] == PERCENT,
        s[i + 1] == 'c' as u8,
        0 <= a < args.len(),
    ensures
        format_from(s, i, args, a) == seq![arg_int(args[a]) as u8] + format_from(s, i + 2, args, a + 1),
        0 <= arg_int(args[a]) <= 255 ==> format_from(s, i, args, a)[0] == arg_int(args[a]),
{
    assert(parse_conv(s, i + 1, initial_params(), false) == (Directive::Byte, initial_params(), i + 2));
}

} // verus!
