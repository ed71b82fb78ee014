//! The format-string engine: the scan over the format, the grammar of one
//! conversion, and the dispatch of each conversion to its renderer.

use vstd::prelude::*;
use crate::scan::{
    DIGIT_ZERO, digit_run_end, getnum, is_digit, isdigit, lemma_digit_run_end_bounds,
    literal_value, spec_tolower, tolower,
};
use crate::render::{SPACE, number_field, outnum, outs, params_t, text_field};

verus! {

/// ASCII `%`.
pub const PERCENT: u8 = 37;

/// The copy budget of a string conversion that gives no precision.
pub const DEFAULT_MAX_CHARS: i32 = 32767;

/// One argument of a formatting call.
#[derive(Clone, Debug, PartialEq, Eq)]
pub enum Arg {
    /// A signed 32-bit integer.
    Int(i32),
    /// An unsigned 32-bit integer.
    Uint(u32),
    /// A byte string; it ends at its first zero byte, or at its end.
    Str(Vec<u8>),
}

/// What a parsed conversion does.
#[derive(Clone, Copy, Debug, PartialEq, Eq, Structural)]
pub enum Directive {
    /// The format ended inside the conversion: nothing more is emitted.
    Stop,
    /// `%%`: one `%`.
    Percent,
    /// An integer in the given base (`d`, `i`, `u`: ten; `x`, `p`: sixteen).
    Number(u32),
    /// `s`: a byte string.
    Text,
    /// `c`: the low byte of an integer.
    Byte,
    /// `\` and the byte after it.
    Escape(u8),
    /// An unrecognised specifier, absorbed without output.
    Skip,
}

/// The state every conversion starts from.
pub open spec fn initial_params() -> params_t {
    params_t {
        len: 0,
        num1: 0,
        num2: DEFAULT_MAX_CHARS,
        pad_character: SPACE,
        do_padding: false,
        left_flag: false,
        unsigned_flag: false,
    }
}

/// The bytes that a backslash escape stands for, given the byte after the
/// backslash (matched with its case).
pub open spec fn escape_bytes(b: u8) -> Seq<u8> {
    if b == 97 {
        seq![7u8]
    } else if b == 104 {
        seq![8u8]
    } else if b == 114 {
        seq![13u8]
    } else if b == 110 {
        seq![13u8, 10u8]
    } else {
        seq![b]
    }
}

/// Parses the rest of a conversion from position `j` of the format, with the
/// state `par` and whether a `.` was seen. Returns what the conversion does,
/// its final state, and the position where the scan resumes.
pub open spec fn parse_conv(s: Seq<u8>, j: int, par: params_t, dot: bool) -> (Directive, params_t, int)
    decreases s.len() - j,
{
    if j < 0 || j >= s.len() || s[j] == 0 {
        (Directive::Stop, par, j)
    } else if is_digit(s[j]) {
        proof {
            lemma_digit_run_end_bounds(s, j);
        }
        let e = digit_run_end(s, j);
        let v = literal_value(s.subrange(j, e)) as i32;
        if dot {
            parse_conv(s, e, params_t { num2: v, ..par }, dot)
        } else {
            let pad = if s[j] == DIGIT_ZERO { DIGIT_ZERO } else { par.pad_character };
            parse_conv(s, e, params_t { num1: v, do_padding: true, pad_character: pad, ..par }, dot)
        }
    } else {
        let c = spec_tolower(s[j] as char);
        if c == '%' {
            (Directive::Percent, par, j + 1)
        } else if c == '-' {
            parse_conv(s, j + 1, params_t { left_flag: true, ..par }, dot)
        } else if c == '.' {
            parse_conv(s, j + 1, par, true)
        } else if c == 'l' {
            parse_conv(s, j + 1, par, dot)
        } else if c == 'u' {
            (Directive::Number(10), params_t { unsigned_flag: true, ..par }, j + 1)
        } else if c == 'i' || c == 'd' {
            (Directive::Number(10), par, j + 1)
        } else if c == 'x' || c == 'p' {
            (Directive::Number(16), params_t { unsigned_flag: true, ..par }, j + 1)
        } else if c == 's' {
            (Directive::Text, par, j + 1)
        } else if c == 'c' {
            (Directive::Byte, par, j + 1)
        } else if c == '\\' {
            if j + 1 >= s.len() || s[j + 1] == 0 {
                (Directive::Stop, par, j + 1)
            } else {
                (Directive::Escape(s[j + 1]), par, j + 2)
            }
        } else {
            (Directive::Skip, par, j + 1)
        }
    }
}

/// A conversion never moves the scan backwards; one that does not stop ends
/// within the format, and a numeric one has base ten or sixteen.
pub proof fn lemma_parse_conv_facts(s: Seq<u8>, j: int, par: params_t, dot: bool)
    requires
        0 <= j <= s.len(),
    ensures
        j <= parse_conv(s, j, par, dot).2,
        parse_conv(s, j, par, dot).0 != Directive::Stop ==> parse_conv(s, j, par, dot).2 <= s.len(),
        parse_conv(s, j, par, dot).0 matches Directive::Number(b) ==> b == 10 || b == 16,
    decreases s.len() - j,
{
    if 0 <= j < s.len() && s[j] != 0 {
        if is_digit(s[j]) {
            lemma_digit_run_end_bounds(s, j);
            let e = digit_run_end(s, j);
            let v = literal_value(s.subrange(j, e)) as i32;
            let pad = if s[j] == DIGIT_ZERO { DIGIT_ZERO } else { par.pad_character };
            lemma_parse_conv_facts(s, e, params_t { num2: v, ..par }, dot);
            lemma_parse_conv_facts(s, e, params_t { num1: v, do_padding: true, pad_character: pad, ..par }, dot);
        } else {
            lemma_parse_conv_facts(s, j + 1, params_t { left_flag: true, ..par }, dot);
            lemma_parse_conv_facts(s, j + 1, par, true);
            lemma_parse_conv_facts(s, j + 1, par, dot);
        }
    }
}

/// Whether a directive takes the next argument.
pub open spec fn takes_arg(d: Directive) -> bool {
    d matches Directive::Number(_) || d == Directive::Text || d == Directive::Byte
}

/// Whether an argument has the kind that a directive asks for.
pub open spec fn arg_fits(d: Directive, a: Arg) -> bool {
    match d {
        Directive::Number(_) | Directive::Byte => a is Int || a is Uint,
        Directive::Text => a is Str,
        _ => true,
    }
}

/// The 32-bit integer that an integer argument carries.
pub open spec fn arg_int(a: Arg) -> i32 {
    match a {
        Arg::Int(v) => v,
        Arg::Uint(u) => u as i32,
        Arg::Str(_) => 0,
    }
}

/// The bytes that a string argument carries.
pub open spec fn arg_text(a: Arg) -> Seq<u8> {
    match a {
        Arg::Str(v) => v@,
        _ => Seq::empty(),
    }
}

/// What a directive emits, with its state `par` and the argument `a`.
pub open spec fn directive_output(d: Directive, par: params_t, a: Arg) -> Seq<u8> {
    match d {
        Directive::Stop | Directive::Skip => Seq::empty(),
        Directive::Percent => seq![PERCENT],
        Directive::Number(base) => number_field(arg_int(a), base, par),
        Directive::Text => text_field(arg_text(a), par),
        Directive::Byte => seq![arg_int(a) as u8],
        Directive::Escape(b) => escape_bytes(b),
    }
}

/// Whether position `i` of the format is its end: past the last byte, or at
/// the terminating zero byte.
pub open spec fn at_end(s: Seq<u8>, i: int) -> bool {
    i < 0 || i >= s.len() || s[i] == 0
}

/// The output of the format from position `i` on, with the arguments from
/// index `k` on.
pub open spec fn format_from(s: Seq<u8>, i: int, args: Seq<Arg>, k: int) -> Seq<u8>
    decreases s.len() - i,
{
    if at_end(s, i) {
        Seq::empty()
    } else if s[i] != PERCENT {
        seq![s[i]] + format_from(s, i + 1, args, k)
    } else {
        let c = parse_conv(s, i + 1, initial_params(), false);
        if c.0 == Directive::Stop {
            Seq::empty()
        } else {
            proof {
                lemma_parse_conv_facts(s, i + 1, initial_params(), false);
            }
            directive_output(c.0, c.1, args[k]) + format_from(
                s,
                c.2,
                args,
                if takes_arg(c.0) { k + 1 } else { k },
            )
        }
    }
}

/// Whether the arguments from index `k` on supply, in order, what the format
/// asks for from position `i` on.
pub open spec fn agree_from(s: Seq<u8>, i: int, args: Seq<Arg>, k: int) -> bool
    decreases s.len() - i,
{
    if at_end(s, i) {
        true
    } else if s[i] != PERCENT {
        agree_from(s, i + 1, args, k)
    } else {
        let c = parse_conv(s, i + 1, initial_params(), false);
        if c.0 == Directive::Stop {
            true
        } else {
            proof {
                lemma_parse_conv_facts(s, i + 1, initial_params(), false);
            }
            (takes_arg(c.0) ==> 0 <= k < args.len() && arg_fits(c.0, args[k])) && agree_from(
                s,
                c.2,
                args,
                if takes_arg(c.0) { k + 1 } else { k },
            )
        }
    }
}

/// The bytes that formatting `fmt` with `args` emits.
pub open spec fn formatted(fmt: Seq<u8>, args: Seq<Arg>) -> Seq<u8> {
    format_from(fmt, 0, args, 0)
}

/// Whether `args` supply, kind for kind and in order, every argument that
/// `fmt` asks for. Extra arguments are allowed.
pub open spec fn args_agree(fmt: Seq<u8>, args: Seq<Arg>) -> bool {
    agree_from(fmt, 0, args, 0)
}

/// Parses the conversion whose first byte after `%` is at `start`.
pub fn parse_conversion(fmt: &[u8], start: usize) -> (r: (Directive, params_t, usize))
    requires
        start <= fmt@.len(),
    ensures
        (r.0, r.1, r.2 as int) == parse_conv(fmt@, start as int, initial_params(), false),
{
    let mut par = params_t {
        len: 0,
        num1: 0,
        num2: DEFAULT_MAX_CHARS,
        pad_character: SPACE,
        do_padding: false,
        left_flag: false,
        unsigned_flag: false,
    };
    let mut dot: bool = false;
    let mut j: usize = start;
    loop
        invariant
            start <= j <= fmt@.len(),
            parse_conv(fmt@, start as int, initial_params(), false) == parse_conv(fmt@, j as int, par, dot),
        decreases fmt@.len() - j,
    {
        if j >= fmt.len() || fmt[j] == 0 {
            return (Directive::Stop, par, j);
        }
        let ch: u8 = fmt[j];
        if isdigit(ch) {
            proof {
                lemma_digit_run_end_bounds(fmt@, j as int);
            }
            let (v, e) = getnum(fmt, j);
            if dot {
                par.num2 = v;
            } else {
                if ch == DIGIT_ZERO {
                    par.pad_character = DIGIT_ZERO;
                }
                par.num1 = v;
                par.do_padding = true;
            }
            j = e;
        } else {
            let c: char = tolower(ch as char);
            if c == '%' {
                return (Directive::Percent, par, j + 1);
            } else if c == '-' {
                par.left_flag = true;
                j = j + 1;
            } else if c == '.' {
                dot = true;
                j = j + 1;
            } else if c == 'l' {
                j = j + 1;
            } else if c == 'u' {
                par.unsigned_flag = true;
                return (Directive::Number(10), par, j + 1);
            } else if c == 'i' || c == 'd' {
                return (Directive::Number(10), par, j + 1);
            } else if c == 'x' || c == 'p' {
                par.unsigned_flag = true;
                return (Directive::Number(16), par, j + 1);
            } else if c == 's' {
                return (Directive::Text, par, j + 1);
            } else if c == 'c' {
                return (Directive::Byte, par, j + 1);
            } else if c == '\\' {
                if j + 1 >= fmt.len() || fmt[j + 1] == 0 {
                    return (Directive::Stop, par, j + 1);
                }
                return (Directive::Escape(fmt[j + 1]), par, j + 2);
            } else {
                return (Directive::Skip, par, j + 1);
            }
        }
    }
}

/// Appends the bytes that the escape `\` `b` stands for.
fn emit_escape(b: u8, out: &mut Vec<u8>)
    ensures
        final(out)@ == old(out)@ + escape_bytes(b),
{
    if b == 97 {
        out.push(7);
    } else if b == 104 {
        out.push(8);
    } else if b == 114 {
        out.push(13);
    } else if b == 110 {
        out.push(13);
        out.push(10);
    } else {
        out.push(b);
    }
    assert(out@ =~= old(out)@ + escape_bytes(b));
}

/// The integer an integer argument carries.
fn int_value(a: &Arg) -> (r: i32)
    ensures
        r == arg_int(*a),
{
    match a {
        Arg::Int(v) => *v,
        Arg::Uint(u) => #[verifier::truncate] (*u as i32),
        Arg::Str(_) => 0,
    }
}

/// Tells whether `args` supply, kind for kind and in order, every argument
/// that `fmt` asks for.
pub fn check_args(fmt: &[u8], args: &[Arg]) -> (r: bool)
    ensures
        r == args_agree(fmt@, args@),
{
    let mut i: usize = 0;
    let mut k: usize = 0;
    while i < fmt.len() && fmt[i] != 0
        invariant
            i <= fmt@.len(),
            k <= args@.len(),
            args_agree(fmt@, args@) == agree_from(fmt@, i as int, args@, k as int),
        decreases fmt@.len() - i,
    {
        if fmt[i] != PERCENT {
            i = i + 1;
        } else {
            let (d, _par, next) = parse_conversion(fmt, i + 1);
            proof {
                lemma_parse_conv_facts(fmt@, i + 1, initial_params(), false);
            }
            match d {
                Directive::Stop => {
                    return true;
                },
                Directive::Number(_) | Directive::Byte => {
                    if k >= args.len() {
                        return false;
                    }
                    match &args[k] {
                        Arg::Str(_) => {
                            return false;
                        },
                        _ => {},
                    }
                    k = k + 1;
                },
                Directive::Text => {
                    if k >= args.len() {
                        return false;
                    }
                    match &args[k] {
                        Arg::Str(_) => {},
                        _ => {
                            return false;
                        },
                    }
                    k = k + 1;
                },
                _ => {},
            }
            i = next;
        }
    }
    true
}

/// Formats `fmt` with `args` and appends the bytes to `out`.
///
/// The format is read up to its first zero byte, or to its end. Bytes other
/// than `%` are copied. A conversion has the shape
/// `%[-][0][width][.max][l]spec`, where `spec` is one of `%`, `d`, `i`, `u`,
/// `x`, `X`, `p`, `s`, `c` (of any case), or a backslash and one byte. Each
/// of `d i u x p c` takes an integer argument and `s` a string argument, in
/// order; the caller supplies arguments of the kinds the format asks for.
pub fn xil_printf(fmt: &[u8], args: &[Arg], out: &mut Vec<u8>)
    requires
        args_agree(fmt@, args@),
    ensures
        final(out)@ == old(out)@ + formatted(fmt@, args@),
{
    let mut i: usize = 0;
    let mut k: usize = 0;
    while i < fmt.len() && fmt[i] != 0
        invariant
            i <= fmt@.len(),
            k <= args@.len(),
            agree_from(fmt@, i as int, args@, k as int),
            old(out)@ + formatted(fmt@, args@) == out@ + format_from(fmt@, i as int, args@, k as int),
        decreases fmt@.len() - i,
    {
        let ghost prev: Seq<u8> = out@;
        if fmt[i] != PERCENT {
            out.push(fmt[i]);
            assert(prev + format_from(fmt@, i as int, args@, k as int) =~= out@ + format_from(fmt@, i + 1, args@, k as int));
            i = i + 1;
        } else {
            let ghost k0: int = k as int;
            let (d, par0, next) = parse_conversion(fmt, i + 1);
            proof {
                lemma_parse_conv_facts(fmt@, i + 1, initial_params(), false);
            }
            let mut par: params_t = par0;
            match d {
                Directive::Stop => {
                    assert(format_from(fmt@, i as int, args@, k as int) =~= Seq::<u8>::empty());
                    assert(out@ =~= out@ + format_from(fmt@, i as int, args@, k as int));
                    return;
                },
                Directive::Percent => {
                    out.push(PERCENT);
                },
                Directive::Number(base) => {
                    let v: i32 = int_value(&args[k]);
                    outnum(v, base, &mut par, out);
                    k = k + 1;
                },
                Directive::Text => {
                    match &args[k] {
                        Arg::Str(t) => {
                            outs(t.as_slice(), &mut par, out);
                        },
                        _ => {},
                    }
                    k = k + 1;
                },
                Directive::Byte => {
                    let v: i32 = int_value(&args[k]);
                    out.push(#[verifier::truncate] (v as u8));
                    k = k + 1;
                },
                Directive::Escape(b) => {
                    emit_escape(b, out);
                },
                Directive::Skip => {},
            }
            assert(prev + format_from(fmt@, i as int, args@, k0) =~= out@ + format_from(fmt@, next as int, args@, k as int));
            i = next;
        }
    }
}

} // verus!
