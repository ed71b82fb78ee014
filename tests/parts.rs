use xil::format::{parse_conversion, Directive};
use xil::regs::{
    exception_disable_value, exception_enable_value, register_address, timer_interrupts_enabled,
    timer_started, XIL_EXCEPTION_IRQ, XTTCPS_IER_OFFSET,
};
use xil::render::{outnum, outs, padding, params_t};
use xil::scan::{getnum, isdigit, strlen, tolower};

fn params() -> params_t {
    params_t {
        len: 0,
        num1: 0,
        num2: 32767,
        pad_character: b' ',
        do_padding: false,
        left_flag: false,
        unsigned_flag: false,
    }
}

#[test]
fn tolower_folds_ascii_capitals_only() {
    assert_eq!(tolower('A'), 'a');
    assert_eq!(tolower('Z'), 'z');
    assert_eq!(tolower('x'), 'x');
    assert_eq!(tolower('%'), '%');
    assert_eq!(tolower('\\'), '\\');
}

#[test]
fn isdigit_accepts_decimal_digits() {
    assert!(isdigit(b'0'));
    assert!(isdigit(b'9'));
    assert!(!isdigit(b'a'));
    assert!(!isdigit(b'/'));
}

#[test]
fn getnum_reads_a_digit_run() {
    assert_eq!(getnum(b"%123d", 1), (123, 4));
    assert_eq!(getnum(b"007x", 0), (7, 3));
    assert_eq!(getnum(b"x", 0), (0, 0));
    assert_eq!(getnum(b"4294967297", 0), (1, 10));
}

#[test]
fn strlen_stops_at_zero_byte() {
    assert_eq!(strlen(b"abc\0def"), 3);
    assert_eq!(strlen(b"abc"), 3);
    assert_eq!(strlen(b""), 0);
}

#[test]
fn padding_emits_on_requested_side() {
    let mut par = params();
    par.len = 2;
    par.num1 = 5;
    par.do_padding = true;
    par.pad_character = b'*';
    let mut out: Vec<u8> = Vec::new();
    padding(true, &par, &mut out);
    assert_eq!(out, b"***".to_vec());
    let mut none: Vec<u8> = Vec::new();
    padding(false, &par, &mut none);
    assert!(none.is_empty());
}

#[test]
fn outnum_records_length() {
    let mut par = params();
    let mut out: Vec<u8> = Vec::new();
    outnum(-305, 10, &mut par, &mut out);
    assert_eq!(out, b"-305".to_vec());
    assert_eq!(par.len, 4);
}

#[test]
fn outs_records_full_length() {
    let mut par = params();
    par.num2 = 2;
    let mut out: Vec<u8> = Vec::new();
    outs(b"abcdef", &mut par, &mut out);
    assert_eq!(out, b"ab".to_vec());
    assert_eq!(par.len, 6);
}

#[test]
fn parse_conversion_reads_flags_and_width() {
    let (d, par, next) = parse_conversion(b"%-08.3lx!", 1);
    assert_eq!(d, Directive::Number(16));
    assert!(par.left_flag);
    assert!(par.do_padding);
    assert!(par.unsigned_flag);
    assert_eq!(par.pad_character, b'0');
    assert_eq!(par.num1, 8);
    assert_eq!(par.num2, 3);
    assert_eq!(next, 8);
    let (e, _, at) = parse_conversion(b"%\\n", 1);
    assert_eq!(e, Directive::Escape(b'n'));
    assert_eq!(at, 3);
}

#[test]
fn exception_mask_bits() {
    assert_eq!(exception_enable_value(0x0000_01D3, XIL_EXCEPTION_IRQ), 0x0000_0153);
    assert_eq!(exception_disable_value(0x0000_0113, XIL_EXCEPTION_IRQ), 0x0000_0193);
    assert_eq!(exception_enable_value(0xFFFF_FFFF, 0xFFFF_FFFF), 0xFFFF_FF3F);
    assert_eq!(exception_disable_value(0, 0xFFFF_FFFF), 0xC0);
}

#[test]
fn timer_register_words() {
    assert_eq!(timer_interrupts_enabled(0x01, 0x10), 0x11);
    assert_eq!(timer_started(0x21), 0x20);
    assert_eq!(timer_started(0x20), 0x20);
    assert_eq!(register_address(0xF800_1000, XTTCPS_IER_OFFSET), 0xF800_1060);
}
