use xil::format::{check_args, xil_printf, Arg};

fn run(fmt: &str, args: &[Arg]) -> Vec<u8> {
    let mut out: Vec<u8> = Vec::new();
    assert!(check_args(fmt.as_bytes(), args));
    xil_printf(fmt.as_bytes(), args, &mut out);
    out
}

fn text(s: &str) -> Arg {
    Arg::Str(s.as_bytes().to_vec())
}

#[test]
fn width_right_justifies_number() {
    assert_eq!(run("%5d", &[Arg::Int(42)]), b"   42".to_vec());
}

#[test]
fn minus_flag_left_justifies_number() {
    assert_eq!(run("%-5d|", &[Arg::Int(42)]), b"42   |".to_vec());
}

#[test]
fn leading_zero_pads_with_zeros() {
    assert_eq!(run("%05d", &[Arg::Int(7)]), b"00007".to_vec());
}

#[test]
fn hex_is_upper_case() {
    assert_eq!(run("%x", &[Arg::Int(255)]), b"FF".to_vec());
}

#[test]
fn precision_truncates_string() {
    assert_eq!(run("%.3s", &[text("hello")]), b"hel".to_vec());
}

#[test]
fn double_percent_takes_no_argument() {
    assert!(check_args(b"100%% done", &[]));
    assert_eq!(run("100%% done", &[]), b"100% done".to_vec());
}

#[test]
fn char_conversion_emits_low_byte() {
    assert_eq!(run("%c", &[Arg::Int(65)]), vec![0x41u8]);
    assert_eq!(run("%c", &[Arg::Int(0x141)]), vec![0x41u8]);
}

#[test]
fn empty_format_emits_nothing() {
    assert!(check_args(b"", &[]));
    assert_eq!(run("", &[]), Vec::<u8>::new());
    assert_eq!(run("\0abc", &[]), Vec::<u8>::new());
}

#[test]
fn output_is_appended() {
    let mut out: Vec<u8> = b"> ".to_vec();
    xil_printf(b"%d", &[Arg::Int(3)], &mut out);
    assert_eq!(out, b"> 3".to_vec());
}

#[test]
fn decimal_digits_of_non_negative_numbers() {
    assert_eq!(run("%d", &[Arg::Int(0)]), b"0".to_vec());
    assert_eq!(run("%d", &[Arg::Int(1234567890)]), b"1234567890".to_vec());
    assert_eq!(run("%i", &[Arg::Int(i32::MAX)]), b"2147483647".to_vec());
}

#[test]
fn hex_digits_of_non_negative_numbers() {
    assert_eq!(run("%x", &[Arg::Int(0)]), b"0".to_vec());
    assert_eq!(run("%X", &[Arg::Int(0x1A2B)]), b"1A2B".to_vec());
    assert_eq!(run("%p", &[Arg::Uint(0xDEADBEEF)]), b"DEADBEEF".to_vec());
}

#[test]
fn negative_decimal_has_minus_sign() {
    assert_eq!(run("%d", &[Arg::Int(-42)]), b"-42".to_vec());
    assert_eq!(run("%d", &[Arg::Int(i32::MIN)]), b"-2147483648".to_vec());
    assert_eq!(run("%5d", &[Arg::Int(-42)]), b"  -42".to_vec());
}

#[test]
fn unsigned_and_hex_read_the_bit_pattern() {
    assert_eq!(run("%u", &[Arg::Int(-1)]), b"4294967295".to_vec());
    assert_eq!(run("%x", &[Arg::Int(-1)]), b"FFFFFFFF".to_vec());
    assert_eq!(run("%u", &[Arg::Uint(4000000000)]), b"4000000000".to_vec());
    assert_eq!(run("%d", &[Arg::Uint(4294967295)]), b"-1".to_vec());
}

#[test]
fn precision_longer_than_string_copies_all() {
    assert_eq!(run("%.10s|", &[text("hello")]), b"hello|".to_vec());
    assert_eq!(run("%.5s|", &[text("hello")]), b"hello|".to_vec());
    assert_eq!(run("%.0s|", &[text("hello")]), b"|".to_vec());
}

#[test]
fn string_stops_at_terminator() {
    assert_eq!(run("[%s]", &[Arg::Str(b"ab\0cd".to_vec())]), b"[ab]".to_vec());
    assert_eq!(run("[%s]", &[text("")]), b"[]".to_vec());
}

#[test]
fn string_padding_uses_full_length() {
    assert_eq!(run("[%7s]", &[text("abc")]), b"[    abc]".to_vec());
    assert_eq!(run("[%-7s]", &[text("abc")]), b"[abc    ]".to_vec());
    assert_eq!(run("[%7.2s]", &[text("abc")]), b"[    ab]".to_vec());
    assert_eq!(run("[%2s]", &[text("abc")]), b"[abc]".to_vec());
}

#[test]
fn width_law_on_numbers() {
    assert_eq!(run("[%3d]", &[Arg::Int(12345)]), b"[12345]".to_vec());
    assert_eq!(run("[%8x]", &[Arg::Int(255)]), b"[      FF]".to_vec());
    assert_eq!(run("[%-08d]", &[Arg::Int(5)]), b"[50000000]".to_vec());
    assert_eq!(run("[%010u]", &[Arg::Int(42)]), b"[0000000042]".to_vec());
    assert_eq!(run("[%ld]", &[Arg::Int(9)]), b"[9]".to_vec());
}

#[test]
fn specifiers_ignore_case() {
    assert_eq!(run("%D %I %U %S %C", &[Arg::Int(1), Arg::Int(2), Arg::Int(3), text("x"), Arg::Int(66)]), b"1 2 3 x B".to_vec());
    assert_eq!(run("%%", &[]), b"%".to_vec());
}

#[test]
fn backslash_escapes() {
    assert_eq!(run("%\\n", &[]), vec![13u8, 10u8]);
    assert_eq!(run("%\\a%\\h%\\r", &[]), vec![7u8, 8u8, 13u8]);
    assert_eq!(run("a%\\qb", &[]), b"aqb".to_vec());
    assert_eq!(run("%\\N", &[]), b"N".to_vec());
}

#[test]
fn unknown_specifier_is_absorbed() {
    assert_eq!(run("a%yb", &[]), b"ab".to_vec());
    assert_eq!(run("a%5zb", &[]), b"ab".to_vec());
}

#[test]
fn format_ending_inside_conversion_stops() {
    assert_eq!(run("abc%", &[]), b"abc".to_vec());
    assert_eq!(run("abc%-5", &[]), b"abc".to_vec());
    assert_eq!(run("abc%\\", &[]), b"abc".to_vec());
}

#[test]
fn several_conversions_take_arguments_in_order() {
    let args = [Arg::Int(1), text("two"), Arg::Uint(3), Arg::Int(52)];
    assert_eq!(run("%d-%s-%u-%c", &args), b"1-two-3-4".to_vec());
}

#[test]
fn check_args_rejects_mismatches() {
    assert!(!check_args(b"%d", &[]));
    assert!(!check_args(b"%s", &[Arg::Int(1)]));
    assert!(!check_args(b"%d", &[text("x")]));
    assert!(!check_args(b"%c", &[text("x")]));
    assert!(check_args(b"%d %s", &[Arg::Uint(1), text("x"), Arg::Int(9)]));
    assert!(check_args(b"%% %y %\\n", &[]));
}
