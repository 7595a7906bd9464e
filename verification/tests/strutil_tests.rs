use rust_udev::strutil::{
    eq_ignore_case, parse_octal_u32, parse_u32, parse_u64, split_str, str_eq, str_lex_le, trim,
    u64_to_string,
};

#[test]
fn case_insensitive_equality() {
    assert!(eq_ignore_case("ADD", "add"));
    assert!(eq_ignore_case("TtyUSB0", "ttyusb0"));
    assert!(!eq_ignore_case("add", "remove"));
    assert!(!eq_ignore_case("add", "adds"));
}

#[test]
fn exact_equality() {
    assert!(str_eq("abc", "abc"));
    assert!(!str_eq("abc", "ABC"));
    assert!(!str_eq("abc", "ab"));
}

#[test]
fn decimal_parsing() {
    assert_eq!(parse_u32("189"), Some(189));
    assert_eq!(parse_u32("+21"), Some(21));
    assert_eq!(parse_u32("4294967295"), Some(4294967295));
    assert_eq!(parse_u32("4294967296"), None);
    assert_eq!(parse_u32(""), None);
    assert_eq!(parse_u32("+"), None);
    assert_eq!(parse_u32("12a"), None);
    assert_eq!(parse_u64("18446744073709551615"), Some(u64::MAX));
    assert_eq!(parse_u64("18446744073709551616"), None);
}

#[test]
fn octal_parsing() {
    assert_eq!(parse_octal_u32("660"), Some(0o660));
    assert_eq!(parse_octal_u32("0660"), Some(0o660));
    assert_eq!(parse_octal_u32("777"), Some(0o777));
    assert_eq!(parse_octal_u32("8"), None);
    assert_eq!(parse_octal_u32(""), None);
}

#[test]
fn decimal_formatting() {
    assert_eq!(u64_to_string(0), "0");
    assert_eq!(u64_to_string(189), "189");
    assert_eq!(u64_to_string(u64::MAX), "18446744073709551615");
}

#[test]
fn trimming() {
    assert_eq!(trim("  hello\n"), "hello");
    assert_eq!(trim("\t1024\r\n"), "1024");
    assert_eq!(trim("   "), "");
    assert_eq!(trim("x"), "x");
}

#[test]
fn splitting() {
    let parts = split_str("a\0b\0\0c", '\0');
    assert_eq!(parts, vec!["a".to_string(), "b".to_string(), String::new(), "c".to_string()]);
    assert_eq!(split_str("", '\n'), vec![String::new()]);
}

#[test]
fn lexicographic_order() {
    assert!(str_lex_le("A", "B"));
    assert!(str_lex_le("A", "A"));
    assert!(str_lex_le("AB", "B"));
    assert!(str_lex_le("A", "AB"));
    assert!(!str_lex_le("B", "AB"));
}
