use mini_http::ascii::{
    byte_in_class, bytes_eq, bytes_eq_ignore_case, bytes_in_class, position_of,
    position_of_crlf, push_decimal, read_decimal, to_lower, trimmed, ByteClass,
};

#[test]
fn digits_are_zero_to_nine() {
    assert!(byte_in_class(ByteClass::Digit, b'0'));
    assert!(byte_in_class(ByteClass::Digit, b'9'));
    assert!(!byte_in_class(ByteClass::Digit, b'/'));
    assert!(!byte_in_class(ByteClass::Digit, b':'));
}

#[test]
fn token_bytes_follow_the_grammar() {
    for b in b"!#$%&'*+-.^_`|~azAZ09".iter() {
        assert!(byte_in_class(ByteClass::Token, *b), "{}", *b as char);
    }
    for b in b" \t\r\n\"(),/:;<=>?@[\\]{}\x7f\x80".iter() {
        assert!(!byte_in_class(ByteClass::Token, *b), "{}", *b);
    }
}

#[test]
fn visible_bytes_exclude_space_and_controls() {
    assert!(byte_in_class(ByteClass::Visible, b'!'));
    assert!(byte_in_class(ByteClass::Visible, b'~'));
    assert!(!byte_in_class(ByteClass::Visible, b' '));
    assert!(!byte_in_class(ByteClass::Visible, 127));
    assert!(!byte_in_class(ByteClass::Visible, 128));
}

#[test]
fn field_bytes_allow_blanks_and_high_bytes() {
    assert!(byte_in_class(ByteClass::Field, b' '));
    assert!(byte_in_class(ByteClass::Field, b'\t'));
    assert!(byte_in_class(ByteClass::Field, 200));
    assert!(!byte_in_class(ByteClass::Field, b'\r'));
    assert!(!byte_in_class(ByteClass::Field, b'\n'));
    assert!(!byte_in_class(ByteClass::Field, 0));
    assert!(!byte_in_class(ByteClass::Field, 127));
}

#[test]
fn class_of_a_string_is_the_class_of_all_its_bytes() {
    assert!(bytes_in_class(ByteClass::Digit, b"0123456789"));
    assert!(!bytes_in_class(ByteClass::Digit, b"12a4"));
    assert!(bytes_in_class(ByteClass::Digit, b""));
    assert!(bytes_in_class(ByteClass::Token, b"Content-Length"));
    assert!(!bytes_in_class(ByteClass::Token, b"Content Length"));
}

#[test]
fn lower_case_changes_only_capital_letters() {
    assert_eq!(to_lower(b'A'), b'a');
    assert_eq!(to_lower(b'Z'), b'z');
    assert_eq!(to_lower(b'a'), b'a');
    assert_eq!(to_lower(b'@'), b'@');
    assert_eq!(to_lower(b'['), b'[');
    assert_eq!(to_lower(b'-'), b'-');
}

#[test]
fn equality_of_byte_strings() {
    assert!(bytes_eq(b"HTTP/1.1", b"HTTP/1.1"));
    assert!(!bytes_eq(b"HTTP/1.1", b"HTTP/1.0"));
    assert!(!bytes_eq(b"HTTP/1.1", b"HTTP/1.10"));
    assert!(bytes_eq(b"", b""));
}

#[test]
fn equality_up_to_case() {
    assert!(bytes_eq_ignore_case(b"Content-Length", b"content-length"));
    assert!(bytes_eq_ignore_case(b"CONTENT-LENGTH", b"Content-Length"));
    assert!(!bytes_eq_ignore_case(b"Content-Length", b"Content-Lengt"));
    assert!(!bytes_eq_ignore_case(b"Content-Length", b"Content_Length"));
    assert!(!bytes_eq_ignore_case(b"@", b"`"));
}

#[test]
fn first_position_of_a_byte() {
    assert_eq!(position_of(b"a b c", b' ', 0), Some(1));
    assert_eq!(position_of(b"a b c", b' ', 1), Some(1));
    assert_eq!(position_of(b"a b c", b' ', 2), Some(3));
    assert_eq!(position_of(b"a b c", b' ', 4), None);
    assert_eq!(position_of(b"a b c", b' ', 9), None);
    assert_eq!(position_of(b"", b' ', 0), None);
}

#[test]
fn first_position_of_a_line_end() {
    assert_eq!(position_of_crlf(b"ab\r\ncd\r\n", 0), Some(2));
    assert_eq!(position_of_crlf(b"ab\r\ncd\r\n", 2), Some(2));
    assert_eq!(position_of_crlf(b"ab\r\ncd\r\n", 3), Some(6));
    assert_eq!(position_of_crlf(b"ab\r\ncd\r\n", 7), None);
    assert_eq!(position_of_crlf(b"ab\rcd\n", 0), None);
    assert_eq!(position_of_crlf(b"ab\n\r", 0), None);
    assert_eq!(position_of_crlf(b"\r", 0), None);
    assert_eq!(position_of_crlf(b"", 0), None);
}

#[test]
fn trimming_removes_blanks_at_both_ends() {
    assert_eq!(trimmed(b"  x y \t"), b"x y");
    assert_eq!(trimmed(b"x"), b"x");
    assert_eq!(trimmed(b" \t "), b"");
    assert_eq!(trimmed(b""), b"");
    assert_eq!(trimmed(b"\r x"), b"\r x");
}

#[test]
fn decimal_numerals_are_read() {
    assert_eq!(read_decimal(b"0"), Some(0));
    assert_eq!(read_decimal(b"7"), Some(7));
    assert_eq!(read_decimal(b"1234"), Some(1234));
    assert_eq!(read_decimal(b"007"), Some(7));
    assert_eq!(read_decimal(b""), None);
    assert_eq!(read_decimal(b"12a"), None);
    assert_eq!(read_decimal(b"-1"), None);
    assert_eq!(read_decimal(b" 1"), None);
}

#[test]
fn decimal_numerals_beyond_the_machine_word_are_refused() {
    let max = format!("{}", usize::MAX);
    assert_eq!(read_decimal(max.as_bytes()), Some(usize::MAX));
    let mut beyond = max.into_bytes();
    beyond.push(b'0');
    assert_eq!(read_decimal(&beyond), None);
    assert_eq!(read_decimal(b"99999999999999999999999999999999999999999"), None);
    assert_eq!(read_decimal(b"99999999999999999999999999999999999999999x"), None);
}

#[test]
fn decimal_numerals_are_written() {
    let mut out = b"n=".to_vec();
    push_decimal(&mut out, 0);
    assert_eq!(out, b"n=0".to_vec());
    push_decimal(&mut out, 9);
    push_decimal(&mut out, 10);
    push_decimal(&mut out, 4096);
    assert_eq!(out, b"n=09104096".to_vec());
}

#[test]
fn written_numerals_are_read_back() {
    for n in [0usize, 1, 9, 10, 99, 100, 101, 65535, 1_000_000, usize::MAX].iter() {
        let mut out = Vec::new();
        push_decimal(&mut out, *n);
        assert_eq!(out, format!("{}", n).into_bytes());
        assert_eq!(read_decimal(&out), Some(*n));
    }
}
