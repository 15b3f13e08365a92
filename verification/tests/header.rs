use mini_http::header::{lookup, Header};

#[test]
fn header_line_is_split_at_the_first_colon() {
    assert_eq!(Header::parse(b"Host: x"), Some(Header::new(b"Host", b"x")));
    assert_eq!(
        Header::parse(b"Referer: http://a/b"),
        Some(Header::new(b"Referer", b"http://a/b"))
    );
}

#[test]
fn header_value_is_trimmed() {
    assert_eq!(Header::parse(b"Host:x"), Some(Header::new(b"Host", b"x")));
    assert_eq!(Header::parse(b"Host: \t x y \t "), Some(Header::new(b"Host", b"x y")));
    assert_eq!(Header::parse(b"Host:"), Some(Header::new(b"Host", b"")));
    assert_eq!(Header::parse(b"Host:   "), Some(Header::new(b"Host", b"")));
}

#[test]
fn header_without_colon_is_refused() {
    assert_eq!(Header::parse(b"Host x"), None);
    assert_eq!(Header::parse(b""), None);
}

#[test]
fn header_name_must_be_a_token() {
    assert_eq!(Header::parse(b": x"), None);
    assert_eq!(Header::parse(b"Ho st: x"), None);
    assert_eq!(Header::parse(b"Host : x"), None);
    assert_eq!(Header::parse(b" Host: x"), None);
}

#[test]
fn header_value_must_hold_no_control_character() {
    assert_eq!(Header::parse(b"Host: a\rb"), None);
    assert_eq!(Header::parse(b"Host: a\nb"), None);
    assert_eq!(Header::parse(b"Host: a\x00b"), None);
    assert_eq!(Header::parse(b"Host: a\x7fb"), None);
    assert_eq!(Header::parse(b"Host: a\xe9b"), Some(Header::new(b"Host", b"a\xe9b")));
}

#[test]
fn header_is_written_as_one_line() {
    let mut out = b">".to_vec();
    Header::new(b"Host", b"example.org").write_to(&mut out);
    assert_eq!(out, b">Host: example.org\r\n".to_vec());
    Header::new(b"X", b"").write_to(&mut out);
    assert_eq!(out, b">Host: example.org\r\nX: \r\n".to_vec());
}

#[test]
fn written_header_is_read_back() {
    let header = Header::new(b"Accept-Language", b"en, fr;q=0.5");
    let mut line = Vec::new();
    header.write_to(&mut line);
    assert_eq!(Header::parse(&line[..line.len() - 2]), Some(header));
}

#[test]
fn lookup_finds_the_first_field_of_a_name() {
    let headers = vec![
        Header::new(b"Host", b"x"),
        Header::new(b"accept", b"one"),
        Header::new(b"Accept", b"two"),
    ];
    assert_eq!(lookup(&headers, b"host"), Some(&b"x".to_vec()));
    assert_eq!(lookup(&headers, b"ACCEPT"), Some(&b"one".to_vec()));
    assert_eq!(lookup(&headers, b"Accept-Language"), None);
    assert_eq!(lookup(&Vec::new(), b"Host"), None);
}
