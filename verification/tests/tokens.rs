use ahc_solvers::tokens::{is_space_byte, next_token, parse_i64, parse_usize, space_len_at};

#[test]
fn whitespace_bytes() {
    for b in [b' ', b'\t', b'\n', b'\r', 0x0b, 0x0c] {
        assert!(is_space_byte(b));
    }
    assert!(!is_space_byte(b'a'));
    assert!(!is_space_byte(0));
}

#[test]
fn next_token_skips_spaces() {
    let s = b"  ab \t c";
    assert_eq!(next_token(s, 0), (2, 4));
    assert_eq!(next_token(s, 4), (7, 8));
    assert_eq!(next_token(s, 8), (8, 8));
    assert_eq!(next_token(b"   ", 0), (3, 3));
}

#[test]
fn parse_usize_like_std() {
    assert_eq!(parse_usize(b"0"), Some(0));
    assert_eq!(parse_usize(b"007"), Some(7));
    assert_eq!(parse_usize(b"+12"), Some(12));
    assert_eq!(parse_usize(b""), None);
    assert_eq!(parse_usize(b"+"), None);
    assert_eq!(parse_usize(b"-1"), None);
    assert_eq!(parse_usize(b"1 2"), None);
    assert_eq!(parse_usize(b"18446744073709551615"), Some(usize::MAX));
    assert_eq!(parse_usize(b"18446744073709551616"), None);
}

#[test]
fn parse_i64_like_std() {
    assert_eq!(parse_i64(b"-5"), Some(-5));
    assert_eq!(parse_i64(b"+5"), Some(5));
    assert_eq!(parse_i64(b"-0"), Some(0));
    assert_eq!(parse_i64(b"-"), None);
    assert_eq!(parse_i64(b"9223372036854775807"), Some(i64::MAX));
    assert_eq!(parse_i64(b"9223372036854775808"), None);
    assert_eq!(parse_i64(b"-9223372036854775808"), Some(i64::MIN));
    assert_eq!(parse_i64(b"-9223372036854775809"), None);
    assert_eq!(parse_i64(b"--1"), None);
}

#[test]
fn next_token_splits_on_unicode_whitespace() {
    let text = "12\u{00A0}34\u{3000}\u{2009}-5\u{85}x";
    let s = text.as_bytes();
    let expected: Vec<&str> = text.split_whitespace().collect();
    let mut got: Vec<&str> = Vec::new();
    let mut pos = 0;
    loop {
        let (b, e) = next_token(s, pos);
        if b >= s.len() {
            break;
        }
        got.push(&text[b..e]);
        pos = e;
    }
    assert_eq!(got, expected);
    assert_eq!(got, vec!["12", "34", "-5", "x"]);
}

#[test]
fn space_len_of_each_kind() {
    assert_eq!(space_len_at(b" a", 0), 1);
    assert_eq!(space_len_at("\u{a0}".as_bytes(), 0), 2);
    assert_eq!(space_len_at("\u{1680}".as_bytes(), 0), 3);
    assert_eq!(space_len_at("\u{200a}".as_bytes(), 0), 3);
    assert_eq!(space_len_at("\u{200b}".as_bytes(), 0), 0);
    assert_eq!(space_len_at("\u{205f}".as_bytes(), 0), 3);
    assert_eq!(space_len_at("é".as_bytes(), 0), 0);
    assert_eq!(space_len_at(b"a", 1), 0);
}
