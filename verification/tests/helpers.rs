use git_objects::decimal::{parse_size, push_decimal, push_decimal_text};
use git_objects::hex::to_hex;
use git_objects::scan::{find_byte, find_char, push_bytes};
use git_objects::text::{chars_of, str_equals, string_of};
use git_objects::utilities::{path_should_exist, path_should_not_exist};

#[test]
fn decimal_rendering_has_no_sign_and_no_leading_zero() {
    for (n, text) in [(0usize, "0"), (7, "7"), (10, "10"), (909, "909"), (1_000_000, "1000000")] {
        let mut out = b"size ".to_vec();
        push_decimal(&mut out, n);
        assert_eq!(out, format!("size {}", text).into_bytes());
    }
    let mut out = Vec::new();
    push_decimal(&mut out, usize::MAX);
    assert_eq!(out, usize::MAX.to_string().into_bytes());
}

#[test]
fn decimal_text_has_the_same_digits() {
    for n in [0usize, 5, 42, 1200, usize::MAX] {
        let mut out = String::from("n = ");
        push_decimal_text(&mut out, n);
        assert_eq!(out, format!("n = {}", n));
    }
}

#[test]
fn parse_size_reads_what_push_decimal_wrote() {
    for n in [0usize, 1, 9, 10, 11, 99, 100, 12345, usize::MAX / 10, usize::MAX - 1, usize::MAX] {
        let mut out = Vec::new();
        push_decimal(&mut out, n);
        assert_eq!(parse_size(&out), Some(n));
    }
}

#[test]
fn parse_size_rejects_what_is_no_number() {
    assert_eq!(parse_size(b""), None);
    assert_eq!(parse_size(b"+"), None);
    assert_eq!(parse_size(b"12a"), None);
    assert_eq!(parse_size(b"a12"), None);
    assert_eq!(parse_size(b"-1"), None);
    assert_eq!(parse_size(b"1 "), None);
    assert_eq!(parse_size(b"/"), None);
    assert_eq!(parse_size(b":"), None);
    assert_eq!(parse_size(b"+12"), Some(12));
    assert_eq!(parse_size(b"0012"), Some(12));
    assert_eq!(parse_size(b"340282366920938463463374607431768211456"), None);
    assert_eq!(parse_size(b"340282366920938463463374607431768211456x"), None);
}

#[test]
fn hex_has_two_lowercase_digits_for_each_byte() {
    assert_eq!(to_hex(&[]), "");
    assert_eq!(to_hex(&[0x00, 0x09, 0x0a, 0x0f, 0x10, 0x9a, 0xa9, 0xff]), "00090a0f109aa9ff");
    let all: Vec<u8> = (0..=255u8).collect();
    let expected: String = all.iter().map(|b| format!("{:02x}", b)).collect();
    assert_eq!(to_hex(&all), expected);
}

#[test]
fn find_byte_gives_the_first_position_from_start() {
    let data = b"ab cd ef";
    assert_eq!(find_byte(data, 0, b' '), 2);
    assert_eq!(find_byte(data, 2, b' '), 2);
    assert_eq!(find_byte(data, 3, b' '), 5);
    assert_eq!(find_byte(data, 6, b' '), 8);
    assert_eq!(find_byte(data, 8, b' '), 8);
    assert_eq!(find_byte(b"", 0, 0), 0);
}

#[test]
fn find_char_stops_at_the_end_given() {
    let text: Vec<char> = "key value\nnext".chars().collect();
    assert_eq!(find_char(&text, 0, text.len(), '\n'), 9);
    assert_eq!(find_char(&text, 0, 9, ' '), 3);
    assert_eq!(find_char(&text, 4, 9, ' '), 9);
    assert_eq!(find_char(&text, 0, 2, ' '), 2);
    assert_eq!(find_char(&text, 10, text.len(), '\n'), text.len());
}

#[test]
fn push_bytes_appends() {
    let mut out = b"ab".to_vec();
    push_bytes(&mut out, b"cd\0");
    push_bytes(&mut out, b"");
    assert_eq!(out, b"abcd\0".to_vec());
}

#[test]
fn text_goes_to_characters_and_back() {
    let text = "a\u{e9}\u{4e2d}\u{1f600} z";
    let chars = chars_of(text);
    assert_eq!(chars, vec!['a', '\u{e9}', '\u{4e2d}', '\u{1f600}', ' ', 'z']);
    assert_eq!(string_of(&chars, 0, chars.len()), text);
    assert_eq!(string_of(&chars, 1, 4), "\u{e9}\u{4e2d}\u{1f600}");
    assert_eq!(string_of(&chars, 3, 3), "");
}

#[test]
fn str_equals_compares_the_characters() {
    assert!(str_equals("", ""));
    assert!(str_equals("core", "core"));
    assert!(!str_equals("core", "Core"));
    assert!(!str_equals("core", "cor"));
    assert!(!str_equals("cor", "core"));
    assert!(str_equals("caf\u{e9}", "caf\u{e9}"));
    assert!(!str_equals("caf\u{e9}", "cafe\u{301}"));
}

#[test]
fn path_that_should_exist() {
    assert_eq!(path_should_exist(true, "Worktree does not exist"), Ok(()));
    assert_eq!(
        path_should_exist(false, "Worktree does not exist"),
        Err("Worktree does not exist".to_string())
    );
}

#[test]
fn path_that_should_not_exist() {
    assert_eq!(path_should_not_exist(false, "Already a git repository"), Ok(()));
    assert_eq!(
        path_should_not_exist(true, "Already a git repository"),
        Err("Already a git repository".to_string())
    );
}
