use gemini_lite::text::{is_white_space, strip_prefix, to_decimal, trim};
use gemini_lite::utf8::decode_prefix;

#[test]
fn white_space_is_that_of_unicode() {
    for code in 0..=0x10FFFF_u32 {
        if let Some(c) = char::from_u32(code) {
            assert_eq!(is_white_space(c), c.is_whitespace());
        }
    }
}

#[test]
fn trim_takes_both_ends() {
    for s in ["", " ", "\u{a0}a b\n", "a", "\t\r\n", " é ", "\u{200b}x\u{2009}"] {
        assert_eq!(trim(s), s.trim());
        assert_eq!(trim(&trim(s)), s.trim());
    }
}

#[test]
fn decimal_numbers() {
    for n in [0, 7, 10, 42, 100, 999, 1_000_000, u32::MAX] {
        assert_eq!(to_decimal(n), format!("{n}"));
    }
}

#[test]
fn prefixes() {
    assert_eq!(strip_prefix("été fini", "été"), Some(" fini".to_string()));
    assert_eq!(strip_prefix("abc", ""), Some("abc".to_string()));
    assert_eq!(strip_prefix("abc", "abc"), Some(String::new()));
    assert_eq!(strip_prefix("abc", "abcd"), None);
    assert_eq!(strip_prefix("abc", "ac"), None);
}

#[test]
fn decoding_stops_where_it_must() {
    assert_eq!(decode_prefix(b"abc"), ("abc", 3));
    assert_eq!(decode_prefix(b""), ("", 0));
    assert_eq!(decode_prefix(b"a\xe2\x80"), ("a", 1));
    assert_eq!(decode_prefix(b"\xe2\x80\xa6\xffz"), ("…", 3));
    assert_eq!(decode_prefix(b"a\xc0\x80"), ("a", 1));
    assert_eq!(decode_prefix(b"\xed\xa0\x80"), ("", 0));
}
