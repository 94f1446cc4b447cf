use guardian::digits::{decimal_string, parse_uint, push_padded_decimal, push_signed_decimal};
use guardian::text::{
    blank, chars_of, is_space_char, lines_of, same_ignoring_case, split_on, string_of,
    trimmed_string,
};

#[test]
fn white_space_is_that_of_the_standard_library() {
    for n in 0..=0x10FFFF {
        if let Some(c) = char::from_u32(n) {
            assert_eq!(is_space_char(c), c.is_whitespace(), "{n:x}");
        }
    }
}

#[test]
fn trimming() {
    for s in ["", "  ", " a b\t", "\u{3000}x\u{a0}", "\u{feff}y", "z"] {
        assert_eq!(trimmed_string(s), s.trim());
        assert_eq!(blank(s), s.trim().is_empty());
    }
}

#[test]
fn splitting() {
    for s in ["", ".", "a.b", "..a", "a."] {
        let v = chars_of(s);
        let got: Vec<String> = split_on(&v, '.').into_iter().map(string_of).collect();
        let want: Vec<&str> = s.split('.').collect();
        assert_eq!(got, want);
    }
}

#[test]
fn lines() {
    for s in ["", "a", "a\n", "\n\nb\r\n", "c\r", "d\r\r\ne"] {
        let v = chars_of(s);
        let got: Vec<String> = lines_of(&v).into_iter().map(string_of).collect();
        let want: Vec<&str> = s.lines().collect();
        assert_eq!(got, want);
    }
}

#[test]
fn case_of_ascii_letters() {
    assert!(same_ignoring_case(&chars_of("aZ-1é"), &chars_of("Az-1é")));
    assert!(!same_ignoring_case(&chars_of("É"), &chars_of("é")));
    assert!(!same_ignoring_case(&chars_of("a"), &chars_of("ab")));
    assert!(!same_ignoring_case(&chars_of("@"), &chars_of("`")));
}

#[test]
fn numbers_read_as_in_the_standard_library() {
    for s in ["0", "007", "+5", "", "+", "-1", "1 ", "65535", "65536", "99999999999999999999", "٣", "1_0"] {
        assert_eq!(parse_uint(&chars_of(s), 65535), s.parse::<u16>().ok().map(u64::from), "{s}");
    }
    assert_eq!(
        parse_uint(&chars_of("18446744073709551615"), u64::MAX),
        Some(u64::MAX)
    );
    assert_eq!(parse_uint(&chars_of("18446744073709551616"), u64::MAX), None);
}

#[test]
fn numbers_are_written() {
    assert_eq!(decimal_string(0), "0");
    assert_eq!(decimal_string(u64::MAX), "18446744073709551615");
    let mut s = String::new();
    push_padded_decimal(&mut s, 7, 2);
    push_padded_decimal(&mut s, 12345, 4);
    push_signed_decimal(&mut s, -8);
    push_signed_decimal(&mut s, i64::MIN);
    assert_eq!(s, "0712345-8-9223372036854775808");
}
