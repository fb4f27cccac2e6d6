use minicompiler::decimal::{parse_decimal, push_decimal, push_digits};
use minicompiler::text::{chars_of, push_chars, run_of, spells, string_of, CharClass};

fn chars(s: &str) -> Vec<char> {
    s.chars().collect()
}

#[test]
fn character_classes() {
    for c in ['a', 'z', 'A', 'Z', 'm'] {
        assert!(CharClass::Letter.accepts(c));
        assert!(!CharClass::Digit.accepts(c));
    }
    for c in ['0', '9', '5'] {
        assert!(CharClass::Digit.accepts(c));
        assert!(!CharClass::Letter.accepts(c));
    }
    for c in ['_', ' ', '`', '{', '@', '[', '/', ':', '\u{e9}', '\u{663}'] {
        assert!(!CharClass::Letter.accepts(c));
        assert!(!CharClass::Digit.accepts(c));
    }
    assert!(!CharClass::Unquoted.accepts('"'));
    assert!(CharClass::Unquoted.accepts('\''));
    assert!(!CharClass::Unbraced.accepts('{'));
    assert!(!CharClass::Unbraced.accepts('}'));
    assert!(CharClass::Unbraced.accepts('('));
}

#[test]
fn run_at_the_head() {
    assert_eq!(run_of(&chars("abc1def"), CharClass::Letter), 3);
    assert_eq!(run_of(&chars("abc"), CharClass::Letter), 3);
    assert_eq!(run_of(&chars("1abc"), CharClass::Letter), 0);
    assert_eq!(run_of(&chars(""), CharClass::Letter), 0);
    assert_eq!(run_of(&chars("2024-01"), CharClass::Digit), 4);
    assert_eq!(run_of(&chars("ab\"cd\""), CharClass::Unquoted), 2);
    assert_eq!(run_of(&chars("Hello {name}"), CharClass::Unbraced), 6);
}

#[test]
fn characters_of_a_text() {
    assert_eq!(chars_of("a\u{e9}\u{1F600}b"), vec!['a', '\u{e9}', '\u{1F600}', 'b']);
    assert_eq!(chars_of(""), Vec::<char>::new());
}

#[test]
fn text_of_characters() {
    assert_eq!(string_of(&['h', 'i', '\u{e9}']), "hi\u{e9}");
    assert_eq!(string_of(&[]), "");
}

#[test]
fn characters_are_put_behind_what_is_there() {
    let mut out = String::from("ab");
    push_chars(&mut out, &['c', 'd']);
    push_chars(&mut out, &[]);
    assert_eq!(out, "abcd");
}

#[test]
fn spelling() {
    assert!(spells(&chars("print"), "print"));
    assert!(!spells(&chars("prin"), "print"));
    assert!(!spells(&chars("prints"), "print"));
    assert!(!spells(&chars("prinT"), "print"));
    assert!(spells(&chars(""), ""));
    assert!(!spells(&chars(""), "a"));
    assert!(!spells(&chars("a"), ""));
}

#[test]
fn reading_digits() {
    assert_eq!(parse_decimal(&chars("0")), Some(0));
    assert_eq!(parse_decimal(&chars("5")), Some(5));
    assert_eq!(parse_decimal(&chars("1205")), Some(1205));
    assert_eq!(parse_decimal(&chars("000123")), Some(123));
    assert_eq!(parse_decimal(&chars("2147483647")), Some(2147483647));
    assert_eq!(parse_decimal(&chars("2147483648")), None);
    assert_eq!(parse_decimal(&chars("21474836470")), None);
    assert_eq!(parse_decimal(&chars("99999999999999999999999999")), None);
}

#[test]
fn reading_digits_agrees_with_the_standard_library() {
    let cases =
        ["0", "00", "7", "42", "0042", "2147483647", "2147483648", "4294967296", "99999999999"];
    for digits in cases {
        assert_eq!(parse_decimal(&chars(digits)), digits.parse::<i32>().ok());
    }
}

#[test]
fn reading_what_is_no_run_of_digits() {
    assert_eq!(parse_decimal(&chars("")), None);
    assert_eq!(parse_decimal(&chars("12a")), None);
    assert_eq!(parse_decimal(&chars("-12")), None);
    assert_eq!(parse_decimal(&chars("+12")), None);
    assert_eq!(parse_decimal(&chars(" 12")), None);
    assert_eq!(parse_decimal(&chars("\u{663}")), None);
}

#[test]
fn writing_digits() {
    let mut out = String::from("n=");
    push_digits(&mut out, 0);
    push_digits(&mut out, 7);
    push_digits(&mut out, 10);
    push_digits(&mut out, 4294967295);
    assert_eq!(out, "n=07104294967295");
}

#[test]
fn writing_numbers() {
    for n in [0, 1, 9, 10, 11, 99, 100, 101, 12345, -1, -10, -12345, i32::MAX, i32::MIN] {
        let mut out = String::new();
        push_decimal(&mut out, n);
        assert_eq!(out, n.to_string());
    }
}

#[test]
fn written_numbers_are_read_back() {
    for n in [0, 1, 10, 907, 65536, i32::MAX] {
        let mut out = String::new();
        push_decimal(&mut out, n);
        assert_eq!(parse_decimal(&chars(&out)), Some(n));
    }
}
