use powder_bootstrap::text::char_continues_word;
use powder_bootstrap::text::char_is_ascii_digit;
use powder_bootstrap::text::char_is_blank;
use powder_bootstrap::text::char_starts_word;
use powder_bootstrap::text::parse_integer;
use powder_bootstrap::text::str_equal;

#[test]
fn ascii_digits_are_told() {
    for character in '0'..='9' {
        assert!(char_is_ascii_digit(character));
    }
    assert!(!char_is_ascii_digit('/'));
    assert!(!char_is_ascii_digit(':'));
    assert!(!char_is_ascii_digit('a'));
    assert!(!char_is_ascii_digit('\u{664}'));
}

#[test]
fn a_word_starts_with_a_letter_or_an_underscore() {
    for character in ('a'..='z').chain('A'..='Z') {
        assert!(char_starts_word(character));
    }
    assert!(char_starts_word('_'));
    assert!(!char_starts_word('0'));
    assert!(!char_starts_word('@'));
    assert!(!char_starts_word('['));
    assert!(!char_starts_word('`'));
    assert!(!char_starts_word('{'));
    assert!(!char_starts_word('\u{e9}'));
}

#[test]
fn a_word_goes_on_over_alphanumeric_characters() {
    assert!(char_continues_word('a'));
    assert!(char_continues_word('Z'));
    assert!(char_continues_word('_'));
    assert!(char_continues_word('7'));
    assert!(char_continues_word('\u{e9}'));
    assert!(char_continues_word('\u{664}'));
    assert!(!char_continues_word(' '));
    assert!(!char_continues_word('\n'));
    assert!(!char_continues_word('-'));
    assert!(!char_continues_word(';'));
}

#[test]
fn integers_are_read_in_base_ten() {
    assert_eq!(parse_integer("0"), Some(0));
    assert_eq!(parse_integer("7"), Some(7));
    assert_eq!(parse_integer("15"), Some(15));
    assert_eq!(parse_integer("007"), Some(7));
    assert_eq!(parse_integer("1234567890"), Some(1234567890));
    assert_eq!(parse_integer("+5"), Some(5));
    assert_eq!(parse_integer("-3"), Some(-3));
    assert_eq!(parse_integer("-0"), Some(0));
}

#[test]
fn what_writes_no_integer_is_refused() {
    assert_eq!(parse_integer(""), None);
    assert_eq!(parse_integer("+"), None);
    assert_eq!(parse_integer("-"), None);
    assert_eq!(parse_integer("12a"), None);
    assert_eq!(parse_integer("a12"), None);
    assert_eq!(parse_integer(" 1"), None);
    assert_eq!(parse_integer("1 "), None);
    assert_eq!(parse_integer("1_000"), None);
    assert_eq!(parse_integer("--1"), None);
    assert_eq!(parse_integer("+-1"), None);
    assert_eq!(parse_integer("1+"), None);
    assert_eq!(parse_integer("0x10"), None);
    assert_eq!(parse_integer("\u{664}"), None);
}

#[test]
fn integers_at_the_limits_are_read() {
    assert_eq!(parse_integer("170141183460469231731687303715884105727"), Some(i128::MAX));
    assert_eq!(parse_integer("+170141183460469231731687303715884105727"), Some(i128::MAX));
    assert_eq!(parse_integer("-170141183460469231731687303715884105728"), Some(i128::MIN));
    assert_eq!(parse_integer("-170141183460469231731687303715884105727"), Some(i128::MIN + 1));
    assert_eq!(
        parse_integer("000000000000000000000000000000000000000000000000000000000000012"),
        Some(12)
    );
}

#[test]
fn integers_beyond_the_limits_are_refused() {
    assert_eq!(parse_integer("170141183460469231731687303715884105728"), None);
    assert_eq!(parse_integer("-170141183460469231731687303715884105729"), None);
    assert_eq!(parse_integer("1701411834604692317316873037158841057270"), None);
    assert_eq!(parse_integer("999999999999999999999999999999999999999"), None);
    assert_eq!(parse_integer("340282366920938463463374607431768211456"), None);
    assert_eq!(parse_integer("99999999999999999999999999999999999999999999999999999999"), None);
    assert_eq!(parse_integer("9999999999999999999999999999999999999999999999999999999x"), None);
}

#[test]
fn integers_are_read_as_the_standard_library_reads_them() {
    let samples = [
        "", "0", "1", "-1", "+1", "+", "-", "00", "-00", "+-1", "1-", "12345", "-12345", "1e3",
        "1.0", "١٢٣", "170141183460469231731687303715884105727",
        "170141183460469231731687303715884105728", "-170141183460469231731687303715884105728",
        "-170141183460469231731687303715884105729", "18446744073709551616", " 1", "1\n",
    ];
    for sample in samples {
        assert_eq!(parse_integer(sample), sample.parse::<i128>().ok(), "{:?}", sample);
    }
    for value in -300i128..300 {
        assert_eq!(parse_integer(&value.to_string()), Some(value));
    }
}

#[test]
fn blanks_are_what_the_tables_call_whitespace() {
    for character in '\0'..=char::MAX {
        assert_eq!(char_is_blank(character), character.is_whitespace(), "{:?}", character);
    }
}

#[test]
fn the_ascii_blanks_are_six() {
    let blanks: Vec<char> = ('\0'..='\u{7f}').filter(|character| char_is_blank(*character)).collect();
    assert_eq!(blanks, vec!['\t', '\n', '\u{b}', '\u{c}', '\r', ' ']);
    assert!(char_is_blank('\u{85}'));
    assert!(char_is_blank('\u{a0}'));
    assert!(char_is_blank('\u{2028}'));
    assert!(!char_is_blank('\u{200b}'));
    assert!(!char_is_blank('a'));
}

#[test]
fn words_go_on_over_what_the_tables_call_alphanumeric() {
    for character in '\0'..=char::MAX {
        assert_eq!(
            char_continues_word(character),
            character.is_alphanumeric() || character == '_',
            "{:?}",
            character
        );
    }
}

#[test]
fn digits_and_word_starts_are_told_as_the_standard_library_tells_them() {
    for character in '\0'..=char::MAX {
        assert_eq!(char_is_ascii_digit(character), character.is_ascii_digit(), "{:?}", character);
        assert_eq!(
            char_starts_word(character),
            character.is_ascii_alphabetic() || character == '_',
            "{:?}",
            character
        );
    }
}

#[test]
fn strings_are_equal_when_their_characters_are() {
    assert!(str_equal("", ""));
    assert!(str_equal("var", "var"));
    assert!(str_equal("x\u{e9}\u{4e2d}", &String::from("x\u{e9}\u{4e2d}")));
    assert!(!str_equal("var", "vax"));
    assert!(!str_equal("var", "va"));
    assert!(!str_equal("va", "var"));
    assert!(!str_equal("", "a"));
    assert!(!str_equal("x\u{e9}", "x\u{e8}"));
    assert!(!str_equal("x\u{e9}", "xe"));
    assert!(!str_equal("Var", "var"));
}
