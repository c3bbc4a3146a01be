use rule_parser::primitives::{
    digits_value, end_of_text_at, float, float_from_match, is_decimal, parse_float, parse_signed,
    parse_token, parse_unsigned, parse_word, signed, token, unsigned, word, Primitive,
};
use rule_parser::scan::{belongs_to, is_ascii_digit, is_whitespace, scan_run, CharClass};
use rule_parser::{Node, ParseError, ParseKey, Parser, PrintableCallback};

#[test]
fn word_runs_to_the_next_whitespace() {
    assert_eq!(parse_word("hello world", 0), Some((Node::LiteralStr("hello"), 5)));
    assert_eq!(parse_word("hello world", 6), Some((Node::LiteralStr("world"), 11)));
    assert_eq!(parse_word("hello world", 2), Some((Node::LiteralStr("llo"), 5)));
    assert_eq!(parse_word("a\tb", 0), Some((Node::LiteralStr("a"), 1)));
}

#[test]
fn word_does_not_skip_whitespace() {
    assert_eq!(parse_word("hello world", 5), None);
    assert_eq!(parse_word(" x", 0), None);
}

#[test]
fn word_fails_at_the_end() {
    assert_eq!(parse_word("hello", 5), None);
    assert_eq!(parse_word("", 0), None);
}

#[test]
fn word_counts_characters() {
    assert_eq!(parse_word("héllo wörld", 0), Some((Node::LiteralStr("héllo"), 5)));
    assert_eq!(parse_word("héllo wörld", 6), Some((Node::LiteralStr("wörld"), 11)));
    assert_eq!(parse_word("日本\u{3000}語", 0), Some((Node::LiteralStr("日本"), 2)));
}

#[test]
fn unsigned_reads_the_digit_run() {
    assert_eq!(parse_unsigned("123abc", 0), Some((Node::LiteralUnsigned(123), 3)));
    assert_eq!(parse_unsigned("a123", 1), Some((Node::LiteralUnsigned(123), 4)));
    assert_eq!(parse_unsigned("007", 0), Some((Node::LiteralUnsigned(7), 3)));
    assert_eq!(parse_unsigned("0", 0), Some((Node::LiteralUnsigned(0), 1)));
    assert_eq!(parse_unsigned("12 34", 0), Some((Node::LiteralUnsigned(12), 2)));
}

#[test]
fn unsigned_fails_without_a_digit() {
    assert_eq!(parse_unsigned("abc", 0), None);
    assert_eq!(parse_unsigned("-1", 0), None);
    assert_eq!(parse_unsigned("+1", 0), None);
    assert_eq!(parse_unsigned(" 1", 0), None);
    assert_eq!(parse_unsigned("1", 1), None);
    assert_eq!(parse_unsigned("", 0), None);
    assert_eq!(parse_unsigned("\u{663}", 0), None);
}

#[test]
fn unsigned_fails_on_overflow() {
    assert_eq!(
        parse_unsigned("18446744073709551615", 0),
        Some((Node::LiteralUnsigned(u64::MAX), 20))
    );
    assert_eq!(parse_unsigned("18446744073709551616", 0), None);
    assert_eq!(parse_unsigned("99999999999999999999", 0), None);
    assert_eq!(parse_unsigned("184467440737095516150", 0), None);
    assert_eq!(
        parse_unsigned("00018446744073709551615", 0),
        Some((Node::LiteralUnsigned(u64::MAX), 23))
    );
}

#[test]
fn signed_reads_digits_without_a_sign() {
    assert_eq!(parse_signed("123abc", 0), Some((Node::LiteralSigned(123), 3)));
    assert_eq!(parse_signed("-123", 0), None);
    assert_eq!(parse_signed("-123", 1), Some((Node::LiteralSigned(123), 4)));
    assert_eq!(parse_signed("+5", 0), None);
    assert_eq!(parse_signed("", 0), None);
}

#[test]
fn signed_fails_on_overflow() {
    assert_eq!(
        parse_signed("9223372036854775807", 0),
        Some((Node::LiteralSigned(i64::MAX), 19))
    );
    assert_eq!(parse_signed("9223372036854775808", 0), None);
    assert_eq!(parse_signed("18446744073709551615", 0), None);
    assert_eq!(parse_signed("18446744073709551616", 0), None);
}

#[test]
fn float_reads_sign_digits_point_digits() {
    assert_eq!(parse_float("3.14", 0), Some((Node::LiteralFloat("3.14"), 4)));
    assert_eq!(parse_float("-0.5x", 0), Some((Node::LiteralFloat("-0.5"), 4)));
    assert_eq!(parse_float("+10.25 rest", 0), Some((Node::LiteralFloat("+10.25"), 6)));
    assert_eq!(parse_float("x=2.50", 2), Some((Node::LiteralFloat("2.50"), 6)));
    assert_eq!(parse_float("1.5abc", 0), Some((Node::LiteralFloat("1.5"), 3)));
    assert_eq!(parse_float("1.2.3", 0), Some((Node::LiteralFloat("1.2"), 3)));
}

#[test]
fn float_text_is_a_number() {
    let (node, _) = parse_float("x -12.75", 2).unwrap();
    match node {
        Node::LiteralFloat(text) => assert_eq!(text.parse::<f64>().unwrap(), -12.75),
        _ => panic!("no numeral"),
    }
}

#[test]
fn float_needs_digits_on_both_sides() {
    assert_eq!(parse_float("3", 0), None);
    assert_eq!(parse_float("3.", 0), None);
    assert_eq!(parse_float(".5", 0), None);
    assert_eq!(parse_float("-.5", 0), None);
    assert_eq!(parse_float("+-1.5", 0), None);
    assert_eq!(parse_float("abc", 0), None);
    assert_eq!(parse_float("", 0), None);
    assert_eq!(parse_float("1.5", 3), None);
}

#[test]
fn float_is_anchored_at_the_offset() {
    assert_eq!(parse_float(" 1.5", 0), None);
    assert_eq!(parse_float("a1.5", 0), None);
    assert_eq!(parse_float("a1.5", 1), Some((Node::LiteralFloat("1.5"), 4)));
}

#[test]
fn float_wants_ascii_digits() {
    assert_eq!(parse_float("\u{661}.\u{665}", 0), None);
    assert_eq!(parse_float("1.5\u{663}", 0), None);
    assert_eq!(parse_float("é1.5", 1), Some((Node::LiteralFloat("1.5"), 4)));
}

#[test]
fn float_from_a_given_match() {
    assert_eq!(
        float_from_match("ab1.5c", 2, Some("1.5")),
        Some((Node::LiteralFloat("1.5"), 5))
    );
    assert_eq!(float_from_match("ab1.5c", 2, None), None);
    assert_eq!(float_from_match("ab1.5c", 1, Some("1.5")), None);
    assert_eq!(float_from_match("ab1.5c", 2, Some("1.5c")), None);
    assert_eq!(float_from_match("ab1.5", 2, Some("1.55")), None);
    assert_eq!(float_from_match("12", 0, Some("12")), None);
    assert_eq!(float_from_match("", 0, Some("")), None);
}

#[test]
fn decimal_numerals() {
    assert!(is_decimal("0.0"));
    assert!(is_decimal("+12.5"));
    assert!(is_decimal("-12.50"));
    assert!(!is_decimal(""));
    assert!(!is_decimal("+"));
    assert!(!is_decimal("1"));
    assert!(!is_decimal("1."));
    assert!(!is_decimal(".1"));
    assert!(!is_decimal("1.2.3"));
    assert!(!is_decimal("1.2 "));
    assert!(!is_decimal("1,2"));
    assert!(!is_decimal("--1.2"));
    assert!(!is_decimal("\u{661}.5"));
}

#[test]
fn token_matches_its_literal() {
    assert_eq!(parse_token("+", "3+2", 1), Some((Node::Token("+"), 2)));
    assert_eq!(parse_token("let", "let x", 0), Some((Node::Token("let"), 3)));
    assert_eq!(parse_token("let", "letter", 0), Some((Node::Token("let"), 3)));
    assert_eq!(parse_token("→", "a→b", 1), Some((Node::Token("→"), 2)));
    assert_eq!(parse_token("+", "3+2", 0), None);
    assert_eq!(parse_token("let", "le", 0), None);
    assert_eq!(parse_token("let", "let", 1), None);
    assert_eq!(parse_token("+", "+", 1), None);
}

#[test]
fn empty_token_matches_without_moving() {
    assert_eq!(parse_token("", "abc", 1), Some((Node::Token(""), 1)));
    assert_eq!(parse_token("", "", 0), Some((Node::Token(""), 0)));
}

#[test]
fn end_of_a_text_in_the_input() {
    assert_eq!(end_of_text_at("abcabc", 3, "abc"), Some(6));
    assert_eq!(end_of_text_at("abcabc", 3, "ab"), Some(5));
    assert_eq!(end_of_text_at("abcabc", 3, ""), Some(3));
    assert_eq!(end_of_text_at("abcabc", 4, "abc"), None);
    assert_eq!(end_of_text_at("abcabc", 3, "abd"), None);
    assert_eq!(end_of_text_at("abcabc", 6, "a"), None);
}

#[test]
fn value_of_a_digit_run() {
    assert_eq!(digits_value("x120y", 1, 4), Some(120));
    assert_eq!(digits_value("x120y", 1, 1), Some(0));
    assert_eq!(digits_value("x120y", 2, 3), Some(2));
    assert_eq!(digits_value("18446744073709551615", 0, 20), Some(u64::MAX));
    assert_eq!(digits_value("18446744073709551616", 0, 20), None);
    assert_eq!(digits_value("18446744073709551616", 0, 19), Some(1844674407370955161));
}

#[test]
fn character_classes() {
    for c in [' ', '\t', '\n', '\u{b}', '\u{c}', '\r', '\u{85}', '\u{a0}', '\u{1680}'] {
        assert!(is_whitespace(c));
    }
    for c in ['\u{2000}', '\u{2005}', '\u{200a}', '\u{2028}', '\u{2029}', '\u{202f}'] {
        assert!(is_whitespace(c));
    }
    assert!(is_whitespace('\u{205f}'));
    assert!(is_whitespace('\u{3000}'));
    for c in ['a', '0', '\u{8}', '\u{e}', '\u{1f}', '\u{200b}', '\u{180e}', '\u{feff}', '_'] {
        assert!(!is_whitespace(c));
    }
    for c in ['0', '5', '9'] {
        assert!(is_ascii_digit(c));
    }
    for c in ['/', ':', 'a', ' ', '\u{663}', '\u{ff11}'] {
        assert!(!is_ascii_digit(c));
    }
    assert!(belongs_to(CharClass::Space, ' '));
    assert!(!belongs_to(CharClass::Space, 'x'));
    assert!(belongs_to(CharClass::NonSpace, 'x'));
    assert!(!belongs_to(CharClass::NonSpace, ' '));
    assert!(belongs_to(CharClass::Digit, '7'));
    assert!(!belongs_to(CharClass::Digit, 'x'));
}

#[test]
fn whitespace_is_what_the_standard_library_calls_so() {
    for code in 0..0x11_0000u32 {
        if let Some(c) = char::from_u32(code) {
            assert_eq!(is_whitespace(c), c.is_whitespace(), "U+{:04X}", code);
            assert_eq!(is_ascii_digit(c), c.is_ascii_digit(), "U+{:04X}", code);
        }
    }
}

#[test]
fn runs_of_a_class() {
    assert_eq!(scan_run("12ab  ", 0, CharClass::Digit), 2);
    assert_eq!(scan_run("12ab  ", 0, CharClass::NonSpace), 4);
    assert_eq!(scan_run("12ab  ", 0, CharClass::Space), 0);
    assert_eq!(scan_run("12ab  ", 4, CharClass::Space), 6);
    assert_eq!(scan_run("12ab  ", 6, CharClass::Space), 6);
    assert_eq!(scan_run("12ab  ", 1, CharClass::Digit), 2);
}

#[test]
fn primitives_are_matchers() {
    assert_eq!(Primitive::Word.call("ab cd", 3), Some((Node::LiteralStr("cd"), 5)));
    assert_eq!(Primitive::Unsigned.call("ab 12", 3), Some((Node::LiteralUnsigned(12), 5)));
    assert_eq!(Primitive::Signed.call("ab 12", 3), Some((Node::LiteralSigned(12), 5)));
    assert_eq!(Primitive::Float.call("ab 1.2", 3), Some((Node::LiteralFloat("1.2"), 6)));
    assert_eq!(
        Primitive::Token("cd".to_string()).call("ab cd", 3),
        Some((Node::Token("cd"), 5))
    );
    assert_eq!(Primitive::Word.call("ab cd", 2), None);
    assert_eq!(Primitive::Word.name(), "parse_word");
    assert_eq!(Primitive::Unsigned.name(), "parse_unsigned");
    assert_eq!(Primitive::Signed.name(), "parse_signed");
    assert_eq!(Primitive::Float.name(), "parse_float");
    assert_eq!(Primitive::Token("x".to_string()).name(), "parse_token");
}

#[test]
fn every_primitive_in_one_grammar() {
    let parser = Parser::new(vec![(
        ParseKey("record"),
        vec![vec![word(), token("="), float(), unsigned(), signed()]],
    )]);
    assert_eq!(
        parser.parse("record", "pi = 3.14 7 9").unwrap(),
        Node::Expr(vec![
            Node::LiteralStr("pi"),
            Node::Token("="),
            Node::LiteralFloat("3.14"),
            Node::LiteralUnsigned(7),
            Node::LiteralSigned(9),
        ])
    );
    assert_eq!(parser.parse("record", "pi = 3 7 9").unwrap_err(), ParseError::NoRuleMatched);
}

#[test]
fn nothing_matches_behind_the_end() {
    assert_eq!(parse_unsigned("12", 3), None);
    assert_eq!(parse_unsigned("12", usize::MAX), None);
    assert_eq!(parse_signed("12", 3), None);
    assert_eq!(parse_word("ab", 3), None);
    assert_eq!(parse_word("", 1), None);
    assert_eq!(parse_float("1.5", 4), None);
    assert_eq!(parse_float("1.5", usize::MAX), None);
    assert_eq!(parse_token("a", "a", 2), None);
    assert_eq!(parse_token("", "a", 2), None);
    assert_eq!(parse_token("", "a", 1), Some((Node::Token(""), 1)));
    assert_eq!(float_from_match("1.5", 4, Some("1.5")), None);
    assert_eq!(end_of_text_at("ab", 3, ""), None);
    assert_eq!(end_of_text_at("ab", usize::MAX, "b"), None);
    assert_eq!(Primitive::Word.call("ab", 3), None);
    assert_eq!(Primitive::Unsigned.call("12", 3), None);
    assert_eq!(Primitive::Signed.call("12", 3), None);
    assert_eq!(Primitive::Float.call("1.5", 9), None);
    assert_eq!(Primitive::Token("a".to_string()).call("a", 2), None);
}

#[test]
fn a_run_behind_the_end_is_empty() {
    assert_eq!(scan_run("12", 3, CharClass::Digit), 3);
    assert_eq!(scan_run("  ", 7, CharClass::Space), 7);
    assert_eq!(scan_run("", usize::MAX, CharClass::NonSpace), usize::MAX);
}
