use chibicc::cc::{Token, TokenKind};
use chibicc::error::{ParseErrorKind, TokenizeError};
use chibicc::tokenize::{
    classify, error_at, expect, expect_number, new_token, tokenize, CharClass,
};

fn listed(mut token: &Option<Box<Token>>) -> Vec<(TokenKind, String, usize, usize, Option<i32>)> {
    let mut out = Vec::new();
    while let Some(t) = token {
        out.push((t.kind, t.str.clone(), t.pos, t.len, t.val));
        token = &t.next;
    }
    out
}

fn reserved(text: &str, pos: usize) -> (TokenKind, String, usize, usize, Option<i32>) {
    (TokenKind::TkReserved, text.to_string(), pos, text.chars().count(), None)
}

fn ident(text: &str, pos: usize) -> (TokenKind, String, usize, usize, Option<i32>) {
    (TokenKind::TkIndent, text.to_string(), pos, 1, None)
}

fn number(text: &str, pos: usize, val: i32) -> (TokenKind, String, usize, usize, Option<i32>) {
    (TokenKind::TkNum, text.to_string(), pos, text.len(), Some(val))
}

fn eof(pos: usize) -> (TokenKind, String, usize, usize, Option<i32>) {
    (TokenKind::TkEof, String::new(), pos, 0, None)
}

#[test]
fn two_character_operator_is_one_token() {
    let tokens = tokenize("a<=b").unwrap();
    assert_eq!(listed(&tokens), vec![ident("a", 1), reserved("<=", 2), ident("b", 4), eof(5)]);
}

#[test]
fn all_two_character_operators() {
    let tokens = tokenize("== != <= >=").unwrap();
    assert_eq!(
        listed(&tokens),
        vec![reserved("==", 1), reserved("!=", 4), reserved("<=", 7), reserved(">=", 10), eof(12)]
    );
}

#[test]
fn all_one_character_operators() {
    let tokens = tokenize("+-*/()<>;=").unwrap();
    assert_eq!(
        listed(&tokens),
        vec![
            reserved("+", 1),
            reserved("-", 2),
            reserved("*", 3),
            reserved("/", 4),
            reserved("(", 5),
            reserved(")", 6),
            reserved("<", 7),
            reserved(">", 8),
            reserved(";", 9),
            reserved("=", 10),
            eof(11),
        ]
    );
}

#[test]
fn equals_before_equals_pairs_from_the_left() {
    let tokens = tokenize("===").unwrap();
    assert_eq!(listed(&tokens), vec![reserved("==", 1), reserved("=", 3), eof(4)]);
}

#[test]
fn bang_alone_is_rejected() {
    assert_eq!(tokenize("1 ! 2").err(), Some(TokenizeError::UnexpectedChar { pos: 3, ch: '!' }));
}

#[test]
fn positions_count_characters_from_one() {
    let tokens = tokenize("(1 + 2").unwrap();
    assert_eq!(
        listed(&tokens),
        vec![reserved("(", 1), number("1", 2, 1), reserved("+", 4), number("2", 6, 2), eof(7)]
    );
}

#[test]
fn positions_behind_long_tokens() {
    let tokens = tokenize("123>=45;").unwrap();
    assert_eq!(
        listed(&tokens),
        vec![number("123", 1, 123), reserved(">=", 4), number("45", 6, 45), reserved(";", 8), eof(9)]
    );
}

#[test]
fn empty_input_is_one_end_token() {
    let tokens = tokenize("").unwrap();
    assert_eq!(listed(&tokens), vec![eof(1)]);
}

#[test]
fn white_space_only() {
    let tokens = tokenize(" \t\n ").unwrap();
    assert_eq!(listed(&tokens), vec![eof(5)]);
}

#[test]
fn unicode_white_space_is_skipped() {
    let tokens = tokenize("1\u{3000}+\u{a0}2").unwrap();
    assert_eq!(
        listed(&tokens),
        vec![number("1", 1, 1), reserved("+", 3), number("2", 5, 2), eof(6)]
    );
}

#[test]
fn letters_are_identifiers_of_length_one() {
    let tokens = tokenize("ab").unwrap();
    assert_eq!(listed(&tokens), vec![ident("a", 1), ident("b", 2), eof(3)]);
}

#[test]
fn unicode_letter_is_an_identifier() {
    let tokens = tokenize("\u{e9}").unwrap();
    assert_eq!(listed(&tokens), vec![ident("\u{e9}", 1), eof(2)]);
}

#[test]
fn leading_zeros_keep_their_length() {
    let tokens = tokenize("007").unwrap();
    assert_eq!(listed(&tokens), vec![number("007", 1, 7), eof(4)]);
}

#[test]
fn largest_literal() {
    let tokens = tokenize("2147483647").unwrap();
    assert_eq!(listed(&tokens), vec![number("2147483647", 1, 2147483647), eof(11)]);
}

#[test]
fn literal_out_of_range() {
    assert_eq!(tokenize("1+2147483648").err(), Some(TokenizeError::NumberOutOfRange { pos: 3 }));
    assert_eq!(
        tokenize("99999999999999999999999999").err(),
        Some(TokenizeError::NumberOutOfRange { pos: 1 })
    );
}

#[test]
fn long_literal_of_small_value() {
    let tokens = tokenize("000000000000000000000012").unwrap();
    assert_eq!(listed(&tokens), vec![number("000000000000000000000012", 1, 12), eof(25)]);
}

#[test]
fn unknown_character() {
    assert_eq!(tokenize("1 @ 2").err(), Some(TokenizeError::UnexpectedChar { pos: 3, ch: '@' }));
    assert_eq!(tokenize("$").err(), Some(TokenizeError::UnexpectedChar { pos: 1, ch: '$' }));
}

#[test]
fn first_failure_wins() {
    assert_eq!(tokenize("# 2147483648").err(), Some(TokenizeError::UnexpectedChar { pos: 1, ch: '#' }));
}

#[test]
fn classification_follows_priority() {
    assert_eq!(classify('<', Some('='), false, false), CharClass::Pair);
    assert_eq!(classify('<', Some('='), true, false), CharClass::Space);
    assert_eq!(classify('<', Some('1'), false, false), CharClass::Single);
    assert_eq!(classify('<', None, false, false), CharClass::Single);
    assert_eq!(classify('=', Some('='), false, false), CharClass::Pair);
    assert_eq!(classify('!', Some('='), false, false), CharClass::Pair);
    assert_eq!(classify('>', Some('='), false, false), CharClass::Pair);
    assert_eq!(classify('!', Some('1'), false, false), CharClass::Unknown);
    assert_eq!(classify('+', Some('='), false, false), CharClass::Single);
    assert_eq!(classify('7', Some('='), false, true), CharClass::Digit);
    assert_eq!(classify('x', None, false, true), CharClass::Letter);
    assert_eq!(classify('x', None, false, false), CharClass::Unknown);
    assert_eq!(classify(' ', None, true, false), CharClass::Space);
}

#[test]
fn default_token_is_end_of_input() {
    let t = Token::default();
    assert_eq!(t.kind, TokenKind::TkEof);
    assert!(t.next.is_none());
    assert_eq!(t.val, None);
    assert_eq!(t.str, "");
    assert_eq!(t.pos, 0);
    assert_eq!(t.len, 0);
}

#[test]
fn new_token_links_behind_the_cursor() {
    let mut head = Box::new(Token::default());
    {
        let cur = &mut head;
        let cur = new_token(TokenKind::TkReserved, cur, "+".to_string(), 3, 1);
        assert_eq!(cur.kind, TokenKind::TkReserved);
        assert_eq!(cur.str, "+");
        assert_eq!(cur.pos, 3);
        assert_eq!(cur.len, 1);
        assert_eq!(cur.val, None);
        assert!(cur.next.is_none());
        new_token(TokenKind::TkEof, cur, String::new(), 4, 0);
    }
    assert_eq!(head.kind, TokenKind::TkEof);
    assert_eq!(listed(&head.next), vec![reserved("+", 3), eof(4)]);
}

#[test]
fn expect_steps_over_the_symbol() {
    let mut token = tokenize(") 1").unwrap();
    assert!(expect(&mut token, ")".to_string()).is_ok());
    assert_eq!(listed(&token), vec![number("1", 3, 1), eof(4)]);
}

#[test]
fn expect_names_what_it_found() {
    let mut token = tokenize("<= 1").unwrap();
    let e = expect(&mut token, "<".to_string()).unwrap_err();
    assert_eq!(e.kind, ParseErrorKind::ExpectedSymbol);
    assert_eq!(e.expected, "<");
    assert_eq!(e.found, "<=");
    assert_eq!(e.pos, Some(1));
    assert_eq!(listed(&token), vec![reserved("<=", 1), number("1", 4, 1), eof(5)]);
}

#[test]
fn expect_checks_the_kind() {
    let mut token = Some(Box::new(Token {
        kind: TokenKind::TkIndent,
        next: None,
        val: None,
        str: ";".to_string(),
        pos: 9,
        len: 1,
    }));
    let e = expect(&mut token, ";".to_string()).unwrap_err();
    assert_eq!(e.kind, ParseErrorKind::ExpectedSymbol);
    assert_eq!(e.found, ";");
    assert_eq!(e.pos, Some(9));
}

#[test]
fn expect_checks_the_length() {
    let mut token = Some(Box::new(Token {
        kind: TokenKind::TkReserved,
        next: None,
        val: None,
        str: ";".to_string(),
        pos: 1,
        len: 2,
    }));
    assert!(expect(&mut token, ";".to_string()).is_err());
    assert!(token.is_some());
}

#[test]
fn expect_on_an_exhausted_list() {
    let mut token: Option<Box<Token>> = None;
    let e = expect(&mut token, ";".to_string()).unwrap_err();
    assert_eq!(e.kind, ParseErrorKind::ExpectedSymbol);
    assert_eq!(e.expected, ";");
    assert_eq!(e.found, "");
    assert_eq!(e.pos, None);
}

#[test]
fn expect_number_returns_the_value() {
    let mut token = tokenize("42;").unwrap();
    assert_eq!(expect_number(&mut token).ok(), Some(42));
    assert_eq!(listed(&token), vec![reserved(";", 3), eof(4)]);
}

#[test]
fn expect_number_on_a_symbol() {
    let mut token = tokenize("  ;").unwrap();
    let e = expect_number(&mut token).unwrap_err();
    assert_eq!(e.kind, ParseErrorKind::ExpectedNumber);
    assert_eq!(e.expected, "");
    assert_eq!(e.found, ";");
    assert_eq!(e.pos, Some(3));
    assert_eq!(listed(&token), vec![reserved(";", 3), eof(4)]);
}

#[test]
fn expect_number_without_a_value() {
    let mut token = Some(Box::new(Token {
        kind: TokenKind::TkNum,
        next: None,
        val: None,
        str: "5".to_string(),
        pos: 2,
        len: 1,
    }));
    let e = expect_number(&mut token).unwrap_err();
    assert_eq!(e.kind, ParseErrorKind::MissingValue);
    assert_eq!(e.found, "5");
    assert_eq!(e.pos, Some(2));
    assert!(token.is_some());
}

#[test]
fn expect_number_on_an_exhausted_list() {
    let mut token: Option<Box<Token>> = None;
    let e = expect_number(&mut token).unwrap_err();
    assert_eq!(e.kind, ParseErrorKind::ExpectedNumber);
    assert_eq!(e.pos, None);
}

#[test]
fn diagnostic_puts_the_caret_under_the_position() {
    assert_eq!(error_at("(1 + 2", 7, "expected ')'"), "(1 + 2\n      ^ \nexpected ')'\n");
    assert_eq!(error_at("@", 1, "bad"), "@\n^ \nbad\n");
    assert_eq!(error_at("@", 0, "bad"), "@\n^ \nbad\n");
    assert_eq!(error_at("", 3, ""), "\n  ^ \n\n");
}
