use golf::error::LexError;
use golf::lexer::{classified_lexer, lex_classified, lexer, Lexer};
use golf::matcher::{
    AnyMatcher, ConstantMatcher, FloatLiteralMatcher, IdentifierMatcher, IntLiteralMatcher,
    KeyMatcher, StringLiteralMatcher, WhitespaceMatcher,
};
use golf::text::{
    chars_of, classify, classify_all, decimal_text, read_decimal, string_of, CharClass,
};
use golf::token::{Token, TokenPosition, TokenType};
use golf::tokenizer::{Snapshot, Tokenizer};

fn kinds_and_texts(source: &str) -> Vec<(TokenType, String)> {
    lexer(source)
        .tokens()
        .unwrap()
        .iter()
        .map(|t| (t.token_type, t.content().clone()))
        .collect()
}

fn one(kind: TokenType, text: &str) -> Vec<(TokenType, String)> {
    vec![(kind, text.to_string())]
}

fn lex_error(source: &str) -> LexError {
    lexer(source).tokens().unwrap_err()
}

#[test]
fn float_literal_keeps_its_text() {
    assert_eq!(kinds_and_texts("12.5"), one(TokenType::FloatLiteral, "12.5"));
}

#[test]
fn integer_literal_keeps_its_text() {
    assert_eq!(kinds_and_texts("42"), one(TokenType::IntLiteral, "42"));
}

#[test]
fn integer_matcher_takes_the_sign_into_the_literal() {
    let mut tokenizer = Tokenizer::new("-3");
    let token = tokenizer.try_match_token(&IntLiteralMatcher {}).unwrap().unwrap();
    assert_eq!(token.token_type, TokenType::IntLiteral);
    assert_eq!(token.content(), "-3");
    assert!(tokenizer.end());
}

#[test]
fn number_matcher_takes_the_sign_into_the_literal() {
    let mut tokenizer = Tokenizer::new("-3");
    let token = tokenizer.try_match_token(&FloatLiteralMatcher).unwrap().unwrap();
    assert_eq!(token.token_type, TokenType::IntLiteral);
    assert_eq!(token.content(), "-3");

    let mut tokenizer = Tokenizer::new("+3.25");
    let token = tokenizer.try_match_token(&FloatLiteralMatcher).unwrap().unwrap();
    assert_eq!(token.token_type, TokenType::FloatLiteral);
    assert_eq!(token.content(), "3.25");

    let mut tokenizer = Tokenizer::new("-.5");
    let token = tokenizer.try_match_token(&FloatLiteralMatcher).unwrap().unwrap();
    assert_eq!(token.token_type, TokenType::FloatLiteral);
    assert_eq!(token.content(), "-0.5");
}

#[test]
fn the_lexer_tries_operators_before_numbers() {
    assert_eq!(
        kinds_and_texts("-3"),
        vec![
            (TokenType::Operator, "-".to_string()),
            (TokenType::IntLiteral, "3".to_string()),
        ]
    );
}

#[test]
fn keyword_followed_by_a_word_character_is_a_name() {
    assert_eq!(kinds_and_texts("true1"), one(TokenType::Identifier, "true1"));
    assert_eq!(kinds_and_texts("false_"), one(TokenType::Identifier, "false_"));
    assert_eq!(kinds_and_texts("true?"), one(TokenType::Identifier, "true?"));
}

#[test]
fn keyword_at_a_boundary_is_a_boolean() {
    assert_eq!(kinds_and_texts("true"), one(TokenType::BoolLiteral, "true"));
    assert_eq!(kinds_and_texts("false"), one(TokenType::BoolLiteral, "false"));
    assert_eq!(
        kinds_and_texts("true)"),
        vec![
            (TokenType::BoolLiteral, "true".to_string()),
            (TokenType::Symbol, ")".to_string()),
        ]
    );
}

#[test]
fn leading_zeros_are_dropped_from_integers() {
    assert_eq!(kinds_and_texts("007"), one(TokenType::IntLiteral, "7"));
    assert_eq!(kinds_and_texts("000"), one(TokenType::IntLiteral, "0"));
}

#[test]
fn greatest_integers() {
    assert_eq!(
        kinds_and_texts("18446744073709551615"),
        one(TokenType::IntLiteral, "18446744073709551615")
    );
    let mut tokenizer = Tokenizer::new("-9223372036854775807");
    let token = tokenizer.try_match_token(&IntLiteralMatcher {}).unwrap().unwrap();
    assert_eq!(token.content(), "-9223372036854775807");
}

#[test]
fn integer_too_large_is_an_error() {
    let error = lex_error("a = 18446744073709551616");
    assert_eq!(
        error.to_string(),
        "unable to parse int: number too large to fit in target type"
    );
    assert_eq!(error.position, Some(TokenPosition::new(1, 4)));

    let mut tokenizer = Tokenizer::new("-9223372036854775808");
    assert!(tokenizer.try_match_token(&IntLiteralMatcher {}).is_err());
    assert_eq!(*tokenizer.index(), 0);
}

#[test]
fn second_decimal_point_is_an_error() {
    let error = lex_error("1.2.3");
    assert_eq!(error.to_string(), "illegal decimal point");
    assert_eq!(error.position, Some(TokenPosition::new(1, 0)));
}

#[test]
fn lone_point_is_the_combine_operator() {
    assert_eq!(kinds_and_texts("."), one(TokenType::Operator, "."));
    let mut tokenizer = Tokenizer::new(".x");
    assert!(tokenizer.try_match_token(&FloatLiteralMatcher).unwrap().is_none());
    assert_eq!(*tokenizer.index(), 0);
}

#[test]
fn string_escapes() {
    assert_eq!(
        kinds_and_texts(r#""a\n\r\t\\\'\"b""#),
        one(TokenType::StringLiteral, "a\n\r\t\\'\"b")
    );
}

#[test]
fn raw_string_keeps_backslashes() {
    assert_eq!(kinds_and_texts(r#"r"a\nb""#), one(TokenType::StringLiteral, "a\\nb"));
}

#[test]
fn char_literal_holds_one_character() {
    assert_eq!(kinds_and_texts("'x'"), one(TokenType::CharLiteral, "x"));
    assert_eq!(kinds_and_texts("'\\n'"), one(TokenType::CharLiteral, "\n"));
}

#[test]
fn char_literal_with_two_characters_is_an_error() {
    assert_eq!(lex_error("'xy'").to_string(), "invalid char literal");
    assert_eq!(lex_error("''").to_string(), "invalid char literal");
}

#[test]
fn unknown_escape_is_an_error() {
    let error = lex_error("x = \"a\\qb\"");
    assert_eq!(error.to_string(), "invalid character escape: q");
    assert_eq!(error.position, Some(TokenPosition::new(1, 4)));
}

#[test]
fn backslash_at_the_end_is_an_error() {
    assert_eq!(lex_error("\"a\\").to_string(), "unterminated character escape");
}

#[test]
fn string_without_closing_quote_ends_with_the_text() {
    assert_eq!(kinds_and_texts("\"abc"), one(TokenType::StringLiteral, "abc"));
}

#[test]
fn identifiers_take_letters_digits_and_marks() {
    assert_eq!(kinds_and_texts("a_b?c'9"), one(TokenType::Identifier, "a_b?c'9"));
    assert_eq!(kinds_and_texts("_"), one(TokenType::Identifier, "_"));
    assert_eq!(kinds_and_texts("łódź"), one(TokenType::Identifier, "łódź"));
}

#[test]
fn operators_prefer_the_listed_order() {
    assert_eq!(kinds_and_texts("++"), one(TokenType::Operator, "++"));
    assert_eq!(kinds_and_texts(">="), one(TokenType::Operator, ">="));
    assert_eq!(kinds_and_texts("<|"), one(TokenType::Operator, "<|"));
    assert_eq!(kinds_and_texts("|>"), one(TokenType::Operator, "|>"));
    assert_eq!(kinds_and_texts("=="), one(TokenType::Operator, "=="));
    assert_eq!(kinds_and_texts("="), one(TokenType::Symbol, "="));
    assert_eq!(kinds_and_texts("|"), one(TokenType::Symbol, "|"));
    assert_eq!(
        kinds_and_texts("~=!"),
        vec![
            (TokenType::Operator, "~=".to_string()),
            (TokenType::Symbol, "!".to_string()),
        ]
    );
}

#[test]
fn line_ends_and_indentation_are_tokens() {
    assert_eq!(
        kinds_and_texts("a\n  b\n\tc"),
        vec![
            (TokenType::Identifier, "a".to_string()),
            (TokenType::EOL, "\n".to_string()),
            (TokenType::Indent, "  ".to_string()),
            (TokenType::Identifier, "b".to_string()),
            (TokenType::EOL, "\n".to_string()),
            (TokenType::Indent, "\t".to_string()),
            (TokenType::Identifier, "c".to_string()),
        ]
    );
}

#[test]
fn white_space_is_not_yielded() {
    assert_eq!(
        kinds_and_texts("a \u{a0} b"),
        vec![
            (TokenType::Identifier, "a".to_string()),
            (TokenType::Identifier, "b".to_string()),
        ]
    );
    assert!(kinds_and_texts(" ").is_empty());
    assert!(kinds_and_texts("").is_empty());
}

#[test]
fn lexing_stops_at_a_character_that_no_matcher_takes() {
    assert_eq!(kinds_and_texts("a @ b"), one(TokenType::Identifier, "a"));
}

#[test]
fn token_positions_count_lines_and_columns() {
    let tokens = lexer("ab = 1\n  c").tokens().unwrap();
    let positions: Vec<(usize, usize)> =
        tokens.iter().map(|t| (t.position.line, t.position.col)).collect();
    assert_eq!(positions, vec![(1, 0), (1, 3), (1, 5), (1, 6), (2, 0), (2, 2)]);
}

#[test]
fn tokenizer_advance_tracks_the_position() {
    let mut tokenizer = Tokenizer::new("ab\ncd");
    assert_eq!(tokenizer.pos, TokenPosition::new(1, 0));
    tokenizer.advance(2);
    assert_eq!(tokenizer.pos, TokenPosition::new(1, 2));
    tokenizer.advance(1);
    assert_eq!(tokenizer.pos, TokenPosition::new(2, 0));
    tokenizer.advance(2);
    assert_eq!(tokenizer.pos, TokenPosition::new(2, 2));
    assert!(tokenizer.end());
    tokenizer.advance(1);
    assert_eq!(*tokenizer.index(), 5);
    assert_eq!(tokenizer.pos, TokenPosition::new(2, 2));
}

#[test]
fn tokenizer_advance_past_the_end_reads_nothing() {
    let mut tokenizer = Tokenizer::new("abc");
    tokenizer.advance(4);
    assert_eq!(*tokenizer.index(), 0);
    tokenizer.advance(3);
    assert_eq!(*tokenizer.index(), 3);
}

#[test]
fn tokenizer_peek_and_read() {
    let mut tokenizer = Tokenizer::new("xy");
    assert_eq!(tokenizer.peek(), Some(&'x'));
    assert_eq!(tokenizer.peek_n(1), Some(&'y'));
    assert_eq!(tokenizer.peek_n(2), None);
    assert!(!tokenizer.end());
    assert!(!tokenizer.end_n(1));
    assert!(tokenizer.end_n(2));
    assert_eq!(tokenizer.read(), Some('x'));
    assert_eq!(tokenizer.next(), Some('y'));
    assert_eq!(tokenizer.read(), None);
    assert_eq!(tokenizer.peek(), None);
    assert!(tokenizer.end());
}

#[test]
fn tokenizer_rollback_restores_index_and_position() {
    let mut tokenizer = Tokenizer::new("a\nb");
    tokenizer.advance(1);
    tokenizer.take_snapshot();
    assert_eq!(tokenizer.peek_snapshot().unwrap().index, 1);
    assert_eq!(tokenizer.last_position(), TokenPosition::new(1, 1));
    tokenizer.advance(2);
    assert_eq!(tokenizer.pos, TokenPosition::new(2, 1));
    tokenizer.rollback_snapshot();
    assert_eq!(*tokenizer.index(), 1);
    assert_eq!(tokenizer.pos, TokenPosition::new(1, 1));
    assert!(tokenizer.peek_snapshot().is_none());
}

#[test]
fn tokenizer_commit_keeps_the_cursor() {
    let mut tokenizer = Tokenizer::new("abc");
    tokenizer.take_snapshot();
    tokenizer.advance(2);
    tokenizer.commit_snapshot();
    assert_eq!(*tokenizer.index(), 2);
    assert!(tokenizer.peek_snapshot().is_none());
    tokenizer.commit_snapshot();
    assert_eq!(*tokenizer.index(), 2);
}

#[test]
fn snapshot_holds_what_it_is_given() {
    let snapshot = Snapshot::new(3, TokenPosition::new(2, 1));
    assert_eq!(snapshot.index, 3);
    assert_eq!(snapshot.pos, TokenPosition::new(2, 1));
}

#[test]
fn failed_match_leaves_the_tokenizer_as_it_was() {
    let mut tokenizer = Tokenizer::new("abcd ef");
    tokenizer.advance(1);
    let before = (*tokenizer.index(), tokenizer.pos);
    assert!(tokenizer.try_match_token(&IntLiteralMatcher {}).unwrap().is_none());
    assert_eq!((*tokenizer.index(), tokenizer.pos), before);
    assert!(tokenizer.try_match_token(&StringLiteralMatcher {}).unwrap().is_none());
    assert_eq!((*tokenizer.index(), tokenizer.pos), before);
    assert!(tokenizer.try_match_token(&WhitespaceMatcher).unwrap().is_none());
    assert_eq!((*tokenizer.index(), tokenizer.pos), before);
    let key = KeyMatcher::new(TokenType::Keyword, vec!["bc".to_string()]);
    assert!(tokenizer.try_match_token(&key).unwrap().is_none());
    assert_eq!((*tokenizer.index(), tokenizer.pos), before);
    assert!(tokenizer.peek_snapshot().is_none());
}

#[test]
fn match_at_the_end_gives_the_end_of_stream_token() {
    let mut tokenizer = Tokenizer::new("ab");
    tokenizer.advance(2);
    let token = tokenizer.try_match_token(&IdentifierMatcher).unwrap().unwrap();
    assert_eq!(token.token_type, TokenType::EOF);
    assert_eq!(token.position, TokenPosition::new(2, 2));
    assert_eq!(token.content(), "");
}

#[test]
fn constant_matcher_takes_the_first_that_stands() {
    let matcher = ConstantMatcher::new(
        TokenType::Operator,
        vec!["".to_string(), "<".to_string(), "<=".to_string()],
    );
    let mut tokenizer = Tokenizer::new("<=");
    let token = tokenizer.try_match_token(&matcher).unwrap().unwrap();
    assert_eq!(token.content(), "<");
    assert_eq!(token.token_type, TokenType::Operator);
    assert_eq!(*tokenizer.index(), 1);
}

#[test]
fn constant_matcher_needs_the_whole_text() {
    let matcher = ConstantMatcher::new(TokenType::Keyword, vec!["abc".to_string()]);
    let mut tokenizer = Tokenizer::new("ab");
    assert!(tokenizer.try_match_token(&matcher).unwrap().is_none());
    let mut tokenizer = Tokenizer::new("abd");
    assert!(tokenizer.try_match_token(&matcher).unwrap().is_none());
    let mut tokenizer = Tokenizer::new("abcd");
    assert!(tokenizer.try_match_token(&matcher).unwrap().is_some());
}

#[test]
fn key_matcher_stops_at_the_first_word_that_stands() {
    let matcher =
        KeyMatcher::new(TokenType::Keyword, vec!["in".to_string(), "int".to_string()]);
    let mut tokenizer = Tokenizer::new("int x");
    assert!(tokenizer.try_match_token(&matcher).unwrap().is_none());
    let mut tokenizer = Tokenizer::new("in x");
    let token = tokenizer.try_match_token(&matcher).unwrap().unwrap();
    assert_eq!(token.content(), "in");
}

#[test]
fn whitespace_matcher_gives_an_empty_token() {
    let mut tokenizer = Tokenizer::new(" \t\n x");
    let token = tokenizer.try_match_token(&WhitespaceMatcher).unwrap().unwrap();
    assert_eq!(token.token_type, TokenType::Whitespace);
    assert_eq!(token.content(), "");
    assert_eq!(*tokenizer.index(), 4);
}

#[test]
fn lexer_without_matchers_finds_nothing() {
    let mut lexer = Lexer::new(Tokenizer::new("abc"));
    assert!(lexer.matchers().is_empty());
    assert!(lexer.match_token().unwrap().is_none());
    assert!(lexer.tokens().unwrap().is_empty());
}

#[test]
fn lexer_matchers_can_be_added() {
    let mut lexer = Lexer::new(Tokenizer::new("abc 12"));
    lexer.matchers_mut().push(AnyMatcher::Whitespace(WhitespaceMatcher));
    lexer.matchers_mut().push(AnyMatcher::Identifier(IdentifierMatcher));
    assert_eq!(lexer.matchers().len(), 2);
    let tokens = lexer.tokens().unwrap();
    let texts: Vec<&str> = tokens.iter().map(|t| t.content().as_str()).collect();
    assert_eq!(texts, vec!["abc", "12"]);
}

#[test]
fn lexer_match_token_yields_white_space_and_end_of_stream() {
    let mut lexer = lexer("a b");
    assert_eq!(lexer.match_token().unwrap().unwrap().token_type, TokenType::Identifier);
    assert_eq!(lexer.match_token().unwrap().unwrap().token_type, TokenType::Whitespace);
    assert_eq!(lexer.match_token().unwrap().unwrap().token_type, TokenType::Identifier);
    assert_eq!(lexer.match_token().unwrap().unwrap().token_type, TokenType::EOF);
    assert!(lexer.next_token().unwrap().is_none());
}

#[test]
fn standard_lexer_has_ten_matchers_in_order() {
    let lexer = lexer("");
    let matchers = lexer.matchers();
    assert_eq!(matchers.len(), 10);
    assert!(matches!(&matchers[0], AnyMatcher::Constant(m) if m.token_type == TokenType::EOL));
    assert!(matches!(&matchers[1], AnyMatcher::Constant(m) if m.token_type == TokenType::Indent));
    assert!(matches!(&matchers[2], AnyMatcher::Whitespace(_)));
    assert!(
        matches!(&matchers[3], AnyMatcher::Constant(m) if m.token_type == TokenType::Operator
            && m.constants.len() == 17 && m.constants[0] == "++")
    );
    assert!(
        matches!(&matchers[4], AnyMatcher::Constant(m) if m.token_type == TokenType::Symbol
            && m.constants.len() == 13)
    );
    assert!(matches!(&matchers[5], AnyMatcher::FloatLiteral(_)));
    assert!(matches!(&matchers[6], AnyMatcher::IntLiteral(_)));
    assert!(matches!(&matchers[7], AnyMatcher::StringLiteral(_)));
    assert!(
        matches!(&matchers[8], AnyMatcher::Key(m) if m.token_type == TokenType::BoolLiteral
            && m.constants == vec!["true".to_string(), "false".to_string()])
    );
    assert!(matches!(&matchers[9], AnyMatcher::Identifier(_)));
}

#[test]
fn tokens_are_equal_by_kind_alone() {
    let a = Token::new(TokenType::Identifier, TokenPosition::new(1, 0), "a".to_string());
    let b = Token::new(TokenType::Identifier, TokenPosition::new(7, 3), "b".to_string());
    let c = Token::new(TokenType::Symbol, TokenPosition::new(1, 0), "a".to_string());
    assert!(a == b);
    assert!(a != c);
    assert!(a.duplicate() == a);
    assert_eq!(a.duplicate().content(), "a");
}

#[test]
fn default_position_is_line_one_column_zero() {
    assert_eq!(TokenPosition::default(), TokenPosition::new(1, 0));
    assert_eq!(TokenPosition::new(12, 305).to_string(), "[12, 305]");
}

#[test]
fn token_kind_names() {
    assert_eq!(TokenType::IntLiteral.name(), "IntLiteral");
    assert_eq!(TokenType::EOL.name(), "EOL");
    assert_eq!(TokenType::Whitespace.name(), "Whitespace");
}

#[test]
fn decimal_text_of_numbers() {
    assert_eq!(decimal_text(0), "0");
    assert_eq!(decimal_text(9), "9");
    assert_eq!(decimal_text(10), "10");
    assert_eq!(decimal_text(1234567890), "1234567890");
    assert_eq!(decimal_text(u128::MAX), "340282366920938463463374607431768211455");
}

#[test]
fn read_decimal_stops_at_the_limit() {
    let digits = chars_of("x255y");
    assert_eq!(read_decimal(&digits, 1, 4, 255), Some(255));
    assert_eq!(read_decimal(&digits, 1, 4, 254), None);
    assert_eq!(read_decimal(&digits, 1, 1, 0), Some(0));
    assert_eq!(read_decimal(&digits, 2, 4, 100), Some(55));
}

#[test]
fn characters_and_strings_convert_both_ways() {
    let chars = chars_of("héllo");
    assert_eq!(chars, vec!['h', 'é', 'l', 'l', 'o']);
    assert_eq!(string_of(&chars, 1, 4), "éll");
    assert_eq!(string_of(&chars, 2, 2), "");
}

#[test]
fn classes_are_those_of_the_standard_library() {
    assert_eq!(classify(' '), CharClass { whitespace: true, alphanumeric: false });
    assert_eq!(classify('\u{2003}'), CharClass { whitespace: true, alphanumeric: false });
    assert_eq!(classify('a'), CharClass { whitespace: false, alphanumeric: true });
    assert_eq!(classify('٣'), CharClass { whitespace: false, alphanumeric: true });
    assert_eq!(classify('+'), CharClass { whitespace: false, alphanumeric: false });
    assert_eq!(
        classify_all(&chars_of("a 1")),
        vec![
            CharClass { whitespace: false, alphanumeric: true },
            CharClass { whitespace: true, alphanumeric: false },
            CharClass { whitespace: false, alphanumeric: true },
        ]
    );
    let tokenizer = Tokenizer::new("é\n");
    assert_eq!(tokenizer.classes, classify_all(&tokenizer.items));
}

#[test]
fn the_lexer_goes_by_the_classes_it_is_given() {
    let letter = CharClass { whitespace: false, alphanumeric: true };
    let space = CharClass { whitespace: true, alphanumeric: false };
    let other = CharClass { whitespace: false, alphanumeric: false };

    let tokens = lex_classified(chars_of("ab cd"), vec![letter, letter, space, letter, letter])
        .unwrap();
    let texts: Vec<&str> = tokens.iter().map(|t| t.content().as_str()).collect();
    assert_eq!(texts, vec!["ab", "cd"]);

    let tokens = lex_classified(chars_of("abxcd"), vec![letter, letter, space, letter, letter])
        .unwrap();
    let texts: Vec<&str> = tokens.iter().map(|t| t.content().as_str()).collect();
    assert_eq!(texts, vec!["ab", "cd"]);

    let tokens = lex_classified(chars_of("ab"), vec![letter, other]).unwrap();
    let texts: Vec<&str> = tokens.iter().map(|t| t.content().as_str()).collect();
    assert_eq!(texts, vec!["a"]);

    let tokens = lex_classified(chars_of("true1"), vec![letter, letter, letter, letter, other])
        .unwrap();
    let kinds: Vec<TokenType> = tokens.iter().map(|t| t.token_type).collect();
    assert_eq!(kinds, vec![TokenType::BoolLiteral, TokenType::IntLiteral]);
}

#[test]
fn classified_lexer_is_the_lexer_of_a_classified_text() {
    let items = chars_of("f = 'x'\n");
    let classes = classify_all(&items);
    let mut classified = classified_lexer(items, classes);
    let mut plain = lexer("f = 'x'\n");
    assert_eq!(classified.matchers().len(), 10);
    assert_eq!(
        format!("{:?}", classified.tokens().unwrap()),
        format!("{:?}", plain.tokens().unwrap())
    );
    let tokenizer = Tokenizer::classified(vec!['a'], vec![classify('a')]);
    assert_eq!(*tokenizer.index(), 0);
    assert_eq!(tokenizer.pos, TokenPosition::new(1, 0));
    assert!(tokenizer.peek_snapshot().is_none());
}
