use jsonish::tokenizer::{get_symbol_token_kind, is_number, is_whitespace, TokenizeError};
use jsonish::{tokenize, Token, TokenKind};

fn chars_of(s: &str) -> Vec<char> {
    s.chars().collect()
}

fn kinds(tokens: &[Token]) -> Vec<&TokenKind> {
    tokens.iter().map(|t| &t.kind).collect()
}

fn text(token: &Token) -> String {
    token.value.iter().collect()
}

#[test]
fn empty_input_gives_no_tokens() {
    let tokens = tokenize(&chars_of("")).unwrap();
    assert_eq!(tokens.len(), 0);
}

#[test]
fn whitespace_only_gives_no_tokens() {
    let tokens = tokenize(&chars_of(" \n \n ")).unwrap();
    assert_eq!(tokens.len(), 0);
}

#[test]
fn tab_is_not_whitespace_and_stops_the_scan() {
    let tokens = tokenize(&chars_of("\ttrue")).unwrap();
    assert_eq!(tokens.len(), 0);
}

#[test]
fn carriage_return_is_not_whitespace_and_stops_the_scan() {
    let tokens = tokenize(&chars_of("true\rfalse")).unwrap();
    assert_eq!(tokens.len(), 1);
    assert_eq!(tokens[0].kind, TokenKind::True);
}

#[test]
fn punctuation_tokens_carry_their_glyph() {
    let tokens = tokenize(&chars_of("{}[]:,")).unwrap();
    assert_eq!(
        kinds(&tokens),
        vec![
            &TokenKind::CurlyBracket,
            &TokenKind::CurlyBracket,
            &TokenKind::SquareBracket,
            &TokenKind::SquareBracket,
            &TokenKind::Colon,
            &TokenKind::Comma,
        ]
    );
    let glyphs: Vec<String> = tokens.iter().map(text).collect();
    assert_eq!(glyphs, vec!["{", "}", "[", "]", ":", ","]);
}

#[test]
fn keyword_literals_match_verbatim() {
    let tokens = tokenize(&chars_of("true false null")).unwrap();
    assert_eq!(
        kinds(&tokens),
        vec![&TokenKind::True, &TokenKind::False, &TokenKind::Null]
    );
    assert_eq!(text(&tokens[0]), "true");
    assert_eq!(text(&tokens[1]), "false");
    assert_eq!(text(&tokens[2]), "null");
}

#[test]
fn keyword_literal_at_the_very_end_still_matches() {
    let tokens = tokenize(&chars_of("true")).unwrap();
    assert_eq!(tokens.len(), 1);
    assert_eq!(tokens[0].kind, TokenKind::True);
}

#[test]
fn misspelled_keyword_stops_the_scan() {
    let tokens = tokenize(&chars_of("trud")).unwrap();
    assert_eq!(tokens.len(), 0);
}

#[test]
fn number_token_collects_sign_and_digits() {
    let tokens = tokenize(&chars_of("-123")).unwrap();
    assert_eq!(tokens.len(), 1);
    assert_eq!(tokens[0].kind, TokenKind::Number);
    assert_eq!(text(&tokens[0]), "-123");
}

#[test]
fn lone_minus_is_a_number_token_of_its_own() {
    let tokens = tokenize(&chars_of("-,")).unwrap();
    assert_eq!(tokens.len(), 2);
    assert_eq!(tokens[0].kind, TokenKind::Number);
    assert_eq!(text(&tokens[0]), "-");
    assert_eq!(tokens[1].kind, TokenKind::Comma);
}

#[test]
fn numeral_stops_at_the_decimal_point() {
    // No fractions: the numeral token ends at `.`, and the unmatched `.`
    // stops the scan silently.
    let tokens = tokenize(&chars_of("3.14")).unwrap();
    assert_eq!(tokens.len(), 1);
    assert_eq!(tokens[0].kind, TokenKind::Number);
    assert_eq!(text(&tokens[0]), "3");
}

#[test]
fn string_token_drops_the_quotes() {
    let tokens = tokenize(&chars_of("\"abc\"")).unwrap();
    assert_eq!(tokens.len(), 1);
    assert_eq!(tokens[0].kind, TokenKind::String);
    assert_eq!(text(&tokens[0]), "abc");
}

#[test]
fn escaped_quote_does_not_terminate_the_string() {
    // Input text: "line\"break" — the backslash is kept, nothing unescaped.
    let tokens = tokenize(&chars_of("\"line\\\"break\"")).unwrap();
    assert_eq!(tokens.len(), 1);
    assert_eq!(tokens[0].kind, TokenKind::String);
    assert_eq!(text(&tokens[0]), "line\\\"break");
}

#[test]
fn quote_after_two_backslashes_is_still_taken_as_escaped() {
    // Input text: "a\\"x" — the flag stays set after the second backslash,
    // so the quote after it is collected rather than closing the string.
    let tokens = tokenize(&chars_of("\"a\\\\\"x\"")).unwrap();
    assert_eq!(tokens.len(), 1);
    assert_eq!(tokens[0].kind, TokenKind::String);
    assert_eq!(text(&tokens[0]), "a\\\\\"x");
}

#[test]
fn unterminated_string_is_the_one_hard_failure() {
    let r = tokenize(&chars_of("\"abc"));
    assert_eq!(r.unwrap_err(), TokenizeError::UnterminatedString);
}

#[test]
fn string_open_at_the_last_character_fails_too() {
    let r = tokenize(&chars_of("\""));
    assert_eq!(r.unwrap_err(), TokenizeError::UnterminatedString);
}

#[test]
fn unterminated_string_by_trailing_escape_fails() {
    // Input text: "a\" — the escaped quote never closes the string.
    let r = tokenize(&chars_of("\"a\\\""));
    assert_eq!(r.unwrap_err(), TokenizeError::UnterminatedString);
}

#[test]
fn unknown_character_stops_the_scan_silently() {
    let tokens = tokenize(&chars_of("12x34")).unwrap();
    assert_eq!(tokens.len(), 1);
    assert_eq!(text(&tokens[0]), "12");
}

#[test]
fn scenario_object_with_array_tokens() {
    // Scenario: {"a":1,"b":[true,false,null]} as a flat token stream.
    let tokens = tokenize(&chars_of("{\"a\":1,\"b\":[true,false,null]}")).unwrap();
    let expected: Vec<(TokenKind, &str)> = vec![
        (TokenKind::CurlyBracket, "{"),
        (TokenKind::String, "a"),
        (TokenKind::Colon, ":"),
        (TokenKind::Number, "1"),
        (TokenKind::Comma, ","),
        (TokenKind::String, "b"),
        (TokenKind::Colon, ":"),
        (TokenKind::SquareBracket, "["),
        (TokenKind::True, "true"),
        (TokenKind::Comma, ","),
        (TokenKind::False, "false"),
        (TokenKind::Comma, ","),
        (TokenKind::Null, "null"),
        (TokenKind::SquareBracket, "]"),
        (TokenKind::CurlyBracket, "}"),
    ];
    assert_eq!(tokens.len(), expected.len());
    for (token, (kind, value)) in tokens.iter().zip(expected.iter()) {
        assert_eq!(&token.kind, kind);
        assert_eq!(text(token), *value);
    }
}

#[test]
fn bracket_tokens_balance_in_the_scenario_stream() {
    // One open and one close of each bracket kind at every nesting level.
    let tokens = tokenize(&chars_of("{\"a\":1,\"b\":[true,false,null]}")).unwrap();
    let count = |glyph: char| {
        tokens
            .iter()
            .filter(|t| t.value.len() == 1 && t.value[0] == glyph)
            .count()
    };
    assert_eq!(count('{'), count('}'));
    assert_eq!(count('['), count(']'));
}

#[test]
fn symbol_classification() {
    assert_eq!(get_symbol_token_kind('{'), Some(TokenKind::CurlyBracket));
    assert_eq!(get_symbol_token_kind('}'), Some(TokenKind::CurlyBracket));
    assert_eq!(get_symbol_token_kind('['), Some(TokenKind::SquareBracket));
    assert_eq!(get_symbol_token_kind(']'), Some(TokenKind::SquareBracket));
    assert_eq!(get_symbol_token_kind(':'), Some(TokenKind::Colon));
    assert_eq!(get_symbol_token_kind(','), Some(TokenKind::Comma));
    assert_eq!(get_symbol_token_kind('a'), None);
    assert_eq!(get_symbol_token_kind('"'), None);
}

#[test]
fn whitespace_and_digit_predicates() {
    assert!(is_whitespace(' '));
    assert!(is_whitespace('\n'));
    assert!(!is_whitespace('\t'));
    assert!(!is_whitespace('\r'));
    assert!(is_number('0'));
    assert!(is_number('9'));
    assert!(!is_number('a'));
    assert!(!is_number('-'));
}
