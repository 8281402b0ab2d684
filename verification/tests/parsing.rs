use jsonish::parser::ParseError;
use jsonish::{tokenize, Node, NodeKind, Token, TokenKind, TokenParser};

fn chars_of(s: &str) -> Vec<char> {
    s.chars().collect()
}

fn parse_text(s: &str) -> Result<Node, ParseError> {
    let tokens = tokenize(&chars_of(s)).unwrap();
    let mut parser = TokenParser::new();
    parser.parse(tokens)
}

fn node_eq(a: &Node, b: &Node) -> bool {
    a.kind == b.kind && a.value == b.value
        && match (&a.children, &b.children) {
            (None, None) => true,
            (Some(x), Some(y)) => {
                x.len() == y.len() && x.iter().zip(y.iter()).all(|(p, q)| node_eq(p, q))
            }
            _ => false,
        }
}

fn leaves(n: &Node) -> usize {
    match &n.children {
        None => 1,
        Some(cs) => cs.iter().map(leaves).sum(),
    }
}

fn value_text(n: &Node) -> String {
    n.value.as_ref().unwrap().iter().collect()
}

#[test]
fn empty_token_sequence_parses_to_a_bare_root() {
    let root = parse_text("").unwrap();
    assert_eq!(root.kind, NodeKind::Root);
    assert!(root.value.is_none());
    assert_eq!(root.children.as_ref().unwrap().len(), 0);
}

#[test]
fn scenario_object_with_array_tree() {
    // Scenario: {"a":1,"b":[true,false,null]} →
    // Root → Object → [String("a"), Number("1"), String("b"),
    //                  Array → [Boolean("true"), Boolean("false"), Null]].
    let root = parse_text("{\"a\":1,\"b\":[true,false,null]}").unwrap();
    assert_eq!(root.kind, NodeKind::Root);
    let top = root.children.as_ref().unwrap();
    assert_eq!(top.len(), 1);

    let object = &top[0];
    assert_eq!(object.kind, NodeKind::Object);
    let members = object.children.as_ref().unwrap();
    assert_eq!(members.len(), 4);

    assert_eq!(members[0].kind, NodeKind::String);
    assert_eq!(value_text(&members[0]), "a");
    assert_eq!(members[1].kind, NodeKind::Number);
    assert_eq!(value_text(&members[1]), "1");
    assert_eq!(members[2].kind, NodeKind::String);
    assert_eq!(value_text(&members[2]), "b");

    let array = &members[3];
    assert_eq!(array.kind, NodeKind::Array);
    let items = array.children.as_ref().unwrap();
    assert_eq!(items.len(), 3);
    assert_eq!(items[0].kind, NodeKind::Boolean);
    assert_eq!(value_text(&items[0]), "true");
    assert_eq!(items[1].kind, NodeKind::Boolean);
    assert_eq!(value_text(&items[1]), "false");
    assert_eq!(items[2].kind, NodeKind::Null);
    assert!(items[2].value.is_none());
}

#[test]
fn leaf_count_equals_the_number_of_scalar_values() {
    // Six scalars in the input: "a", 1, "b", true, false, null.
    let root = parse_text("{\"a\":1,\"b\":[true,false,null]}").unwrap();
    assert_eq!(leaves(&root), 6);
}

#[test]
fn stray_closing_bracket_after_a_value_is_an_unexpected_token() {
    // Scenario: {"x":"y"}} — the second } stands at top level where a value
    // was expected.
    let r = parse_text("{\"x\":\"y\"}}");
    assert!(matches!(r.unwrap_err(), ParseError::UnexpectedToken));
}

#[test]
fn lone_closing_square_bracket_is_an_unexpected_token() {
    let r = parse_text("]");
    assert!(matches!(r.unwrap_err(), ParseError::UnexpectedToken));
}

#[test]
fn unclosed_object_is_an_unexpected_end() {
    let r = parse_text("{\"a\":1");
    assert!(matches!(r.unwrap_err(), ParseError::UnexpectedEnd));
}

#[test]
fn unclosed_array_is_an_unexpected_end() {
    let r = parse_text("[true,");
    assert!(matches!(r.unwrap_err(), ParseError::UnexpectedEnd));
}

#[test]
fn separator_at_the_end_is_an_unexpected_end() {
    // A colon advances and recurses, but no token follows.
    let r = parse_text(":");
    assert!(matches!(r.unwrap_err(), ParseError::UnexpectedEnd));
}

#[test]
fn unknown_token_fails_with_its_text() {
    // The tokenizer never emits Unknown; a hand-built token exercises the arm.
    let tokens = vec![Token { kind: TokenKind::Unknown(vec!['@']), value: vec!['@'] }];
    let mut parser = TokenParser::new();
    let r = parser.parse(tokens);
    match r.unwrap_err() {
        ParseError::UnknownToken(text) => assert_eq!(text, vec!['@']),
        other => panic!("expected UnknownToken, got {:?}", other),
    }
}

#[test]
fn bracket_token_with_a_foreign_glyph_is_invalid() {
    // Defensive arm: a curly-bracket token whose value is not { or }.
    let tokens = vec![Token { kind: TokenKind::CurlyBracket, value: vec!['x'] }];
    let mut parser = TokenParser::new();
    let r = parser.parse(tokens);
    assert!(matches!(r.unwrap_err(), ParseError::InvalidBracket));
}

#[test]
fn separators_are_skipped_transparently() {
    // Colons and commas carry no node, wherever they stand.
    let root = parse_text(",:1").unwrap();
    let top = root.children.as_ref().unwrap();
    assert_eq!(top.len(), 1);
    assert_eq!(top[0].kind, NodeKind::Number);
    assert_eq!(value_text(&top[0]), "1");
}

#[test]
fn nested_empty_composites() {
    let root = parse_text("[[],{}]").unwrap();
    let top = root.children.as_ref().unwrap();
    assert_eq!(top.len(), 1);
    let outer = &top[0];
    assert_eq!(outer.kind, NodeKind::Array);
    let inner = outer.children.as_ref().unwrap();
    assert_eq!(inner.len(), 2);
    assert_eq!(inner[0].kind, NodeKind::Array);
    assert_eq!(inner[0].children.as_ref().unwrap().len(), 0);
    assert_eq!(inner[1].kind, NodeKind::Object);
    assert_eq!(inner[1].children.as_ref().unwrap().len(), 0);
}

#[test]
fn multiple_top_level_values_are_accepted_in_order() {
    let root = parse_text("1 2 3").unwrap();
    let top = root.children.as_ref().unwrap();
    assert_eq!(top.len(), 3);
    assert_eq!(value_text(&top[0]), "1");
    assert_eq!(value_text(&top[1]), "2");
    assert_eq!(value_text(&top[2]), "3");
}

#[test]
fn reparsing_the_same_tokens_yields_an_equal_tree() {
    // The cursor is reset at entry, so a second run over the same token
    // sequence rebuilds the same tree, even on a reused parser.
    let text = "{\"a\":[1,{\"b\":null}]}";
    let first = parse_text(text).unwrap();

    let mut parser = TokenParser::new();
    let other = parser.parse(tokenize(&chars_of("[true]")).unwrap()).unwrap();
    assert_eq!(other.kind, NodeKind::Root);
    let second = parser.parse(tokenize(&chars_of(text)).unwrap()).unwrap();

    assert!(node_eq(&first, &second));
}

#[test]
fn truncated_scan_parses_only_what_was_tokenized() {
    // 3.14 scans to the single token Number("3"); the parse then sees one
    // scalar.
    let root = parse_text("3.14").unwrap();
    let top = root.children.as_ref().unwrap();
    assert_eq!(top.len(), 1);
    assert_eq!(top[0].kind, NodeKind::Number);
    assert_eq!(value_text(&top[0]), "3");
}
