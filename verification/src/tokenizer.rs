//! Lexical scanning: a single left-to-right pass over a character sequence
//! that emits classified tokens.
//!
//! Whitespace (space and newline only) is discarded; the six punctuation
//! characters become single-character tokens; `"` opens a string whose body
//! is collected raw (a quote preceded by a backslash does not terminate it);
//! a digit or `-` opens an integer numeral; `true`, `false` and `null` are
//! matched verbatim. A character matching no rule stops the scan silently,
//! returning the tokens collected so far. The one hard failure is a string
//! that is still open when the input ends.

use vstd::prelude::*;
use vstd::string::StrSliceExecFns;

verus! {

/// Classification of one lexical unit.
#[derive(Debug, PartialEq)]
pub enum TokenKind {
    /// `{` or `}`; the token's value holds the glyph.
    CurlyBracket,
    /// `[` or `]`; the token's value holds the glyph.
    SquareBracket,
    /// `:`
    Colon,
    /// `,`
    Comma,
    /// The literal `true`.
    True,
    /// The literal `false`.
    False,
    /// The literal `null`.
    Null,
    /// A quoted string; the token's value holds the raw body, quotes dropped.
    String,
    /// An integer numeral; the token's value holds the sign and digits.
    Number,
    /// A unit the tokenizer could not classify; carries the offending text.
    Unknown(Vec<char>),
}

/// One lexical unit: its kind and the literal text matched.
#[derive(Debug)]
pub struct Token {
    pub kind: TokenKind,
    pub value: Vec<char>,
}

/// Mathematical counterpart of `TokenKind`, with sequences for vectors.
pub enum TokenKindView {
    CurlyBracket,
    SquareBracket,
    Colon,
    Comma,
    True,
    False,
    Null,
    String,
    Number,
    Unknown(Seq<char>),
}

/// Mathematical counterpart of `Token`.
pub struct TokenView {
    pub kind: TokenKindView,
    pub value: Seq<char>,
}

impl View for TokenKind {
    type V = TokenKindView;

    open spec fn view(&self) -> TokenKindView {
        match self {
            TokenKind::CurlyBracket => TokenKindView::CurlyBracket,
            TokenKind::SquareBracket => TokenKindView::SquareBracket,
            TokenKind::Colon => TokenKindView::Colon,
            TokenKind::Comma => TokenKindView::Comma,
            TokenKind::True => TokenKindView::True,
            TokenKind::False => TokenKindView::False,
            TokenKind::Null => TokenKindView::Null,
            TokenKind::String => TokenKindView::String,
            TokenKind::Number => TokenKindView::Number,
            TokenKind::Unknown(text) => TokenKindView::Unknown(text@),
        }
    }
}

impl View for Token {
    type V = TokenView;

    open spec fn view(&self) -> TokenView {
        TokenView { kind: self.kind@, value: self.value@ }
    }
}

/// The views of a sequence of tokens, in order.
pub open spec fn token_views(tokens: Seq<Token>) -> Seq<TokenView> {
    tokens.map(|i: int, t: Token| t@)
}

/// The scan fails only on an unterminated string.
#[derive(Debug, PartialEq, Eq, Structural, Clone, Copy)]
pub enum TokenizeError {
    /// The input ended inside a string, before its closing quote.
    UnterminatedString,
}

/// Whitespace is space or newline only; tab and carriage return are not.
pub open spec fn spec_is_whitespace(c: char) -> bool {
    c == ' ' || c == '\n'
}

/// Whether `symbol` is discarded as whitespace by the scan.
#[verifier::when_used_as_spec(spec_is_whitespace)]
pub fn is_whitespace(symbol: char) -> (r: bool)
    ensures
        r == spec_is_whitespace(symbol),
{
    symbol == ' ' || symbol == '\n'
}

/// A decimal digit.
pub open spec fn spec_is_number(c: char) -> bool {
    '0' <= c && c <= '9'
}

/// Whether `symbol` is a decimal digit.
#[verifier::when_used_as_spec(spec_is_number)]
pub fn is_number(symbol: char) -> (r: bool)
    ensures
        r == spec_is_number(symbol),
{
    symbol >= '0' && symbol <= '9'
}

/// The token kind of a single-character punctuation symbol, if it is one.
pub open spec fn spec_symbol_kind(c: char) -> Option<TokenKindView> {
    if c == '{' || c == '}' {
        Some(TokenKindView::CurlyBracket)
    } else if c == '[' || c == ']' {
        Some(TokenKindView::SquareBracket)
    } else if c == ':' {
        Some(TokenKindView::Colon)
    } else if c == ',' {
        Some(TokenKindView::Comma)
    } else {
        None
    }
}

/// The characters of the literal `true`.
pub open spec fn lit_true() -> Seq<char> {
    seq!['t', 'r', 'u', 'e']
}

/// The characters of the literal `false`.
pub open spec fn lit_false() -> Seq<char> {
    seq!['f', 'a', 'l', 's', 'e']
}

/// The characters of the literal `null`.
pub open spec fn lit_null() -> Seq<char> {
    seq!['n', 'u', 'l', 'l']
}

/// The characters `lit` stand verbatim at position `i` of `s`, wholly inside `s`.
pub open spec fn matches_literal(s: Seq<char>, i: int, lit: Seq<char>) -> bool {
    &&& 0 <= i
    &&& i + lit.len() <= s.len()
    &&& s.subrange(i, i + lit.len()) == lit
}

/// One step of string scanning from position `i`: the collected body and the
/// position just past the closing quote, or `None` if the input ends first.
/// `escape` says whether the previous character was a backslash; a quote seen
/// while it is set is collected rather than taken as the terminator.
pub open spec fn scan_string(s: Seq<char>, i: int, escape: bool) -> Option<(Seq<char>, int)>
    decreases s.len() - i,
{
    if i < 0 || i >= s.len() {
        None
    } else if s[i] == '"' && !escape {
        Some((Seq::empty(), i + 1))
    } else {
        match scan_string(s, i + 1, s[i] == '\\') {
            Some(p) => Some((seq![s[i]] + p.0, p.1)),
            None => None,
        }
    }
}

/// A successful string scan ends strictly past its start and inside the input.
pub proof fn lemma_scan_string_bounds(s: Seq<char>, i: int, escape: bool)
    ensures
        scan_string(s, i, escape) matches Some(p) ==> i < p.1 <= s.len(),
    decreases s.len() - i,
{
    if 0 <= i < s.len() && !(s[i] == '"' && !escape) {
        lemma_scan_string_bounds(s, i + 1, s[i] == '\\');
    }
}

/// The position just past the run of decimal digits that starts at `i`.
pub open spec fn digit_run_end(s: Seq<char>, i: int) -> int
    decreases s.len() - i,
{
    if i < 0 || i >= s.len() {
        i
    } else if spec_is_number(s[i]) {
        digit_run_end(s, i + 1)
    } else {
        i
    }
}

/// A digit run never moves the cursor backwards, nor past the input's end.
pub proof fn lemma_digit_run_end_bounds(s: Seq<char>, i: int)
    requires
        0 <= i <= s.len(),
    ensures
        i <= digit_run_end(s, i) <= s.len(),
    decreases s.len() - i,
{
    if i < s.len() && spec_is_number(s[i]) {
        lemma_digit_run_end_bounds(s, i + 1);
    }
}

/// Prefixes a token sequence onto the result of scanning the rest of the
/// input; an error swallows the prefix, as the scan returns no partial result.
pub open spec fn prepend_tokens(
    prefix: Seq<TokenView>,
    r: Result<Seq<TokenView>, TokenizeError>,
) -> Result<Seq<TokenView>, TokenizeError> {
    match r {
        Ok(rest) => Ok(prefix + rest),
        Err(e) => Err(e),
    }
}

/// The tokens of `s` from position `i` on: the mathematical description of
/// the whole scan. Rules are tried in the scanner's order — whitespace,
/// punctuation, string, numeral, the three keyword literals — and a character
/// matching none of them ends the scan silently with the tokens so far.
pub open spec fn tokenize_from(s: Seq<char>, i: int) -> Result<Seq<TokenView>, TokenizeError>
    decreases s.len() - i,
{
    if i < 0 || i >= s.len() {
        Ok(Seq::empty())
    } else if spec_is_whitespace(s[i]) {
        tokenize_from(s, i + 1)
    } else if spec_symbol_kind(s[i]) is Some {
        prepend_tokens(
            seq![TokenView { kind: spec_symbol_kind(s[i]).unwrap(), value: seq![s[i]] }],
            tokenize_from(s, i + 1),
        )
    } else if s[i] == '"' {
        match scan_string(s, i + 1, false) {
            Some(p) => {
                if i < p.1 <= s.len() {
                    prepend_tokens(
                        seq![TokenView { kind: TokenKindView::String, value: p.0 }],
                        tokenize_from(s, p.1),
                    )
                } else {
                    // Never reached: a successful scan ends past its start
                    // (`lemma_scan_string_bounds`).
                    Err(TokenizeError::UnterminatedString)
                }
            },
            None => Err(TokenizeError::UnterminatedString),
        }
    } else if spec_is_number(s[i]) || s[i] == '-' {
        let j = digit_run_end(s, i + 1);
        if i < j <= s.len() {
            prepend_tokens(
                seq![
                    TokenView {
                        kind: TokenKindView::Number,
                        value: seq![s[i]] + s.subrange(i + 1, j),
                    },
                ],
                tokenize_from(s, j),
            )
        } else {
            // Never reached: a digit run never moves backwards
            // (`lemma_digit_run_end_bounds`).
            Ok(Seq::empty())
        }
    } else if matches_literal(s, i, lit_true()) {
        prepend_tokens(
            seq![TokenView { kind: TokenKindView::True, value: lit_true() }],
            tokenize_from(s, i + 4),
        )
    } else if matches_literal(s, i, lit_false()) {
        prepend_tokens(
            seq![TokenView { kind: TokenKindView::False, value: lit_false() }],
            tokenize_from(s, i + 5),
        )
    } else if matches_literal(s, i, lit_null()) {
        prepend_tokens(
            seq![TokenView { kind: TokenKindView::Null, value: lit_null() }],
            tokenize_from(s, i + 4),
        )
    } else {
        Ok(Seq::empty())
    }
}

/// Classifies one punctuation character, or returns `None`.
pub fn get_symbol_token_kind(symbol: char) -> (r: Option<TokenKind>)
    ensures
        match r {
            Some(kind) => spec_symbol_kind(symbol) == Some(kind@),
            None => spec_symbol_kind(symbol) is None,
        },
{
    match symbol {
        '{' | '}' => Some(TokenKind::CurlyBracket),
        '[' | ']' => Some(TokenKind::SquareBracket),
        ':' => Some(TokenKind::Colon),
        ',' => Some(TokenKind::Comma),
        _ => None,
    }
}

/// Prefixes collected characters onto the rest of a string scan.
pub open spec fn prepend_scan(
    prefix: Seq<char>,
    r: Option<(Seq<char>, int)>,
) -> Option<(Seq<char>, int)> {
    match r {
        Some(p) => Some((prefix + p.0, p.1)),
        None => None,
    }
}

/// The token kind that a matched keyword literal is classified as.
pub open spec fn spec_literal_kind(lit: Seq<char>) -> TokenKindView {
    if lit == lit_true() {
        TokenKindView::True
    } else if lit == lit_false() {
        TokenKindView::False
    } else if lit == lit_null() {
        TokenKindView::Null
    } else {
        TokenKindView::Unknown(lit)
    }
}

proof fn lemma_token_views_push(tokens: Seq<Token>, t: Token)
    ensures
        token_views(tokens.push(t)) == token_views(tokens) + seq![t@],
{
    assert(token_views(tokens.push(t)) =~= token_views(tokens) + seq![t@]);
}

proof fn lemma_prepend_assoc(
    a: Seq<TokenView>,
    b: Seq<TokenView>,
    r: Result<Seq<TokenView>, TokenizeError>,
)
    ensures
        prepend_tokens(a, prepend_tokens(b, r)) == prepend_tokens(a + b, r),
{
    match r {
        Ok(rest) => {
            assert(a + (b + rest) =~= (a + b) + rest);
        },
        Err(_) => {},
    }
}

/// Matches the keyword `literal` verbatim at position `current` of `chars`,
/// without reading past the input's end, and classifies it on success.
#[verifier::loop_isolation(false)]
fn try_parse_literal_token(literal: &str, current: usize, chars: &Vec<char>) -> (r: Option<Token>)
    requires
        literal@ == lit_true() || literal@ == lit_false() || literal@ == lit_null(),
        current < chars@.len(),
    ensures
        match r {
            Some(token) => {
                &&& matches_literal(chars@, current as int, literal@)
                &&& token@.value == literal@
                &&& token@.kind == spec_literal_kind(literal@)
            },
            None => !matches_literal(chars@, current as int, literal@),
        },
{
    let n = literal.unicode_len();
    if chars.len() - current < n {
        return None;
    }
    let mut token_value: Vec<char> = Vec::new();
    let mut k: usize = 0;
    while k < n
        invariant
            0 <= k <= n,
            token_value@ == chars@.subrange(current as int, current + k),
            chars@.subrange(current as int, current + k) == literal@.subrange(0, k as int),
        decreases n - k,
    {
        let c = chars[current + k];
        if c != literal.get_char(k) {
            proof {
                if matches_literal(chars@, current as int, literal@) {
                    assert(chars@.subrange(current as int, current + n)[k as int]
                        == literal@[k as int]);
                }
            }
            return None;
        }
        token_value.push(c);
        proof {
            assert(token_value@ =~= chars@.subrange(current as int, current + k + 1));
            assert(chars@.subrange(current as int, current + k + 1) =~= literal@.subrange(
                0,
                k + 1,
            ));
        }
        k += 1;
    }
    proof {
        assert(chars@.subrange(current as int, current + n) == literal@) by {
            assert(literal@.subrange(0, n as int) =~= literal@);
        }
    }
    let prefix = literal.get_char(0);
    let token_kind = if prefix == 't' {
        TokenKind::True
    } else if prefix == 'f' {
        TokenKind::False
    } else {
        TokenKind::Null
    };
    Some(Token { kind: token_kind, value: token_value })
}

/// Scans `chars` left to right and returns the tokens found, in source order.
///
/// The result is exactly `tokenize_from(chars@, 0)`: whitespace is discarded,
/// a character matching no rule ends the scan silently with the tokens
/// collected so far, and a string still open at the input's end is the one
/// hard failure.
#[verifier::loop_isolation(false)]
pub fn tokenize(chars: &Vec<char>) -> (r: Result<Vec<Token>, TokenizeError>)
    ensures
        match r {
            Ok(tokens) => tokenize_from(chars@, 0) == Ok::<Seq<TokenView>, TokenizeError>(
                token_views(tokens@),
            ),
            Err(e) => tokenize_from(chars@, 0) == Err::<Seq<TokenView>, TokenizeError>(e),
        },
{
    let ghost s = chars@;
    let mut tokens: Vec<Token> = Vec::new();
    let mut current: usize = 0;
    let mut done = false;

    while current < chars.len() && !done
        invariant
            current <= chars@.len(),
            tokenize_from(s, 0) == prepend_tokens(
                token_views(tokens@),
                tokenize_from(s, current as int),
            ),
            done ==> tokenize_from(s, current as int) == Ok::<Seq<TokenView>, TokenizeError>(
                Seq::empty(),
            ),
        decreases chars@.len() - current, (if done { 0int } else { 1int }),
    {
        let ghost start = current as int;
        let ghost tokens_before = tokens@;
        let c = chars[current];

        if is_whitespace(c) {
            current += 1;
        } else if let Some(kind) = get_symbol_token_kind(c) {
            let ghost tv = TokenView { kind: spec_symbol_kind(c).unwrap(), value: seq![c] };
            let mut value: Vec<char> = Vec::new();
            value.push(c);
            let token = Token { kind, value };
            proof {
                assert(token@.value =~= seq![c]);
                lemma_prepend_assoc(token_views(tokens@), seq![tv], tokenize_from(s, start + 1));
                lemma_token_views_push(tokens@, token);
            }
            tokens.push(token);
            current += 1;
        } else if c == '"' {
            let mut string_chars: Vec<char> = Vec::new();
            current += 1;
            let mut escape = false;
            while current < chars.len() && (chars[current] != '"' || escape)
                invariant
                    start + 1 <= current <= chars@.len(),
                    scan_string(s, start + 1, false) == prepend_scan(
                        string_chars@,
                        scan_string(s, current as int, escape),
                    ),
                decreases chars@.len() - current,
            {
                let ch = chars[current];
                if escape {
                    escape = false;
                }
                if ch == '\\' {
                    escape = true;
                }
                proof {
                    match scan_string(s, current + 1, s[current as int] == '\\') {
                        Some(p) => {
                            assert(string_chars@ + (seq![ch] + p.0) =~= string_chars@.push(ch)
                                + p.0);
                        },
                        None => {},
                    }
                }
                string_chars.push(ch);
                current += 1;
            }
            if current >= chars.len() {
                // The input ended inside the string: the scan from the opening
                // quote finds no terminator.
                return Err(TokenizeError::UnterminatedString);
            }
            // The cursor rests on an unescaped closing quote.
            let ghost tv = TokenView { kind: TokenKindView::String, value: string_chars@ };
            proof {
                assert(scan_string(s, current as int, escape) == Some(
                    (Seq::<char>::empty(), current + 1),
                ));
                assert(string_chars@ + Seq::<char>::empty() =~= string_chars@);
                lemma_prepend_assoc(token_views(tokens@), seq![tv], tokenize_from(s, current + 1));
            }
            let token = Token { kind: TokenKind::String, value: string_chars };
            proof {
                lemma_token_views_push(tokens@, token);
            }
            tokens.push(token);
            current += 1;
        } else if is_number(c) || c == '-' {
            let mut number_chars: Vec<char> = Vec::new();
            number_chars.push(c);
            current += 1;
            while current < chars.len() && is_number(chars[current])
                invariant
                    start + 1 <= current <= chars@.len(),
                    number_chars@ == seq![s[start]] + s.subrange(start + 1, current as int),
                    digit_run_end(s, start + 1) == digit_run_end(s, current as int),
                decreases chars@.len() - current,
            {
                proof {
                    assert((seq![s[start]] + s.subrange(start + 1, current as int)).push(
                        s[current as int],
                    ) =~= seq![s[start]] + s.subrange(start + 1, current + 1));
                }
                number_chars.push(chars[current]);
                current += 1;
            }
            // The digit run ends here: either the input did, or the next
            // character is not a digit.
            let ghost tv = TokenView {
                kind: TokenKindView::Number,
                value: seq![s[start]] + s.subrange(start + 1, current as int),
            };
            proof {
                assert(digit_run_end(s, current as int) == current as int);
                lemma_prepend_assoc(
                    token_views(tokens@),
                    seq![tv],
                    tokenize_from(s, current as int),
                );
            }
            let token = Token { kind: TokenKind::Number, value: number_chars };
            proof {
                lemma_token_views_push(tokens@, token);
            }
            tokens.push(token);
        } else {
            proof {
                reveal_strlit("true");
                reveal_strlit("false");
                reveal_strlit("null");
                assert("true"@ =~= lit_true());
                assert("false"@ =~= lit_false());
                assert("null"@ =~= lit_null());
            }
            let r_true = try_parse_literal_token("true", current, chars);
            if let Some(token) = r_true {
                proof {
                    lemma_prepend_assoc(
                        token_views(tokens@),
                        seq![token@],
                        tokenize_from(s, start + 4),
                    );
                    lemma_token_views_push(tokens@, token);
                }
                tokens.push(token);
                current += 4;
            } else {
                let r_false = try_parse_literal_token("false", current, chars);
                if let Some(token) = r_false {
                    proof {
                        lemma_prepend_assoc(
                            token_views(tokens@),
                            seq![token@],
                            tokenize_from(s, start + 5),
                        );
                        lemma_token_views_push(tokens@, token);
                    }
                    tokens.push(token);
                    current += 5;
                } else {
                    let r_null = try_parse_literal_token("null", current, chars);
                    if let Some(token) = r_null {
                        proof {
                            lemma_prepend_assoc(
                                token_views(tokens@),
                                seq![token@],
                                tokenize_from(s, start + 4),
                            );
                            lemma_token_views_push(tokens@, token);
                        }
                        tokens.push(token);
                        current += 4;
                    } else {
                        // No rule matches: the scan stops silently with the
                        // tokens collected so far.
                        done = true;
                    }
                }
            }
        }
    }
    proof {
        assert(token_views(tokens@) + Seq::<TokenView>::empty() =~= token_views(tokens@));
    }
    Ok(tokens)
}

} // verus!
