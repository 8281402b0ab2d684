//! General properties of the scan and the parse, stated over the
//! mathematical descriptions (`tokenize_from`, `walk_spec`, `parse_spec`)
//! and proved once for every input.

use crate::parser::{
    parse_spec, root_children_spec, walk_children_spec, walk_spec, NodeKind, NodeView,
    ParseErrorView,
};
use crate::tokenizer::{tokenize_from, TokenKindView, TokenView, TokenizeError};
use vstd::prelude::*;

verus! {

/// A token that stands for one scalar value: a string, a number, a boolean
/// literal or `null`.
pub open spec fn is_scalar_token(t: TokenView) -> bool {
    match t.kind {
        TokenKindView::True => true,
        TokenKindView::False => true,
        TokenKindView::Null => true,
        TokenKindView::String => true,
        TokenKindView::Number => true,
        _ => false,
    }
}

/// How many tokens in positions `[lo, hi)` of `ts` are scalar tokens.
pub open spec fn count_scalars(ts: Seq<TokenView>, lo: int, hi: int) -> int
    decreases hi - lo,
{
    if lo >= hi {
        0
    } else {
        count_scalars(ts, lo, hi - 1) + (if is_scalar_token(ts[hi - 1]) {
            1int
        } else {
            0int
        })
    }
}

/// How many tokens in positions `[lo, hi)` of `ts` are bracket tokens of
/// `kind` carrying exactly the one character `glyph`.
pub open spec fn count_bracket_tokens(
    ts: Seq<TokenView>,
    lo: int,
    hi: int,
    kind: TokenKindView,
    glyph: char,
) -> int
    decreases hi - lo,
{
    if lo >= hi {
        0
    } else {
        count_bracket_tokens(ts, lo, hi - 1, kind, glyph) + (if ts[hi - 1].kind == kind && ts[hi
            - 1].value == seq![glyph] {
            1int
        } else {
            0int
        })
    }
}

/// Counting scalars over adjacent ranges adds up.
pub proof fn lemma_count_scalars_split(ts: Seq<TokenView>, a: int, b: int, c: int)
    requires
        a <= b <= c,
    ensures
        count_scalars(ts, a, c) == count_scalars(ts, a, b) + count_scalars(ts, b, c),
    decreases c - b,
{
    if b < c {
        lemma_count_scalars_split(ts, a, b, c - 1);
    }
}

/// Counting bracket tokens over adjacent ranges adds up.
pub proof fn lemma_count_bracket_split(
    ts: Seq<TokenView>,
    a: int,
    b: int,
    c: int,
    kind: TokenKindView,
    glyph: char,
)
    requires
        a <= b <= c,
    ensures
        count_bracket_tokens(ts, a, c, kind, glyph) == count_bracket_tokens(ts, a, b, kind, glyph)
            + count_bracket_tokens(ts, b, c, kind, glyph),
    decreases c - b,
{
    if b < c {
        lemma_count_bracket_split(ts, a, b, c - 1, kind, glyph);
    }
}

proof fn lemma_count_scalars_one(ts: Seq<TokenView>, i: int)
    ensures
        count_scalars(ts, i, i + 1) == (if is_scalar_token(ts[i]) {
            1int
        } else {
            0int
        }),
{
    assert(count_scalars(ts, i, i) == 0);
}

proof fn lemma_count_bracket_one(ts: Seq<TokenView>, i: int, kind: TokenKindView, glyph: char)
    ensures
        count_bracket_tokens(ts, i, i + 1, kind, glyph) == (if ts[i].kind == kind && ts[i].value
            == seq![glyph] {
            1int
        } else {
            0int
        }),
{
    assert(count_bracket_tokens(ts, i, i, kind, glyph) == 0);
}

/// The number of leaves of a tree: nodes that carry no children at all
/// (scalars and `null`), counted through every composite.
pub open spec fn leaf_count(n: NodeView) -> int
    decreases n, 0int,
{
    match n.children {
        None => 1,
        Some(cs) => leaf_count_seq(cs),
    }
}

/// The total number of leaves of a sequence of trees.
pub open spec fn leaf_count_seq(cs: Seq<NodeView>) -> int
    decreases cs, 1int,
{
    if cs.len() == 0 {
        0
    } else {
        leaf_count(cs[0]) + leaf_count_seq(cs.subrange(1, cs.len() as int))
    }
}

/// One legal bracket pair: its token kind, opening glyph and closing glyph.
pub open spec fn is_bracket_pair(kind: TokenKindView, open_glyph: char, close_glyph: char) -> bool {
    ||| (kind == TokenKindView::CurlyBracket && open_glyph == '{' && close_glyph == '}')
    ||| (kind == TokenKindView::SquareBracket && open_glyph == '[' && close_glyph == ']')
}

proof fn lemma_walk_leaf_count(ts: Seq<TokenView>, pc: int)
    ensures
        walk_spec(ts, pc) matches Ok(p) ==> leaf_count(p.0) == count_scalars(ts, pc, p.1),
    decreases ts.len() - pc, 0int,
{
    if 0 <= pc < ts.len() {
        let t = ts[pc];
        lemma_count_scalars_one(ts, pc);
        match t.kind {
            TokenKindView::CurlyBracket => {
                if t.value == seq!['{'] {
                    crate::parser::lemma_walk_children_spec_bounds(
                        ts,
                        pc + 1,
                        TokenKindView::CurlyBracket,
                        '}',
                    );
                    lemma_children_leaf_count(ts, pc + 1, TokenKindView::CurlyBracket, '}');
                    match walk_children_spec(ts, pc + 1, TokenKindView::CurlyBracket, '}') {
                        Ok(q) => {
                            lemma_count_scalars_one(ts, q.1);
                            lemma_count_scalars_split(ts, pc, pc + 1, q.1 + 1);
                            lemma_count_scalars_split(ts, pc + 1, q.1, q.1 + 1);
                        },
                        Err(_) => {},
                    }
                }
            },
            TokenKindView::SquareBracket => {
                if t.value == seq!['['] {
                    crate::parser::lemma_walk_children_spec_bounds(
                        ts,
                        pc + 1,
                        TokenKindView::SquareBracket,
                        ']',
                    );
                    lemma_children_leaf_count(ts, pc + 1, TokenKindView::SquareBracket, ']');
                    match walk_children_spec(ts, pc + 1, TokenKindView::SquareBracket, ']') {
                        Ok(q) => {
                            lemma_count_scalars_one(ts, q.1);
                            lemma_count_scalars_split(ts, pc, pc + 1, q.1 + 1);
                            lemma_count_scalars_split(ts, pc + 1, q.1, q.1 + 1);
                        },
                        Err(_) => {},
                    }
                }
            },
            TokenKindView::Colon => {
                lemma_walk_leaf_count(ts, pc + 1);
                crate::parser::lemma_walk_spec_bounds(ts, pc + 1);
                match walk_spec(ts, pc + 1) {
                    Ok(p) => {
                        lemma_count_scalars_split(ts, pc, pc + 1, p.1);
                    },
                    Err(_) => {},
                }
            },
            TokenKindView::Comma => {
                lemma_walk_leaf_count(ts, pc + 1);
                crate::parser::lemma_walk_spec_bounds(ts, pc + 1);
                match walk_spec(ts, pc + 1) {
                    Ok(p) => {
                        lemma_count_scalars_split(ts, pc, pc + 1, p.1);
                    },
                    Err(_) => {},
                }
            },
            _ => {},
        }
    }
}

proof fn lemma_children_leaf_count(
    ts: Seq<TokenView>,
    pc: int,
    close_kind: TokenKindView,
    close_glyph: char,
)
    ensures
        walk_children_spec(ts, pc, close_kind, close_glyph) matches Ok(q) ==> leaf_count_seq(q.0)
            == count_scalars(ts, pc, q.1),
    decreases ts.len() - pc, 1int,
{
    if 0 <= pc < ts.len() {
        if !(ts[pc].kind == close_kind && ts[pc].value == seq![close_glyph]) {
            crate::parser::lemma_walk_spec_bounds(ts, pc);
            lemma_walk_leaf_count(ts, pc);
            match walk_spec(ts, pc) {
                Ok(p) => {
                    lemma_children_leaf_count(ts, p.1, close_kind, close_glyph);
                    crate::parser::lemma_walk_children_spec_bounds(ts, p.1, close_kind, close_glyph);
                    match walk_children_spec(ts, p.1, close_kind, close_glyph) {
                        Ok(q) => {
                            lemma_count_scalars_split(ts, pc, p.1, q.1);
                            assert((seq![p.0] + q.0).subrange(1, (seq![p.0] + q.0).len() as int)
                                =~= q.0);
                            assert((seq![p.0] + q.0)[0] == p.0);
                        },
                        Err(_) => {},
                    }
                },
                Err(_) => {},
            }
        }
    }
}

proof fn lemma_root_leaf_count(ts: Seq<TokenView>, pc: int)
    requires
        0 <= pc,
    ensures
        root_children_spec(ts, pc) matches Ok(ns) ==> leaf_count_seq(ns) == count_scalars(
            ts,
            pc,
            ts.len() as int,
        ),
    decreases ts.len() - pc,
{
    if 0 <= pc < ts.len() {
        crate::parser::lemma_walk_spec_bounds(ts, pc);
        lemma_walk_leaf_count(ts, pc);
        match walk_spec(ts, pc) {
            Ok(p) => {
                lemma_root_leaf_count(ts, p.1);
                match root_children_spec(ts, p.1) {
                    Ok(rest) => {
                        lemma_count_scalars_split(ts, pc, p.1, ts.len() as int);
                        assert((seq![p.0] + rest).subrange(1, (seq![p.0] + rest).len() as int)
                            =~= rest);
                        assert((seq![p.0] + rest)[0] == p.0);
                    },
                    Err(_) => {},
                }
            },
            Err(_) => {},
        }
    }
}

/// Leaf count: whenever the parse succeeds, the tree holds exactly one leaf
/// node for each scalar token — string, number, boolean or null — in the
/// token sequence, however the scalars are nested.
pub proof fn lemma_parse_leaf_count(ts: Seq<TokenView>)
    ensures
        parse_spec(ts) matches Ok(root) ==> leaf_count(root) == count_scalars(
            ts,
            0,
            ts.len() as int,
        ),
{
    lemma_root_leaf_count(ts, 0);
}

proof fn lemma_walk_balance(
    ts: Seq<TokenView>,
    pc: int,
    kind: TokenKindView,
    open_glyph: char,
    close_glyph: char,
)
    requires
        is_bracket_pair(kind, open_glyph, close_glyph),
    ensures
        walk_spec(ts, pc) matches Ok(p) ==> count_bracket_tokens(ts, pc, p.1, kind, open_glyph)
            == count_bracket_tokens(ts, pc, p.1, kind, close_glyph),
    decreases ts.len() - pc, 0int,
{
    if 0 <= pc < ts.len() {
        let t = ts[pc];
        lemma_count_bracket_one(ts, pc, kind, open_glyph);
        lemma_count_bracket_one(ts, pc, kind, close_glyph);
        match t.kind {
            TokenKindView::CurlyBracket => {
                if t.value == seq!['{'] {
                    crate::parser::lemma_walk_children_spec_bounds(
                        ts,
                        pc + 1,
                        TokenKindView::CurlyBracket,
                        '}',
                    );
                    lemma_children_balance(
                        ts,
                        pc + 1,
                        TokenKindView::CurlyBracket,
                        '}',
                        kind,
                        open_glyph,
                        close_glyph,
                    );
                    match walk_children_spec(ts, pc + 1, TokenKindView::CurlyBracket, '}') {
                        Ok(q) => {
                            lemma_count_bracket_one(ts, q.1, kind, open_glyph);
                            lemma_count_bracket_one(ts, q.1, kind, close_glyph);
                            lemma_count_bracket_split(ts, pc, pc + 1, q.1 + 1, kind, open_glyph);
                            lemma_count_bracket_split(ts, pc + 1, q.1, q.1 + 1, kind, open_glyph);
                            lemma_count_bracket_split(ts, pc, pc + 1, q.1 + 1, kind, close_glyph);
                            lemma_count_bracket_split(ts, pc + 1, q.1, q.1 + 1, kind, close_glyph);
                        },
                        Err(_) => {},
                    }
                }
            },
            TokenKindView::SquareBracket => {
                if t.value == seq!['['] {
                    crate::parser::lemma_walk_children_spec_bounds(
                        ts,
                        pc + 1,
                        TokenKindView::SquareBracket,
                        ']',
                    );
                    lemma_children_balance(
                        ts,
                        pc + 1,
                        TokenKindView::SquareBracket,
                        ']',
                        kind,
                        open_glyph,
                        close_glyph,
                    );
                    match walk_children_spec(ts, pc + 1, TokenKindView::SquareBracket, ']') {
                        Ok(q) => {
                            lemma_count_bracket_one(ts, q.1, kind, open_glyph);
                            lemma_count_bracket_one(ts, q.1, kind, close_glyph);
                            lemma_count_bracket_split(ts, pc, pc + 1, q.1 + 1, kind, open_glyph);
                            lemma_count_bracket_split(ts, pc + 1, q.1, q.1 + 1, kind, open_glyph);
                            lemma_count_bracket_split(ts, pc, pc + 1, q.1 + 1, kind, close_glyph);
                            lemma_count_bracket_split(ts, pc + 1, q.1, q.1 + 1, kind, close_glyph);
                        },
                        Err(_) => {},
                    }
                }
            },
            TokenKindView::Colon => {
                lemma_walk_balance(ts, pc + 1, kind, open_glyph, close_glyph);
                crate::parser::lemma_walk_spec_bounds(ts, pc + 1);
                match walk_spec(ts, pc + 1) {
                    Ok(p) => {
                        lemma_count_bracket_split(ts, pc, pc + 1, p.1, kind, open_glyph);
                        lemma_count_bracket_split(ts, pc, pc + 1, p.1, kind, close_glyph);
                    },
                    Err(_) => {},
                }
            },
            TokenKindView::Comma => {
                lemma_walk_balance(ts, pc + 1, kind, open_glyph, close_glyph);
                crate::parser::lemma_walk_spec_bounds(ts, pc + 1);
                match walk_spec(ts, pc + 1) {
                    Ok(p) => {
                        lemma_count_bracket_split(ts, pc, pc + 1, p.1, kind, open_glyph);
                        lemma_count_bracket_split(ts, pc, pc + 1, p.1, kind, close_glyph);
                    },
                    Err(_) => {},
                }
            },
            _ => {},
        }
    }
}

proof fn lemma_children_balance(
    ts: Seq<TokenView>,
    pc: int,
    close_kind: TokenKindView,
    closer: char,
    kind: TokenKindView,
    open_glyph: char,
    close_glyph: char,
)
    requires
        is_bracket_pair(kind, open_glyph, close_glyph),
    ensures
        walk_children_spec(ts, pc, close_kind, closer) matches Ok(q) ==> count_bracket_tokens(
            ts,
            pc,
            q.1,
            kind,
            open_glyph,
        ) == count_bracket_tokens(ts, pc, q.1, kind, close_glyph),
    decreases ts.len() - pc, 1int,
{
    if 0 <= pc < ts.len() {
        if !(ts[pc].kind == close_kind && ts[pc].value == seq![closer]) {
            crate::parser::lemma_walk_spec_bounds(ts, pc);
            lemma_walk_balance(ts, pc, kind, open_glyph, close_glyph);
            match walk_spec(ts, pc) {
                Ok(p) => {
                    lemma_children_balance(
                        ts,
                        p.1,
                        close_kind,
                        closer,
                        kind,
                        open_glyph,
                        close_glyph,
                    );
                    crate::parser::lemma_walk_children_spec_bounds(ts, p.1, close_kind, closer);
                    match walk_children_spec(ts, p.1, close_kind, closer) {
                        Ok(q) => {
                            lemma_count_bracket_split(ts, pc, p.1, q.1, kind, open_glyph);
                            lemma_count_bracket_split(ts, pc, p.1, q.1, kind, close_glyph);
                        },
                        Err(_) => {},
                    }
                },
                Err(_) => {},
            }
        }
    }
}

/// Bracket balance: across the token range consumed for any successfully
/// parsed value, opening and closing curly brackets are consumed in equal
/// number, and likewise square brackets.
pub proof fn lemma_bracket_balance(ts: Seq<TokenView>, pc: int)
    ensures
        walk_spec(ts, pc) matches Ok(p) ==> {
            &&& count_bracket_tokens(ts, pc, p.1, TokenKindView::CurlyBracket, '{')
                == count_bracket_tokens(ts, pc, p.1, TokenKindView::CurlyBracket, '}')
            &&& count_bracket_tokens(ts, pc, p.1, TokenKindView::SquareBracket, '[')
                == count_bracket_tokens(ts, pc, p.1, TokenKindView::SquareBracket, ']')
        },
{
    lemma_walk_balance(ts, pc, TokenKindView::CurlyBracket, '{', '}');
    lemma_walk_balance(ts, pc, TokenKindView::SquareBracket, '[', ']');
}

/// Idempotence: the parse is a function of the token sequence alone — no
/// other parser state reaches the result — so re-running it on the same
/// tokens, cursor reset, yields a tree equal in structure and values.
pub proof fn lemma_parse_idempotent(ts1: Seq<TokenView>, ts2: Seq<TokenView>)
    requires
        ts1 == ts2,
    ensures
        parse_spec(ts1) == parse_spec(ts2),
{
}

/// Boundary: empty input scans to an empty token sequence, and an empty
/// token sequence parses to a root node with no children.
pub proof fn lemma_empty_input()
    ensures
        tokenize_from(Seq::empty(), 0) == Ok::<Seq<TokenView>, TokenizeError>(Seq::empty()),
        parse_spec(Seq::empty()) == Ok::<NodeView, ParseErrorView>(
            NodeView { kind: NodeKind::Root, value: None, children: Some(Seq::empty()) },
        ),
{
}

} // verus!
