//! Recursive-descent parsing: a single forward cursor over the token
//! sequence, one production per token kind, building a tree of nodes.

use crate::tokenizer::{token_views, Token, TokenKind, TokenKindView, TokenView};
use vstd::prelude::*;

verus! {

/// The syntactic category of one tree node.
#[derive(Debug, PartialEq, Eq, Structural, Clone, Copy)]
pub enum NodeKind {
    Root,
    Boolean,
    Null,
    String,
    Number,
    Object,
    Array,
}

/// One tree node. `value` carries the literal text of a scalar; `children`
/// carries the ordered children of a composite (root, object or array).
#[derive(Debug)]
pub struct Node {
    pub kind: NodeKind,
    pub value: Option<Vec<char>>,
    pub children: Option<Vec<Node>>,
}

/// Mathematical counterpart of `Node`, with sequences for vectors.
pub struct NodeView {
    pub kind: NodeKind,
    pub value: Option<Seq<char>>,
    pub children: Option<Seq<NodeView>>,
}

/// The view of one node: vectors become sequences, children recursively.
pub open spec fn spec_node_view(n: Node) -> NodeView
    decreases n, 0int,
{
    NodeView {
        kind: n.kind,
        value: match n.value {
            Some(v) => Some(v@),
            None => None,
        },
        children: match n.children {
            Some(cs) => Some(spec_node_views(cs@)),
            None => None,
        },
    }
}

/// The views of a sequence of nodes, element by element.
pub open spec fn spec_node_views(ns: Seq<Node>) -> Seq<NodeView>
    decreases ns, 1int,
{
    if ns.len() == 0 {
        Seq::empty()
    } else {
        seq![spec_node_view(ns[0])] + spec_node_views(ns.subrange(1, ns.len() as int))
    }
}

impl View for Node {
    type V = NodeView;

    open spec fn view(&self) -> NodeView {
        spec_node_view(*self)
    }
}

/// The views of a sequence of nodes, in order.
pub open spec fn node_views(nodes: Seq<Node>) -> Seq<NodeView> {
    nodes.map(|i: int, n: Node| n@)
}

/// Why a parse was abandoned. Every error is fatal to the whole call: no
/// partial tree is returned.
#[derive(Debug)]
pub enum ParseError {
    /// A closing bracket stood where a value was expected.
    UnexpectedToken,
    /// A bracket token carried a glyph other than its two legal ones
    /// (defensive: unreachable for token sequences the tokenizer produced).
    InvalidBracket,
    /// A token the tokenizer could not classify; carries its text.
    UnknownToken(Vec<char>),
    /// The token sequence ended while a value or a closing bracket was owed.
    UnexpectedEnd,
}

/// Mathematical counterpart of `ParseError`.
pub enum ParseErrorView {
    UnexpectedToken,
    InvalidBracket,
    UnknownToken(Seq<char>),
    UnexpectedEnd,
}

impl View for ParseError {
    type V = ParseErrorView;

    open spec fn view(&self) -> ParseErrorView {
        match self {
            ParseError::UnexpectedToken => ParseErrorView::UnexpectedToken,
            ParseError::InvalidBracket => ParseErrorView::InvalidBracket,
            ParseError::UnknownToken(text) => ParseErrorView::UnknownToken(text@),
            ParseError::UnexpectedEnd => ParseErrorView::UnexpectedEnd,
        }
    }
}

/// One value parsed from position `pc` on: the node built and the cursor
/// position just past the tokens it consumed. Separators (`:`, `,`) carry no
/// node and the rule recurses past them; a closing bracket here is an error.
pub open spec fn walk_spec(tokens: Seq<TokenView>, pc: int) -> Result<
    (NodeView, int),
    ParseErrorView,
>
    decreases tokens.len() - pc, 0int,
{
    if pc < 0 || pc >= tokens.len() {
        Err(ParseErrorView::UnexpectedEnd)
    } else {
        let t = tokens[pc];
        match t.kind {
            TokenKindView::CurlyBracket => {
                if t.value == seq!['{'] {
                    match walk_children_spec(tokens, pc + 1, TokenKindView::CurlyBracket, '}') {
                        Ok(q) => Ok(
                            (
                                NodeView {
                                    kind: NodeKind::Object,
                                    value: None,
                                    children: Some(q.0),
                                },
                                q.1 + 1,
                            ),
                        ),
                        Err(e) => Err(e),
                    }
                } else if t.value == seq!['}'] {
                    Err(ParseErrorView::UnexpectedToken)
                } else {
                    Err(ParseErrorView::InvalidBracket)
                }
            },
            TokenKindView::SquareBracket => {
                if t.value == seq!['['] {
                    match walk_children_spec(tokens, pc + 1, TokenKindView::SquareBracket, ']') {
                        Ok(q) => Ok(
                            (
                                NodeView { kind: NodeKind::Array, value: None, children: Some(q.0) },
                                q.1 + 1,
                            ),
                        ),
                        Err(e) => Err(e),
                    }
                } else if t.value == seq![']'] {
                    Err(ParseErrorView::UnexpectedToken)
                } else {
                    Err(ParseErrorView::InvalidBracket)
                }
            },
            TokenKindView::Colon => walk_spec(tokens, pc + 1),
            TokenKindView::Comma => walk_spec(tokens, pc + 1),
            TokenKindView::True => Ok(
                (
                    NodeView { kind: NodeKind::Boolean, value: Some(t.value), children: None },
                    pc + 1,
                ),
            ),
            TokenKindView::False => Ok(
                (
                    NodeView { kind: NodeKind::Boolean, value: Some(t.value), children: None },
                    pc + 1,
                ),
            ),
            TokenKindView::Null => Ok(
                (NodeView { kind: NodeKind::Null, value: None, children: None }, pc + 1),
            ),
            TokenKindView::String => Ok(
                (
                    NodeView { kind: NodeKind::String, value: Some(t.value), children: None },
                    pc + 1,
                ),
            ),
            TokenKindView::Number => Ok(
                (
                    NodeView { kind: NodeKind::Number, value: Some(t.value), children: None },
                    pc + 1,
                ),
            ),
            TokenKindView::Unknown(text) => Err(ParseErrorView::UnknownToken(text)),
        }
    }
}

/// The children of one composite: values parsed one after another from `pc`
/// until the closing token (of kind `close_kind`, with `close_glyph` as its
/// whole value) is the next unconsumed token. Returns the children and the
/// position of that closing token, not yet consumed.
pub open spec fn walk_children_spec(
    tokens: Seq<TokenView>,
    pc: int,
    close_kind: TokenKindView,
    close_glyph: char,
) -> Result<(Seq<NodeView>, int), ParseErrorView>
    decreases tokens.len() - pc, 1int,
{
    if pc < 0 || pc >= tokens.len() {
        Err(ParseErrorView::UnexpectedEnd)
    } else if tokens[pc].kind == close_kind && tokens[pc].value == seq![close_glyph] {
        Ok((Seq::empty(), pc))
    } else {
        match walk_spec(tokens, pc) {
            Ok(p) => {
                if pc < p.1 <= tokens.len() {
                    match walk_children_spec(tokens, p.1, close_kind, close_glyph) {
                        Ok(q) => Ok((seq![p.0] + q.0, q.1)),
                        Err(e) => Err(e),
                    }
                } else {
                    // Never reached: parsing a value advances the cursor
                    // (`lemma_walk_spec_bounds`).
                    Err(ParseErrorView::UnexpectedEnd)
                }
            },
            Err(e) => Err(e),
        }
    }
}

/// The top-level values, parsed one after another until the tokens run out.
pub open spec fn root_children_spec(tokens: Seq<TokenView>, pc: int) -> Result<
    Seq<NodeView>,
    ParseErrorView,
>
    decreases tokens.len() - pc,
{
    if pc < 0 || pc >= tokens.len() {
        Ok(Seq::empty())
    } else {
        match walk_spec(tokens, pc) {
            Ok(p) => {
                if pc < p.1 <= tokens.len() {
                    match root_children_spec(tokens, p.1) {
                        Ok(rest) => Ok(seq![p.0] + rest),
                        Err(e) => Err(e),
                    }
                } else {
                    // Never reached: parsing a value advances the cursor
                    // (`lemma_walk_spec_bounds`).
                    Ok(Seq::empty())
                }
            },
            Err(e) => Err(e),
        }
    }
}

/// The whole parse: a `Root` node whose children are the top-level values in
/// sequence order, or the first error met.
pub open spec fn parse_spec(tokens: Seq<TokenView>) -> Result<NodeView, ParseErrorView> {
    match root_children_spec(tokens, 0) {
        Ok(children) => Ok(
            NodeView { kind: NodeKind::Root, value: None, children: Some(children) },
        ),
        Err(e) => Err(e),
    }
}

/// Progress: a parsed value consumes at least one token and never reads past
/// the end, so the cursor is monotonically increasing and ends within bounds.
pub proof fn lemma_walk_spec_bounds(tokens: Seq<TokenView>, pc: int)
    ensures
        walk_spec(tokens, pc) matches Ok(p) ==> pc < p.1 <= tokens.len(),
    decreases tokens.len() - pc, 0int,
{
    if 0 <= pc < tokens.len() {
        let t = tokens[pc];
        match t.kind {
            TokenKindView::CurlyBracket => {
                lemma_walk_children_spec_bounds(tokens, pc + 1, TokenKindView::CurlyBracket, '}');
            },
            TokenKindView::SquareBracket => {
                lemma_walk_children_spec_bounds(tokens, pc + 1, TokenKindView::SquareBracket, ']');
            },
            TokenKindView::Colon => {
                lemma_walk_spec_bounds(tokens, pc + 1);
            },
            TokenKindView::Comma => {
                lemma_walk_spec_bounds(tokens, pc + 1);
            },
            _ => {},
        }
    }
}

/// Progress for a run of children: on success the cursor rests on the closing
/// token, inside the sequence, no earlier than where the run began.
pub proof fn lemma_walk_children_spec_bounds(
    tokens: Seq<TokenView>,
    pc: int,
    close_kind: TokenKindView,
    close_glyph: char,
)
    ensures
        walk_children_spec(tokens, pc, close_kind, close_glyph) matches Ok(q) ==> {
            &&& pc <= q.1 < tokens.len()
            &&& tokens[q.1].kind == close_kind
            &&& tokens[q.1].value == seq![close_glyph]
        },
    decreases tokens.len() - pc, 1int,
{
    if 0 <= pc < tokens.len() {
        if !(tokens[pc].kind == close_kind && tokens[pc].value == seq![close_glyph]) {
            lemma_walk_spec_bounds(tokens, pc);
            match walk_spec(tokens, pc) {
                Ok(p) => {
                    lemma_walk_children_spec_bounds(tokens, p.1, close_kind, close_glyph);
                },
                Err(_) => {},
            }
        }
    }
}

/// Prefixes already-parsed children onto the rest of a children run.
pub open spec fn prepend_children(
    prefix: Seq<NodeView>,
    r: Result<(Seq<NodeView>, int), ParseErrorView>,
) -> Result<(Seq<NodeView>, int), ParseErrorView> {
    match r {
        Ok(q) => Ok((prefix + q.0, q.1)),
        Err(e) => Err(e),
    }
}

/// Prefixes already-parsed top-level values onto the rest of the root run.
pub open spec fn prepend_nodes(
    prefix: Seq<NodeView>,
    r: Result<Seq<NodeView>, ParseErrorView>,
) -> Result<Seq<NodeView>, ParseErrorView> {
    match r {
        Ok(rest) => Ok(prefix + rest),
        Err(e) => Err(e),
    }
}

proof fn lemma_node_views_push(nodes: Seq<Node>, n: Node)
    ensures
        node_views(nodes.push(n)) == node_views(nodes) + seq![n@],
{
    assert(node_views(nodes.push(n)) =~= node_views(nodes) + seq![n@]);
}

proof fn lemma_prepend_children_assoc(
    a: Seq<NodeView>,
    b: Seq<NodeView>,
    r: Result<(Seq<NodeView>, int), ParseErrorView>,
)
    ensures
        prepend_children(a, prepend_children(b, r)) == prepend_children(a + b, r),
{
    match r {
        Ok(q) => {
            assert(a + (b + q.0) =~= (a + b) + q.0);
        },
        Err(_) => {},
    }
}

proof fn lemma_prepend_nodes_assoc(
    a: Seq<NodeView>,
    b: Seq<NodeView>,
    r: Result<Seq<NodeView>, ParseErrorView>,
)
    ensures
        prepend_nodes(a, prepend_nodes(b, r)) == prepend_nodes(a + b, r),
{
    match r {
        Ok(rest) => {
            assert(a + (b + rest) =~= (a + b) + rest);
        },
        Err(_) => {},
    }
}

/// The element-by-element view of a node sequence is its pointwise map.
proof fn lemma_node_views_eq(ns: Seq<Node>)
    ensures
        spec_node_views(ns) == node_views(ns),
    decreases ns.len(),
{
    if ns.len() > 0 {
        lemma_node_views_eq(ns.subrange(1, ns.len() as int));
        assert(seq![spec_node_view(ns[0])] + node_views(ns.subrange(1, ns.len() as int))
            =~= node_views(ns));
    }
}

/// A composite node's view holds the views of its children, in order.
proof fn lemma_built_node_view(node: Node)
    requires
        node.children is Some,
    ensures
        node@.children == Some(node_views(node.children.unwrap()@)),
{
    lemma_node_views_eq(node.children.unwrap()@);
}

/// An element-by-element copy of a character vector.
#[verifier::loop_isolation(false)]
fn clone_chars(v: &Vec<char>) -> (r: Vec<char>)
    ensures
        r@ == v@,
{
    let mut r: Vec<char> = Vec::new();
    let mut i: usize = 0;
    while i < v.len()
        invariant
            i <= v@.len(),
            r@ == v@.subrange(0, i as int),
        decreases v@.len() - i,
    {
        r.push(v[i]);
        proof {
            assert(v@.subrange(0, i as int).push(v@[i as int]) =~= v@.subrange(0, i + 1));
        }
        i += 1;
    }
    proof {
        assert(v@.subrange(0, v@.len() as int) =~= v@);
    }
    r
}

/// Whether this vector holds exactly the one character `g`.
fn value_is_glyph(v: &Vec<char>, g: char) -> (r: bool)
    ensures
        r == (v@ == seq![g]),
{
    if v.len() == 1 {
        let c = v[0];
        proof {
            if c == g {
                assert(v@ =~= seq![g]);
            }
        }
        c == g
    } else {
        false
    }
}

/// Whether this token closes an object: a curly bracket whose value is `}`.
fn is_closing_curly(t: &Token) -> (r: bool)
    ensures
        r == (t@.kind == TokenKindView::CurlyBracket && t@.value == seq!['}']),
{
    match &t.kind {
        TokenKind::CurlyBracket => value_is_glyph(&t.value, '}'),
        _ => false,
    }
}

/// Whether this token closes an array: a square bracket whose value is `]`.
fn is_closing_square(t: &Token) -> (r: bool)
    ensures
        r == (t@.kind == TokenKindView::SquareBracket && t@.value == seq![']']),
{
    match &t.kind {
        TokenKind::SquareBracket => value_is_glyph(&t.value, ']'),
        _ => false,
    }
}

/// The recursive-descent parser: a token sequence and a single forward
/// cursor. The cursor never moves backwards, and on a successful parse it
/// ends exactly at the length of the token sequence.
pub struct TokenParser {
    pc: usize,
    tokens: Vec<Token>,
}

impl TokenParser {
    /// The cursor's position.
    pub closed spec fn spec_pc(&self) -> int {
        self.pc as int
    }

    /// The views of the tokens held by the parser.
    pub closed spec fn spec_tokens(&self) -> Seq<TokenView> {
        token_views(self.tokens@)
    }

    /// A fresh parser: cursor at zero, no tokens yet.
    pub fn new() -> (r: Self)
        ensures
            r.spec_pc() == 0,
            r.spec_tokens() == Seq::<TokenView>::empty(),
    {
        let r = Self { pc: 0, tokens: Vec::new() };
        proof {
            assert(r.spec_tokens() =~= Seq::<TokenView>::empty());
        }
        r
    }

    /// Parses the whole token sequence into a tree: a `Root` node whose
    /// children are the top-level values in order, exactly as `parse_spec`
    /// describes, or the first error met. The cursor is reset at entry; on
    /// success it ends exactly at the sequence's length.
    #[verifier::loop_isolation(false)]
    pub fn parse(&mut self, tokens: Vec<Token>) -> (r: Result<Node, ParseError>)
        ensures
            final(self).spec_tokens() == token_views(tokens@),
            match r {
                Ok(node) => {
                    &&& parse_spec(token_views(tokens@)) == Ok::<NodeView, ParseErrorView>(node@)
                    &&& final(self).spec_pc() == token_views(tokens@).len()
                },
                Err(e) => parse_spec(token_views(tokens@)) == Err::<NodeView, ParseErrorView>(e@),
            },
    {
        self.pc = 0;
        self.tokens = tokens;
        let ghost ts = token_views(self.tokens@);

        let mut children: Vec<Node> = Vec::new();
        while self.pc < self.tokens.len()
            invariant
                self.pc <= self.tokens@.len(),
                token_views(self.tokens@) == ts,
                root_children_spec(ts, 0) == prepend_nodes(
                    node_views(children@),
                    root_children_spec(ts, self.pc as int),
                ),
            decreases self.tokens@.len() - self.pc,
        {
            let ghost pc_before = self.pc as int;
            let node_result = self.walk();
            match node_result {
                Ok(node) => {
                    proof {
                        lemma_prepend_nodes_assoc(
                            node_views(children@),
                            seq![node@],
                            root_children_spec(ts, self.pc as int),
                        );
                        lemma_node_views_push(children@, node);
                    }
                    children.push(node);
                },
                Err(e) => {
                    return Err(e);
                },
            }
        }
        proof {
            assert(node_views(children@) + Seq::<NodeView>::empty() =~= node_views(children@));
        }
        let root = Node { kind: NodeKind::Root, value: None, children: Some(children) };
        proof {
            lemma_built_node_view(root);
        }
        Ok(root)
    }

    /// Parses one value at the cursor, advancing past the tokens it consumed.
    #[verifier::loop_isolation(false)]
    fn walk(&mut self) -> (r: Result<Node, ParseError>)
        ensures
            final(self).tokens == old(self).tokens,
            match r {
                Ok(node) => {
                    &&& walk_spec(token_views(old(self).tokens@), old(self).pc as int) == Ok::<
                        (NodeView, int),
                        ParseErrorView,
                    >((node@, final(self).pc as int))
                    &&& old(self).pc < final(self).pc <= final(self).tokens@.len()
                },
                Err(e) => walk_spec(token_views(old(self).tokens@), old(self).pc as int) == Err::<
                    (NodeView, int),
                    ParseErrorView,
                >(e@),
            },
        decreases old(self).tokens@.len() - old(self).pc,
    {
        if self.pc >= self.tokens.len() {
            return Err(ParseError::UnexpectedEnd);
        }
        let ghost ts = token_views(self.tokens@);
        let ghost pc0 = self.pc as int;

        let t = &self.tokens[self.pc];
        match &t.kind {
            TokenKind::CurlyBracket => {
                let open = value_is_glyph(&t.value, '{');
                let close = value_is_glyph(&t.value, '}');
                if open {
                    self.pc += 1;
                    let mut children: Vec<Node> = Vec::new();
                    while self.pc < self.tokens.len() && !is_closing_curly(
                        &self.tokens[self.pc],
                    )
                        invariant
                            pc0 < self.pc <= self.tokens@.len(),
                            self.tokens == old(self).tokens,
                            walk_children_spec(ts, pc0 + 1, TokenKindView::CurlyBracket, '}')
                                == prepend_children(
                                node_views(children@),
                                walk_children_spec(
                                    ts,
                                    self.pc as int,
                                    TokenKindView::CurlyBracket,
                                    '}',
                                ),
                            ),
                        decreases self.tokens@.len() - self.pc,
                    {
                        let node_result = self.walk();
                        match node_result {
                            Ok(node) => {
                                proof {
                                    lemma_prepend_children_assoc(
                                        node_views(children@),
                                        seq![node@],
                                        walk_children_spec(
                                            ts,
                                            self.pc as int,
                                            TokenKindView::CurlyBracket,
                                            '}',
                                        ),
                                    );
                                    lemma_node_views_push(children@, node);
                                }
                                children.push(node);
                            },
                            Err(e) => {
                                return Err(e);
                            },
                        }
                    }
                    if self.pc >= self.tokens.len() {
                        // The object was never closed: the tokens ran out
                        // while `}` was still owed.
                        return Err(ParseError::UnexpectedEnd);
                    }
                    self.pc += 1;
                    let object_node = Node {
                        kind: NodeKind::Object,
                        value: None,
                        children: Some(children),
                    };
                    proof {
                        lemma_built_node_view(object_node);
                        assert(node_views(object_node.children.unwrap()@)
                            + Seq::<NodeView>::empty() =~= node_views(
                            object_node.children.unwrap()@,
                        ));
                    }
                    Ok(object_node)
                } else if close {
                    Err(ParseError::UnexpectedToken)
                } else {
                    Err(ParseError::InvalidBracket)
                }
            },
            TokenKind::SquareBracket => {
                let open = value_is_glyph(&t.value, '[');
                let close = value_is_glyph(&t.value, ']');
                if open {
                    self.pc += 1;
                    let mut children: Vec<Node> = Vec::new();
                    while self.pc < self.tokens.len() && !is_closing_square(
                        &self.tokens[self.pc],
                    )
                        invariant
                            pc0 < self.pc <= self.tokens@.len(),
                            self.tokens == old(self).tokens,
                            walk_children_spec(ts, pc0 + 1, TokenKindView::SquareBracket, ']')
                                == prepend_children(
                                node_views(children@),
                                walk_children_spec(
                                    ts,
                                    self.pc as int,
                                    TokenKindView::SquareBracket,
                                    ']',
                                ),
                            ),
                        decreases self.tokens@.len() - self.pc,
                    {
                        let node_result = self.walk();
                        match node_result {
                            Ok(node) => {
                                proof {
                                    lemma_prepend_children_assoc(
                                        node_views(children@),
                                        seq![node@],
                                        walk_children_spec(
                                            ts,
                                            self.pc as int,
                                            TokenKindView::SquareBracket,
                                            ']',
                                        ),
                                    );
                                    lemma_node_views_push(children@, node);
                                }
                                children.push(node);
                            },
                            Err(e) => {
                                return Err(e);
                            },
                        }
                    }
                    if self.pc >= self.tokens.len() {
                        // The array was never closed: the tokens ran out
                        // while `]` was still owed.
                        return Err(ParseError::UnexpectedEnd);
                    }
                    self.pc += 1;
                    let array_node = Node {
                        kind: NodeKind::Array,
                        value: None,
                        children: Some(children),
                    };
                    proof {
                        lemma_built_node_view(array_node);
                        assert(node_views(array_node.children.unwrap()@)
                            + Seq::<NodeView>::empty() =~= node_views(
                            array_node.children.unwrap()@,
                        ));
                    }
                    Ok(array_node)
                } else if close {
                    Err(ParseError::UnexpectedToken)
                } else {
                    Err(ParseError::InvalidBracket)
                }
            },
            TokenKind::Colon => {
                self.pc += 1;
                self.walk()
            },
            TokenKind::Comma => {
                self.pc += 1;
                self.walk()
            },
            TokenKind::True => {
                let value = clone_chars(&t.value);
                self.pc += 1;
                Ok(Node { kind: NodeKind::Boolean, value: Some(value), children: None })
            },
            TokenKind::False => {
                let value = clone_chars(&t.value);
                self.pc += 1;
                Ok(Node { kind: NodeKind::Boolean, value: Some(value), children: None })
            },
            TokenKind::Null => {
                self.pc += 1;
                Ok(Node { kind: NodeKind::Null, value: None, children: None })
            },
            TokenKind::String => {
                let value = clone_chars(&t.value);
                self.pc += 1;
                Ok(Node { kind: NodeKind::String, value: Some(value), children: None })
            },
            TokenKind::Number => {
                let value = clone_chars(&t.value);
                self.pc += 1;
                Ok(Node { kind: NodeKind::Number, value: Some(value), children: None })
            },
            TokenKind::Unknown(text) => {
                let owned = clone_chars(text);
                Err(ParseError::UnknownToken(owned))
            },
        }
    }
}

} // verus!
