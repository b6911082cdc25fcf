//! The parser. `document_of` and the functions it calls define the grammar,
//! with its error recovery, on the tokenizer's states; `parse` builds the
//! same tree with a stack of nodes begun and complete.
use vstd::prelude::*;
use vstd::string::{StringExecFns, StringSliceAdditionalSpecFns};

use crate::lexer::{lemma_next_token, next_token, Lexed, Lexer, LexerMode, TokenKind};
use crate::span::Span;
use crate::syntax_error::{concat3, diagnostics, Diagnostic, SyntaxError};
use crate::text::chars_between;

verus! {

/// The kinds of node in the concrete syntax tree.
#[derive(Debug, PartialEq, Eq)]
pub enum TreeKind {
    Document,
    InnerNode,
    OpenTag,
    TagName(String),
    Attrs,
    Attr,
    AttrName(String),
    AttrVal(String),
    CloseTag,
    TextNode(String),
}

/// A node of the concrete syntax tree.
#[derive(Debug)]
pub struct Tree {
    pub kind: TreeKind,
    pub span: Span,
    pub children: Vec<Tree>,
}

/// What a node kind is, with its text as characters.
pub enum Kind {
    Document,
    InnerNode,
    OpenTag,
    TagName(Seq<char>),
    Attrs,
    Attr,
    AttrName(Seq<char>),
    AttrVal(Seq<char>),
    CloseTag,
    TextNode(Seq<char>),
}

/// What a node of the concrete syntax tree is.
pub struct Node {
    pub kind: Kind,
    pub start: int,
    pub end: int,
    pub children: Seq<Node>,
}

impl TreeKind {
    pub open spec fn view(&self) -> Kind {
        match self {
            TreeKind::Document => Kind::Document,
            TreeKind::InnerNode => Kind::InnerNode,
            TreeKind::OpenTag => Kind::OpenTag,
            TreeKind::TagName(s) => Kind::TagName(s@),
            TreeKind::Attrs => Kind::Attrs,
            TreeKind::Attr => Kind::Attr,
            TreeKind::AttrName(s) => Kind::AttrName(s@),
            TreeKind::AttrVal(s) => Kind::AttrVal(s@),
            TreeKind::CloseTag => Kind::CloseTag,
            TreeKind::TextNode(s) => Kind::TextNode(s@),
        }
    }
}

impl Tree {
    pub open spec fn view(&self) -> Node
        decreases self,
    {
        Node {
            kind: self.kind@,
            start: self.span.start as int,
            end: self.span.end as int,
            children: Seq::new(
                self.children@.len(),
                |i: int|
                    if 0 <= i < self.children.len() {
                        self.children[i].view()
                    } else {
                        arbitrary()
                    },
            ),
        }
    }
}

// ---------------------------------------------------------------------------
// The grammar, as functions from a lexer state to what is parsed there.

/// A lexer state: the position and the mode from which the next token is read.
pub type State = (int, LexerMode);

/// The token read in state `s`.
pub open spec fn tok(b: Seq<u8>, s: State) -> Lexed {
    next_token(b, s.0, s.1)
}

/// The state after the token read in state `s`.
pub open spec fn after(b: Seq<u8>, s: State) -> State {
    (tok(b, s).next_pos, tok(b, s).next_mode)
}

pub open spec fn text_of(b: Seq<u8>, l: Lexed) -> Seq<char> {
    chars_between(b, l.start, l.end)
}

pub open spec fn span_of(l: Lexed) -> Span {
    Span { start: l.start as usize, end: l.end as usize }
}

pub open spec fn leaf(kind: Kind, l: Lexed) -> Node {
    Node { kind, start: l.start, end: l.end, children: seq![] }
}

pub open spec fn diag(l: Lexed, message: Seq<char>) -> Diagnostic {
    Diagnostic { span: span_of(l), message }
}

/// A node parsed from some state, the errors found on the way, and the state
/// after it.
pub struct Parsed {
    pub node: Node,
    pub errors: Seq<Diagnostic>,
    pub state: State,
}

/// A run of nodes parsed from some state.
pub struct ParsedRun {
    pub nodes: Seq<Node>,
    pub errors: Seq<Diagnostic>,
    pub state: State,
}

pub open spec fn parsed(kind: Kind, start: int, end: int, children: Seq<Node>, errors: Seq<Diagnostic>, state: State) -> Parsed {
    Parsed { node: Node { kind, start, end, children }, errors, state }
}

/// `s` is a state within the input.
pub open spec fn in_input(b: Seq<u8>, s: State) -> bool {
    0 <= s.0 <= b.len()
}

/// The state moved forward from `s` to `t`.
pub open spec fn advanced(b: Seq<u8>, s: State, t: State) -> bool {
    s.0 < t.0 <= b.len()
}

/// `<` Name Attrs `>`; also the name, if there was one.
pub open spec fn open_tag_of(b: Seq<u8>, s: State) -> (Parsed, Option<Seq<char>>) {
    let langle = tok(b, s);
    let s1 = after(b, s);
    let p = tok(b, s1);
    if p.kind == TokenKind::Name {
        let name = text_of(b, p);
        (open_tag_end(b, langle.start, seq![leaf(Kind::TagName(name), p)], seq![], after(b, s1)), Some(name))
    } else if p.kind == TokenKind::Equals || p.kind == TokenKind::AttrVal || p.kind == TokenKind::RAngle {
        (open_tag_end(b, langle.start, seq![], seq![diag(p, "expected tag name"@)], s1), None)
    } else {
        (parsed(Kind::OpenTag, langle.start, p.start, seq![], seq![diag(p, "expected tag name, followed by attributes and '>'"@)], s1), None)
    }
}

/// The attributes and the `>` of an opening tag that starts at `start`.
pub open spec fn open_tag_end(b: Seq<u8>, start: int, kids: Seq<Node>, errors: Seq<Diagnostic>, s: State) -> Parsed {
    let a = attrs_of(b, s);
    let p = tok(b, a.state);
    if p.kind == TokenKind::RAngle {
        parsed(Kind::OpenTag, start, p.end, kids.push(a.node), errors + a.errors, after(b, a.state))
    } else {
        parsed(Kind::OpenTag, start, p.start, kids.push(a.node), errors + a.errors + seq![diag(p, "expected '>'"@)], a.state)
    }
}

/// The attributes, as many as there are names.
pub open spec fn attrs_of(b: Seq<u8>, s: State) -> Parsed {
    let run = attr_run(b, s);
    parsed(Kind::Attrs, tok(b, s).start, tok(b, run.state).start, run.nodes, run.errors, run.state)
}

pub open spec fn attr_run(b: Seq<u8>, s: State) -> ParsedRun
    decreases b.len() - s.0,
{
    if tok(b, s).kind == TokenKind::Name {
        let a = attr_of(b, s);
        if advanced(b, s, a.state) && in_input(b, s) {
            let rest = attr_run(b, a.state);
            ParsedRun { nodes: seq![a.node] + rest.nodes, errors: a.errors + rest.errors, state: rest.state }
        } else {
            ParsedRun { nodes: seq![a.node], errors: a.errors, state: a.state }
        }
    } else {
        ParsedRun { nodes: seq![], errors: seq![], state: s }
    }
}

/// Name `=` value.
pub open spec fn attr_of(b: Seq<u8>, s: State) -> Parsed {
    let name = tok(b, s);
    let s1 = after(b, s);
    let name_leaf = leaf(Kind::AttrName(text_of(b, name)), name);
    let p = tok(b, s1);
    if p.kind == TokenKind::Equals {
        attr_value(b, name.start, name_leaf, seq![], after(b, s1))
    } else if p.kind == TokenKind::AttrVal || p.kind == TokenKind::UnterminatedAttrVal {
        attr_value(b, name.start, name_leaf, seq![diag(p, "expected '='"@)], s1)
    } else {
        parsed(Kind::Attr, name.start, p.start, seq![name_leaf], seq![diag(p, "expected '=', followed by attribute value"@)], s1)
    }
}

/// The value of an attribute that starts at `start`.
pub open spec fn attr_value(b: Seq<u8>, start: int, name_leaf: Node, errors: Seq<Diagnostic>, s: State) -> Parsed {
    let p = tok(b, s);
    if p.kind == TokenKind::AttrVal {
        parsed(Kind::Attr, start, p.end, seq![name_leaf, leaf(Kind::AttrVal(text_of(b, p)), p)], errors, after(b, s))
    } else if p.kind == TokenKind::UnterminatedAttrVal {
        parsed(Kind::Attr, start, p.end, seq![name_leaf, leaf(Kind::AttrVal(text_of(b, p)), p)], errors + seq![diag(p, "unterminated attribute value"@)], after(b, s))
    } else {
        parsed(Kind::Attr, start, p.start, seq![name_leaf], errors + seq![diag(p, "expected attribute value"@)], s)
    }
}

/// `</` OrphanHashes? Name `>`; also the name and its span, if there was one.
pub open spec fn close_tag_of(b: Seq<u8>, s: State) -> (Parsed, Option<(Seq<char>, Span)>) {
    let ls = tok(b, s);
    let s1 = after(b, s);
    let o = tok(b, s1);
    let errors0 = if o.kind == TokenKind::OrphanHashes { seq![diag(o, "orphaned hashes"@)] } else { seq![] };
    let s2 = if o.kind == TokenKind::OrphanHashes { after(b, s1) } else { s1 };
    let p = tok(b, s2);
    if p.kind == TokenKind::Name {
        let name = text_of(b, p);
        (close_tag_end(b, ls.start, seq![leaf(Kind::TagName(name), p)], errors0, after(b, s2)), Some((name, span_of(p))))
    } else if p.kind == TokenKind::RAngle {
        (close_tag_end(b, ls.start, seq![], errors0 + seq![diag(p, "expected tag name"@)], s2), None)
    } else {
        (parsed(Kind::CloseTag, ls.start, p.start, seq![], errors0 + seq![diag(p, "expected tag name, followed by '>'"@)], s2), None)
    }
}

/// The `>` of a closing tag that starts at `start`.
pub open spec fn close_tag_end(b: Seq<u8>, start: int, kids: Seq<Node>, errors: Seq<Diagnostic>, s: State) -> Parsed {
    let p = tok(b, s);
    if p.kind == TokenKind::RAngle {
        parsed(Kind::CloseTag, start, p.end, kids, errors, after(b, s))
    } else {
        parsed(Kind::CloseTag, start, p.start, kids, errors + seq![diag(p, "expected '>'"@)], s)
    }
}

pub open spec fn unexpected_message(found: Seq<char>) -> Seq<char> {
    "expected '<', \"</\", or text, but found \""@ + found + "\""@
}

pub open spec fn mismatch_message(open: Seq<char>, close: Seq<char>) -> Seq<char> {
    "closing tag must match opening (expected \""@ + open + "\" but found \""@ + close + "\")"@
}

/// The error for a closing tag whose name differs from the opening one.
pub open spec fn mismatch_of(open: Option<Seq<char>>, close: Option<(Seq<char>, Span)>) -> Seq<Diagnostic> {
    match (open, close) {
        (Some(o), Some((c, span))) => if o != c {
            seq![Diagnostic { span, message: mismatch_message(o, c) }]
        } else {
            seq![]
        },
        _ => seq![],
    }
}

/// The nodes of a body, up to a closing tag or the end of the input.
pub open spec fn nodes_of(b: Seq<u8>, s: State) -> ParsedRun
    decreases b.len() - s.0, 1int,
{
    let p = tok(b, s);
    if !in_input(b, s) || p.kind == TokenKind::LAngleSlash || p.kind == TokenKind::Eof {
        ParsedRun { nodes: seq![], errors: seq![], state: s }
    } else if p.kind == TokenKind::LAngle {
        let n = inner_of(b, s);
        if advanced(b, s, n.state) {
            let rest = nodes_of(b, n.state);
            ParsedRun { nodes: seq![n.node] + rest.nodes, errors: n.errors + rest.errors, state: rest.state }
        } else {
            ParsedRun { nodes: seq![n.node], errors: n.errors, state: n.state }
        }
    } else {
        let s1 = after(b, s);
        if advanced(b, s, s1) {
            let rest = nodes_of(b, s1);
            if p.kind == TokenKind::Text {
                ParsedRun { nodes: seq![leaf(Kind::TextNode(text_of(b, p)), p)] + rest.nodes, errors: rest.errors, state: rest.state }
            } else {
                ParsedRun { nodes: rest.nodes, errors: seq![diag(p, unexpected_message(text_of(b, p)))] + rest.errors, state: rest.state }
            }
        } else {
            ParsedRun { nodes: seq![], errors: seq![], state: s }
        }
    }
}

/// OpenTag Node* (CloseTag | end of input).
pub open spec fn inner_of(b: Seq<u8>, s: State) -> Parsed
    decreases b.len() - s.0, 0int,
{
    let start = tok(b, s).start;
    let (o, name) = open_tag_of(b, s);
    if advanced(b, s, o.state) && in_input(b, s) {
        let body = nodes_of(b, o.state);
        let p = tok(b, body.state);
        if p.kind == TokenKind::Eof {
            parsed(Kind::InnerNode, start, p.start, seq![o.node] + body.nodes,
                o.errors + body.errors + seq![diag(p, "expected closing tag, but found EOF"@)], body.state)
        } else {
            let (c, info) = close_tag_of(b, body.state);
            parsed(Kind::InnerNode, start, tok(b, c.state).start, seq![o.node] + body.nodes + seq![c.node],
                o.errors + body.errors + c.errors + mismatch_of(name, info), c.state)
        }
    } else {
        parsed(Kind::InnerNode, start, start, seq![o.node], o.errors, o.state)
    }
}

/// The state at the first `<` or at the end of the input.
pub open spec fn skip_to_open(b: Seq<u8>, s: State) -> State
    decreases b.len() - s.0,
{
    let p = tok(b, s);
    if p.kind == TokenKind::LAngle || p.kind == TokenKind::Eof || !in_input(b, s) || !advanced(b, s, after(b, s)) {
        s
    } else {
        skip_to_open(b, after(b, s))
    }
}

/// The state at the end of the input.
pub open spec fn skip_to_end(b: Seq<u8>, s: State) -> State
    decreases b.len() - s.0,
{
    let p = tok(b, s);
    if p.kind == TokenKind::Eof || !in_input(b, s) || !advanced(b, s, after(b, s)) {
        s
    } else {
        skip_to_end(b, after(b, s))
    }
}

/// The document that the source `b` parses to: whatever precedes the first
/// `<` is passed over, then one inner node, then the rest is passed over.
pub open spec fn document_of(b: Seq<u8>) -> Parsed {
    let s0: State = (0, LexerMode::Outside(0));
    let start = tok(b, s0).start;
    let s1 = skip_to_open(b, s0);
    let p = tok(b, s1);
    if p.kind == TokenKind::Eof {
        parsed(Kind::Document, start, p.start, seq![], seq![diag(p, "unexpected EOF"@)], s1)
    } else {
        let n = inner_of(b, s1);
        let s2 = skip_to_end(b, n.state);
        parsed(Kind::Document, start, tok(b, s2).start, seq![n.node], n.errors, s2)
    }
}

// ---------------------------------------------------------------------------
// The builder: a stack of nodes begun and nodes complete.

enum BuilderItem {
    InProgress { kind: TreeKind, start: usize },
    Complete(Tree),
}

/// What a builder item is.
pub enum Item {
    Open(Kind, int),
    Done(Node),
}

impl BuilderItem {
    spec fn view(&self) -> Item {
        match self {
            BuilderItem::InProgress { kind, start } => Item::Open(kind@, *start as int),
            BuilderItem::Complete(t) => Item::Done(t@),
        }
    }
}

/// The nodes of a run of complete items.
pub open spec fn done_nodes(items: Seq<Item>) -> Seq<Node> {
    items.map_values(|i: Item| i->Done_0)
}

pub open spec fn all_done(items: Seq<Item>) -> bool {
    forall|j: int| 0 <= j < items.len() ==> (#[trigger] items[j]) is Done
}

/// The stack after the node begun at `k` is completed with the items
/// above it as children.
pub open spec fn completed(stack: Seq<Item>, k: int, end: int) -> Seq<Item> {
    stack.take(k).push(
        Item::Done(
            Node {
                kind: stack[k]->Open_0,
                start: stack[k]->Open_1,
                end,
                children: done_nodes(stack.skip(k + 1)),
            },
        ),
    )
}

struct TreeBuilder {
    wip: Vec<BuilderItem>,
    errors: Vec<SyntaxError>,
}

impl TreeBuilder {
    spec fn stack(&self) -> Seq<Item> {
        self.wip@.map_values(|i: BuilderItem| i@)
    }

    spec fn errs(&self) -> Seq<Diagnostic> {
        diagnostics(self.errors@)
    }

    fn new() -> (r: TreeBuilder)
        ensures
            r.stack() == Seq::<Item>::empty(),
            r.errs() == Seq::<Diagnostic>::empty(),
    {
        let r = TreeBuilder { wip: Vec::new(), errors: Vec::new() };
        proof {
            assert(r.stack() =~= Seq::<Item>::empty());
            assert(r.errs() =~= Seq::<Diagnostic>::empty());
        }
        r
    }

    /// The one complete tree on the stack, and the errors.
    fn take(self) -> (r: ParseResult)
        requires
            self.stack().len() == 1,
            self.stack()[0] is Done,
        ensures
            r.tree@ == self.stack()[0]->Done_0,
            diagnostics(r.errors@) == self.errs(),
    {
        let mut wip = self.wip;
        let item = wip.pop().unwrap();
        match item {
            BuilderItem::Complete(tree) => ParseResult { tree, errors: self.errors },
            BuilderItem::InProgress { .. } => {
                proof {
                    assert(self.stack()[0] == item@);
                }
                ParseResult { tree: Tree { kind: TreeKind::Document, span: Span::new(0, 0), children: Vec::new() }, errors: self.errors }
            },
        }
    }

    fn open(&mut self, kind: TreeKind, start: usize)
        ensures
            final(self).stack() == old(self).stack().push(Item::Open(kind@, start as int)),
            final(self).errs() == old(self).errs(),
    {
        self.wip.push(BuilderItem::InProgress { kind, start });
        proof {
            assert(self.stack() =~= old(self).stack().push(Item::Open(kind@, start as int)));
        }
    }

    fn add_leaf(&mut self, kind: TreeKind, span: Span)
        ensures
            final(self).stack() == old(self).stack().push(
                Item::Done(Node { kind: kind@, start: span.start as int, end: span.end as int, children: seq![] }),
            ),
            final(self).errs() == old(self).errs(),
    {
        let t = Tree { kind, span, children: Vec::new() };
        proof {
            assert(t@.children =~= Seq::<Node>::empty());
        }
        self.wip.push(BuilderItem::Complete(t));
        proof {
            assert(self.stack() =~= old(self).stack().push(Item::Done(t@)));
        }
    }

    fn add_error(&mut self, error: SyntaxError)
        ensures
            final(self).stack() == old(self).stack(),
            final(self).errs() == old(self).errs().push(error@),
    {
        self.errors.push(error);
        proof {
            assert(self.errs() =~= old(self).errs().push(error@));
        }
    }

    /// Completes the node begun at `k`: the items above it become its
    /// children.
    fn complete(&mut self, end: usize, Ghost(k): Ghost<int>)
        requires
            0 <= k < old(self).stack().len(),
            old(self).stack()[k] is Open,
            all_done(old(self).stack().skip(k + 1)),
        ensures
            final(self).stack() == completed(old(self).stack(), k, end as int),
            final(self).errs() == old(self).errs(),
    {
        let ghost st = self.stack();
        let ghost n = st.len();
        let mut rev: Vec<Tree> = Vec::new();
        loop
            invariant
                0 <= k < self.wip@.len() <= n,
                self.wip@ == old(self).wip@.take(self.wip@.len() as int),
                self.errors == old(self).errors,
                st == old(self).stack(),
                n == st.len(),
                rev@.len() == n - self.wip@.len(),
                st[k] is Open,
                all_done(st.skip(k + 1)),
                forall|i: int| 0 <= i < rev@.len() ==> st[n - 1 - i] == Item::Done(#[trigger] rev@[i]@),
            decreases self.wip@.len(),
        {
            let ghost before = self.wip@;
            let item = self.wip.pop().unwrap();
            proof {
                assert(st[before.len() - 1] == item@);
            }
            match item {
                BuilderItem::InProgress { kind, start } => {
                    proof {
                        if before.len() - 1 > k {
                            assert(st.skip(k + 1)[before.len() - 1 - (k + 1)] == st[before.len() - 1]);
                        }
                        assert(before.len() - 1 == k);
                    }
                    let mut children: Vec<Tree> = Vec::new();
                    while rev.len() > 0
                        invariant
                            0 <= k < n,
                            n == st.len(),
                            children@.len() + rev@.len() == n - 1 - k,
                            forall|i: int| 0 <= i < rev@.len() ==> st[n - 1 - i] == Item::Done(#[trigger] rev@[i]@),
                            forall|i: int| 0 <= i < children@.len() ==> st[k + 1 + i] == Item::Done(#[trigger] children@[i]@),
                        decreases rev@.len(),
                    {
                        let t = rev.pop().unwrap();
                        children.push(t);
                    }
                    let tree = Tree { kind, span: Span::new(start, end), children };
                    proof {
                        let kids = done_nodes(st.skip(k + 1));
                        assert(tree@.children.len() == kids.len());
                        assert forall|i: int| 0 <= i < kids.len() implies tree@.children[i] == kids[i] by {
                            assert(st.skip(k + 1)[i] == st[k + 1 + i]);
                            assert(tree@.children[i] == tree.children@[i]@);
                        }
                        assert(tree@.children =~= kids);
                    }
                    self.wip.push(BuilderItem::Complete(tree));
                    proof {
                        assert(self.stack() =~= completed(st, k, end as int));
                    }
                    return;
                },
                BuilderItem::Complete(t) => {
                    rev.push(t);
                },
            }
        }
    }
}

// ---------------------------------------------------------------------------
// The parser.

/// The result of a parse: the document node and every error found.
#[derive(Debug)]
pub struct ParseResult {
    pub tree: Tree,
    pub errors: Vec<SyntaxError>,
}

/// The state of a lexer, as the grammar sees it.
pub open spec fn state(l: &Lexer) -> State {
    (l.pos(), l.mode())
}

/// Complete items, one for each node.
pub open spec fn dones(kids: Seq<Node>) -> Seq<Item> {
    kids.map_values(|n: Node| Item::Done(n))
}

proof fn lemma_dones_push(prefix: Seq<Item>, kids: Seq<Node>, n: Node)
    ensures
        (prefix + dones(kids)).push(Item::Done(n)) == prefix + dones(kids.push(n)),
        prefix + dones(seq![]) == prefix,
{
    assert((prefix + dones(kids)).push(Item::Done(n)) =~= prefix + dones(kids.push(n)));
    assert(prefix + dones(seq![]) =~= prefix);
}

proof fn lemma_dones_concat(prefix: Seq<Item>, kids: Seq<Node>, more: Seq<Node>)
    ensures
        prefix + dones(kids) + dones(more) == prefix + dones(kids + more),
{
    assert(prefix + dones(kids) + dones(more) =~= prefix + dones(kids + more));
}

/// Completing the node begun on top of `base` gives it the nodes above as
/// children.
proof fn lemma_complete(base: Seq<Item>, kind: Kind, start: int, kids: Seq<Node>, end: int)
    ensures
        ({
            let st = base.push(Item::Open(kind, start)) + dones(kids);
            &&& 0 <= base.len() < st.len()
            &&& st[base.len() as int] is Open
            &&& all_done(st.skip(base.len() as int + 1))
            &&& completed(st, base.len() as int, end) == base.push(
                Item::Done(Node { kind, start, end, children: kids }),
            )
        }),
{
    let st = base.push(Item::Open(kind, start)) + dones(kids);
    assert(st[base.len() as int] == Item::Open(kind, start));
    assert(st.skip(base.len() as int + 1) =~= dones(kids));
    assert(st.take(base.len() as int) =~= base);
    assert(done_nodes(dones(kids)) =~= kids);
}

proof fn lemma_errs_push(a: Seq<Diagnostic>, b: Seq<Diagnostic>, d: Diagnostic)
    ensures
        (a + b).push(d) == a + (b + seq![d]),
        a + seq![] == a,
{
    assert((a + b).push(d) =~= a + (b + seq![d]));
    assert(a + seq![] =~= a);
}

proof fn lemma_errs_concat(a: Seq<Diagnostic>, b: Seq<Diagnostic>, c: Seq<Diagnostic>)
    ensures
        a + b + c == a + (b + c),
{
    assert(a + b + c =~= a + (b + c));
}

fn parse_attr(builder: &mut TreeBuilder, tokens: &mut Lexer)
    requires
        old(tokens).wf(),
        old(tokens).upcoming().kind == TokenKind::Name,
    ensures
        final(tokens).wf(),
        final(tokens).source() == old(tokens).source(),
        ({
            let p = attr_of(old(tokens).source(), state(old(tokens)));
            &&& final(builder).stack() == old(builder).stack().push(Item::Done(p.node))
            &&& final(builder).errs() == old(builder).errs() + p.errors
            &&& state(final(tokens)) == p.state
        }),
        advanced(old(tokens).source(), state(old(tokens)), state(final(tokens))),
{
    let ghost b = tokens.source();
    let ghost s0 = state(tokens);
    let ghost base = builder.stack();
    let ghost errs0 = builder.errs();
    let ghost k = base.len() as int;
    proof {
        lemma_next_token(b, s0.0, s0.1);
    }
    let name = tokens.pop();
    let start = name.start();
    builder.open(TreeKind::Attr, start);
    let ghost name_leaf = leaf(Kind::AttrName(text_of(b, tok(b, s0))), tok(b, s0));
    builder.add_leaf(TreeKind::AttrName(name.text), name.span);
    proof {
        lemma_dones_push(base.push(Item::Open(Kind::Attr, start as int)), seq![], name_leaf);
        assert(seq![name_leaf] =~= Seq::<Node>::empty().push(name_leaf));
        lemma_next_token(b, tokens.pos(), tokens.mode());
    }
    let peek = tokens.peek();
    let kind = peek.kind;
    let span = peek.span;
    if kind == TokenKind::Equals {
        tokens.pop();
    } else if kind == TokenKind::AttrVal || kind == TokenKind::UnterminatedAttrVal {
        builder.add_error(SyntaxError::new(span, "expected '='".to_owned()));
    } else {
        builder.add_error(SyntaxError::new(span, "expected '=', followed by attribute value".to_owned()));
        proof {
            lemma_complete(base, Kind::Attr, start as int, seq![name_leaf], span.start as int);
            lemma_errs_push(errs0, seq![], builder.errs().last());
        }
        builder.complete(span.start, Ghost(k));
        return;
    }
    let ghost errs1 = builder.errs();
    let ghost s2 = state(tokens);
    proof {
        lemma_next_token(b, s2.0, s2.1);
    }
    let peek = tokens.peek();
    let kind = peek.kind;
    let span = peek.span;
    if kind == TokenKind::AttrVal || kind == TokenKind::UnterminatedAttrVal {
        if kind == TokenKind::UnterminatedAttrVal {
            builder.add_error(SyntaxError::new(span, "unterminated attribute value".to_owned()));
        }
        let attr_val = tokens.pop();
        let ghost val_leaf = leaf(Kind::AttrVal(text_of(b, tok(b, s2))), tok(b, s2));
        builder.add_leaf(TreeKind::AttrVal(attr_val.text), attr_val.span);
        proof {
            lemma_dones_push(base.push(Item::Open(Kind::Attr, start as int)), seq![name_leaf], val_leaf);
            assert(seq![name_leaf, val_leaf] =~= seq![name_leaf].push(val_leaf));
            lemma_complete(base, Kind::Attr, start as int, seq![name_leaf, val_leaf], span.end as int);
            if kind == TokenKind::UnterminatedAttrVal {
                lemma_errs_push(errs0, errs1.subrange(errs0.len() as int, errs1.len() as int), builder.errs().last());
            }
        }
        builder.complete(span.end, Ghost(k));
    } else {
        builder.add_error(SyntaxError::new(span, "expected attribute value".to_owned()));
        proof {
            lemma_complete(base, Kind::Attr, start as int, seq![name_leaf], span.start as int);
        }
        builder.complete(span.start, Ghost(k));
    }
}

fn parse_attrs(builder: &mut TreeBuilder, tokens: &mut Lexer)
    requires
        old(tokens).wf(),
    ensures
        final(tokens).wf(),
        final(tokens).source() == old(tokens).source(),
        ({
            let p = attrs_of(old(tokens).source(), state(old(tokens)));
            &&& final(builder).stack() == old(builder).stack().push(Item::Done(p.node))
            &&& final(builder).errs() == old(builder).errs() + p.errors
            &&& state(final(tokens)) == p.state
        }),
        state(old(tokens)).0 <= state(final(tokens)).0,
{
    let ghost b = tokens.source();
    let ghost s0 = state(tokens);
    let ghost base = builder.stack();
    let ghost errs0 = builder.errs();
    let ghost k = base.len() as int;
    let start = tokens.peek().start();
    builder.open(TreeKind::Attrs, start);
    let ghost prefix = base.push(Item::Open(Kind::Attrs, start as int));
    let ghost mut kids: Seq<Node> = seq![];
    let ghost mut errs: Seq<Diagnostic> = seq![];
    proof {
        lemma_dones_push(prefix, seq![], arbitrary());
        lemma_errs_push(errs0, seq![], arbitrary());
    }
    while tokens.peek().kind == TokenKind::Name
        invariant
            tokens.wf(),
            tokens.source() == b,
            s0.0 <= tokens.pos(),
            builder.stack() == prefix + dones(kids),
            builder.errs() == errs0 + errs,
            ({
                let whole = attr_run(b, s0);
                let rest = attr_run(b, state(tokens));
                &&& whole.nodes == kids + rest.nodes
                &&& whole.errors == errs + rest.errors
                &&& whole.state == rest.state
            }),
        decreases b.len() - tokens.pos(),
    {
        let ghost s = state(tokens);
        let ghost a = attr_of(b, s);
        parse_attr(builder, tokens);
        proof {
            lemma_dones_push(prefix, kids, a.node);
            lemma_errs_concat(errs0, errs, a.errors);
            let rest = attr_run(b, state(tokens));
            assert(kids + (seq![a.node] + rest.nodes) =~= kids.push(a.node) + rest.nodes);
            assert(errs + (a.errors + rest.errors) =~= (errs + a.errors) + rest.errors);
            kids = kids.push(a.node);
            errs = errs + a.errors;
        }
    }
    proof {
        assert(kids + seq![] =~= kids);
        assert(errs + seq![] =~= errs);
        lemma_complete(base, Kind::Attrs, start as int, kids, tok(b, state(tokens)).start);
    }
    let end = tokens.peek().start();
    builder.complete(end, Ghost(k));
}

fn parse_open_tag(builder: &mut TreeBuilder, tokens: &mut Lexer) -> (r: Option<String>)
    requires
        old(tokens).wf(),
        old(tokens).upcoming().kind == TokenKind::LAngle,
    ensures
        final(tokens).wf(),
        final(tokens).source() == old(tokens).source(),
        ({
            let (p, name) = open_tag_of(old(tokens).source(), state(old(tokens)));
            &&& final(builder).stack() == old(builder).stack().push(Item::Done(p.node))
            &&& final(builder).errs() == old(builder).errs() + p.errors
            &&& state(final(tokens)) == p.state
            &&& match r {
                Some(t) => name == Some(t@),
                None => name is None,
            }
        }),
        advanced(old(tokens).source(), state(old(tokens)), state(final(tokens))),
{
    let ghost b = tokens.source();
    let ghost s0 = state(tokens);
    let ghost base = builder.stack();
    let ghost errs0 = builder.errs();
    let ghost k = base.len() as int;
    proof {
        lemma_next_token(b, s0.0, s0.1);
    }
    let mut tag_name: Option<String> = None;
    let langle = tokens.pop();
    let start = langle.start();
    builder.open(TreeKind::OpenTag, start);
    let ghost prefix = base.push(Item::Open(Kind::OpenTag, start as int));
    let ghost s1 = state(tokens);
    proof {
        lemma_next_token(b, s1.0, s1.1);
        lemma_dones_push(prefix, seq![], arbitrary());
        lemma_errs_push(errs0, seq![], arbitrary());
    }
    let ghost mut kids: Seq<Node> = seq![];
    let peek = tokens.peek();
    let kind = peek.kind;
    let span = peek.span;
    if kind == TokenKind::Name {
        let name = tokens.pop();
        tag_name = Some(name.text.clone());
        let ghost name_leaf = leaf(Kind::TagName(text_of(b, tok(b, s1))), tok(b, s1));
        builder.add_leaf(TreeKind::TagName(name.text), name.span);
        proof {
            lemma_dones_push(prefix, seq![], name_leaf);
            assert(seq![name_leaf] =~= Seq::<Node>::empty().push(name_leaf));
            kids = seq![name_leaf];
        }
    } else if kind == TokenKind::Equals || kind == TokenKind::AttrVal || kind == TokenKind::RAngle {
        builder.add_error(SyntaxError::new(span, "expected tag name".to_owned()));
    } else {
        builder.add_error(SyntaxError::new(span, "expected tag name, followed by attributes and '>'".to_owned()));
        proof {
            lemma_complete(base, Kind::OpenTag, start as int, seq![], span.start as int);
            lemma_errs_push(errs0, seq![], builder.errs().last());
        }
        builder.complete(span.start, Ghost(k));
        return tag_name;
    }
    let ghost errs1 = builder.errs();
    let ghost s2 = state(tokens);
    proof {
        assert(errs1 == errs0 + errs1.subrange(errs0.len() as int, errs1.len() as int));
    }
    let ghost a = attrs_of(b, s2);
    parse_attrs(builder, tokens);
    let ghost s3 = state(tokens);
    proof {
        lemma_dones_push(prefix, kids, a.node);
        lemma_errs_concat(errs0, errs1.subrange(errs0.len() as int, errs1.len() as int), a.errors);
        lemma_next_token(b, s3.0, s3.1);
    }
    let peek = tokens.peek();
    let kind = peek.kind;
    let span = peek.span;
    if kind == TokenKind::RAngle {
        tokens.pop();
        proof {
            lemma_complete(base, Kind::OpenTag, start as int, kids.push(a.node), span.end as int);
        }
        builder.complete(span.end, Ghost(k));
    } else {
        builder.add_error(SyntaxError::new(span, "expected '>'".to_owned()));
        proof {
            lemma_complete(base, Kind::OpenTag, start as int, kids.push(a.node), span.start as int);
            lemma_errs_push(errs0, errs1.subrange(errs0.len() as int, errs1.len() as int) + a.errors, builder.errs().last());
        }
        builder.complete(span.start, Ghost(k));
    }
    tag_name
}

/// The name of a closing tag, and where it stands.
struct CloseTag {
    name: String,
    span: Span,
}

fn parse_close_tag(builder: &mut TreeBuilder, tokens: &mut Lexer) -> (r: Option<CloseTag>)
    requires
        old(tokens).wf(),
        old(tokens).upcoming().kind == TokenKind::LAngleSlash,
    ensures
        final(tokens).wf(),
        final(tokens).source() == old(tokens).source(),
        ({
            let (p, info) = close_tag_of(old(tokens).source(), state(old(tokens)));
            &&& final(builder).stack() == old(builder).stack().push(Item::Done(p.node))
            &&& final(builder).errs() == old(builder).errs() + p.errors
            &&& state(final(tokens)) == p.state
            &&& match r {
                Some(c) => info == Some((c.name@, c.span)),
                None => info is None,
            }
        }),
        advanced(old(tokens).source(), state(old(tokens)), state(final(tokens))),
{
    let ghost b = tokens.source();
    let ghost s0 = state(tokens);
    let ghost base = builder.stack();
    let ghost errs0 = builder.errs();
    let ghost k = base.len() as int;
    proof {
        lemma_next_token(b, s0.0, s0.1);
    }
    let mut tag_info: Option<CloseTag> = None;
    let langle_slash = tokens.pop();
    let start = langle_slash.start();
    builder.open(TreeKind::CloseTag, start);
    let ghost prefix = base.push(Item::Open(Kind::CloseTag, start as int));
    proof {
        lemma_next_token(b, tokens.pos(), tokens.mode());
        lemma_dones_push(prefix, seq![], arbitrary());
        lemma_errs_push(errs0, seq![], arbitrary());
    }
    if tokens.peek().kind == TokenKind::OrphanHashes {
        let orphans = tokens.pop();
        builder.add_error(SyntaxError::new(orphans.span, "orphaned hashes".to_owned()));
        proof {
            lemma_errs_push(errs0, seq![], builder.errs().last());
        }
    }
    let ghost errs1 = builder.errs().subrange(errs0.len() as int, builder.errs().len() as int);
    let ghost s2 = state(tokens);
    let ghost mut kids: Seq<Node> = seq![];
    proof {
        assert(builder.errs() =~= errs0 + errs1);
        lemma_next_token(b, s2.0, s2.1);
    }
    let peek = tokens.peek();
    let kind = peek.kind;
    let span = peek.span;
    if kind == TokenKind::Name {
        let name = tokens.pop();
        tag_info = Some(CloseTag { name: name.text.clone(), span: name.span });
        let ghost name_leaf = leaf(Kind::TagName(text_of(b, tok(b, s2))), tok(b, s2));
        builder.add_leaf(TreeKind::TagName(name.text), name.span);
        proof {
            lemma_dones_push(prefix, seq![], name_leaf);
            assert(seq![name_leaf] =~= Seq::<Node>::empty().push(name_leaf));
            kids = seq![name_leaf];
        }
    } else if kind == TokenKind::RAngle {
        builder.add_error(SyntaxError::new(span, "expected tag name".to_owned()));
        proof {
            lemma_errs_push(errs0, errs1, builder.errs().last());
        }
    } else {
        builder.add_error(SyntaxError::new(span, "expected tag name, followed by '>'".to_owned()));
        proof {
            lemma_complete(base, Kind::CloseTag, start as int, seq![], span.start as int);
            lemma_errs_push(errs0, errs1, builder.errs().last());
        }
        builder.complete(span.start, Ghost(k));
        return tag_info;
    }
    let ghost errs2 = builder.errs().subrange(errs0.len() as int, builder.errs().len() as int);
    let ghost s3 = state(tokens);
    proof {
        assert(builder.errs() =~= errs0 + errs2);
        lemma_next_token(b, s3.0, s3.1);
    }
    let peek = tokens.peek();
    let kind = peek.kind;
    let span = peek.span;
    if kind == TokenKind::RAngle {
        tokens.pop();
        proof {
            lemma_complete(base, Kind::CloseTag, start as int, kids, span.end as int);
        }
        builder.complete(span.end, Ghost(k));
    } else {
        builder.add_error(SyntaxError::new(span, "expected '>'".to_owned()));
        proof {
            lemma_complete(base, Kind::CloseTag, start as int, kids, span.start as int);
            lemma_errs_push(errs0, errs2, builder.errs().last());
        }
        builder.complete(span.start, Ghost(k));
    }
    tag_info
}

fn parse_text_node(builder: &mut TreeBuilder, tokens: &mut Lexer)
    requires
        old(tokens).wf(),
        old(tokens).upcoming().kind == TokenKind::Text,
    ensures
        final(tokens).wf(),
        final(tokens).source() == old(tokens).source(),
        ({
            let l = old(tokens).upcoming();
            &&& final(builder).stack() == old(builder).stack().push(
                Item::Done(leaf(Kind::TextNode(text_of(old(tokens).source(), l)), l)),
            )
            &&& final(builder).errs() == old(builder).errs()
            &&& state(final(tokens)) == after(old(tokens).source(), state(old(tokens)))
        }),
{
    let text = tokens.pop();
    builder.add_leaf(TreeKind::TextNode(text.text), text.span);
}

fn parse_nodes(builder: &mut TreeBuilder, tokens: &mut Lexer)
    requires
        old(tokens).wf(),
    ensures
        final(tokens).wf(),
        final(tokens).source() == old(tokens).source(),
        ({
            let r = nodes_of(old(tokens).source(), state(old(tokens)));
            &&& final(builder).stack() == old(builder).stack() + dones(r.nodes)
            &&& final(builder).errs() == old(builder).errs() + r.errors
            &&& state(final(tokens)) == r.state
        }),
        old(tokens).pos() <= final(tokens).pos(),
        final(tokens).upcoming().kind == TokenKind::LAngleSlash || final(tokens).upcoming().kind
            == TokenKind::Eof,
    decreases old(tokens).source().len() - old(tokens).pos(), 1int,
{
    let ghost b = tokens.source();
    let ghost s0 = state(tokens);
    let ghost base = builder.stack();
    let ghost errs0 = builder.errs();
    let ghost mut kids: Seq<Node> = seq![];
    let ghost mut errs: Seq<Diagnostic> = seq![];
    proof {
        lemma_dones_push(base, seq![], arbitrary());
        lemma_errs_push(errs0, seq![], arbitrary());
    }
    loop
        invariant
            tokens.wf(),
            tokens.source() == b,
            s0 == state(old(tokens)),
            b == old(tokens).source(),
            s0.0 <= tokens.pos(),
            base == old(builder).stack(),
            errs0 == old(builder).errs(),
            builder.stack() == base + dones(kids),
            builder.errs() == errs0 + errs,
            ({
                let whole = nodes_of(b, s0);
                let rest = nodes_of(b, state(tokens));
                &&& whole.nodes == kids + rest.nodes
                &&& whole.errors == errs + rest.errors
                &&& whole.state == rest.state
            }),
        decreases b.len() - tokens.pos(),
    {
        let ghost s = state(tokens);
        proof {
            lemma_next_token(b, s.0, s.1);
        }
        let peek = tokens.peek();
        let kind = peek.kind;
        let span = peek.span;
        if kind == TokenKind::LAngleSlash || kind == TokenKind::Eof {
            proof {
                assert(kids + seq![] =~= kids);
                assert(errs + seq![] =~= errs);
            }
            return;
        } else if kind == TokenKind::LAngle {
            let ghost n = inner_of(b, s);
            parse_inner_node(builder, tokens);
            proof {
                lemma_dones_push(base, kids, n.node);
                lemma_errs_concat(errs0, errs, n.errors);
                let rest = nodes_of(b, state(tokens));
                assert(kids + (seq![n.node] + rest.nodes) =~= kids.push(n.node) + rest.nodes);
                assert(errs + (n.errors + rest.errors) =~= (errs + n.errors) + rest.errors);
                kids = kids.push(n.node);
                errs = errs + n.errors;
            }
        } else if kind == TokenKind::Text {
            let ghost t = leaf(Kind::TextNode(text_of(b, tok(b, s))), tok(b, s));
            parse_text_node(builder, tokens);
            proof {
                lemma_dones_push(base, kids, t);
                let rest = nodes_of(b, state(tokens));
                assert(kids + (seq![t] + rest.nodes) =~= kids.push(t) + rest.nodes);
                kids = kids.push(t);
            }
        } else {
            let message = concat3("expected '<', \"</\", or text, but found \"", peek.text.as_str(), "\"");
            builder.add_error(SyntaxError::new(span, message));
            tokens.pop();
            proof {
                let d = builder.errs().last();
                lemma_errs_push(errs0, errs, d);
                let rest = nodes_of(b, state(tokens));
                assert(errs + (seq![d] + rest.errors) =~= (errs + seq![d]) + rest.errors);
                errs = errs + seq![d];
            }
        }
    }
}

fn parse_inner_node(builder: &mut TreeBuilder, tokens: &mut Lexer)
    requires
        old(tokens).wf(),
        old(tokens).upcoming().kind == TokenKind::LAngle,
    ensures
        final(tokens).wf(),
        final(tokens).source() == old(tokens).source(),
        ({
            let p = inner_of(old(tokens).source(), state(old(tokens)));
            &&& final(builder).stack() == old(builder).stack().push(Item::Done(p.node))
            &&& final(builder).errs() == old(builder).errs() + p.errors
            &&& state(final(tokens)) == p.state
        }),
        advanced(old(tokens).source(), state(old(tokens)), state(final(tokens))),
    decreases old(tokens).source().len() - old(tokens).pos(), 0int,
{
    let ghost b = tokens.source();
    let ghost s0 = state(tokens);
    let ghost base = builder.stack();
    let ghost errs0 = builder.errs();
    let ghost k = base.len() as int;
    let start = tokens.peek().start();
    builder.open(TreeKind::InnerNode, start);
    let ghost prefix = base.push(Item::Open(Kind::InnerNode, start as int));
    let ghost (o, name) = open_tag_of(b, s0);
    let open_tag_name = parse_open_tag(builder, tokens);
    proof {
        lemma_dones_push(prefix, seq![], o.node);
        assert(seq![o.node] =~= Seq::<Node>::empty().push(o.node));
    }
    let ghost body = nodes_of(b, state(tokens));
    parse_nodes(builder, tokens);
    let ghost s2 = state(tokens);
    proof {
        lemma_dones_concat(prefix, seq![o.node], body.nodes);
        lemma_errs_concat(errs0, o.errors, body.errors);
        lemma_next_token(b, s2.0, s2.1);
    }
    let peek = tokens.peek();
    let kind = peek.kind;
    let span = peek.span;
    if kind == TokenKind::Eof {
        proof {
            lemma_complete(base, Kind::InnerNode, start as int, seq![o.node] + body.nodes, span.start as int);
        }
        builder.complete(span.start, Ghost(k));
        builder.add_error(SyntaxError::new(span, "expected closing tag, but found EOF".to_owned()));
        proof {
            lemma_errs_push(errs0, o.errors + body.errors, builder.errs().last());
        }
        return;
    }
    let ghost (c, info) = close_tag_of(b, s2);
    let close_tag = parse_close_tag(builder, tokens);
    proof {
        lemma_dones_push(prefix, seq![o.node] + body.nodes, c.node);
        lemma_errs_concat(errs0, o.errors + body.errors, c.errors);
        lemma_next_token(b, tokens.pos(), tokens.mode());
    }
    let end = tokens.peek().start();
    proof {
        lemma_complete(base, Kind::InnerNode, start as int, (seq![o.node] + body.nodes).push(c.node), end as int);
        assert((seq![o.node] + body.nodes).push(c.node) =~= seq![o.node] + body.nodes + seq![c.node]);
    }
    builder.complete(end, Ghost(k));
    let ghost errs3 = o.errors + body.errors + c.errors;
    proof {
        assert(errs3 + seq![] =~= errs3);
    }
    match open_tag_name {
        Some(open) => match close_tag {
            Some(close) => {
                if open != close.name {
                    let mut message = concat3(
                        "closing tag must match opening (expected \"",
                        open.as_str(),
                        "\" but found \"",
                    );
                    message.append(close.name.as_str());
                    message.append("\")");
                    builder.add_error(SyntaxError::new(close.span, message));
                    proof {
                        lemma_errs_push(errs0, errs3, builder.errs().last());
                    }
                }
            },
            None => {},
        },
        None => {},
    }
}

/// The first token of any input starts at its first byte.
proof fn lemma_first_token(b: Seq<u8>)
    ensures
        tok(b, (0, LexerMode::Outside(0))).start == 0,
{
    let t = next_token(b, 0, LexerMode::Outside(0));
    if b.len() == 0 {
        assert(crate::lexer::text_end(b, 0, 0) == 0);
        assert(crate::lexer::space_end(b, 0) == 0);
        assert(t == next_token(b, 0, LexerMode::Inside(0)));
    } else if b[0] == crate::lexer::LT {
        assert(crate::lexer::closes_text(b, 0, 0));
        assert(crate::lexer::text_end(b, 0, 0) == 0);
        assert(crate::lexer::space_end(b, 0) == 0);
        assert(t == next_token(b, 0, LexerMode::Inside(0)));
    } else {
        crate::lexer::lemma_text_end(b, 1, 0);
        assert(!crate::lexer::closes_text(b, 0, 0));
        assert(crate::lexer::text_end(b, 0, 0) == crate::lexer::text_end(b, 1, 0));
    }
}

fn parse_document(builder: &mut TreeBuilder, tokens: &mut Lexer)
    requires
        old(tokens).wf(),
        state(old(tokens)) == (0int, LexerMode::Outside(0)),
    ensures
        ({
            let p = document_of(old(tokens).source());
            &&& final(builder).stack() == old(builder).stack().push(Item::Done(p.node))
            &&& final(builder).errs() == old(builder).errs() + p.errors
            &&& p.node.start == 0
            &&& p.node.end == old(tokens).source().len()
        }),
{
    let ghost b = tokens.source();
    let ghost s0 = state(tokens);
    let ghost base = builder.stack();
    let ghost errs0 = builder.errs();
    let ghost k = base.len() as int;
    proof {
        lemma_first_token(b);
        lemma_dones_push(base.push(Item::Open(Kind::Document, 0)), seq![], arbitrary());
        lemma_errs_push(errs0, seq![], arbitrary());
    }
    let start = tokens.peek().start();
    builder.open(TreeKind::Document, start);
    loop
        invariant
            tokens.wf(),
            tokens.source() == b,
            b == old(tokens).source(),
            s0 == state(old(tokens)),
            s0 == (0int, LexerMode::Outside(0)),
            tok(b, s0).start == 0,
            base == old(builder).stack(),
            errs0 == old(builder).errs(),
            k == base.len(),
            start == 0,
            builder.stack() == base.push(Item::Open(Kind::Document, start as int)),
            builder.errs() == errs0,
            skip_to_open(b, s0) == skip_to_open(b, state(tokens)),
        ensures
            tokens.wf(),
            tokens.source() == b,
            builder.stack() == base.push(Item::Open(Kind::Document, start as int)),
            builder.errs() == errs0,
            skip_to_open(b, s0) == state(tokens),
            tokens.upcoming().kind == TokenKind::LAngle,
        decreases b.len() - tokens.pos(),
    {
        proof {
            lemma_next_token(b, tokens.pos(), tokens.mode());
        }
        let peek = tokens.peek();
        let kind = peek.kind;
        let span = peek.span;
        if kind == TokenKind::LAngle {
            break;
        } else if kind == TokenKind::Eof {
            builder.add_error(SyntaxError::new(span, "unexpected EOF".to_owned()));
            proof {
                assert(skip_to_open(b, state(tokens)) == state(tokens));
                lemma_complete(base, Kind::Document, start as int, seq![], span.start as int);
                lemma_errs_push(errs0, seq![], builder.errs().last());
            }
            builder.complete(span.start, Ghost(k));
            return;
        } else {
            tokens.pop();
        }
    }
    let ghost n = inner_of(b, state(tokens));
    parse_inner_node(builder, tokens);
    proof {
        lemma_dones_push(base.push(Item::Open(Kind::Document, start as int)), seq![], n.node);
        assert(seq![n.node] =~= Seq::<Node>::empty().push(n.node));
    }
    loop
        invariant
            tokens.wf(),
            tokens.source() == b,
            builder.stack() == base.push(Item::Open(Kind::Document, start as int)) + dones(seq![n.node]),
            builder.errs() == errs0 + n.errors,
            skip_to_end(b, n.state) == skip_to_end(b, state(tokens)),
            b == old(tokens).source(),
            base == old(builder).stack(),
            errs0 == old(builder).errs(),
            k == base.len(),
            start == 0,
            s0 == (0int, LexerMode::Outside(0)),
            tok(b, s0).start == 0,
            tok(b, skip_to_open(b, s0)).kind != TokenKind::Eof,
            n == inner_of(b, skip_to_open(b, s0)),
        ensures
            tokens.wf(),
            tokens.source() == b,
            builder.stack() == base.push(Item::Open(Kind::Document, start as int)) + dones(seq![n.node]),
            builder.errs() == errs0 + n.errors,
            skip_to_end(b, n.state) == state(tokens),
            tokens.upcoming().kind == TokenKind::Eof,
        decreases b.len() - tokens.pos(),
    {
        proof {
            lemma_next_token(b, tokens.pos(), tokens.mode());
        }
        if tokens.peek().kind == TokenKind::Eof {
            break;
        }
        tokens.pop();
    }
    proof {
        lemma_next_token(b, tokens.pos(), tokens.mode());
    }
    let end = tokens.peek().start();
    proof {
        lemma_complete(base, Kind::Document, start as int, seq![n.node], end as int);
    }
    builder.complete(end, Ghost(k));
}

/// Parses `input` into a concrete syntax tree and the errors found. It
/// always returns a document node, whose span covers the whole input.
pub fn parse(input: &str) -> (r: ParseResult)
    ensures
        r.tree@ == document_of(input.spec_bytes()).node,
        diagnostics(r.errors@) == document_of(input.spec_bytes()).errors,
        r.tree.span.start == 0,
        r.tree.span.end == input.spec_bytes().len(),
{
    let mut tokens = Lexer::new(input);
    let mut builder = TreeBuilder::new();
    parse_document(&mut builder, &mut tokens);
    proof {
        assert(Seq::<Item>::empty().push(Item::Done(document_of(input.spec_bytes()).node)).len() == 1);
        assert(Seq::<Diagnostic>::empty() + document_of(input.spec_bytes()).errors =~= document_of(input.spec_bytes()).errors);
    }
    builder.take()
}

// ---------------------------------------------------------------------------
// What the grammar guarantees when it finds no error.

/// A node that carries every part the grammar asks for: an opening tag with
/// a name, attributes with values, a body of text and such nodes, and a
/// closing tag.
pub open spec fn complete_inner(n: Node) -> bool
    decreases n,
{
    &&& n.kind is InnerNode
    &&& n.children.len() >= 2
    &&& complete_open(n.children[0])
    &&& n.children[n.children.len() - 1].kind is CloseTag
    &&& forall|i: int|
        1 <= i < n.children.len() - 1 ==> (#[trigger] n.children[i]).kind is TextNode || (
        n.children[i].kind is InnerNode && complete_inner(n.children[i]))
}

pub open spec fn complete_open(o: Node) -> bool {
    &&& o.kind is OpenTag
    &&& o.children.len() == 2
    &&& o.children[0].kind is TagName
    &&& complete_attrs(o.children[1])
}

pub open spec fn complete_attrs(a: Node) -> bool {
    &&& a.kind is Attrs
    &&& forall|j: int| 0 <= j < a.children.len() ==> complete_attr(#[trigger] a.children[j])
}

pub open spec fn complete_attr(a: Node) -> bool {
    &&& a.kind is Attr
    &&& a.children.len() == 2
    &&& a.children[0].kind is AttrName
    &&& a.children[1].kind is AttrVal
}

proof fn lemma_step(b: Seq<u8>, s: State)
    requires
        in_input(b, s),
    ensures
        in_input(b, after(b, s)),
        s.0 <= after(b, s).0,
        tok(b, s).kind != TokenKind::Eof ==> advanced(b, s, after(b, s)),
{
    lemma_next_token(b, s.0, s.1);
}

proof fn lemma_attr_of(b: Seq<u8>, s: State)
    requires
        in_input(b, s),
        tok(b, s).kind == TokenKind::Name,
    ensures
        advanced(b, s, attr_of(b, s).state),
        attr_of(b, s).errors.len() == 0 ==> complete_attr(attr_of(b, s).node),
{
    lemma_step(b, s);
    let s1 = after(b, s);
    lemma_step(b, s1);
    lemma_step(b, after(b, s1));
}

proof fn lemma_attr_run(b: Seq<u8>, s: State)
    requires
        in_input(b, s),
    ensures
        in_input(b, attr_run(b, s).state),
        s.0 <= attr_run(b, s).state.0,
        attr_run(b, s).errors.len() == 0 ==> forall|j: int|
            0 <= j < attr_run(b, s).nodes.len() ==> complete_attr(#[trigger] attr_run(b, s).nodes[j]),
    decreases b.len() - s.0,
{
    if tok(b, s).kind == TokenKind::Name {
        lemma_attr_of(b, s);
        let a = attr_of(b, s);
        lemma_attr_run(b, a.state);
        let rest = attr_run(b, a.state);
        let r = attr_run(b, s);
        if r.errors.len() == 0 {
            assert forall|j: int| 0 <= j < r.nodes.len() implies complete_attr(#[trigger] r.nodes[j]) by {
                if j > 0 {
                    assert(r.nodes[j] == rest.nodes[j - 1]);
                }
            }
        }
    }
}

proof fn lemma_open_tag_of(b: Seq<u8>, s: State)
    requires
        in_input(b, s),
        tok(b, s).kind == TokenKind::LAngle,
    ensures
        advanced(b, s, open_tag_of(b, s).0.state),
        open_tag_of(b, s).0.errors.len() == 0 ==> complete_open(open_tag_of(b, s).0.node),
{
    lemma_step(b, s);
    let s1 = after(b, s);
    lemma_step(b, s1);
    let s2 = if tok(b, s1).kind == TokenKind::Name { after(b, s1) } else { s1 };
    lemma_attr_run(b, s2);
    let a = attrs_of(b, s2);
    lemma_step(b, a.state);
}

proof fn lemma_close_tag_of(b: Seq<u8>, s: State)
    requires
        in_input(b, s),
        tok(b, s).kind == TokenKind::LAngleSlash,
    ensures
        advanced(b, s, close_tag_of(b, s).0.state),
        close_tag_of(b, s).0.node.kind is CloseTag,
{
    lemma_step(b, s);
    let s1 = after(b, s);
    lemma_step(b, s1);
    let s2 = if tok(b, s1).kind == TokenKind::OrphanHashes { after(b, s1) } else { s1 };
    lemma_step(b, s2);
    lemma_step(b, after(b, s2));
}

proof fn lemma_nodes_of(b: Seq<u8>, s: State)
    requires
        in_input(b, s),
    ensures
        ({
            let r = nodes_of(b, s);
            &&& in_input(b, r.state)
            &&& s.0 <= r.state.0
            &&& tok(b, r.state).kind == TokenKind::LAngleSlash || tok(b, r.state).kind == TokenKind::Eof
            &&& r.errors.len() == 0 ==> forall|i: int|
                0 <= i < r.nodes.len() ==> (#[trigger] r.nodes[i]).kind is TextNode || (
                r.nodes[i].kind is InnerNode && complete_inner(r.nodes[i]))
        }),
    decreases b.len() - s.0, 1int,
{
    let p = tok(b, s);
    lemma_step(b, s);
    if p.kind == TokenKind::LAngleSlash || p.kind == TokenKind::Eof {
    } else if p.kind == TokenKind::LAngle {
        lemma_inner_of(b, s);
        let n = inner_of(b, s);
        lemma_nodes_of(b, n.state);
        let rest = nodes_of(b, n.state);
        let r = nodes_of(b, s);
        if r.errors.len() == 0 {
            assert forall|i: int| 0 <= i < r.nodes.len() implies (#[trigger] r.nodes[i]).kind is TextNode || (
                r.nodes[i].kind is InnerNode && complete_inner(r.nodes[i])) by {
                if i > 0 {
                    assert(r.nodes[i] == rest.nodes[i - 1]);
                }
            }
        }
    } else {
        let s1 = after(b, s);
        lemma_nodes_of(b, s1);
        let rest = nodes_of(b, s1);
        let r = nodes_of(b, s);
        if r.errors.len() == 0 && p.kind == TokenKind::Text {
            assert forall|i: int| 0 <= i < r.nodes.len() implies (#[trigger] r.nodes[i]).kind is TextNode || (
                r.nodes[i].kind is InnerNode && complete_inner(r.nodes[i])) by {
                if i > 0 {
                    assert(r.nodes[i] == rest.nodes[i - 1]);
                }
            }
        }
    }
}

proof fn lemma_inner_of(b: Seq<u8>, s: State)
    requires
        in_input(b, s),
        tok(b, s).kind == TokenKind::LAngle,
    ensures
        advanced(b, s, inner_of(b, s).state),
        inner_of(b, s).node.kind is InnerNode,
        inner_of(b, s).errors.len() == 0 ==> complete_inner(inner_of(b, s).node),
    decreases b.len() - s.0, 0int,
{
    lemma_open_tag_of(b, s);
    let (o, name) = open_tag_of(b, s);
    lemma_nodes_of(b, o.state);
    let body = nodes_of(b, o.state);
    let p = tok(b, body.state);
    if p.kind != TokenKind::Eof {
        lemma_close_tag_of(b, body.state);
        let (c, info) = close_tag_of(b, body.state);
        let r = inner_of(b, s);
        if r.errors.len() == 0 {
            let kids = seq![o.node] + body.nodes + seq![c.node];
            assert(r.node.children == kids);
            assert(o.errors.len() == 0 && body.errors.len() == 0);
            assert forall|i: int| 1 <= i < kids.len() - 1 implies (#[trigger] kids[i]).kind is TextNode || (
                kids[i].kind is InnerNode && complete_inner(kids[i])) by {
                assert(kids[i] == body.nodes[i - 1]);
            }
        }
    }
}

proof fn lemma_skip_to_open(b: Seq<u8>, s: State)
    requires
        in_input(b, s),
    ensures
        in_input(b, skip_to_open(b, s)),
        tok(b, skip_to_open(b, s)).kind == TokenKind::LAngle || tok(b, skip_to_open(b, s)).kind
            == TokenKind::Eof,
    decreases b.len() - s.0,
{
    lemma_step(b, s);
    let p = tok(b, s);
    if !(p.kind == TokenKind::LAngle || p.kind == TokenKind::Eof) {
        lemma_skip_to_open(b, after(b, s));
    }
}

/// A document parsed without errors has exactly one inner node, and every
/// part of it is there: no tag lacks its name or its `>`, no attribute its
/// value, no element its closing tag.
pub proof fn lemma_clean_document(b: Seq<u8>)
    requires
        document_of(b).errors.len() == 0,
    ensures
        document_of(b).node.kind is Document,
        document_of(b).node.children.len() == 1,
        complete_inner(document_of(b).node.children[0]),
{
    let s0: State = (0, LexerMode::Outside(0));
    lemma_skip_to_open(b, s0);
    let s1 = skip_to_open(b, s0);
    if tok(b, s1).kind != TokenKind::Eof {
        lemma_inner_of(b, s1);
    }
}

// ---------------------------------------------------------------------------
// Spans: a node covers its children, which follow one another.

/// The children of `n` lie within it, each ends before the next starts, and
/// so on down.
#[verifier::opaque]
pub open spec fn nested(n: Node) -> bool
    decreases n,
{
    &&& n.start <= n.end
    &&& forall|i: int|
        0 <= i < n.children.len() ==> n.start <= (#[trigger] n.children[i]).start
            && n.children[i].end <= n.end && nested(n.children[i])
    &&& forall|i: int, j: int|
        0 <= i < j < n.children.len() ==> (#[trigger] n.children[i]).end <= (
        #[trigger] n.children[j]).start
}

/// Nested nodes between `lo` and `hi`, each ending before the next starts.
pub open spec fn run_between(nodes: Seq<Node>, lo: int, hi: int) -> bool {
    &&& lo <= hi
    &&& forall|i: int|
        0 <= i < nodes.len() ==> lo <= (#[trigger] nodes[i]).start && nodes[i].start <= nodes[i].end
            && nodes[i].end <= hi && nested(nodes[i])
    &&& forall|i: int, j: int|
        0 <= i < j < nodes.len() ==> (#[trigger] nodes[i]).end <= (#[trigger] nodes[j]).start
}

/// What each production guarantees of the node it builds from state `s`.
pub open spec fn spans_ok(b: Seq<u8>, s: State, p: Parsed) -> bool {
    &&& in_input(b, p.state)
    &&& s.0 <= p.state.0
    &&& tok(b, s).start <= p.node.start
    &&& p.node.start <= p.node.end
    &&& p.node.end <= tok(b, p.state).start
    &&& nested(p.node)
}

proof fn lemma_tok_order(b: Seq<u8>, s: State)
    requires
        in_input(b, s),
    ensures
        s.0 <= tok(b, s).start <= tok(b, s).end <= after(b, s).0 <= tok(b, after(b, s)).start,
        in_input(b, after(b, s)),
{
    lemma_next_token(b, s.0, s.1);
    let a = after(b, s);
    lemma_next_token(b, a.0, a.1);
}

proof fn lemma_leaf_nested(kind: Kind, l: Lexed)
    requires
        l.start <= l.end,
    ensures
        nested(leaf(kind, l)),
{
    reveal(nested);
}

proof fn lemma_seq_run(a: Seq<Node>, lo: int, mid: int, c: Seq<Node>, hi: int)
    requires
        run_between(a, lo, mid),
        run_between(c, mid, hi),
    ensures
        run_between(a + c, lo, hi),
{
    let s = a + c;
    assert forall|i: int, j: int| 0 <= i < j < s.len() implies (#[trigger] s[i]).end <= (
    #[trigger] s[j]).start by {
        if j < a.len() {
            assert(s[i] == a[i] && s[j] == a[j]);
        } else if i < a.len() {
            assert(s[i] == a[i] && s[j] == c[j - a.len()]);
        } else {
            assert(s[i] == c[i - a.len()] && s[j] == c[j - a.len()]);
        }
    }
    assert forall|i: int| 0 <= i < s.len() implies lo <= (#[trigger] s[i]).start && s[i].start <= s[i].end
        && s[i].end <= hi && nested(s[i]) by {
        if i < a.len() {
            assert(s[i] == a[i]);
        } else {
            assert(s[i] == c[i - a.len()]);
        }
    }
}

proof fn lemma_one_run(n: Node, lo: int, hi: int)
    requires
        lo <= n.start,
        n.start <= n.end,
        n.end <= hi,
        nested(n),
    ensures
        run_between(seq![n], lo, hi),
{
}

proof fn lemma_node_of_run(kind: Kind, start: int, end: int, kids: Seq<Node>)
    requires
        start <= end,
        run_between(kids, start, end),
    ensures
        nested(Node { kind, start, end, children: kids }),
{
    reveal(nested);
}

proof fn lemma_two_run(m: Node, n: Node, lo: int, hi: int)
    requires
        lo <= m.start,
        m.start <= m.end,
        m.end <= n.start,
        n.start <= n.end,
        n.end <= hi,
        nested(m),
        nested(n),
    ensures
        run_between(seq![m, n], lo, hi),
{
    let s = seq![m, n];
    assert(s[0] == m && s[1] == n);
}

proof fn lemma_attr_spans(b: Seq<u8>, s: State)
    requires
        in_input(b, s),
        tok(b, s).kind == TokenKind::Name,
    ensures
        spans_ok(b, s, attr_of(b, s)),
{
    lemma_tok_order(b, s);
    let s1 = after(b, s);
    lemma_tok_order(b, s1);
    let name = tok(b, s);
    let name_leaf = leaf(Kind::AttrName(text_of(b, name)), name);
    lemma_leaf_nested(Kind::AttrName(text_of(b, name)), name);
    let a = attr_of(b, s);
    let p = tok(b, s1);
    let s2 = if p.kind == TokenKind::Equals { after(b, s1) } else { s1 };
    lemma_tok_order(b, s2);
    let v = tok(b, s2);
    if a.node.children.len() == 2 {
        let val_leaf = leaf(Kind::AttrVal(text_of(b, v)), v);
        lemma_leaf_nested(Kind::AttrVal(text_of(b, v)), v);
        lemma_two_run(name_leaf, val_leaf, a.node.start, a.node.end);
        assert(a.node.children == seq![name_leaf, val_leaf]);
    } else {
        lemma_one_run(name_leaf, a.node.start, a.node.end);
        assert(a.node.children == seq![name_leaf]);
    }
    lemma_node_of_run(Kind::Attr, a.node.start, a.node.end, a.node.children);
}

proof fn lemma_attr_run_spans(b: Seq<u8>, s: State)
    requires
        in_input(b, s),
    ensures
        ({
            let r = attr_run(b, s);
            &&& in_input(b, r.state)
            &&& s.0 <= r.state.0
            &&& tok(b, s).start <= tok(b, r.state).start
            &&& run_between(r.nodes, tok(b, s).start, tok(b, r.state).start)
        }),
    decreases b.len() - s.0,
{
    lemma_tok_order(b, s);
    if tok(b, s).kind == TokenKind::Name {
        lemma_attr_of(b, s);
        lemma_attr_spans(b, s);
        let a = attr_of(b, s);
        lemma_attr_run_spans(b, a.state);
        let rest = attr_run(b, a.state);
        lemma_tok_order(b, a.state);
        lemma_one_run(a.node, tok(b, s).start, tok(b, a.state).start);
        lemma_seq_run(seq![a.node], tok(b, s).start, tok(b, a.state).start, rest.nodes, tok(b, rest.state).start);
    }
}

proof fn lemma_attrs_spans(b: Seq<u8>, s: State)
    requires
        in_input(b, s),
    ensures
        spans_ok(b, s, attrs_of(b, s)),
{
    lemma_attr_run_spans(b, s);
    let r = attr_run(b, s);
    lemma_node_of_run(Kind::Attrs, tok(b, s).start, tok(b, r.state).start, r.nodes);
}

/// The rest of an opening tag keeps spans in order.
proof fn lemma_open_end_spans(b: Seq<u8>, start: int, kids: Seq<Node>, errors: Seq<Diagnostic>, s: State)
    requires
        in_input(b, s),
        start <= tok(b, s).start,
        run_between(kids, start, tok(b, s).start),
    ensures
        ({
            let p = open_tag_end(b, start, kids, errors, s);
            &&& in_input(b, p.state)
            &&& s.0 <= p.state.0
            &&& p.node.start == start
            &&& start <= p.node.end <= tok(b, p.state).start
            &&& nested(p.node)
        }),
{
    lemma_attrs_spans(b, s);
    let a = attrs_of(b, s);
    lemma_tok_order(b, a.state);
    let q = tok(b, a.state);
    let end = if q.kind == TokenKind::RAngle { q.end } else { q.start };
    lemma_one_run(a.node, tok(b, s).start, end);
    lemma_seq_run(kids, start, tok(b, s).start, seq![a.node], end);
    assert(kids.push(a.node) =~= kids + seq![a.node]);
    lemma_node_of_run(Kind::OpenTag, start, end, kids.push(a.node));
}

proof fn lemma_open_spans(b: Seq<u8>, s: State)
    requires
        in_input(b, s),
        tok(b, s).kind == TokenKind::LAngle,
    ensures
        spans_ok(b, s, open_tag_of(b, s).0),
{
    lemma_tok_order(b, s);
    let langle = tok(b, s);
    let s1 = after(b, s);
    lemma_tok_order(b, s1);
    let p = tok(b, s1);
    if p.kind == TokenKind::Name {
        let name_leaf = leaf(Kind::TagName(text_of(b, p)), p);
        lemma_leaf_nested(Kind::TagName(text_of(b, p)), p);
        lemma_one_run(name_leaf, langle.start, tok(b, after(b, s1)).start);
        lemma_open_end_spans(b, langle.start, seq![name_leaf], seq![], after(b, s1));
    } else if p.kind == TokenKind::Equals || p.kind == TokenKind::AttrVal || p.kind == TokenKind::RAngle {
        lemma_open_end_spans(b, langle.start, seq![], seq![diag(p, "expected tag name"@)], s1);
    } else {
        lemma_node_of_run(Kind::OpenTag, langle.start, p.start, seq![]);
    }
}

proof fn lemma_close_end_spans(b: Seq<u8>, start: int, kids: Seq<Node>, errors: Seq<Diagnostic>, s: State)
    requires
        in_input(b, s),
        start <= tok(b, s).start,
        run_between(kids, start, tok(b, s).start),
    ensures
        ({
            let p = close_tag_end(b, start, kids, errors, s);
            &&& in_input(b, p.state)
            &&& s.0 <= p.state.0
            &&& p.node.start == start
            &&& start <= p.node.end <= tok(b, p.state).start
            &&& nested(p.node)
        }),
{
    lemma_tok_order(b, s);
    let q = tok(b, s);
    let end = if q.kind == TokenKind::RAngle { q.end } else { q.start };
    lemma_seq_run(kids, start, tok(b, s).start, seq![], end);
    assert(kids + seq![] =~= kids);
    lemma_node_of_run(Kind::CloseTag, start, end, kids);
}

proof fn lemma_close_spans(b: Seq<u8>, s: State)
    requires
        in_input(b, s),
        tok(b, s).kind == TokenKind::LAngleSlash,
    ensures
        spans_ok(b, s, close_tag_of(b, s).0),
{
    lemma_tok_order(b, s);
    let ls = tok(b, s);
    let s1 = after(b, s);
    lemma_tok_order(b, s1);
    let o = tok(b, s1);
    let s2 = if o.kind == TokenKind::OrphanHashes { after(b, s1) } else { s1 };
    lemma_tok_order(b, s2);
    let p = tok(b, s2);
    if p.kind == TokenKind::Name {
        let name_leaf = leaf(Kind::TagName(text_of(b, p)), p);
        lemma_leaf_nested(Kind::TagName(text_of(b, p)), p);
        lemma_one_run(name_leaf, ls.start, tok(b, after(b, s2)).start);
        let errors0 = if o.kind == TokenKind::OrphanHashes { seq![diag(o, "orphaned hashes"@)] } else { seq![] };
        lemma_close_end_spans(b, ls.start, seq![name_leaf], errors0, after(b, s2));
    } else if p.kind == TokenKind::RAngle {
        let errors0 = if o.kind == TokenKind::OrphanHashes { seq![diag(o, "orphaned hashes"@)] } else { seq![] };
        lemma_close_end_spans(b, ls.start, seq![], errors0 + seq![diag(p, "expected tag name"@)], s2);
    } else {
        lemma_node_of_run(Kind::CloseTag, ls.start, p.start, seq![]);
    }
}

proof fn lemma_nodes_spans(b: Seq<u8>, s: State)
    requires
        in_input(b, s),
    ensures
        ({
            let r = nodes_of(b, s);
            &&& tok(b, s).start <= tok(b, r.state).start
            &&& run_between(r.nodes, tok(b, s).start, tok(b, r.state).start)
        }),
    decreases b.len() - s.0, 1int,
{
    let p = tok(b, s);
    lemma_tok_order(b, s);
    lemma_nodes_of(b, s);
    if p.kind == TokenKind::LAngleSlash || p.kind == TokenKind::Eof {
    } else if p.kind == TokenKind::LAngle {
        lemma_inner_of(b, s);
        lemma_inner_spans(b, s);
        let n = inner_of(b, s);
        lemma_nodes_spans(b, n.state);
        lemma_tok_order(b, n.state);
        let rest = nodes_of(b, n.state);
        lemma_one_run(n.node, p.start, tok(b, n.state).start);
        lemma_seq_run(seq![n.node], p.start, tok(b, n.state).start, rest.nodes, tok(b, rest.state).start);
    } else {
        let s1 = after(b, s);
        lemma_nodes_spans(b, s1);
        let rest = nodes_of(b, s1);
        if p.kind == TokenKind::Text {
            let t = leaf(Kind::TextNode(text_of(b, p)), p);
            lemma_leaf_nested(Kind::TextNode(text_of(b, p)), p);
            lemma_one_run(t, p.start, tok(b, s1).start);
            lemma_seq_run(seq![t], p.start, tok(b, s1).start, rest.nodes, tok(b, rest.state).start);
        } else {
            assert forall|i: int| 0 <= i < rest.nodes.len() implies p.start <= (#[trigger] rest.nodes[i]).start by {}
        }
    }
}

proof fn lemma_inner_spans(b: Seq<u8>, s: State)
    requires
        in_input(b, s),
        tok(b, s).kind == TokenKind::LAngle,
    ensures
        spans_ok(b, s, inner_of(b, s)),
    decreases b.len() - s.0, 0int,
{
    lemma_tok_order(b, s);
    lemma_open_tag_of(b, s);
    lemma_open_spans(b, s);
    let start = tok(b, s).start;
    let (o, name) = open_tag_of(b, s);
    lemma_nodes_of(b, o.state);
    lemma_nodes_spans(b, o.state);
    let body = nodes_of(b, o.state);
    let p = tok(b, body.state);
    lemma_one_run(o.node, start, tok(b, o.state).start);
    lemma_seq_run(seq![o.node], start, tok(b, o.state).start, body.nodes, p.start);
    if p.kind == TokenKind::Eof {
        lemma_node_of_run(Kind::InnerNode, start, p.start, seq![o.node] + body.nodes);
    } else {
        lemma_close_tag_of(b, body.state);
        lemma_close_spans(b, body.state);
        let (c, info) = close_tag_of(b, body.state);
        let end = tok(b, c.state).start;
        lemma_one_run(c.node, p.start, end);
        lemma_seq_run(seq![o.node] + body.nodes, start, p.start, seq![c.node], end);
        lemma_node_of_run(Kind::InnerNode, start, end, seq![o.node] + body.nodes + seq![c.node]);
    }
}

proof fn lemma_skip_to_end_order(b: Seq<u8>, s: State)
    requires
        in_input(b, s),
    ensures
        tok(b, s).start <= tok(b, skip_to_end(b, s)).start,
    decreases b.len() - s.0,
{
    lemma_tok_order(b, s);
    lemma_step(b, s);
    let p = tok(b, s);
    if p.kind != TokenKind::Eof {
        lemma_skip_to_end_order(b, after(b, s));
    }
}

proof fn lemma_skip_to_open_order(b: Seq<u8>, s: State)
    requires
        in_input(b, s),
    ensures
        tok(b, s).start <= tok(b, skip_to_open(b, s)).start,
    decreases b.len() - s.0,
{
    lemma_tok_order(b, s);
    lemma_step(b, s);
    let p = tok(b, s);
    if !(p.kind == TokenKind::LAngle || p.kind == TokenKind::Eof) {
        lemma_skip_to_open_order(b, after(b, s));
    }
}

/// Every node of a parsed document covers its children, which follow one
/// another without overlap, down to the leaves.
pub proof fn lemma_spans_nested(b: Seq<u8>)
    ensures
        nested(document_of(b).node),
{
    let s0: State = (0, LexerMode::Outside(0));
    lemma_first_token(b);
    lemma_tok_order(b, s0);
    lemma_skip_to_open(b, s0);
    lemma_skip_to_open_order(b, s0);
    let s1 = skip_to_open(b, s0);
    lemma_tok_order(b, s1);
    let p = tok(b, s1);
    if p.kind == TokenKind::Eof {
        lemma_node_of_run(Kind::Document, 0, p.start, seq![]);
    } else {
        lemma_inner_of(b, s1);
        lemma_inner_spans(b, s1);
        let n = inner_of(b, s1);
        lemma_skip_to_end_order(b, n.state);
        let end = tok(b, skip_to_end(b, n.state)).start;
        lemma_one_run(n.node, 0, end);
        lemma_node_of_run(Kind::Document, 0, end, seq![n.node]);
    }
}

// ---------------------------------------------------------------------------
// Shape: what any parse builds, errors or not.

/// An inner node: its opening tag, then text and inner nodes, then its
/// closing tag unless the input ended first.
pub open spec fn shaped_inner(n: Node) -> bool
    decreases n,
{
    &&& n.kind is InnerNode
    &&& n.children.len() >= 1
    &&& n.children[0].kind is OpenTag
    &&& forall|i: int|
        1 <= i < n.children.len() ==> (#[trigger] n.children[i]).kind is TextNode || (
        n.children[i].kind is InnerNode && shaped_inner(n.children[i])) || (i == n.children.len()
            - 1 && n.children[i].kind is CloseTag)
}

/// A document: at most one child, an inner node.
pub open spec fn shaped_document(d: Node) -> bool {
    &&& d.kind is Document
    &&& d.children.len() <= 1
    &&& forall|i: int| 0 <= i < d.children.len() ==> shaped_inner(#[trigger] d.children[i])
}

proof fn lemma_nodes_shape(b: Seq<u8>, s: State)
    requires
        in_input(b, s),
    ensures
        forall|i: int|
            0 <= i < nodes_of(b, s).nodes.len() ==> (#[trigger] nodes_of(b, s).nodes[i]).kind is TextNode
                || (nodes_of(b, s).nodes[i].kind is InnerNode && shaped_inner(nodes_of(b, s).nodes[i])),
    decreases b.len() - s.0, 1int,
{
    let p = tok(b, s);
    lemma_step(b, s);
    if p.kind == TokenKind::LAngleSlash || p.kind == TokenKind::Eof {
    } else if p.kind == TokenKind::LAngle {
        lemma_inner_of(b, s);
        lemma_inner_shape(b, s);
        let n = inner_of(b, s);
        lemma_nodes_shape(b, n.state);
        let rest = nodes_of(b, n.state);
        let r = nodes_of(b, s);
        assert forall|i: int| 0 <= i < r.nodes.len() implies (#[trigger] r.nodes[i]).kind is TextNode || (
            r.nodes[i].kind is InnerNode && shaped_inner(r.nodes[i])) by {
            if i > 0 {
                assert(r.nodes[i] == rest.nodes[i - 1]);
            }
        }
    } else {
        let s1 = after(b, s);
        lemma_nodes_shape(b, s1);
        let rest = nodes_of(b, s1);
        let r = nodes_of(b, s);
        if p.kind == TokenKind::Text {
            assert forall|i: int| 0 <= i < r.nodes.len() implies (#[trigger] r.nodes[i]).kind is TextNode || (
                r.nodes[i].kind is InnerNode && shaped_inner(r.nodes[i])) by {
                if i > 0 {
                    assert(r.nodes[i] == rest.nodes[i - 1]);
                }
            }
        }
    }
}

proof fn lemma_inner_shape(b: Seq<u8>, s: State)
    requires
        in_input(b, s),
        tok(b, s).kind == TokenKind::LAngle,
    ensures
        shaped_inner(inner_of(b, s).node),
    decreases b.len() - s.0, 0int,
{
    lemma_open_tag_of(b, s);
    let (o, name) = open_tag_of(b, s);
    lemma_nodes_of(b, o.state);
    lemma_nodes_shape(b, o.state);
    let body = nodes_of(b, o.state);
    let p = tok(b, body.state);
    let r = inner_of(b, s);
    if p.kind == TokenKind::Eof {
        let kids = seq![o.node] + body.nodes;
        assert(r.node.children == kids);
        assert forall|i: int| 1 <= i < kids.len() implies (#[trigger] kids[i]).kind is TextNode || (
            kids[i].kind is InnerNode && shaped_inner(kids[i])) || (i == kids.len() - 1
            && kids[i].kind is CloseTag) by {
            assert(kids[i] == body.nodes[i - 1]);
        }
    } else {
        lemma_close_tag_of(b, body.state);
        let (c, info) = close_tag_of(b, body.state);
        let kids = seq![o.node] + body.nodes + seq![c.node];
        assert(r.node.children == kids);
        assert forall|i: int| 1 <= i < kids.len() implies (#[trigger] kids[i]).kind is TextNode || (
            kids[i].kind is InnerNode && shaped_inner(kids[i])) || (i == kids.len() - 1
            && kids[i].kind is CloseTag) by {
            if i < kids.len() - 1 {
                assert(kids[i] == body.nodes[i - 1]);
            }
        }
    }
    assert(o.node.kind is OpenTag);
}

/// Whatever the input, the document node has at most one child, an inner
/// node; each inner node holds its opening tag first, then text and inner
/// nodes, and last its closing tag unless the input ended before it.
pub proof fn lemma_document_shape(b: Seq<u8>)
    ensures
        shaped_document(document_of(b).node),
{
    let s0: State = (0, LexerMode::Outside(0));
    lemma_skip_to_open(b, s0);
    let s1 = skip_to_open(b, s0);
    if tok(b, s1).kind != TokenKind::Eof {
        lemma_inner_shape(b, s1);
        assert(document_of(b).node.children == seq![inner_of(b, s1).node]);
    }
}

} // verus!
