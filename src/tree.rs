//! The semantic tree: elements and text, built from the concrete syntax
//! tree, and written back as markup.
use vstd::prelude::*;
use vstd::string::StringExecFns;

use vstd::string::StringSliceAdditionalSpecFns;

use crate::parser::{
    complete_attr, complete_attrs, complete_inner, complete_open, document_of,
    lemma_clean_document, parse, Kind, Node, Tree as SyntaxTree, TreeKind,
};
use crate::syntax_error::{diagnostics, SyntaxError};

verus! {

/// Attribute name and value pairs, in source order, duplicates kept.
pub type Attrs = Vec<(String, String)>;

/// The semantic tree: text, or an element with a tag name, attributes and
/// children.
#[derive(Debug)]
pub enum Tree {
    Text(String),
    Inner { tag_name: String, attrs: Attrs, children: Vec<Tree> },
}

/// What a semantic tree is, with its strings as characters.
pub enum Markup {
    Text(Seq<char>),
    Element { tag_name: Seq<char>, attrs: Seq<(Seq<char>, Seq<char>)>, children: Seq<Markup> },
}

pub open spec fn attrs_view(attrs: Seq<(String, String)>) -> Seq<(Seq<char>, Seq<char>)> {
    attrs.map_values(|a: (String, String)| (a.0@, a.1@))
}

impl Tree {
    pub open spec fn view(&self) -> Markup
        decreases self,
    {
        match self {
            Tree::Text(s) => Markup::Text(s@),
            Tree::Inner { tag_name, attrs, children } => Markup::Element {
                tag_name: tag_name@,
                attrs: attrs_view(attrs@),
                children: Seq::new(
                    children@.len(),
                    |i: int|
                        if 0 <= i < children@.len() {
                            children[i].view()
                        } else {
                            arbitrary()
                        },
                ),
            },
        }
    }
}

// ---------------------------------------------------------------------------
// From the concrete syntax tree.

/// The name and the value of a complete attribute.
pub open spec fn attr_pair(a: Node) -> (Seq<char>, Seq<char>) {
    (a.children[0].kind->AttrName_0, a.children[1].kind->AttrVal_0)
}

/// The semantic tree of a text node or of a complete inner node.
pub open spec fn markup_of(n: Node) -> Markup
    decreases n,
{
    if n.kind is TextNode {
        Markup::Text(n.kind->TextNode_0)
    } else {
        let attrs = n.children[0].children[1];
        Markup::Element {
            tag_name: n.children[0].children[0].kind->TagName_0,
            attrs: Seq::new(attrs.children.len(), |j: int| attr_pair(attrs.children[j])),
            children: Seq::new(
                (n.children.len() - 2) as nat,
                |i: int|
                    if 0 <= i < n.children.len() - 2 {
                        markup_of(n.children[i + 1])
                    } else {
                        arbitrary()
                    },
            ),
        }
    }
}

/// The semantic tree of a document, if its shape allows one.
pub open spec fn document_markup(doc: Node) -> Option<Markup> {
    if doc.kind is Document && doc.children.len() == 1 && complete_inner(doc.children[0]) {
        Some(markup_of(doc.children[0]))
    } else {
        None
    }
}

/// A concrete syntax tree without the shape that conversion needs: a
/// document with one inner node, each inner node with an opening tag that
/// has a name, complete attributes, and a closing tag.
#[derive(Debug, PartialEq, Eq, Structural)]
pub struct MalformedTree;

/// Converts the document node of a concrete syntax tree into a semantic
/// tree. Fails, with `MalformedTree`, exactly when the tree lacks the shape
/// that conversion needs.
pub fn from_syntax(tree: SyntaxTree) -> (r: Result<Tree, MalformedTree>)
    ensures
        r is Ok <==> document_markup(tree@) is Some,
        r is Ok ==> r->Ok_0@ == document_markup(tree@)->Some_0,
{
    parse_doc(&tree)
}

fn parse_doc(tree: &SyntaxTree) -> (r: Result<Tree, MalformedTree>)
    ensures
        r is Ok <==> document_markup(tree@) is Some,
        r is Ok ==> r->Ok_0@ == document_markup(tree@)->Some_0,
{
    match tree.kind {
        TreeKind::Document => {},
        _ => return Err(MalformedTree),
    }
    if tree.children.len() != 1 {
        return Err(MalformedTree);
    }
    proof {
        assert(tree@.children[0] == tree.children@[0]@);
    }
    parse_inner(&tree.children[0])
}

fn parse_inner(tree: &SyntaxTree) -> (r: Result<Tree, MalformedTree>)
    ensures
        r is Ok <==> complete_inner(tree@),
        r is Ok ==> r->Ok_0@ == markup_of(tree@),
    decreases tree, 0int,
{
    match tree.kind {
        TreeKind::InnerNode => {},
        _ => return Err(MalformedTree),
    }
    let n = tree.children.len();
    if n < 2 {
        return Err(MalformedTree);
    }
    proof {
        assert(tree@.children[0] == tree.children@[0]@);
        assert(tree@.children[n - 1] == tree.children@[n - 1]@);
    }
    let (tag_name, attrs) = match parse_open_tag(&tree.children[0]) {
        Ok(o) => o,
        Err(e) => return Err(e),
    };
    match tree.children[n - 1].kind {
        TreeKind::CloseTag => {},
        _ => return Err(MalformedTree),
    }
    let mut children: Vec<Tree> = Vec::new();
    let mut i: usize = 1;
    while i < n - 1
        invariant
            n == tree.children@.len(),
            n >= 2,
            1 <= i <= n - 1,
            children@.len() == i - 1,
            forall|j: int|
                1 <= j < i ==> (#[trigger] tree@.children[j]).kind is TextNode || (
                tree@.children[j].kind is InnerNode && complete_inner(tree@.children[j])),
            forall|j: int| 0 <= j < i - 1 ==> (#[trigger] children@[j])@ == markup_of(tree@.children[j + 1]),
        decreases n - i,
    {
        proof {
            assert(tree@.children[i as int] == tree.children@[i as int]@);
        }
        let child = match parse_node(&tree.children[i]) {
            Ok(c) => c,
            Err(e) => return Err(e),
        };
        children.push(child);
        i = i + 1;
    }
    let r = Tree::Inner { tag_name, attrs, children };
    proof {
        assert(r@ == markup_of(tree@)) by {
            let m = markup_of(tree@);
            let a = tree@.children[0].children[1];
            assert(r@->Element_attrs =~= m->Element_attrs);
            assert(r@->Element_children =~= m->Element_children);
        }
    }
    Ok(r)
}

fn parse_node(tree: &SyntaxTree) -> (r: Result<Tree, MalformedTree>)
    ensures
        r is Ok <==> tree@.kind is TextNode || (tree@.kind is InnerNode && complete_inner(tree@)),
        r is Ok ==> r->Ok_0@ == markup_of(tree@),
    decreases tree, 1int,
{
    match &tree.kind {
        TreeKind::InnerNode => parse_inner(tree),
        TreeKind::TextNode(content) => Ok(Tree::Text(content.clone())),
        _ => Err(MalformedTree),
    }
}

fn parse_open_tag(tree: &SyntaxTree) -> (r: Result<(String, Attrs), MalformedTree>)
    ensures
        r is Ok <==> complete_open(tree@),
        r is Ok ==> {
            let (name, attrs) = r->Ok_0;
            &&& name@ == tree@.children[0].kind->TagName_0
            &&& attrs_view(attrs@) == Seq::new(
                tree@.children[1].children.len(),
                |j: int| attr_pair(tree@.children[1].children[j]),
            )
        },
{
    match tree.kind {
        TreeKind::OpenTag => {},
        _ => return Err(MalformedTree),
    }
    if tree.children.len() != 2 {
        return Err(MalformedTree);
    }
    proof {
        assert(tree@.children[0] == tree.children@[0]@);
        assert(tree@.children[1] == tree.children@[1]@);
    }
    let name = match &tree.children[0].kind {
        TreeKind::TagName(name) => name.clone(),
        _ => return Err(MalformedTree),
    };
    let attrs = match parse_attrs(&tree.children[1]) {
        Ok(a) => a,
        Err(e) => return Err(e),
    };
    Ok((name, attrs))
}

fn parse_attrs(tree: &SyntaxTree) -> (r: Result<Attrs, MalformedTree>)
    ensures
        r is Ok <==> complete_attrs(tree@),
        r is Ok ==> attrs_view(r->Ok_0@) == Seq::new(
            tree@.children.len(),
            |j: int| attr_pair(tree@.children[j]),
        ),
{
    match tree.kind {
        TreeKind::Attrs => {},
        _ => return Err(MalformedTree),
    }
    let mut attrs: Attrs = Vec::new();
    let mut i: usize = 0;
    while i < tree.children.len()
        invariant
            i <= tree.children@.len(),
            tree@.kind is Attrs,
            attrs@.len() == i,
            forall|j: int| 0 <= j < i ==> complete_attr(#[trigger] tree@.children[j]),
            forall|j: int| 0 <= j < i ==> #[trigger] attrs_view(attrs@)[j] == attr_pair(tree@.children[j]),
        decreases tree.children@.len() - i,
    {
        proof {
            assert(tree@.children[i as int] == tree.children@[i as int]@);
        }
        let attr = match parse_attr(&tree.children[i]) {
            Ok(a) => a,
            Err(e) => return Err(e),
        };
        let ghost before = attrs@;
        let ghost pair = (attr.0@, attr.1@);
        attrs.push(attr);
        proof {
            assert(attrs_view(attrs@) =~= attrs_view(before).push(pair));
        }
        i = i + 1;
    }
    proof {
        assert(attrs_view(attrs@) =~= Seq::new(tree@.children.len(), |j: int| attr_pair(tree@.children[j])));
    }
    Ok(attrs)
}

fn parse_attr(tree: &SyntaxTree) -> (r: Result<(String, String), MalformedTree>)
    ensures
        r is Ok <==> complete_attr(tree@),
        r is Ok ==> (r->Ok_0.0@, r->Ok_0.1@) == attr_pair(tree@),
{
    match tree.kind {
        TreeKind::Attr => {},
        _ => return Err(MalformedTree),
    }
    if tree.children.len() != 2 {
        return Err(MalformedTree);
    }
    proof {
        assert(tree@.children[0] == tree.children@[0]@);
        assert(tree@.children[1] == tree.children@[1]@);
    }
    match (&tree.children[0].kind, &tree.children[1].kind) {
        (TreeKind::AttrName(name), TreeKind::AttrVal(value)) => Ok((name.clone(), value.clone())),
        _ => Err(MalformedTree),
    }
}

/// A document that parses without errors converts to a semantic tree.
pub proof fn lemma_clean_parse_converts(b: Seq<u8>)
    requires
        document_of(b).errors.len() == 0,
    ensures
        document_markup(document_of(b).node) is Some,
{
    lemma_clean_document(b);
}

/// Parses `input` and converts the document: its semantic tree when the
/// parse found no error, else every error found.
pub fn document_tree(input: &str) -> (r: Result<Tree, Vec<SyntaxError>>)
    ensures
        r is Err <==> document_of(input.spec_bytes()).errors.len() > 0,
        r is Err ==> diagnostics(r->Err_0@) == document_of(input.spec_bytes()).errors,
        r is Ok ==> r->Ok_0@ == markup_of(document_of(input.spec_bytes()).node.children[0]),
{
    let result = parse(input);
    if result.errors.len() > 0 {
        return Err(result.errors);
    }
    proof {
        lemma_clean_parse_converts(input.spec_bytes());
    }
    match from_syntax(result.tree) {
        Ok(tree) => Ok(tree),
        Err(_) => Err(result.errors),
    }
}

// ---------------------------------------------------------------------------
// Back to text.

/// The text of an attribute list: ` name="value"` for the first, then
/// `name="value"` for each, with nothing in between.
pub open spec fn attrs_text(attrs: Seq<(Seq<char>, Seq<char>)>) -> Seq<char>
    decreases attrs.len(),
{
    if attrs.len() == 0 {
        seq![]
    } else {
        let a = attrs.last();
        attrs_text(attrs.drop_last()) + a.0 + "=\""@ + a.1 + "\""@
    }
}

/// The text of a tree: text as it is, an element as its tags around its
/// children. Values are not escaped and fences are not restored.
pub open spec fn markup_text(m: Markup) -> Seq<char>
    decreases m,
{
    match m {
        Markup::Text(s) => s,
        Markup::Element { tag_name, attrs, children } => "<"@ + tag_name + (if attrs.len() > 0 {
            " "@
        } else {
            seq![]
        }) + attrs_text(attrs) + ">"@ + children_text(children) + "</"@ + tag_name + ">"@,
    }
}

/// The texts of trees, one after another.
pub open spec fn children_text(cs: Seq<Markup>) -> Seq<char>
    decreases cs,
{
    if cs.len() == 0 {
        seq![]
    } else {
        children_text(cs.drop_last()) + markup_text(cs.last())
    }
}

impl Tree {
    /// The tree as markup text.
    pub fn serialize(&self) -> (r: String)
        ensures
            r@ == markup_text(self@),
    {
        let mut out = String::new();
        self.write_to(&mut out);
        proof {
            assert(Seq::<char>::empty() + markup_text(self@) =~= markup_text(self@));
        }
        out
    }

    fn write_to(&self, out: &mut String)
        ensures
            final(out)@ == old(out)@ + markup_text(self@),
        decreases self,
    {
        match self {
            Tree::Text(text) => {
                out.append(text.as_str());
            },
            Tree::Inner { tag_name, attrs, children } => {
                let ghost start = out@;
                let ghost m = self@;
                out.append("<");
                out.append(tag_name.as_str());
                if attrs.len() > 0 {
                    out.append(" ");
                }
                let ghost head = out@;
                let mut i: usize = 0;
                while i < attrs.len()
                    invariant
                        i <= attrs@.len(),
                        out@ == head + attrs_text(attrs_view(attrs@).take(i as int)),
                    decreases attrs@.len() - i,
                {
                    out.append(attrs[i].0.as_str());
                    out.append("=\"");
                    out.append(attrs[i].1.as_str());
                    out.append("\"");
                    proof {
                        let v = attrs_view(attrs@);
                        assert(v.take(i + 1).drop_last() =~= v.take(i as int));
                    }
                    i = i + 1;
                }
                out.append(">");
                let ghost mid = out@;
                proof {
                    assert(attrs_view(attrs@).take(attrs@.len() as int) =~= attrs_view(attrs@));
                }
                let mut j: usize = 0;
                while j < children.len()
                    invariant
                        j <= children@.len(),
                        m == self@,
                        *self == (Tree::Inner { tag_name: *tag_name, attrs: *attrs, children: *children }),
                        out@ == mid + children_text(m->Element_children.take(j as int)),
                    decreases children@.len() - j,
                {
                    proof {
                        assert(m->Element_children[j as int] == children@[j as int]@);
                    }
                    children[j].write_to(out);
                    proof {
                        let cs = m->Element_children;
                        assert(cs.take(j + 1).drop_last() =~= cs.take(j as int));
                    }
                    j = j + 1;
                }
                out.append("</");
                out.append(tag_name.as_str());
                out.append(">");
                proof {
                    let cs = m->Element_children;
                    assert(cs.take(children@.len() as int) =~= cs);
                    assert(out@ =~= start + markup_text(m));
                }
            },
        }
    }
}

} // verus!
