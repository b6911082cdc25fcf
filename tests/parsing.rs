use hyli::parser::{parse, ParseResult, Tree as SyntaxTree, TreeKind};
use hyli::span::Span;
use hyli::tree::{from_syntax, MalformedTree};
use hyli::Tree;

fn text(s: &str) -> Tree {
    Tree::Text(s.to_string())
}

fn element(tag: &str, attrs: &[(&str, &str)], children: Vec<Tree>) -> Tree {
    Tree::Inner {
        tag_name: tag.to_string(),
        attrs: attrs.iter().map(|(n, v)| (n.to_string(), v.to_string())).collect(),
        children,
    }
}

fn messages(result: &ParseResult) -> Vec<String> {
    result.errors.iter().map(|e| e.message.clone()).collect()
}

fn convert(input: &str) -> Tree {
    let result = parse(input);
    assert!(result.errors.is_empty(), "{:?}", messages(&result));
    from_syntax(result.tree).expect("a document without errors converts")
}

fn same(a: &Tree, b: &Tree) -> bool {
    match (a, b) {
        (Tree::Text(x), Tree::Text(y)) => x == y,
        (
            Tree::Inner { tag_name: t1, attrs: a1, children: c1 },
            Tree::Inner { tag_name: t2, attrs: a2, children: c2 },
        ) => t1 == t2 && a1 == a2 && c1.len() == c2.len() && c1.iter().zip(c2).all(|(x, y)| same(x, y)),
        _ => false,
    }
}

fn assert_tree(actual: &Tree, expected: &Tree) {
    assert!(same(actual, expected), "got {:?}, expected {:?}", actual, expected);
}

/// The first node of the given kind, depth first.
fn find<'a>(tree: &'a SyntaxTree, pred: &dyn Fn(&TreeKind) -> bool) -> Option<&'a SyntaxTree> {
    if pred(&tree.kind) {
        return Some(tree);
    }
    tree.children.iter().find_map(|c| find(c, pred))
}

#[test]
fn plain_element_converts() {
    assert_tree(&convert("<A>text</A>"), &element("A", &[], vec![text("text")]));
}

#[test]
fn nested_elements_and_text_keep_order() {
    let tree = convert("<Doc title=\"t\">a<B>b</B>c</Doc>");
    let expected = element(
        "Doc",
        &[("title", "t")],
        vec![text("a"), element("B", &[], vec![text("b")]), text("c")],
    );
    assert_tree(&tree, &expected);
}

#[test]
fn closing_tag_closes_nearest_element() {
    let result = parse("<Mixed><Up></Mixed></Up>");
    let mismatches: Vec<String> = messages(&result)
        .into_iter()
        .filter(|m| m.starts_with("closing tag must match opening"))
        .collect();
    assert_eq!(
        mismatches,
        vec![
            "closing tag must match opening (expected \"Up\" but found \"Mixed\")".to_string(),
            "closing tag must match opening (expected \"Mixed\" but found \"Up\")".to_string(),
        ]
    );
    assert_eq!(result.errors.len(), 2);
    assert_eq!(result.errors[0].span, Span::new(13, 18));
    let tree = from_syntax(result.tree).expect("both elements have closing tags");
    assert_tree(&tree, &element("Mixed", &[], vec![element("Up", &[], vec![])]));
}

#[test]
fn fenced_body_is_raw_text() {
    assert_tree(&convert("<C #>a < b </C> c</# C>"), &element("C", &[], vec![text("a < b </C> c")]));
}

#[test]
fn duplicate_attributes_are_kept_in_order() {
    let tree = convert("<A x=\"1\" x=\"2\"></A>");
    assert_tree(&tree, &element("A", &[("x", "1"), ("x", "2")], vec![]));
}

#[test]
fn unterminated_value_is_reported_and_kept() {
    let result = parse("<A x=\"abc\n>t</A>");
    assert_eq!(messages(&result), vec!["unterminated attribute value".to_string()]);
    assert_eq!(result.errors[0].span, Span::new(6, 9));
    let value = find(&result.tree, &|k| matches!(k, TreeKind::AttrVal(_))).expect("a value");
    assert_eq!(value.kind, TreeKind::AttrVal("abc".to_string()));
    let tree = from_syntax(result.tree).expect("the attribute is complete");
    assert_tree(&tree, &element("A", &[("x", "abc")], vec![text("t")]));
}

#[test]
fn document_span_covers_input() {
    for input in ["", "garbage", "  <A>x</A>  trailing", "<A", "<A><B></A>", "x<A \"y"] {
        let result = parse(input);
        assert_eq!(result.tree.kind, TreeKind::Document);
        assert_eq!(result.tree.span, Span::new(0, input.len()), "input {:?}", input);
    }
}

#[test]
fn text_before_and_after_root_is_skipped() {
    let result = parse("lead <A>x</A> tail <B></B>");
    assert!(result.errors.is_empty());
    assert_eq!(result.tree.children.len(), 1);
    assert_eq!(result.tree.children[0].span, Span::new(5, 13));
    assert_tree(&from_syntax(result.tree).unwrap(), &element("A", &[], vec![text("x")]));
}

#[test]
fn empty_input_is_unexpected_eof() {
    let result = parse("");
    assert_eq!(messages(&result), vec!["unexpected EOF".to_string()]);
    assert_eq!(result.errors[0].span, Span::new(0, 0));
    assert!(result.tree.children.is_empty());
    assert_eq!(from_syntax(result.tree).unwrap_err(), MalformedTree);
}

#[test]
fn missing_closing_tag() {
    let result = parse("<A>x");
    assert_eq!(messages(&result), vec!["expected closing tag, but found EOF".to_string()]);
    assert_eq!(result.errors[0].span, Span::new(4, 4));
    assert_eq!(result.tree.children[0].children.len(), 2);
    assert_eq!(from_syntax(result.tree).unwrap_err(), MalformedTree);
}

#[test]
fn missing_tag_name_before_angle() {
    let result = parse("<>x</A>");
    assert_eq!(messages(&result), vec!["expected tag name".to_string()]);
    assert_eq!(result.errors[0].span, Span::new(1, 2));
}

#[test]
fn missing_tag_name_before_other_token() {
    let result = parse("<<A></A>");
    assert_eq!(
        messages(&result)[0],
        "expected tag name, followed by attributes and '>'".to_string()
    );
    assert_eq!(result.errors[0].span, Span::new(1, 2));
}

#[test]
fn missing_closing_angle() {
    let result = parse("<A x=\"1\" <B></B></A>");
    assert_eq!(messages(&result)[0], "expected '>'".to_string());
    assert_eq!(result.errors[0].span, Span::new(9, 10));
}

#[test]
fn value_without_equals() {
    let result = parse("<A x \"1\"></A>");
    assert_eq!(messages(&result), vec!["expected '='".to_string()]);
    let tree = from_syntax(result.tree).expect("the attribute still has its value");
    assert_tree(&tree, &element("A", &[("x", "1")], vec![]));
}

#[test]
fn name_without_value() {
    let result = parse("<A x></A>");
    assert_eq!(
        messages(&result),
        vec!["expected '=', followed by attribute value".to_string()]
    );
    assert_eq!(result.errors[0].span, Span::new(4, 5));
    assert_eq!(from_syntax(result.tree).unwrap_err(), MalformedTree);
}

#[test]
fn equals_without_value() {
    let result = parse("<A x=></A>");
    assert_eq!(messages(&result), vec!["expected attribute value".to_string()]);
    assert_eq!(result.errors[0].span, Span::new(5, 6));
}

#[test]
fn orphaned_hashes_in_closing_tag() {
    let result = parse("<A></# A>");
    assert_eq!(messages(&result), vec!["orphaned hashes".to_string()]);
    assert_eq!(result.errors[0].span, Span::new(5, 6));
    assert_tree(&from_syntax(result.tree).unwrap(), &element("A", &[], vec![]));
}

#[test]
fn closing_tag_without_name() {
    let result = parse("<A></>");
    assert_eq!(messages(&result), vec!["expected tag name".to_string()]);
    let result = parse("<A></=");
    assert_eq!(messages(&result)[0], "expected tag name, followed by '>'".to_string());
    assert_eq!(result.errors[0].span, Span::new(5, 6));
}

#[test]
fn closing_tag_without_angle() {
    let result = parse("<A></A");
    assert_eq!(messages(&result), vec!["expected '>'".to_string()]);
    assert_eq!(result.errors[0].span, Span::new(6, 6));
}

#[test]
fn stray_token_in_body() {
    let result = parse("<A = x></A>");
    assert_eq!(
        messages(&result),
        vec![
            "expected '>'".to_string(),
            "expected '<', \"</\", or text, but found \"=\"".to_string(),
            "expected '<', \"</\", or text, but found \"x\"".to_string(),
            "expected '<', \"</\", or text, but found \">\"".to_string(),
        ]
    );
}

#[test]
fn concrete_tree_shape() {
    let result = parse("<A x=\"1\">t</A>");
    let doc = &result.tree;
    let inner = &doc.children[0];
    assert_eq!(inner.kind, TreeKind::InnerNode);
    assert_eq!(inner.span, Span::new(0, 14));
    let kinds: Vec<&TreeKind> = inner.children.iter().map(|c| &c.kind).collect();
    assert_eq!(
        kinds,
        vec![&TreeKind::OpenTag, &TreeKind::TextNode("t".to_string()), &TreeKind::CloseTag]
    );
    let open = &inner.children[0];
    assert_eq!(open.span, Span::new(0, 9));
    assert_eq!(open.children[0].kind, TreeKind::TagName("A".to_string()));
    assert_eq!(open.children[1].kind, TreeKind::Attrs);
    assert_eq!(open.children[1].span, Span::new(3, 8));
    let attr = &open.children[1].children[0];
    assert_eq!(attr.span, Span::new(3, 7));
    assert_eq!(attr.children[0].kind, TreeKind::AttrName("x".to_string()));
    assert_eq!(attr.children[1].kind, TreeKind::AttrVal("1".to_string()));
    assert_eq!(inner.children[2].span, Span::new(10, 14));
}

#[test]
fn serialize_element() {
    let tree = convert("<A x=\"1\" y=\"2\">t<B></B></A>");
    assert_eq!(tree.serialize(), "<A x=\"1\"y=\"2\">t<B></B></A>");
    assert_eq!(text("plain").serialize(), "plain");
}

fn assert_nested(tree: &SyntaxTree) {
    let mut last_end = tree.span.start;
    for child in &tree.children {
        assert!(child.span.start >= last_end, "{:?} starts before {}", child.kind, last_end);
        assert!(child.span.end <= tree.span.end, "{:?} ends after its parent", child.kind);
        assert!(child.span.start <= child.span.end);
        last_end = child.span.end;
        assert_nested(child);
    }
}

#[test]
fn child_spans_lie_within_parents() {
    for input in [
        "<Doc a=\"1\" b=\"2\">x<B>y</B>z</Doc>",
        "<A x=\"unterminated\n>t</A>",
        "<A = x></A>",
        "<Mixed><Up></Mixed></Up>",
        "<C ##>raw </# C> text</## C> tail",
        "<A><B>",
        "<A x></A>",
    ] {
        assert_nested(&parse(input).tree);
    }
}

#[test]
fn clean_parses_convert() {
    for input in [
        "<A></A>",
        "<A x=\"1\" y=\"a\\\"b\">t<B></B></A>",
        "<Doc title=\"My doc\">\n  <Title>t</Title>\n  <Code #>a <b> </c></# Code>\n</Doc>",
    ] {
        let result = parse(input);
        assert!(result.errors.is_empty(), "input {:?}", input);
        assert!(from_syntax(result.tree).is_ok(), "input {:?}", input);
    }
}

#[test]
fn document_tree_returns_tree_or_errors() {
    let tree = hyli::tree::document_tree("<A>t</A>").expect("no errors");
    assert_tree(&tree, &element("A", &[], vec![text("t")]));
    let errors = hyli::tree::document_tree("<A>t").unwrap_err();
    assert_eq!(errors.len(), 1);
    assert_eq!(errors[0].message, "expected closing tag, but found EOF");
}

#[test]
fn fenced_document_round_trip_loses_fence() {
    let tree = convert("<Code #>a <b></# Code>");
    assert_eq!(tree.serialize(), "<Code>a <b></Code>");
}
