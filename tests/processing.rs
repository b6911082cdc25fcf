use hyli::{Attrs, Processor, Tree};

type Transform = fn(Attrs, Vec<Tree>) -> Tree;

fn text(s: &str) -> Tree {
    Tree::Text(s.to_string())
}

fn element(tag: &str, children: Vec<Tree>) -> Tree {
    Tree::Inner { tag_name: tag.to_string(), attrs: vec![], children }
}

fn title_to_subtitle(attrs: Attrs, children: Vec<Tree>) -> Tree {
    Tree::Inner { tag_name: "Subtitle".to_string(), attrs, children }
}

/// Re-emits a title around doubled text until the text is long enough.
fn grow_title(attrs: Attrs, children: Vec<Tree>) -> Tree {
    match children.as_slice() {
        [Tree::Text(t)] if t.len() < 4 => Tree::Inner {
            tag_name: "Title".to_string(),
            attrs,
            children: vec![Tree::Text(format!("{}{}", t, t))],
        },
        _ => Tree::Inner { tag_name: "Done".to_string(), attrs, children },
    }
}

fn to_html(_attrs: Attrs, children: Vec<Tree>) -> Tree {
    Tree::Inner { tag_name: "html".to_string(), attrs: vec![], children }
}

#[test]
fn transform_output_is_not_expanded_further_when_unregistered() {
    let mut proc: Processor<Transform> = Processor::new();
    proc.add_transform("Title", title_to_subtitle);
    let out = proc.process(element("Doc", vec![element("Title", vec![text("x")])]));
    assert_eq!(out.serialize(), "<Doc><Subtitle>x</Subtitle></Doc>");
}

#[test]
fn transform_output_with_same_tag_is_expanded_again() {
    let mut proc: Processor<Transform> = Processor::new();
    proc.add_transform("Title", grow_title);
    let out = proc.process(element("Title", vec![text("x")]));
    assert_eq!(out.serialize(), "<Done>xxxx</Done>");
}

#[test]
fn children_are_processed_before_parent() {
    let mut proc: Processor<Transform> = Processor::new();
    proc.add_transform("Title", title_to_subtitle);
    proc.add_transform("Doc", to_html);
    let out = proc.process(element("Doc", vec![element("Title", vec![text("x")]), text("y")]));
    assert_eq!(out.serialize(), "<html><Subtitle>x</Subtitle>y</html>");
}

#[test]
fn later_registration_replaces_earlier() {
    let mut proc: Processor<Transform> = Processor::new();
    proc.add_transform("Doc", title_to_subtitle);
    proc.add_transform("Doc", to_html);
    assert_eq!(proc.process(element("Doc", vec![])).serialize(), "<html></html>");
}

#[test]
fn text_and_unregistered_tags_pass_through() {
    let proc: Processor<Transform> = Processor::new();
    assert_eq!(proc.process(text("a<b")).serialize(), "a<b");
    let tree = Tree::Inner {
        tag_name: "P".to_string(),
        attrs: vec![("k".to_string(), "v".to_string())],
        children: vec![text("z")],
    };
    assert_eq!(proc.process(tree).serialize(), "<P k=\"v\">z</P>");
}
