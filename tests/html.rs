use html_tree::html::node::{dedup_tokens, same_name, Attribute, Element, Node, QualName};
use html_tree::html::{Html, NodeOrText, QuirksMode};
use html_tree::tree::cursor::Cursor;
use html_tree::tree::TreeError;

const HTML_NS: &str = "http://www.w3.org/1999/xhtml";

fn name(local: &str) -> QualName {
    QualName { prefix: None, ns: HTML_NS.to_string(), local: local.to_string() }
}

fn attr(local: &str, value: &str) -> Attribute {
    Attribute { name: QualName { prefix: None, ns: String::new(), local: local.to_string() }, value: value.to_string() }
}

fn children(html: &Html, p: usize) -> Vec<usize> {
    let mut out = Vec::new();
    let mut cur = html.tree.get(p).unwrap().child;
    while let Some(c) = cur {
        out.push(c);
        cur = html.tree.get(c).unwrap().next_sibling;
    }
    out
}

fn text(html: &Html, id: usize) -> Option<String> {
    match &html.tree.get(id).unwrap().value {
        Node::Text(t) => Some(t.text.clone()),
        _ => None,
    }
}

fn attrs(html: &Html, id: usize) -> Vec<(String, String)> {
    match &html.tree.get(id).unwrap().value {
        Node::Element(e) => e.attrs.iter().map(|a| (a.name.local.clone(), a.value.clone())).collect(),
        _ => panic!("not an element"),
    }
}

#[test]
fn construction_events_build_merged_text_tree() {
    let mut html = Html::new_document();
    let doc = html.get_document();
    let html_el = html.create_element(name("html"), vec![]);
    html.append(doc, NodeOrText::AppendNode(html_el)).unwrap();
    let body = html.create_element(name("body"), vec![]);
    html.append(html_el, NodeOrText::AppendNode(body)).unwrap();
    html.append(body, NodeOrText::AppendText("hi".to_string())).unwrap();
    html.append(body, NodeOrText::AppendText(" there".to_string())).unwrap();

    assert!(matches!(html.tree.get(doc).unwrap().value, Node::Document));
    assert_eq!(children(&html, doc), vec![html_el]);
    assert_eq!(children(&html, html_el), vec![body]);
    let body_children = children(&html, body);
    assert_eq!(body_children.len(), 1);
    assert_eq!(text(&html, body_children[0]).as_deref(), Some("hi there"));
    assert_eq!(html.elem_name(body).unwrap().local, "body");

    let mut first = Cursor::new(&html.tree, html_el).unwrap();
    first.first_child().unwrap();
    let mut second = Cursor::new(&html.tree, doc).unwrap();
    second.first_child().unwrap();
    second.last_child().unwrap();
    assert!(html.same_node(first.id(), second.id()));

    let mut other = Html::new_document();
    let x = other.create_element(name("p"), vec![]);
    let y = other.create_element(name("p"), vec![]);
    assert!(!other.same_node(x, y));
}

#[test]
fn text_after_non_text_gets_its_own_node() {
    let mut html = Html::new_document();
    let body = html.create_element(name("body"), vec![]);
    let p = html.create_element(name("p"), vec![]);
    html.append(body, NodeOrText::AppendNode(p)).unwrap();
    html.append(body, NodeOrText::AppendText("tail".to_string())).unwrap();
    let kids = children(&html, body);
    assert_eq!(kids.len(), 2);
    assert_eq!(text(&html, kids[1]).as_deref(), Some("tail"));
    assert_eq!(html.append(99, NodeOrText::AppendText("x".to_string())), Err(TreeError::NotFound));
    assert_eq!(html.append(body, NodeOrText::AppendNode(p)), Err(TreeError::AlreadyAttached));
}

#[test]
fn text_before_sibling_twice_merges() {
    let mut html = Html::new_document();
    let body = html.create_element(name("body"), vec![]);
    let p = html.create_element(name("p"), vec![]);
    html.append(body, NodeOrText::AppendNode(p)).unwrap();
    html.append_before_sibling(p, NodeOrText::AppendText("a".to_string())).unwrap();
    html.append_before_sibling(p, NodeOrText::AppendText("b".to_string())).unwrap();
    let kids = children(&html, body);
    assert_eq!(kids.len(), 2);
    assert_eq!(kids[1], p);
    assert_eq!(text(&html, kids[0]).as_deref(), Some("ab"));
    assert_eq!(html.append_before_sibling(body, NodeOrText::AppendText("x".to_string())), Err(TreeError::NoParent));
    assert_eq!(html.append_before_sibling(77, NodeOrText::AppendText("x".to_string())), Err(TreeError::NotFound));
}

#[test]
fn node_before_sibling() {
    let mut html = Html::new_document();
    let body = html.create_element(name("body"), vec![]);
    let p = html.create_element(name("p"), vec![]);
    let q = html.create_element(name("q"), vec![]);
    html.append(body, NodeOrText::AppendNode(p)).unwrap();
    html.append_before_sibling(p, NodeOrText::AppendNode(q)).unwrap();
    assert_eq!(children(&html, body), vec![q, p]);
}

#[test]
fn add_attrs_if_missing_never_overwrites() {
    let mut html = Html::new_document();
    let el = html.create_element(name("div"), vec![attr("id", "main"), attr("title", "t")]);
    html.add_attrs_if_missing(el, vec![attr("id", "other"), attr("lang", "en")]).unwrap();
    assert_eq!(
        attrs(&html, el),
        vec![
            ("id".to_string(), "main".to_string()),
            ("title".to_string(), "t".to_string()),
            ("lang".to_string(), "en".to_string()),
        ]
    );
    let c = html.create_comment("note".to_string());
    assert_eq!(html.add_attrs_if_missing(c, vec![attr("a", "b")]), Err(TreeError::InvariantViolation));
    assert_eq!(html.add_attrs_if_missing(500, vec![]), Err(TreeError::NotFound));
}

#[test]
fn element_new_derives_id_and_classes() {
    let e = Element::new(
        name("div"),
        vec![attr("class", " a b  a c "), attr("id", "x"), attr("id", "y"), attr("class", "z")],
    );
    assert_eq!(e.id.as_deref(), Some("x"));
    assert_eq!(e.classes, vec!["a".to_string(), "b".to_string(), "c".to_string()]);
    let kept: Vec<(String, String)> = e.attrs.iter().map(|a| (a.name.local.clone(), a.value.clone())).collect();
    assert_eq!(kept, vec![("class".to_string(), " a b  a c ".to_string()), ("id".to_string(), "x".to_string())]);
    let bare = Element::new(name("span"), vec![]);
    assert_eq!(bare.id, None);
    assert!(bare.classes.is_empty());
    assert!(bare.attrs.is_empty());
}

#[test]
fn template_gets_content_fragment() {
    let mut html = Html::new_document();
    let t = html.create_element(name("template"), vec![]);
    let contents = html.get_template_contents(t).unwrap();
    assert_eq!(contents, t + 1);
    assert!(matches!(html.tree.get(contents).unwrap().value, Node::Fragment));
    let d = html.create_element(name("div"), vec![]);
    assert_eq!(html.get_template_contents(d), Err(TreeError::InvariantViolation));
    assert_eq!(html.get_template_contents(1000), Err(TreeError::NotFound));
}

#[test]
fn append_based_on_parent_falls_back() {
    let mut html = Html::new_document();
    let table = html.create_element(name("table"), vec![]);
    let fallback = html.create_element(name("body"), vec![]);
    html.append_based_on_parent_node(table, fallback, NodeOrText::AppendText("x".to_string())).unwrap();
    assert_eq!(children(&html, table).len(), 0);
    assert_eq!(children(&html, fallback).len(), 1);
    html.append(0, NodeOrText::AppendNode(table)).unwrap();
    html.append_based_on_parent_node(table, fallback, NodeOrText::AppendText("y".to_string())).unwrap();
    assert_eq!(children(&html, table).len(), 1);
    assert_eq!(html.append_based_on_parent_node(300, fallback, NodeOrText::AppendText("z".to_string())), Err(TreeError::NotFound));
}

#[test]
fn doctype_comment_pi_and_metadata() {
    let mut html = Html::new_document();
    html.append_doctype_to_document("html".to_string(), String::new(), String::new());
    let kids = children(&html, 0);
    assert_eq!(kids.len(), 1);
    match &html.tree.get(kids[0]).unwrap().value {
        Node::Doctype(d) => assert_eq!(d.name, "html"),
        _ => panic!("expected a doctype"),
    }
    let pi = html.create_pi("xml".to_string(), "v".to_string());
    match &html.tree.get(pi).unwrap().value {
        Node::ProcessingInstruction(p) => assert_eq!((p.target.as_str(), p.data.as_str()), ("xml", "v")),
        _ => panic!("expected a processing instruction"),
    }
    assert_eq!(html.elem_name(pi).err(), Some(TreeError::InvariantViolation));
    html.parse_error("bad".to_string());
    assert_eq!(html.errors, vec!["bad".to_string()]);
    assert_eq!(html.quirks_mode, QuirksMode::NoQuirks);
    html.set_quirks_mode(QuirksMode::Quirks);
    assert_eq!(html.quirks_mode, QuirksMode::Quirks);
    let frag = Html::new_fragment();
    assert!(matches!(frag.tree.get(0).unwrap().value, Node::Fragment));
}

#[test]
fn remove_then_reparent_moves_children() {
    let mut html = Html::new_document();
    let outer = html.create_element(name("div"), vec![]);
    let dest = html.create_element(name("section"), vec![]);
    html.append(0, NodeOrText::AppendNode(outer)).unwrap();
    html.append(0, NodeOrText::AppendNode(dest)).unwrap();
    let a = html.create_element(name("a"), vec![]);
    let b = html.create_element(name("b"), vec![]);
    html.append(outer, NodeOrText::AppendNode(a)).unwrap();
    html.append(outer, NodeOrText::AppendNode(b)).unwrap();
    assert_eq!(html.remove_from_parent(outer), Ok(()));
    assert_eq!(html.remove_from_parent(outer), Err(TreeError::NotAttached));
    assert_eq!(html.reparent_children(outer, dest), Ok(()));
    assert_eq!(children(&html, outer), Vec::<usize>::new());
    assert_eq!(children(&html, dest), vec![a, b]);
    assert_eq!(html.tree.get(a).unwrap().parent, Some(dest));
    assert_eq!(children(&html, 0), vec![dest]);
}

#[test]
fn reparent_detaches_the_source() {
    let mut html = Html::new_document();
    let src = html.create_element(name("i"), vec![]);
    let dest = html.create_element(name("b"), vec![]);
    html.append(0, NodeOrText::AppendNode(src)).unwrap();
    html.append(0, NodeOrText::AppendText("t".to_string())).unwrap();
    html.append(src, NodeOrText::AppendText("x".to_string())).unwrap();
    assert_eq!(html.reparent_children(src, dest), Ok(()));
    assert_eq!(html.tree.get(src).unwrap().parent, None);
    assert_eq!(children(&html, 0).len(), 1);
    assert_eq!(children(&html, dest).len(), 1);
    assert_eq!(html.reparent_children(src, 99), Err(TreeError::NotFound));
}

#[test]
fn dedup_tokens_keeps_first_of_each() {
    let tokens: Vec<String> = ["b", "a", "b", "c", "a"].iter().map(|t| t.to_string()).collect();
    assert_eq!(dedup_tokens(tokens), vec!["b".to_string(), "a".to_string(), "c".to_string()]);
    assert!(dedup_tokens(Vec::new()).is_empty());
}

#[test]
fn names_compare_by_all_parts() {
    assert!(same_name(&name("div"), &name("div")));
    assert!(!same_name(&name("div"), &name("span")));
    let mut prefixed = name("div");
    prefixed.prefix = Some("h".to_string());
    assert!(!same_name(&prefixed, &name("div")));
}

#[test]
fn root_cannot_be_attached() {
    let mut html = Html::new_document();
    let x = html.create_element(name("x"), vec![]);
    assert_eq!(html.append(x, NodeOrText::AppendNode(0)), Err(TreeError::InvariantViolation));
    html.append(0, NodeOrText::AppendNode(x)).unwrap();
    assert_eq!(html.append_before_sibling(x, NodeOrText::AppendNode(0)), Err(TreeError::InvariantViolation));
    assert_eq!(html.tree.get(0).unwrap().parent, None);
    assert_eq!(children(&html, 0), vec![x]);
}

#[test]
fn node_before_root_sibling_is_no_parent() {
    let mut html = Html::new_document();
    let x = html.create_element(name("x"), vec![]);
    assert_eq!(html.append_before_sibling(0, NodeOrText::AppendNode(x)), Err(TreeError::NoParent));
    assert_eq!(html.append_before_sibling(0, NodeOrText::AppendText("t".to_string())), Err(TreeError::NoParent));
}

#[test]
fn node_is_never_its_own_parent() {
    let mut html = Html::new_document();
    let x = html.create_element(name("x"), vec![]);
    assert_eq!(html.append(x, NodeOrText::AppendNode(x)), Err(TreeError::Cycle));
    let y = html.create_element(name("y"), vec![]);
    html.append(x, NodeOrText::AppendNode(y)).unwrap();
    assert_eq!(html.append_before_sibling(y, NodeOrText::AppendNode(x)), Err(TreeError::Cycle));
    assert_eq!(html.reparent_children(x, y), Err(TreeError::Cycle));
    assert_eq!(children(&html, x), vec![y]);
}

#[test]
fn classes_split_on_unicode_white_space() {
    let e = Element::new(name("p"), vec![attr("class", "a\u{a0}b\u{3000}a\tc")]);
    assert_eq!(e.classes, vec!["a".to_string(), "b".to_string(), "c".to_string()]);
}
