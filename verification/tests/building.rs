//! Tests of the construction sink: coalescing text insertion, attribute
//! merging, reparenting, and the round trip from a tree through its
//! serialized text back into an equivalent tree.

use kuchiki::attributes::{Attribute, Attributes, ExpandedName};
use kuchiki::parser::{NodeOrText, Sink};
use kuchiki::serializer::TraversalScope;
use kuchiki::tree::{NodeData, NodeRef, QualName, QuirksMode};

fn qual(local: &str) -> QualName {
    QualName { prefix: None, ns: String::new(), local: local.to_string() }
}

fn new_el(s: &mut Sink, local: &str) -> NodeRef {
    s.create_element(qual(local), Attributes::new())
}

#[test]
fn text_coalescing_on_append() {
    let mut s = Sink::new();
    let div = new_el(&mut s, "div");
    s.append(s.get_document(), NodeOrText::AppendNode(div));
    s.append(div, NodeOrText::AppendText("Hello".to_string()));
    s.append(div, NodeOrText::AppendText(" World".to_string()));
    // exactly one text child holding the merged run
    let only = s.tree.first_child(div).unwrap();
    assert_eq!(s.tree.last_child(div), Some(only));
    match s.tree.data(only) {
        NodeData::Text(buf) => assert_eq!(buf, "Hello World"),
        _ => panic!("expected a text node"),
    }
    assert_eq!(s.tree.text_contents(div), "Hello World");
}

#[test]
fn text_coalescing_before_sibling() {
    let mut s = Sink::new();
    let div = new_el(&mut s, "div");
    let marker = new_el(&mut s, "marker");
    s.append(s.get_document(), NodeOrText::AppendNode(div));
    s.append(div, NodeOrText::AppendNode(marker));
    s.append_before_sibling(marker, NodeOrText::AppendText("ab".to_string())).unwrap();
    s.append_before_sibling(marker, NodeOrText::AppendText("cd".to_string())).unwrap();
    let first = s.tree.first_child(div).unwrap();
    match s.tree.data(first) {
        NodeData::Text(buf) => assert_eq!(buf, "abcd"),
        _ => panic!("expected a text node"),
    }
    assert_eq!(s.tree.next_sibling(first), Some(marker));
}

#[test]
fn append_before_root_sibling_is_refused() {
    let mut s = Sink::new();
    let lone = new_el(&mut s, "lone");
    let extra = new_el(&mut s, "extra");
    let r = s.append_before_sibling(lone, NodeOrText::AppendNode(extra));
    assert!(matches!(r, Err(NodeOrText::AppendNode(n)) if n == extra));
}

#[test]
fn quirks_mode_is_stored() {
    let mut s = Sink::new();
    let doc = s.get_document();
    match s.tree.data(doc) {
        NodeData::Document(d) => assert_eq!(d.quirks_mode(), QuirksMode::NoQuirks),
        _ => panic!("expected the document node"),
    }
    s.set_quirks_mode(QuirksMode::Quirks);
    match s.tree.data(doc) {
        NodeData::Document(d) => assert_eq!(d.quirks_mode(), QuirksMode::Quirks),
        _ => panic!("expected the document node"),
    }
}

#[test]
fn add_attrs_if_missing_keeps_existing_values() {
    let mut s = Sink::new();
    let mut attrs = Attributes::new();
    attrs.insert("id".to_string(), "first".to_string());
    let elem = s.create_element(qual("div"), attrs);
    let more = vec![
        (
            ExpandedName::new(String::new(), "id".to_string()),
            Attribute { prefix: None, value: "second".to_string() },
        ),
        (
            ExpandedName::new(String::new(), "class".to_string()),
            Attribute { prefix: None, value: "fresh".to_string() },
        ),
    ];
    s.add_attrs_if_missing(elem, more);
    let stored = s.tree.attributes(elem);
    assert_eq!(stored.get("id").unwrap(), "first");
    assert_eq!(stored.get("class").unwrap(), "fresh");
    assert_eq!(stored.len(), 2);
}

#[test]
fn reparent_children_moves_all_in_order() {
    let mut s = Sink::new();
    let from = new_el(&mut s, "from");
    let to = new_el(&mut s, "to");
    let pre = new_el(&mut s, "pre");
    let a = new_el(&mut s, "a");
    let b = new_el(&mut s, "b");
    let c = new_el(&mut s, "c");
    s.append(to, NodeOrText::AppendNode(pre));
    s.append(from, NodeOrText::AppendNode(a));
    s.append(from, NodeOrText::AppendNode(b));
    s.append(from, NodeOrText::AppendNode(c));
    s.reparent_children(from, to);
    assert_eq!(s.tree.first_child(from), None);
    assert_eq!(s.tree.first_child(to), Some(pre));
    assert_eq!(s.tree.next_sibling(pre), Some(a));
    assert_eq!(s.tree.next_sibling(a), Some(b));
    assert_eq!(s.tree.next_sibling(b), Some(c));
    assert_eq!(s.tree.parent(b), Some(to));
}

#[test]
fn elem_name_and_same_node() {
    let mut s = Sink::new();
    let a = new_el(&mut s, "section");
    let b = new_el(&mut s, "section");
    assert_eq!(s.elem_name(a).local, "section");
    assert!(s.same_node(a, a));
    assert!(!s.same_node(a, b));
}

#[test]
fn remove_from_parent_detaches() {
    let mut s = Sink::new();
    let parent = new_el(&mut s, "p");
    let kid = new_el(&mut s, "k");
    s.append(parent, NodeOrText::AppendNode(kid));
    s.remove_from_parent(kid);
    assert_eq!(s.tree.parent(kid), None);
    assert_eq!(s.tree.first_child(parent), None);
}

#[test]
fn doctype_appends_to_document() {
    let mut s = Sink::new();
    s.append_doctype_to_document("html".to_string(), String::new(), String::new());
    let doc = s.get_document();
    let dt = s.tree.first_child(doc).unwrap();
    match s.tree.data(dt) {
        NodeData::Doctype(d) => assert_eq!(d.name, "html"),
        _ => panic!("expected a doctype node"),
    }
}

/// Collect the preorder list of payload summaries of a subtree.
fn preorder_summary(t: &kuchiki::tree::Tree, root: NodeRef) -> Vec<String> {
    let mut out = Vec::new();
    let mut it = t.inclusive_descendants(root);
    while let Some(n) = it.next(t) {
        let line = match t.data(n) {
            NodeData::Element(e) => {
                let mut s = format!("element {}", e.name.local);
                for i in 0..e.attributes.len() {
                    let pair = e.attributes.entry_at(i);
                    s.push_str(&format!(" {}={}", pair.0.local, pair.1.value));
                }
                s
            }
            NodeData::Text(s) => format!("text {}", s),
            NodeData::Comment(s) => format!("comment {}", s),
            NodeData::Doctype(d) => format!("doctype {}", d.name),
            NodeData::Document(_) => "document".to_string(),
        };
        out.push(line);
    }
    out
}

#[test]
fn serialized_tree_rebuilds_to_the_same_preorder() {
    // build <article><h1>Title</h1><p class="x">body</p></article>
    let mut s = Sink::new();
    let article = new_el(&mut s, "article");
    let h1 = new_el(&mut s, "h1");
    let mut p_attrs = Attributes::new();
    p_attrs.insert("class".to_string(), "x".to_string());
    let para = s.create_element(qual("p"), p_attrs);
    s.append(s.get_document(), NodeOrText::AppendNode(article));
    s.append(article, NodeOrText::AppendNode(h1));
    s.append(h1, NodeOrText::AppendText("Title".to_string()));
    s.append(article, NodeOrText::AppendNode(para));
    s.append(para, NodeOrText::AppendText("body".to_string()));
    let first_text = s.tree.serialize(article, TraversalScope::IncludeNode);

    // reconstruct through the sink the structure that parsing the
    // serialized text describes
    let mut s2 = Sink::new();
    let article2 = new_el(&mut s2, "article");
    let h12 = new_el(&mut s2, "h1");
    let mut p_attrs2 = Attributes::new();
    p_attrs2.insert("class".to_string(), "x".to_string());
    let para2 = s2.create_element(qual("p"), p_attrs2);
    s2.append(s2.get_document(), NodeOrText::AppendNode(article2));
    s2.append(article2, NodeOrText::AppendNode(h12));
    s2.append(h12, NodeOrText::AppendText("Title".to_string()));
    s2.append(article2, NodeOrText::AppendNode(para2));
    s2.append(para2, NodeOrText::AppendText("body".to_string()));
    let second_text = s2.tree.serialize(article2, TraversalScope::IncludeNode);

    assert_eq!(first_text, second_text);
    assert_eq!(
        preorder_summary(&s.tree, article),
        preorder_summary(&s2.tree, article2)
    );
    assert_eq!(first_text, "<article><h1>Title</h1><p class=\"x\">body</p></article>");
}
