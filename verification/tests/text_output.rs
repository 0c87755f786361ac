//! Tests of serialization, text contents, the element view and the
//! attribute store.

use kuchiki::attributes::{Attributes, ExpandedName};
use kuchiki::node_data_ref::DataKind;
use kuchiki::select::{KuchikiSelectors, PseudoClass};
use kuchiki::move_cell::MoveCell;
use kuchiki::serializer::TraversalScope;
use kuchiki::tree::{NodeRef, QualName, Tree};

fn qual(local: &str) -> QualName {
    QualName { prefix: None, ns: String::new(), local: local.to_string() }
}

fn el(t: &mut Tree, local: &str) -> NodeRef {
    t.new_element(qual(local), Attributes::new())
}

fn el_attrs(t: &mut Tree, local: &str, attrs: &[(&str, &str)]) -> NodeRef {
    let mut a = Attributes::new();
    for (k, v) in attrs {
        a.insert(k.to_string(), v.to_string());
    }
    t.new_element(qual(local), a)
}

#[test]
fn end_to_end_scenario() {
    // <div id="container"><h1>Example</h1><p class="foo">paragraph</p></div>
    let mut t = Tree::new();
    let div = el_attrs(&mut t, "div", &[("id", "container")]);
    let h1 = el(&mut t, "h1");
    let p = el_attrs(&mut t, "p", &[("class", "foo")]);
    let h1_text = t.new_text("Example".to_string());
    let p_text = t.new_text("paragraph".to_string());
    t.append(div, h1);
    t.append(h1, h1_text);
    t.append(div, p);
    t.append(p, p_text);

    // the element-view lookup for id "container" returns exactly the div
    let mut matching = Vec::new();
    let mut it = t.inclusive_descendants(div);
    while let Some(n) = it.next(&t) {
        if let Some(view) = t.into_element_ref(n) {
            let node = view.as_node();
            if let Some(id) = t.get_id(node) {
                if id == "container" {
                    matching.push(node);
                }
            }
        }
    }
    assert_eq!(matching, vec![div]);

    // serializing with children-only scope omits the div's own tags
    assert_eq!(
        t.serialize(div, TraversalScope::ChildrenOnly),
        "<h1>Example</h1><p class=\"foo\">paragraph</p>"
    );
    assert_eq!(
        t.serialize(div, TraversalScope::IncludeNode),
        "<div id=\"container\"><h1>Example</h1><p class=\"foo\">paragraph</p></div>"
    );
}

#[test]
fn serialization_escapes_text_and_attributes() {
    let mut t = Tree::new();
    let p = el_attrs(&mut t, "p", &[("title", "a\"b&c")]);
    let txt = t.new_text("1 < 2 & 3 > 0".to_string());
    t.append(p, txt);
    assert_eq!(
        t.serialize(p, TraversalScope::IncludeNode),
        "<p title=\"a&quot;b&amp;c\">1 &lt; 2 &amp; 3 &gt; 0</p>"
    );
}

#[test]
fn serialization_of_comments_and_doctypes() {
    let mut t = Tree::new();
    let doc = t.new_document();
    let dt = t.new_doctype("html".to_string(), String::new(), String::new());
    let comment = t.new_comment("note".to_string());
    let html = el(&mut t, "html");
    t.append(doc, dt);
    t.append(doc, comment);
    t.append(doc, html);
    assert_eq!(
        t.serialize(doc, TraversalScope::IncludeNode),
        "<!DOCTYPE html><!--note--><html></html>"
    );
}

#[test]
fn text_contents_concatenates_in_tree_order() {
    let mut t = Tree::new();
    let p = el(&mut t, "p");
    let b = el(&mut t, "b");
    let t1 = t.new_text("Content contains ".to_string());
    let t2 = t.new_text("Important".to_string());
    let t3 = t.new_text(" data".to_string());
    t.append(p, t1);
    t.append(p, b);
    t.append(b, t2);
    t.append(p, t3);
    assert_eq!(t.text_contents(p), "Content contains Important data");
    assert_eq!(t.text_contents(b), "Important");
}

#[test]
fn push_text_extends_a_text_node() {
    let mut t = Tree::new();
    let txt = t.new_text("ab".to_string());
    t.push_text(txt, "cd");
    assert_eq!(t.text_contents(txt), "abcd");
}

#[test]
fn attribute_store_operations() {
    let mut a = Attributes::new();
    assert_eq!(a.len(), 0);
    assert!(!a.contains("id"));
    assert!(a.insert("id".to_string(), "x".to_string()).is_none());
    assert!(a.contains("id"));
    assert_eq!(a.get("id").unwrap(), "x");
    let old = a.insert("id".to_string(), "y".to_string()).unwrap();
    assert_eq!(old.value, "x");
    assert_eq!(a.get("id").unwrap(), "y");
    assert_eq!(a.len(), 1);
    a.insert("class".to_string(), "c".to_string());
    // insertion order is preserved
    assert_eq!(a.entry_at(0).0.local, "id");
    assert_eq!(a.entry_at(1).0.local, "class");
    let removed = a.remove("id").unwrap();
    assert_eq!(removed.value, "y");
    assert!(!a.contains("id"));
    assert_eq!(a.len(), 1);
    assert!(a.remove("id").is_none());
}

#[test]
fn attribute_namespaces_are_distinct() {
    let mut a = Attributes::new();
    a.insert_ns(
        ExpandedName::new("urn:x".to_string(), "id".to_string()),
        Some("x".to_string()),
        "ns-value".to_string(),
    );
    assert!(!a.contains("id"));
    assert_eq!(a.find("urn:x", "id"), Some(0));
    a.insert_if_missing(
        ExpandedName::new("urn:x".to_string(), "id".to_string()),
        None,
        "ignored".to_string(),
    );
    assert_eq!(a.len(), 1);
    assert_eq!(a.entry_at(0).1.value, "ns-value");
}

#[test]
fn class_membership() {
    let mut t = Tree::new();
    let p = el_attrs(&mut t, "p", &[("class", "foo  bar\tbaz")]);
    assert!(t.has_class(p, "foo"));
    assert!(t.has_class(p, "bar"));
    assert!(t.has_class(p, "baz"));
    assert!(!t.has_class(p, "ba"));
    assert!(!t.has_class(p, "qux"));
    assert!(!t.has_class(p, ""));
    let plain = el(&mut t, "p");
    assert!(!t.has_class(plain, "foo"));
    // a name containing whitespace can never equal a token
    let tricky = el_attrs(&mut t, "p", &[("class", "a b")]);
    assert!(!t.has_class(tricky, "a b"));
    assert!(t.has_class(tricky, "a"));
    assert!(t.has_class(tricky, "b"));
}

#[test]
fn class_enumeration() {
    let mut t = Tree::new();
    let p = el_attrs(&mut t, "p", &[("class", "  one two\tthree  ")]);
    assert_eq!(t.classes(p), vec!["one", "two", "three"]);
    let plain = el(&mut t, "p");
    assert!(t.classes(plain).is_empty());
    let blank = el_attrs(&mut t, "p", &[("class", "   ")]);
    assert!(t.classes(blank).is_empty());
}

#[test]
fn text_buffers_and_attribute_maps_are_mutable_in_place() {
    let mut t = Tree::new();
    let p = el(&mut t, "p");
    let txt = t.new_text("Content contains ".to_string());
    t.append(p, txt);
    t.set_text(txt, "Content doesn't contain ".to_string());
    assert_eq!(t.text_contents(p), "Content doesn't contain ");
    t.push_text(txt, "much");
    assert_eq!(t.text_contents(p), "Content doesn't contain much");

    assert!(t.set_attribute(p, "id".to_string(), "x".to_string()).is_none());
    assert_eq!(t.get_id(p).unwrap(), "x");
    let old = t.set_attribute(p, "id".to_string(), "y".to_string()).unwrap();
    assert_eq!(old.value, "x");
    assert_eq!(t.get_id(p).unwrap(), "y");
    let removed = t.remove_attribute(p, "id").unwrap();
    assert_eq!(removed.value, "y");
    assert!(t.get_id(p).is_none());
    assert!(t.remove_attribute(p, "id").is_none());
}

#[test]
fn element_restricted_navigation() {
    let mut t = Tree::new();
    let doc = t.new_document();
    let root = el(&mut t, "root");
    let t1 = t.new_text("x".to_string());
    let a = el(&mut t, "a");
    let t2 = t.new_text("y".to_string());
    let b = el(&mut t, "b");
    let t3 = t.new_text("z".to_string());
    t.append(doc, root);
    t.append(root, t1);
    t.append(root, a);
    t.append(root, t2);
    t.append(root, b);
    t.append(root, t3);
    assert_eq!(t.first_child_element(root), Some(a));
    assert_eq!(t.last_child_element(root), Some(b));
    assert_eq!(t.next_sibling_element(a), Some(b));
    assert_eq!(t.next_sibling_element(b), None);
    assert_eq!(t.prev_sibling_element(b), Some(a));
    assert_eq!(t.prev_sibling_element(a), None);
    assert_eq!(t.parent_element(a), Some(root));
    assert_eq!(t.parent_element(root), None); // its parent is the document
    let lone = el(&mut t, "lone");
    assert_eq!(t.first_child_element(lone), None);
    assert_eq!(t.last_child_element(lone), None);
}

#[test]
fn pseudo_class_matching_on_elements() {
    let mut t = Tree::new();
    let html_ns = "http://www.w3.org/1999/xhtml";
    let mut link_attrs = Attributes::new();
    link_attrs.insert("href".to_string(), "#".to_string());
    let anchor = t.new_element(
        QualName { prefix: None, ns: html_ns.to_string(), local: "a".to_string() },
        link_attrs,
    );
    assert!(t.is_html_element_in_html_document(anchor));
    assert!(t.matches_non_ts_pseudo_class(anchor, PseudoClass::AnyLink));
    assert!(t.matches_non_ts_pseudo_class(anchor, PseudoClass::Link));
    assert!(!t.matches_non_ts_pseudo_class(anchor, PseudoClass::Hover));
    assert!(!t.matches_non_ts_pseudo_class(anchor, PseudoClass::Visited));
    // no href: not a link
    let bare = t.new_element(
        QualName { prefix: None, ns: html_ns.to_string(), local: "a".to_string() },
        Attributes::new(),
    );
    assert!(!t.matches_non_ts_pseudo_class(bare, PseudoClass::AnyLink));
    // wrong tag or wrong namespace: not a link
    let div = t.new_element(
        QualName { prefix: None, ns: html_ns.to_string(), local: "div".to_string() },
        Attributes::new(),
    );
    assert!(!t.matches_non_ts_pseudo_class(div, PseudoClass::Link));
    let foreign = el(&mut t, "a");
    assert!(!t.is_html_element_in_html_document(foreign));
    assert!(!t.matches_non_ts_pseudo_class(foreign, PseudoClass::Link));
}

#[test]
fn variant_filter_adapters() {
    let mut t = Tree::new();
    let root = el(&mut t, "root");
    let a = el(&mut t, "a");
    let txt1 = t.new_text("one".to_string());
    let note = t.new_comment("note".to_string());
    let txt2 = t.new_text("two".to_string());
    t.append(root, txt1);
    t.append(root, a);
    t.append(a, note);
    t.append(root, txt2);

    let mut els = t.inclusive_descendants(root).elements();
    assert_eq!(els.next(&t).map(|d| d.as_node()), Some(root));
    assert_eq!(els.next(&t).map(|d| d.as_node()), Some(a));
    assert!(els.next(&t).is_none());

    let mut texts = t.inclusive_descendants(root).text_nodes();
    assert_eq!(texts.next(&t).map(|d| d.as_node()), Some(txt1));
    assert_eq!(texts.next(&t).map(|d| d.as_node()), Some(txt2));
    assert!(texts.next(&t).is_none());

    let mut notes = t.inclusive_descendants(root).comments();
    assert_eq!(notes.next(&t).map(|d| d.as_node()), Some(note));
    assert!(notes.next(&t).is_none());
}

#[test]
fn root_elements_sit_below_the_document() {
    let mut t = Tree::new();
    let doc = t.new_document();
    let html = el(&mut t, "html");
    let body = el(&mut t, "body");
    t.append(doc, html);
    t.append(html, body);
    assert!(t.is_root(html));
    assert!(!t.is_root(body));
    let floating = el(&mut t, "div");
    assert!(!t.is_root(floating));
}

#[test]
fn pseudo_class_parsing_and_css_text() {
    assert_eq!(KuchikiSelectors::parse_non_ts_pseudo_class("link"), Ok(PseudoClass::Link));
    assert_eq!(KuchikiSelectors::parse_non_ts_pseudo_class("Any-Link"), Ok(PseudoClass::AnyLink));
    assert_eq!(KuchikiSelectors::parse_non_ts_pseudo_class("HOVER"), Ok(PseudoClass::Hover));
    assert_eq!(KuchikiSelectors::parse_non_ts_pseudo_class("nth-child"), Err(()));
    assert!(KuchikiSelectors::parse_pseudo_element("before").is_err());
    assert_eq!(PseudoClass::AnyLink.to_css(), ":any-link");
    assert_eq!(PseudoClass::Indeterminate.to_css(), ":indeterminate");
}

#[test]
fn typed_views_narrow_by_variant() {
    let mut t = Tree::new();
    let e = el(&mut t, "div");
    let txt = t.new_text("x".to_string());
    assert!(t.into_element_ref(e).is_some());
    assert!(t.into_text_ref(e).is_none());
    let view = t.into_text_ref(txt).unwrap();
    assert_eq!(view.as_node(), txt);
    assert_eq!(view.kind, DataKind::Text);
    assert!(t.into_comment_ref(txt).is_none());
    let d = t.new_document();
    assert!(t.into_document_ref(d).is_some());
    let dt = t.new_doctype("html".to_string(), String::new(), String::new());
    assert!(t.into_doctype_ref(dt).is_some());
}

#[test]
fn move_cell_holds_one_value() {
    let mut c: MoveCell<Option<usize>> = MoveCell::new(None);
    assert!(c.is_none());
    c.set(Some(3));
    assert!(!c.is_none());
    assert_eq!(c.clone_inner(), Some(3));
    assert_eq!(c.replace(Some(4)), Some(3));
    assert_eq!(c.take(), Some(4));
    assert!(c.is_none());
}
