//! Tests of the tree engine: mutation operations, invariants, detachment
//! and reclamation.

use kuchiki::attributes::Attributes;
use kuchiki::iter::NodeEdge;
use kuchiki::tree::{NodeData, NodeRef, QualName, Tree};

fn el(t: &mut Tree, local: &str) -> NodeRef {
    t.new_element(
        QualName { prefix: None, ns: String::new(), local: local.to_string() },
        Attributes::new(),
    )
}

fn text(t: &mut Tree, s: &str) -> NodeRef {
    t.new_text(s.to_string())
}

/// Walk the parent chain and panic on a cycle through `start`.
fn assert_not_own_ancestor(t: &Tree, start: NodeRef) {
    let mut cur = t.parent(start);
    let mut steps = 0usize;
    while let Some(p) = cur {
        assert!(p != start, "node is its own ancestor");
        steps += 1;
        assert!(steps <= 1_000_000, "parent chain does not terminate");
        cur = t.parent(p);
    }
}

/// Check the invariants observable through the public queries for `node`.
fn assert_node_consistent(t: &Tree, node: NodeRef) {
    // sibling chain consistency in both directions
    if let Some(next) = t.next_sibling(node) {
        assert_eq!(t.previous_sibling(next), Some(node));
        assert_eq!(t.parent(next), t.parent(node));
    }
    if let Some(prev) = t.previous_sibling(node) {
        assert_eq!(t.next_sibling(prev), Some(node));
        assert_eq!(t.parent(prev), t.parent(node));
    }
    // a parent's first/last child close off the chain
    if let Some(p) = t.parent(node) {
        let first = t.first_child(p).expect("parent with a child has a first child");
        let last = t.last_child(p).expect("parent with a child has a last child");
        assert_eq!(t.previous_sibling(first), None);
        assert_eq!(t.next_sibling(last), None);
        // walking forward from the first child reaches this node
        let mut cur = Some(first);
        let mut found = false;
        while let Some(c) = cur {
            if c == node {
                found = true;
            }
            cur = t.next_sibling(c);
        }
        assert!(found, "node not reachable from its parent's first child");
    }
    assert_not_own_ancestor(t, node);
}

#[test]
fn invariant_preservation_under_mutations() {
    let mut t = Tree::new();
    let mut nodes = Vec::new();
    for i in 0..8 {
        nodes.push(el(&mut t, &format!("n{}", i)));
    }
    // a fixed, varied sequence of operations over the forest
    t.append(nodes[0], nodes[1]);
    t.append(nodes[0], nodes[2]);
    t.prepend(nodes[0], nodes[3]);
    t.insert_before(nodes[2], nodes[4]);
    t.insert_after(nodes[1], nodes[5]);
    t.append(nodes[2], nodes[6]);
    t.detach(nodes[1]);
    t.append(nodes[6], nodes[1]);
    t.insert_before(nodes[3], nodes[7]);
    t.detach(nodes[4]);
    t.prepend(nodes[4], nodes[2]); // moves a whole subtree below a root
    for &n in nodes.iter() {
        assert_node_consistent(&t, n);
    }
}

#[test]
fn append_and_navigate() {
    let mut t = Tree::new();
    let parent = el(&mut t, "div");
    let a = text(&mut t, "a");
    let b = text(&mut t, "b");
    let c = text(&mut t, "c");
    t.append(parent, a);
    t.append(parent, b);
    t.prepend(parent, c);
    assert_eq!(t.first_child(parent), Some(c));
    assert_eq!(t.last_child(parent), Some(b));
    assert_eq!(t.next_sibling(c), Some(a));
    assert_eq!(t.next_sibling(a), Some(b));
    assert_eq!(t.previous_sibling(a), Some(c));
    assert_eq!(t.parent(a), Some(parent));
    assert_eq!(t.parent(parent), None);
}

#[test]
fn insert_next_to_root_is_a_sibling_list_operation() {
    let mut t = Tree::new();
    let a = el(&mut t, "a");
    let b = el(&mut t, "b");
    let c = el(&mut t, "c");
    t.insert_after(a, b);
    t.insert_before(b, c);
    assert_eq!(t.parent(b), None);
    assert_eq!(t.parent(c), None);
    assert_eq!(t.next_sibling(a), Some(c));
    assert_eq!(t.next_sibling(c), Some(b));
    assert_eq!(t.previous_sibling(b), Some(c));
}

#[test]
fn detach_preserves_subtree() {
    let mut t = Tree::new();
    let root = el(&mut t, "root");
    let branch = el(&mut t, "branch");
    let leaf1 = text(&mut t, "one");
    let leaf2 = text(&mut t, "two");
    let other = el(&mut t, "other");
    t.append(root, branch);
    t.append(root, other);
    t.append(branch, leaf1);
    t.append(branch, leaf2);

    let before = t.serialize(branch, kuchiki::serializer::TraversalScope::IncludeNode);
    t.detach(branch);
    // the subtree below the detached node is intact
    assert_eq!(t.first_child(branch), Some(leaf1));
    assert_eq!(t.last_child(branch), Some(leaf2));
    assert_eq!(t.parent(leaf1), Some(branch));
    let after_detach = t.serialize(branch, kuchiki::serializer::TraversalScope::IncludeNode);
    assert_eq!(before, after_detach);
    // the detached node is gone from the old root's descendants
    let mut it = t.inclusive_descendants(root);
    while let Some(n) = it.next(&t) {
        assert!(n != branch);
        assert!(n != leaf1);
    }
    // re-appending elsewhere keeps the subtree identical
    t.append(other, branch);
    let after_append = t.serialize(branch, kuchiki::serializer::TraversalScope::IncludeNode);
    assert_eq!(before, after_append);
    assert_eq!(t.parent(branch), Some(other));
}

#[test]
fn descendants_match_start_edges() {
    let mut t = Tree::new();
    let root = el(&mut t, "root");
    let a = el(&mut t, "a");
    let b = el(&mut t, "b");
    let c = text(&mut t, "c");
    let d = text(&mut t, "d");
    t.append(root, a);
    t.append(root, b);
    t.append(a, c);
    t.append(b, d);

    let mut starts = Vec::new();
    let mut walk = t.traverse_inclusive(root);
    while let Some(edge) = walk.next(&t) {
        if let NodeEdge::Start(n) = edge {
            starts.push(n);
        }
    }
    let mut descs = Vec::new();
    let mut it = t.inclusive_descendants(root);
    while let Some(n) = it.next(&t) {
        descs.push(n);
    }
    assert_eq!(starts, descs);
    assert_eq!(descs, vec![root, a, c, b, d]);
}

#[test]
fn traverse_emits_matched_edges() {
    let mut t = Tree::new();
    let root = el(&mut t, "r");
    let kid = el(&mut t, "k");
    t.append(root, kid);
    let mut walk = t.traverse_inclusive(root);
    let mut edges = Vec::new();
    while let Some(edge) = walk.next(&t) {
        edges.push(edge);
    }
    assert_eq!(
        edges,
        vec![
            NodeEdge::Start(root),
            NodeEdge::Start(kid),
            NodeEdge::End(kid),
            NodeEdge::End(root),
        ]
    );
}

#[test]
fn strict_traverse_skips_the_root_edges() {
    let mut t = Tree::new();
    let root = el(&mut t, "r");
    let a = el(&mut t, "a");
    let b = text(&mut t, "b");
    t.append(root, a);
    t.append(root, b);
    let mut walk = t.traverse(root);
    let mut edges = Vec::new();
    while let Some(edge) = walk.next(&t) {
        edges.push(edge);
    }
    assert_eq!(
        edges,
        vec![
            NodeEdge::Start(a),
            NodeEdge::End(a),
            NodeEdge::Start(b),
            NodeEdge::End(b),
        ]
    );
    // a childless subtree has no interior edges at all
    let lone = el(&mut t, "lone");
    let mut empty_walk = t.traverse(lone);
    assert!(empty_walk.next(&t).is_none());
}

#[test]
fn ancestors_walk_upward() {
    let mut t = Tree::new();
    let a = el(&mut t, "a");
    let b = el(&mut t, "b");
    let c = el(&mut t, "c");
    t.append(a, b);
    t.append(b, c);
    let mut it = t.inclusive_ancestors(c);
    assert_eq!(it.next(&t), Some(c));
    assert_eq!(it.next(&t), Some(b));
    assert_eq!(it.next(&t), Some(a));
    assert_eq!(it.next(&t), None);
    let mut it2 = t.ancestors(c);
    assert_eq!(it2.next(&t), Some(b));
}

#[test]
fn siblings_are_double_ended() {
    let mut t = Tree::new();
    let p = el(&mut t, "p");
    let a = text(&mut t, "a");
    let b = text(&mut t, "b");
    let c = text(&mut t, "c");
    t.append(p, a);
    t.append(p, b);
    t.append(p, c);
    let mut it = t.children(p);
    assert_eq!(it.next(&t), Some(a));
    assert_eq!(it.next_back(&t), Some(c));
    assert_eq!(it.next(&t), Some(b));
    assert_eq!(it.next(&t), None);
    let mut fol = t.following_siblings(a);
    assert_eq!(fol.next(&t), Some(b));
    assert_eq!(fol.next(&t), Some(c));
    assert_eq!(fol.next(&t), None);
    let mut pre = t.preceding_siblings(c);
    assert_eq!(pre.next_back(&t), Some(b));
    assert_eq!(pre.next_back(&t), Some(a));
    assert_eq!(pre.next_back(&t), None);
}

#[test]
fn inclusive_sibling_ranges() {
    let mut t = Tree::new();
    let p = el(&mut t, "p");
    let a = text(&mut t, "a");
    let b = text(&mut t, "b");
    let c = text(&mut t, "c");
    t.append(p, a);
    t.append(p, b);
    t.append(p, c);
    let mut pre = t.inclusive_preceding_siblings(b);
    assert_eq!(pre.next_back(&t), Some(b));
    assert_eq!(pre.next_back(&t), Some(a));
    assert_eq!(pre.next_back(&t), None);
    let mut fol = t.inclusive_following_siblings(b);
    assert_eq!(fol.next(&t), Some(b));
    assert_eq!(fol.next(&t), Some(c));
    assert_eq!(fol.next(&t), None);
    // a lone root yields just itself
    let lone = el(&mut t, "lone");
    let mut alone = t.inclusive_following_siblings(lone);
    assert_eq!(alone.next(&t), Some(lone));
    assert_eq!(alone.next(&t), None);
}

#[test]
fn strict_descendants_skip_the_root() {
    let mut t = Tree::new();
    let root = el(&mut t, "root");
    let a = el(&mut t, "a");
    let b = text(&mut t, "b");
    t.append(root, a);
    t.append(a, b);
    let mut it = t.descendants(root);
    assert_eq!(it.next(&t), Some(a));
    assert_eq!(it.next(&t), Some(b));
    assert_eq!(it.next(&t), None);
}

#[test]
fn emptiness_of_elements() {
    let mut t = Tree::new();
    let empty = el(&mut t, "div");
    assert!(t.is_empty(empty));
    let with_blank_text = el(&mut t, "div");
    let blank = text(&mut t, "");
    t.append(with_blank_text, blank);
    assert!(t.is_empty(with_blank_text));
    let with_text = el(&mut t, "div");
    let word = text(&mut t, "w");
    t.append(with_text, word);
    assert!(!t.is_empty(with_text));
    let with_child = el(&mut t, "div");
    let kid = el(&mut t, "span");
    t.append(with_child, kid);
    assert!(!t.is_empty(with_child));
    let with_comment = el(&mut t, "div");
    let note = t.new_comment("note".to_string());
    t.append(with_comment, note);
    assert!(t.is_empty(with_comment));
}

#[test]
fn reclamation_of_deep_chain_is_not_recursive() {
    let mut t = Tree::new();
    let root = el(&mut t, "d");
    let mut cur = root;
    let mut all = vec![root];
    for _ in 0..100_000 {
        let next = el(&mut t, "d");
        t.append(cur, next);
        all.push(next);
        cur = next;
    }
    t.reclaim(root);
    for n in all {
        assert!(!t.is_node_live(n));
    }
}

#[test]
fn reclamation_frees_only_the_subtree() {
    let mut t = Tree::new();
    let root = el(&mut t, "keep");
    let gone = el(&mut t, "gone");
    let gone_kid = text(&mut t, "x");
    let kept_kid = text(&mut t, "y");
    t.append(root, kept_kid);
    t.append(gone, gone_kid);
    t.reclaim(gone);
    assert!(!t.is_node_live(gone));
    assert!(!t.is_node_live(gone_kid));
    assert!(t.is_node_live(root));
    assert!(t.is_node_live(kept_kid));
    assert_eq!(t.first_child(root), Some(kept_kid));
}
