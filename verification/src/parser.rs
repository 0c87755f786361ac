//! The construction sink: the fixed interface through which an external
//! markup parser drives tree construction.
//!
//! The parser hands the sink plain values (names, attribute lists, text)
//! and node references; the sink builds and restructures the tree.  Text
//! insertion coalesces into an adjacent text node's buffer instead of
//! creating a new node whenever the neighbour is already a text node.

use vstd::prelude::*;
use crate::attributes::{Attributes, Attribute, AttrEntry, ExpandedName, attrs_wf, has_key, opt_str_view};
use crate::tree::{
    Tree, TreeView, NodeRef, QualName, QuirksMode, DataView, NodeData, inv, reaches,
    add_node_model, append_model, insert_before_model, detach_model, text_of, attrs_of,
    elem_name_of, lemma_childless_unreachable, parent_iter, pstep, chain_ok, parent_ok,
    kids_ok, lemma_iter_compose, lemma_iter_agree_avoid,
};
use crate::iter::prev_in_chain;

verus! {

/// Something the parser appends: an existing node or a run of text.
#[derive(Debug)]
pub enum NodeOrText {
    /// An existing node.
    AppendNode(NodeRef),
    /// A run of text.
    AppendText(String),
}

/// Abstract value of a [`NodeOrText`].
pub enum NodeOrTextView {
    Node(int),
    Text(Seq<char>),
}

impl View for NodeOrText {
    type V = NodeOrTextView;

    open spec fn view(&self) -> NodeOrTextView {
        match self {
            NodeOrText::AppendNode(n) => NodeOrTextView::Node(n.id as int),
            NodeOrText::AppendText(s) => NodeOrTextView::Text(s@),
        }
    }
}

/// The construction sink: a tree under construction plus its document
/// node.
pub struct Sink {
    /// The tree being built.
    pub tree: Tree,
    /// The document node, root of the construction.
    pub document: NodeRef,
}

impl Sink {
    /// The tree is well-formed and the document node is a live document.
    pub open spec fn wf(&self) -> bool {
        &&& self.tree.wf()
        &&& self.tree@.live.contains(self.document.id as int)
        &&& self.tree@.data[self.document.id as int] is Document
    }

    /// A fresh sink holding an empty document.
    pub fn new() -> (s: Sink)
        ensures
            s.wf(),
            s.tree@.live =~= Set::<int>::empty().insert(s.document.id as int),
            s.tree@.kids[s.document.id as int] == Seq::<int>::empty(),
            s.tree@.data[s.document.id as int] == (DataView::Document {
                quirks: QuirksMode::NoQuirks,
            }),
    {
        let mut tree = Tree::new();
        let document = tree.new_document();
        Sink { tree, document }
    }

    /// The document node.
    pub fn get_document(&self) -> (r: NodeRef)
        ensures
            r == self.document,
    {
        self.document
    }

    /// Whether two node references name the same node.
    pub fn same_node(&self, x: NodeRef, y: NodeRef) -> (r: bool)
        ensures
            r == (x == y),
    {
        x.id == y.id
    }

    /// The name of an element node.  Asking for the name of any other node
    /// is a violation of the sink contract.
    pub fn elem_name(&self, target: NodeRef) -> (r: &QualName)
        requires
            self.wf(),
            self.tree@.live.contains(target.id as int),
            self.tree@.data[target.id as int] is Element,
        ensures
            r@ == elem_name_of(self.tree@.data[target.id as int]),
    {
        match self.tree.data(target) {
            NodeData::Element(e) => &e.name,
            _ => vstd::pervasive::unreached(),
        }
    }

    /// Create a new element node.
    pub fn create_element(&mut self, name: QualName, attrs: Attributes) -> (r: NodeRef)
        requires
            old(self).wf(),
            attrs_wf(attrs@),
        ensures
            final(self).wf(),
            final(self).document == old(self).document,
            !old(self).tree@.live.contains(r.id as int),
            final(self).tree@ == add_node_model(old(self).tree@, r.id as int, DataView::Element {
                name: name@,
                attrs: attrs@,
            }),
    {
        self.tree.new_element(name, attrs)
    }

    /// Create a new comment node.
    pub fn create_comment(&mut self, text: String) -> (r: NodeRef)
        requires
            old(self).wf(),
        ensures
            final(self).wf(),
            final(self).document == old(self).document,
            !old(self).tree@.live.contains(r.id as int),
            final(self).tree@ == add_node_model(old(self).tree@, r.id as int,
                DataView::Comment(text@)),
    {
        self.tree.new_comment(text)
    }

    /// Set the document's quirks mode.
    pub fn set_quirks_mode(&mut self, mode: QuirksMode)
        requires
            old(self).wf(),
        ensures
            final(self).wf(),
            final(self).document == old(self).document,
            final(self).tree@ == (TreeView {
                data: old(self).tree@.data.insert(old(self).document.id as int,
                    DataView::Document { quirks: mode }),
                ..old(self).tree@
            }),
    {
        let doc = self.document;
        self.tree.set_quirks_mode(doc, mode);
    }

    /// Append a fresh text node holding `text` as the last child of
    /// `parent`.
    fn append_new_text(&mut self, parent: NodeRef, text: String)
        requires
            old(self).wf(),
            old(self).tree@.live.contains(parent.id as int),
        ensures
            final(self).wf(),
            final(self).document == old(self).document,
            exists |n: int| !old(self).tree@.live.contains(n)
                && final(self).tree@ == #[trigger] append_model(
                    add_node_model(old(self).tree@, n, DataView::Text(text@)),
                    parent.id as int, n),
    {
        let ghost v = old(self).tree@;
        let ghost t = text@;
        let n = self.tree.new_text(text);
        proof {
            let v1 = add_node_model(v, n.id as int, DataView::Text(t));
            assert(self.tree@ == v1);
            self.tree.lemma_wf_inv();
            assert(v1.kids[n.id as int] == Seq::<int>::empty());
            assert(parent.id as int != n.id as int);
            lemma_childless_unreachable(v1, n.id as int, parent.id as int);
        }
        self.tree.append(parent, n);
    }

    /// Append a node or some text as the last child of `parent`.  Appended
    /// text coalesces into `parent`'s last child when that child is already
    /// a text node.  An appended node must not be `parent` itself or one of
    /// its ancestors.
    pub fn append(&mut self, parent: NodeRef, child: NodeOrText)
        requires
            old(self).wf(),
            old(self).tree@.live.contains(parent.id as int),
            match child {
                NodeOrText::AppendNode(n) => old(self).tree@.live.contains(n.id as int)
                    && !reaches(old(self).tree@, parent.id as int, n.id as int),
                NodeOrText::AppendText(_) => true,
            },
        ensures
            final(self).wf(),
            final(self).document == old(self).document,
            ({
                let v = old(self).tree@;
                let ks = v.kids[parent.id as int];
                match child {
                    NodeOrText::AppendNode(n) =>
                        final(self).tree@ == append_model(v, parent.id as int, n.id as int),
                    NodeOrText::AppendText(text) =>
                        if ks.len() > 0 && v.data[ks.last()] is Text {
                            final(self).tree@ == (TreeView {
                                data: v.data.insert(ks.last(),
                                    DataView::Text(text_of(v.data[ks.last()]) + text@)),
                                ..v
                            })
                        } else {
                            exists |n: int| !v.live.contains(n)
                                && final(self).tree@ == #[trigger] append_model(
                                    add_node_model(v, n, DataView::Text(text@)),
                                    parent.id as int, n)
                        },
                }
            }),
    {
        match child {
            NodeOrText::AppendNode(node) => {
                self.tree.append(parent, node);
            }
            NodeOrText::AppendText(text) => {
                let ghost v = old(self).tree@;
                proof {
                    old(self).tree.lemma_wf_inv();
                }
                let last = self.tree.last_child(parent);
                match last {
                    Some(lc) => {
                        proof {
                            assert(kids_ok(v, parent.id as int));
                            assert(v.kids[parent.id as int].contains(v.kids[parent.id as int].last()));
                        }
                        let is_text = match self.tree.data(lc) {
                            NodeData::Text(_) => true,
                            _ => false,
                        };
                        if is_text {
                            self.tree.push_text(lc, text.as_str());
                        } else {
                            self.append_new_text(parent, text);
                        }
                    }
                    None => {
                        self.append_new_text(parent, text);
                    }
                }
            }
        }
    }

    /// Insert a node or some text immediately before `sibling`.  When
    /// `sibling` has no parent the operation is refused and the payload is
    /// handed back.  Inserted text coalesces into the previous sibling when
    /// that sibling is already a text node.  An inserted node must not be
    /// `sibling` or one of its ancestors.
    pub fn append_before_sibling(&mut self, sibling: NodeRef, child: NodeOrText)
        -> (r: Result<(), NodeOrText>)
        requires
            old(self).wf(),
            old(self).tree@.live.contains(sibling.id as int),
            match child {
                NodeOrText::AppendNode(n) => old(self).tree@.live.contains(n.id as int)
                    && !reaches(old(self).tree@, sibling.id as int, n.id as int),
                NodeOrText::AppendText(_) => true,
            },
        ensures
            final(self).wf(),
            final(self).document == old(self).document,
            ({
                let v = old(self).tree@;
                let si = sibling.id as int;
                match r {
                    Err(back) => v.parent[si] is None && back@ == child@
                        && final(self).tree@ == v,
                    Ok(u) => v.parent[si] is Some && (match child {
                        NodeOrText::AppendNode(n) =>
                            final(self).tree@ == insert_before_model(v, si, n.id as int),
                        NodeOrText::AppendText(text) =>
                            (match prev_in_chain(v, si) {
                                Some(pv) => if v.data[pv] is Text {
                                    final(self).tree@ == (TreeView {
                                        data: v.data.insert(pv,
                                            DataView::Text(text_of(v.data[pv]) + text@)),
                                        ..v
                                    })
                                } else {
                                    exists |n: int| !v.live.contains(n)
                                        && final(self).tree@ == #[trigger] insert_before_model(
                                            add_node_model(v, n, DataView::Text(text@)), si, n)
                                },
                                None => exists |n: int| !v.live.contains(n)
                                    && final(self).tree@ == #[trigger] insert_before_model(
                                        add_node_model(v, n, DataView::Text(text@)), si, n),
                            }),
                    }),
                }
            }),
    {
        let ghost v = old(self).tree@;
        let has_parent = match self.tree.parent(sibling) {
            Some(_) => true,
            None => false,
        };
        if !has_parent {
            return Err(child);
        }
        match child {
            NodeOrText::AppendNode(node) => {
                self.tree.insert_before(sibling, node);
                Ok(())
            }
            NodeOrText::AppendText(text) => {
                proof {
                    old(self).tree.lemma_wf_inv();
                }
                let prev = self.tree.previous_sibling(sibling);
                match prev {
                    Some(pv) => {
                        proof {
                            crate::iter::lemma_prev_in_chain_live(v, sibling.id as int);
                        }
                        let is_text = match self.tree.data(pv) {
                            NodeData::Text(_) => true,
                            _ => false,
                        };
                        if is_text {
                            self.tree.push_text(pv, text.as_str());
                        } else {
                            self.insert_new_text_before(sibling, text);
                        }
                    }
                    None => {
                        self.insert_new_text_before(sibling, text);
                    }
                }
                Ok(())
            }
        }
    }

    /// Insert a fresh text node holding `text` right before `sibling`.
    fn insert_new_text_before(&mut self, sibling: NodeRef, text: String)
        requires
            old(self).wf(),
            old(self).tree@.live.contains(sibling.id as int),
        ensures
            final(self).wf(),
            final(self).document == old(self).document,
            exists |n: int| !old(self).tree@.live.contains(n)
                && final(self).tree@ == #[trigger] insert_before_model(
                    add_node_model(old(self).tree@, n, DataView::Text(text@)),
                    sibling.id as int, n),
    {
        let ghost v = old(self).tree@;
        let ghost t = text@;
        let n = self.tree.new_text(text);
        proof {
            let v1 = add_node_model(v, n.id as int, DataView::Text(t));
            assert(self.tree@ == v1);
            self.tree.lemma_wf_inv();
            assert(v1.kids[n.id as int] == Seq::<int>::empty());
            assert(sibling.id as int != n.id as int);
            lemma_childless_unreachable(v1, n.id as int, sibling.id as int);
        }
        self.tree.insert_before(sibling, n);
    }

    /// Append a doctype node to the document.
    pub fn append_doctype_to_document(&mut self, name: String, public_id: String,
        system_id: String)
        requires
            old(self).wf(),
        ensures
            final(self).wf(),
            final(self).document == old(self).document,
            exists |n: int| !old(self).tree@.live.contains(n)
                && final(self).tree@ == #[trigger] append_model(
                    add_node_model(old(self).tree@, n, DataView::Doctype {
                        name: name@,
                        public_id: public_id@,
                        system_id: system_id@,
                    }),
                    old(self).document.id as int, n),
    {
        let ghost v = old(self).tree@;
        let doc = self.document;
        let n = self.tree.new_doctype(name, public_id, system_id);
        proof {
            let v1 = self.tree@;
            self.tree.lemma_wf_inv();
            assert(v1.kids[n.id as int] == Seq::<int>::empty());
            assert(doc.id as int != n.id as int);
            lemma_childless_unreachable(v1, n.id as int, doc.id as int);
        }
        self.tree.append(doc, n);
    }

    /// What adding a list of attributes only-if-missing does to an
    /// attribute list.
    pub open spec fn add_missing(a: Seq<AttrEntry>, l: Seq<AttrEntry>) -> Seq<AttrEntry>
        decreases l.len(),
    {
        if l.len() == 0 {
            a
        } else {
            Self::add_missing(
                if has_key(a, l[0].ns, l[0].local) { a } else { a.push(l[0]) },
                l.drop_first(),
            )
        }
    }

    /// Add each given attribute to an element node unless an attribute
    /// with the same expanded name is already present.
    pub fn add_attrs_if_missing(&mut self, target: NodeRef, attrs: Vec<(ExpandedName, Attribute)>)
        requires
            old(self).wf(),
            old(self).tree@.live.contains(target.id as int),
            old(self).tree@.data[target.id as int] is Element,
        ensures
            final(self).wf(),
            final(self).document == old(self).document,
            final(self).tree@ == (TreeView {
                data: old(self).tree@.data.insert(target.id as int, DataView::Element {
                    name: elem_name_of(old(self).tree@.data[target.id as int]),
                    attrs: Self::add_missing(
                        attrs_of(old(self).tree@.data[target.id as int]),
                        attrs@.map(|i: int, kv: (ExpandedName, Attribute)|
                            crate::attributes::entry_view(kv)),
                    ),
                }),
                ..old(self).tree@
            }),
    {
        let ghost v = old(self).tree@;
        let ghost ti = target.id as int;
        let ghost l = attrs@.map(|i: int, kv: (ExpandedName, Attribute)|
            crate::attributes::entry_view(kv));
        let n = attrs.len();
        let mut i: usize = 0;
        proof {
            old(self).tree.lemma_wf_inv();
            assert(l.take(0) =~= Seq::<AttrEntry>::empty());
            assert(v.data[ti] == (DataView::Element {
                name: elem_name_of(v.data[ti]),
                attrs: attrs_of(v.data[ti]),
            }));
            assert(v.data.insert(ti, DataView::Element {
                name: elem_name_of(v.data[ti]),
                attrs: attrs_of(v.data[ti]),
            }) =~= v.data);
            assert((TreeView {
                data: v.data.insert(ti, DataView::Element {
                    name: elem_name_of(v.data[ti]),
                    attrs: Self::add_missing(attrs_of(v.data[ti]), l.take(0)),
                }),
                ..v
            }) =~= v);
        }
        while i < n
            invariant
                self.wf(),
                self.document == old(self).document,
                n == attrs@.len(),
                i <= n,
                l == attrs@.map(|i: int, kv: (ExpandedName, Attribute)|
                    crate::attributes::entry_view(kv)),
                v.live.contains(ti),
                v.data[ti] is Element,
                ti == target.id as int,
                self.tree@ == (TreeView {
                    data: v.data.insert(ti, DataView::Element {
                        name: elem_name_of(v.data[ti]),
                        attrs: Self::add_missing(attrs_of(v.data[ti]), l.take(i as int)),
                    }),
                    ..v
                }),
            decreases n - i,
        {
            let name = ExpandedName {
                ns: attrs[i].0.ns.clone(),
                local: attrs[i].0.local.clone(),
            };
            let prefix = match &attrs[i].1.prefix {
                Some(pfx) => Some(pfx.clone()),
                None => None,
            };
            let value = attrs[i].1.value.clone();
            proof {
                assert(l[i as int] == crate::attributes::entry_view(attrs@[i as int]));
                assert(name.ns@ == l[i as int].ns && name.local@ == l[i as int].local);
                assert(opt_str_view(prefix) == l[i as int].prefix);
                assert(value@ == l[i as int].value);
            }
            proof {
                assert(self.tree@.data[ti] == (DataView::Element {
                    name: elem_name_of(v.data[ti]),
                    attrs: Self::add_missing(attrs_of(v.data[ti]), l.take(i as int)),
                }));
            }
            self.tree.add_attribute_if_missing(target, name, prefix, value);
            proof {
                let e = l[i as int];
                let acc = Self::add_missing(attrs_of(v.data[ti]), l.take(i as int));
                assert(l.take(i + 1) =~= l.take(i as int).push(e));
                lemma_add_missing_push(attrs_of(v.data[ti]), l.take(i as int), e);
                assert(seq![e].drop_first() =~= Seq::<AttrEntry>::empty());
                assert(seq![e][0] == e);
                let acc2: Seq<AttrEntry> = if has_key(acc, e.ns, e.local) { acc } else { acc.push(e) };
                assert(Self::add_missing(acc2, Seq::<AttrEntry>::empty()) == acc2);
                assert(Self::add_missing(acc, seq![e]) == Self::add_missing(acc2, seq![e].drop_first()));
                assert(Self::add_missing(acc, seq![e]) == acc2);
                assert(self.tree@.data =~= v.data.insert(ti, DataView::Element {
                    name: elem_name_of(v.data[ti]),
                    attrs: Self::add_missing(attrs_of(v.data[ti]), l.take(i + 1)),
                }));
                assert(self.tree@ =~= (TreeView {
                    data: v.data.insert(ti, DataView::Element {
                        name: elem_name_of(v.data[ti]),
                        attrs: Self::add_missing(attrs_of(v.data[ti]), l.take(i + 1)),
                    }),
                    ..v
                }));
            }
            i = i + 1;
        }
        proof {
            assert(l.take(n as int) =~= l);
        }
    }

    /// Move all children of `node`, in order, to the end of `new_parent`'s
    /// children.  The new parent must not be `node` itself or one of its
    /// descendants.
    pub fn reparent_children(&mut self, node: NodeRef, new_parent: NodeRef)
        requires
            old(self).wf(),
            old(self).tree@.live.contains(node.id as int),
            old(self).tree@.live.contains(new_parent.id as int),
            !reaches(old(self).tree@, new_parent.id as int, node.id as int),
        ensures
            final(self).wf(),
            final(self).document == old(self).document,
            final(self).tree@.live == old(self).tree@.live,
            final(self).tree@.data == old(self).tree@.data,
            final(self).tree@.kids[node.id as int] == Seq::<int>::empty(),
            final(self).tree@.kids[new_parent.id as int]
                == old(self).tree@.kids[new_parent.id as int] + old(self).tree@.kids[node.id as int],
            forall |q: int| old(self).tree@.live.contains(q)
                && q != node.id as int && q != new_parent.id as int
                ==> final(self).tree@.kids[q] == old(self).tree@.kids[q],
            forall |x: int| old(self).tree@.live.contains(x)
                ==> final(self).tree@.parent[x] == (
                    if old(self).tree@.kids[node.id as int].contains(x) {
                        Some(new_parent.id as int)
                    } else {
                        old(self).tree@.parent[x]
                    }),
    {
        let ghost v0 = old(self).tree@;
        let ghost ni = node.id as int;
        let ghost pi = new_parent.id as int;
        let ghost big_k = v0.kids[ni];
        let ghost kn = v0.kids[pi];
        let ghost moved: int = 0;
        proof {
            old(self).tree.lemma_wf_inv();
            assert(big_k.take(0) =~= Seq::<int>::empty());
            assert(kn + big_k.take(0) =~= kn);
            assert(big_k.skip(0) =~= big_k);
            assert(kids_ok(v0, ni));
            assert(ni != pi) by {
                assert(parent_iter(v0, pi, 0nat) == Some(pi));
            }
            assert(big_k.no_duplicates()) by {
                if big_k.len() > 0 {
                    assert(v0.live.contains(big_k[0]) && v0.chain[big_k[0]] == big_k);
                    assert(chain_ok(v0, big_k[0]));
                }
            }
        }
        let ghost mut moved_count: int = 0;
        let ghost mut vc = v0;
        loop
            invariant
                self.wf(),
                self.document == old(self).document,
                vc == self.tree@,
                inv(vc),
                0 <= moved_count <= big_k.len(),
                v0 == old(self).tree@,
                ni == node.id as int,
                pi == new_parent.id as int,
                big_k == v0.kids[ni],
                kn == v0.kids[pi],
                big_k.no_duplicates(),
                ni != pi,
                v0.live.contains(ni),
                v0.live.contains(pi),
                vc.live == v0.live,
                vc.data == v0.data,
                vc.kids[ni] == big_k.skip(moved_count),
                vc.kids[pi] == kn + big_k.take(moved_count),
                forall |q: int| v0.live.contains(q) && q != ni && q != pi
                    ==> vc.kids[q] == v0.kids[q],
                forall |x: int| v0.live.contains(x)
                    ==> vc.parent[x] == (if big_k.take(moved_count).contains(x) {
                        Some(pi)
                    } else {
                        v0.parent[x]
                    }),
                !reaches(vc, pi, ni),
            decreases big_k.len() - moved_count,
        {
            proof {
                self.tree.lemma_wf_inv();
            }
            let first = self.tree.first_child(node);
            match first {
                Some(c) => {
                    let ghost ci = c.id as int;
                    proof {
                        assert(vc.kids[ni].len() > 0);
                        assert(ci == big_k.skip(moved_count)[0]);
                        assert(ci == big_k[moved_count]);
                        assert(kids_ok(vc, ni));
                        assert(vc.kids[ni].contains(ci)) by {
                            assert(vc.kids[ni][0] == ci);
                        }
                        assert(vc.live.contains(ci) && vc.parent[ci] == Some(ni));
                        // the new parent cannot sit below the moved child
                        assert(!reaches(vc, pi, ci)) by {
                            if reaches(vc, pi, ci) {
                                let k = choose |k: nat| parent_iter(vc, pi, k) == Some(ci);
                                lemma_iter_compose(vc, pi, k, 1);
                                assert(parent_iter(vc, ci, 0nat) == Some(ci));
                                assert(parent_iter(vc, ci, 0nat + 1) == pstep(vc, ci));
                                assert(parent_iter(vc, pi, k + 1) == Some(ni));
                            }
                        }
                    }
                    self.tree.append(new_parent, c);
                    proof {
                        let v1 = crate::tree::detach_model(vc, ci);
                        let v2 = append_model(vc, pi, ci);
                        assert(self.tree@ == v2);
                        // the child was the first of its chain
                        assert(vc.chain[ci] == vc.kids[ni]);
                        assert(crate::tree::chain_pos(vc, ci) == 0) by {
                            crate::tree::lemma_chain_pos_unique(vc, ci, 0);
                        }
                        assert(v1.kids[ni] =~= big_k.skip(moved_count + 1)) by {
                            assert(v1.kids[ni] == vc.kids[ni].remove(0));
                            vc.kids[ni].remove_ensures(0);
                        }
                        assert(v1.kids[pi] == vc.kids[pi]);
                        assert(v2.kids[pi] =~= kn + big_k.take(moved_count + 1)) by {
                            assert(v2.kids[pi] == v1.kids[pi].insert(v1.kids[pi].len() as int, ci));
                            v1.kids[pi].insert_ensures(v1.kids[pi].len() as int, ci);
                            assert(big_k.take(moved_count + 1) =~=
                                big_k.take(moved_count).push(ci));
                        }
                        assert(v2.kids[ni] == v1.kids[ni]);
                        // parent map
                        assert forall |x: int| v0.live.contains(x) implies
                            v2.parent[x] == (if big_k.take(moved_count + 1).contains(x) {
                                Some(pi)
                            } else {
                                v0.parent[x]
                            }) by {
                            assert(big_k.take(moved_count + 1) =~=
                                big_k.take(moved_count).push(ci));
                            if x == ci {
                                assert(big_k.take(moved_count + 1).contains(ci)) by {
                                    assert(big_k.take(moved_count + 1).last() == ci);
                                }
                            } else {
                                assert(v2.parent[x] == vc.parent[x]);
                                assert(big_k.take(moved_count + 1).contains(x)
                                    == big_k.take(moved_count).contains(x)) by {
                                    if big_k.take(moved_count + 1).contains(x) {
                                        let j = choose |j: int|
                                            0 <= j < big_k.take(moved_count + 1).len()
                                            && #[trigger] big_k.take(moved_count + 1)[j] == x;
                                        assert(j < moved_count + 1);
                                        assert(big_k.take(moved_count)[j] == x);
                                    }
                                    if big_k.take(moved_count).contains(x) {
                                        let j = choose |j: int|
                                            0 <= j < big_k.take(moved_count).len()
                                            && #[trigger] big_k.take(moved_count)[j] == x;
                                        assert(big_k.take(moved_count + 1)[j] == x);
                                    }
                                }
                            }
                        }
                        // kids frame for other nodes
                        assert forall |q: int| v0.live.contains(q) && q != ni && q != pi
                            implies v2.kids[q] == v0.kids[q] by {
                            assert(v1.kids[q] == vc.kids[q]);
                            assert(v2.kids[q] == v1.kids[q]);
                        }
                        // the moved child cannot re-introduce a path from the
                        // new parent down to `node`
                        self.tree.lemma_wf_inv();
                        assert(!reaches(v2, pi, ni)) by {
                            assert forall |m: int| m != ci implies
                                #[trigger] pstep(vc, m) == pstep(v2, m) by {}
                            assert(pstep(v2, ci) == Some(pi));
                            if reaches(v2, pi, ni) {
                                lemma_append_keeps_ancestors(vc, v2, ci, pi, ni);
                            }
                        }
                        vc = v2;
                        moved_count = moved_count + 1;
                    }
                }
                None => {
                    proof {
                        assert(vc.kids[ni].len() == 0);
                        assert(big_k.skip(moved_count).len() == 0);
                        assert(moved_count == big_k.len());
                        assert(big_k.take(moved_count) =~= big_k);
                        assert(vc.kids[ni] =~= Seq::<int>::empty());
                    }
                    return;
                }
            }
        }
    }

    /// Detach a node from its parent.
    pub fn remove_from_parent(&mut self, target: NodeRef)
        requires
            old(self).wf(),
            old(self).tree@.live.contains(target.id as int),
        ensures
            final(self).wf(),
            final(self).document == old(self).document,
            final(self).tree@ == detach_model(old(self).tree@, target.id as int),
    {
        self.tree.detach(target);
    }
}

/// Appending a detached node under `x` leaves `x`'s own ancestor chain as
/// it was: a new walk from `x` cannot pass through the appended child
/// without forming a cycle.
proof fn lemma_append_keeps_ancestors(v: TreeView, w: TreeView, c: int, x: int, z: int)
    requires
        inv(w),
        forall |m: int| m != c ==> #[trigger] pstep(v, m) == pstep(w, m),
        pstep(w, c) == Some(x),
        reaches(w, x, z),
    ensures
        reaches(v, x, z),
{
    let k = choose |k: nat| parent_iter(w, x, k) == Some(z);
    if exists |j: nat| j <= k && #[trigger] parent_iter(w, x, j) == Some(c) {
        let j = choose |j: nat| j <= k && #[trigger] parent_iter(w, x, j) == Some(c);
        assert(parent_iter(w, c, 0nat) == Some(c));
        assert(parent_iter(w, c, 0nat + 1) == pstep(w, c));
        assert(parent_iter(w, c, 1) == Some(x));
        lemma_iter_compose(w, c, 1, j);
        assert(parent_iter(w, c, 1 + j) == Some(c));
        assert(false);
    } else {
        assert forall |j: nat| j < k implies #[trigger] parent_iter(w, x, j) != Some(c) by {}
        lemma_iter_agree_avoid(v, w, c, x, k);
        assert(parent_iter(v, x, k) == Some(z));
    }
}

/// Folding one more attribute into `add_missing`.
proof fn lemma_add_missing_push(a: Seq<AttrEntry>, l: Seq<AttrEntry>, e: AttrEntry)
    ensures
        Sink::add_missing(a, l.push(e)) == Sink::add_missing(
            Sink::add_missing(a, l),
            seq![e],
        ),
    decreases l.len(),
{
    if l.len() == 0 {
        assert(l.push(e).drop_first() =~= Seq::<AttrEntry>::empty());
        assert(l.push(e)[0] == e);
        assert(Sink::add_missing(a, l) == a);
        assert(seq![e].drop_first() =~= Seq::<AttrEntry>::empty());
        assert(seq![e][0] == e);
    } else {
        assert(l.push(e)[0] == l[0]);
        assert(l.push(e).drop_first() =~= l.drop_first().push(e));
        lemma_add_missing_push(
            if has_key(a, l[0].ns, l[0].local) { a } else { a.push(l[0]) },
            l.drop_first(),
            e,
        );
    }
}

} // verus!
