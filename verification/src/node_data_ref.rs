//! Typed node views: a node reference together with the knowledge that its
//! payload has one particular variant, so that the variant tag need not be
//! re-checked on every access.

use vstd::prelude::*;
use crate::tree::{Tree, TreeView, NodeRef, NodeData, DataView, descendants_of,
    lemma_descendants_members};
use crate::iter::{Descendants, EdgeView, edges, start_nodes, lemma_start_nodes_add};

verus! {

/// The payload variant a typed view certifies.
#[derive(Clone, Copy, PartialEq, Eq, Structural, Debug)]
pub enum DataKind {
    Element,
    Text,
    Comment,
    Doctype,
    Document,
}

/// Whether a payload has the given variant.
pub open spec fn data_is_kind(d: DataView, k: DataKind) -> bool {
    match k {
        DataKind::Element => d is Element,
        DataKind::Text => d is Text,
        DataKind::Comment => d is Comment,
        DataKind::Doctype => d is Doctype,
        DataKind::Document => d is Document,
    }
}

/// A node reference narrowed to one payload variant.
#[derive(Clone, Copy, Debug)]
pub struct NodeDataRef {
    /// The underlying node.
    pub node: NodeRef,
    /// The certified payload variant.
    pub kind: DataKind,
}

impl NodeDataRef {
    /// A view is valid for a tree when its node is live with the certified
    /// payload variant.
    pub open spec fn valid(&self, v: TreeView) -> bool {
        &&& v.live.contains(self.node.id as int)
        &&& data_is_kind(v.data[self.node.id as int], self.kind)
    }

    /// The certified variant.
    pub open spec fn kind_of(&self) -> DataKind {
        self.kind
    }

    /// Make a typed view when the node's payload has the requested variant.
    pub fn new_opt(t: &Tree, node: NodeRef, kind: DataKind) -> (r: Option<NodeDataRef>)
        requires
            t.wf(),
            t@.live.contains(node.id as int),
        ensures
            match r {
                Some(d) => data_is_kind(t@.data[node.id as int], kind)
                    && d.valid(t@) && d.as_node_spec() == node && d.kind_of() == kind,
                None => !data_is_kind(t@.data[node.id as int], kind),
            },
    {
        let matches_kind = match (t.data(node), kind) {
            (NodeData::Element(_), DataKind::Element) => true,
            (NodeData::Text(_), DataKind::Text) => true,
            (NodeData::Comment(_), DataKind::Comment) => true,
            (NodeData::Doctype(_), DataKind::Doctype) => true,
            (NodeData::Document(_), DataKind::Document) => true,
            _ => false,
        };
        if matches_kind {
            Some(NodeDataRef { node, kind })
        } else {
            None
        }
    }

    /// The underlying node.
    pub open spec fn as_node_spec(&self) -> NodeRef {
        self.node
    }

    /// The underlying node.
    pub fn as_node(&self) -> (r: NodeRef)
        ensures
            r == self.as_node_spec(),
    {
        self.node
    }
}

impl Tree {
    /// Narrow a node to an element view, if it is an element.
    pub fn into_element_ref(&self, node: NodeRef) -> (r: Option<NodeDataRef>)
        requires
            self.wf(),
            self@.live.contains(node.id as int),
        ensures
            match r {
                Some(d) => self@.data[node.id as int] is Element
                    && d.valid(self@) && d.as_node_spec() == node,
                None => !(self@.data[node.id as int] is Element),
            },
    {
        NodeDataRef::new_opt(self, node, DataKind::Element)
    }

    /// Narrow a node to a text view, if it is a text node.
    pub fn into_text_ref(&self, node: NodeRef) -> (r: Option<NodeDataRef>)
        requires
            self.wf(),
            self@.live.contains(node.id as int),
        ensures
            match r {
                Some(d) => self@.data[node.id as int] is Text
                    && d.valid(self@) && d.as_node_spec() == node,
                None => !(self@.data[node.id as int] is Text),
            },
    {
        NodeDataRef::new_opt(self, node, DataKind::Text)
    }

    /// Narrow a node to a comment view, if it is a comment.
    pub fn into_comment_ref(&self, node: NodeRef) -> (r: Option<NodeDataRef>)
        requires
            self.wf(),
            self@.live.contains(node.id as int),
        ensures
            match r {
                Some(d) => self@.data[node.id as int] is Comment
                    && d.valid(self@) && d.as_node_spec() == node,
                None => !(self@.data[node.id as int] is Comment),
            },
    {
        NodeDataRef::new_opt(self, node, DataKind::Comment)
    }

    /// Narrow a node to a doctype view, if it is a doctype.
    pub fn into_doctype_ref(&self, node: NodeRef) -> (r: Option<NodeDataRef>)
        requires
            self.wf(),
            self@.live.contains(node.id as int),
        ensures
            match r {
                Some(d) => self@.data[node.id as int] is Doctype
                    && d.valid(self@) && d.as_node_spec() == node,
                None => !(self@.data[node.id as int] is Doctype),
            },
    {
        NodeDataRef::new_opt(self, node, DataKind::Doctype)
    }

    /// Narrow a node to a document view, if it is a document.
    pub fn into_document_ref(&self, node: NodeRef) -> (r: Option<NodeDataRef>)
        requires
            self.wf(),
            self@.live.contains(node.id as int),
        ensures
            match r {
                Some(d) => self@.data[node.id as int] is Document
                    && d.valid(self@) && d.as_node_spec() == node,
                None => !(self@.data[node.id as int] is Document),
            },
    {
        NodeDataRef::new_opt(self, node, DataKind::Document)
    }
}

// ---------------------------------------------------------------------------
// Variant-filtering adapters over the descendant iterator
// ---------------------------------------------------------------------------

/// A prefix of the start nodes is never longer than all of them.
proof fn lemma_start_prefix_len(es: Seq<EdgeView>, i: int)
    requires
        0 <= i <= es.len(),
    ensures
        start_nodes(es.take(i)).len() <= start_nodes(es).len(),
{
    assert(es =~= es.take(i) + es.skip(i));
    lemma_start_nodes_add(es.take(i), es.skip(i));
}

/// What one step of a variant-filtering iterator does: it yields the first
/// node of the wanted variant at or after the current position of the
/// underlying preorder walk (advancing just past it), or exhausts the walk
/// when no such node remains.
pub open spec fn filter_step_ok(prev: Descendants, cur: Descendants, v: TreeView,
    kind: DataKind, r: Option<NodeDataRef>) -> bool {
    let ds = prev.full_seq(v);
    &&& cur.valid(v)
    &&& cur.walk.root == prev.walk.root
    &&& match r {
        Some(d) => exists |j: int| prev.yielded@ <= j < ds.len()
            && #[trigger] ds[j] == d.node.id as int
            && data_is_kind(v.data[ds[j]], kind)
            && d.kind == kind
            && d.valid(v)
            && cur.yielded@ == j + 1
            && (forall |k: int| prev.yielded@ <= k < j
                ==> !data_is_kind(v.data[#[trigger] ds[k]], kind)),
        None => cur.yielded@ == ds.len()
            && forall |k: int| prev.yielded@ <= k < ds.len()
                ==> !data_is_kind(v.data[#[trigger] ds[k]], kind),
    }
}

/// Advance the walk to the next node of the wanted variant.
fn next_of_kind(inner: &mut Descendants, t: &Tree, kind: DataKind) -> (r: Option<NodeDataRef>)
    requires
        t.wf(),
        old(inner).valid(t@),
    ensures
        filter_step_ok(*old(inner), *final(inner), t@, kind, r),
{
    let ghost v = t@;
    let ghost ri = old(inner).walk.root.id as int;
    let ghost ds = descendants_of(v, ri);
    let ghost es = edges(v, ri);
    proof {
        t.lemma_wf_inv();
        lemma_descendants_members(v, ri);
        lemma_start_prefix_len(es, inner.walk.count@);
        crate::iter::lemma_descendants_are_start_edges(v, ri);
    }
    loop
        invariant
            t.wf(),
            inner.valid(t@),
            inner.walk.root == old(inner).walk.root,
            v == t@,
            ri == old(inner).walk.root.id as int,
            ds == descendants_of(v, ri),
            old(inner).yielded@ <= inner.yielded@ <= ds.len(),
            forall |k: int| old(inner).yielded@ <= k < inner.yielded@
                ==> !data_is_kind(v.data[#[trigger] ds[k]], kind),
        decreases ds.len() - inner.yielded@,
    {
        let ghost y = inner.yielded@;
        match inner.next(t) {
            Some(n) => {
                proof {
                    t.lemma_wf_inv();
                    lemma_descendants_members(v, ri);
                    assert(n.id as int == ds[y]);
                    assert(descendants_of(v, ri).contains(ds[y])) by {
                        assert(descendants_of(v, ri)[y] == ds[y]);
                    }
                    assert(v.live.contains(n.id as int));
                }
                match NodeDataRef::new_opt(t, n, kind) {
                    Some(d) => {
                        proof {
                            let prev = *old(inner);
                            let dsx = prev.full_seq(v);
                            assert(dsx == ds);
                            assert(prev.yielded@ <= y < dsx.len());
                            assert(dsx[y] == d.node.id as int);
                            assert(data_is_kind(v.data[dsx[y]], kind));
                            assert(inner.yielded@ == y + 1);
                            assert(forall |k: int| prev.yielded@ <= k < y
                                ==> !data_is_kind(v.data[#[trigger] dsx[k]], kind));
                        }
                        return Some(d);
                    }
                    None => {
                        // this node has another variant; keep scanning
                    }
                }
            }
            None => {
                return None;
            }
        }
    }
}

/// An iterator over the element nodes of a subtree, in tree order.
pub struct Elements {
    /// The underlying preorder walk.
    pub inner: Descendants,
}

/// An iterator over the text nodes of a subtree, in tree order.
pub struct TextNodes {
    /// The underlying preorder walk.
    pub inner: Descendants,
}

/// An iterator over the comment nodes of a subtree, in tree order.
pub struct Comments {
    /// The underlying preorder walk.
    pub inner: Descendants,
}

impl Descendants {
    /// Narrow this iterator to element nodes.
    pub fn elements(self) -> (r: Elements)
        ensures
            r.inner == self,
    {
        Elements { inner: self }
    }

    /// Narrow this iterator to text nodes.
    pub fn text_nodes(self) -> (r: TextNodes)
        ensures
            r.inner == self,
    {
        TextNodes { inner: self }
    }

    /// Narrow this iterator to comment nodes.
    pub fn comments(self) -> (r: Comments)
        ensures
            r.inner == self,
    {
        Comments { inner: self }
    }
}

impl Elements {
    /// Yield the next element node as a typed view.
    pub fn next(&mut self, t: &Tree) -> (r: Option<NodeDataRef>)
        requires
            t.wf(),
            old(self).inner.valid(t@),
        ensures
            filter_step_ok(old(self).inner, final(self).inner, t@, DataKind::Element, r),
    {
        next_of_kind(&mut self.inner, t, DataKind::Element)
    }
}

impl TextNodes {
    /// Yield the next text node as a typed view.
    pub fn next(&mut self, t: &Tree) -> (r: Option<NodeDataRef>)
        requires
            t.wf(),
            old(self).inner.valid(t@),
        ensures
            filter_step_ok(old(self).inner, final(self).inner, t@, DataKind::Text, r),
    {
        next_of_kind(&mut self.inner, t, DataKind::Text)
    }
}

impl Comments {
    /// Yield the next comment node as a typed view.
    pub fn next(&mut self, t: &Tree) -> (r: Option<NodeDataRef>)
        requires
            t.wf(),
            old(self).inner.valid(t@),
        ensures
            filter_step_ok(old(self).inner, final(self).inner, t@, DataKind::Comment, r),
    {
        next_of_kind(&mut self.inner, t, DataKind::Comment)
    }
}

} // verus!
