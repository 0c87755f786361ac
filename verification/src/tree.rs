//! The tree engine: node storage, links, and mutation operations.
//!
//! Nodes live in an arena owned by a [`Tree`]; a [`NodeRef`] names one slot.
//! Every node carries five links: `parent`, `previous_sibling`,
//! `next_sibling`, `first_child` and `last_child`.  The forward chain
//! (`first_child` / `next_sibling`) reaches every node of a subtree exactly
//! once; the remaining links are back-references for navigation.  The
//! abstract value of a tree is a [`TreeView`]: the set of live slots, the
//! parent of each node, its whole sibling chain, its children and its
//! payload.  The predicate [`inv`] states the well-formedness of a view:
//! sibling chains are consistent in both directions, child lists agree with
//! parent links, and no node is its own ancestor.

use vstd::prelude::*;
use vstd::seq_lib::*;
use vstd::string::StringExecFns;
use crate::attributes::{Attributes, Attribute, AttrEntry, ExpandedName, attrs_wf, has_key, key_index};
use crate::move_cell::MoveCell;

verus! {

// ---------------------------------------------------------------------------
// Node payloads and their abstract values
// ---------------------------------------------------------------------------

/// A qualified (namespaced) element name.
#[derive(Clone, Debug)]
pub struct QualName {
    /// Serialization prefix, if any.
    pub prefix: Option<String>,
    /// Namespace URL; the empty string is the null namespace.
    pub ns: String,
    /// Local part of the name.
    pub local: String,
}

/// A document's quirks mode, as determined by the parser.
#[derive(Clone, Copy, PartialEq, Eq, Structural, Debug)]
pub enum QuirksMode {
    NoQuirks,
    LimitedQuirks,
    Quirks,
}

/// Data specific to doctype nodes.
#[derive(Clone, Debug)]
pub struct Doctype {
    /// The name of the doctype.
    pub name: String,
    /// The public ID of the doctype.
    pub public_id: String,
    /// The system ID of the doctype.
    pub system_id: String,
}

/// Data specific to element nodes.
#[derive(Debug)]
pub struct ElementData {
    /// The namespace and local name of the element.
    pub name: QualName,
    /// The attributes of the element.
    pub attributes: Attributes,
}

/// Data specific to document nodes.
#[derive(Debug)]
pub struct DocumentData {
    /// The quirks mode of the document.
    pub quirks_mode: QuirksMode,
}

/// Node data specific to the node type.
#[derive(Debug)]
pub enum NodeData {
    /// Element node.
    Element(ElementData),
    /// Text node.
    Text(String),
    /// Comment node.
    Comment(String),
    /// Doctype node.
    Doctype(Doctype),
    /// Document node.
    Document(DocumentData),
}

/// Abstract value of a qualified name.
#[verifier::ext_equal]
pub struct QualNameView {
    pub prefix: Option<Seq<char>>,
    pub ns: Seq<char>,
    pub local: Seq<char>,
}

/// Abstract value of a node payload.
#[verifier::ext_equal]
pub enum DataView {
    Element { name: QualNameView, attrs: Seq<AttrEntry> },
    Text(Seq<char>),
    Comment(Seq<char>),
    Doctype { name: Seq<char>, public_id: Seq<char>, system_id: Seq<char> },
    Document { quirks: QuirksMode },
}

pub open spec fn opt_string_view(o: Option<String>) -> Option<Seq<char>> {
    match o {
        Some(s) => Some(s@),
        None => None,
    }
}

impl View for QualName {
    type V = QualNameView;

    open spec fn view(&self) -> QualNameView {
        QualNameView {
            prefix: opt_string_view(self.prefix),
            ns: self.ns@,
            local: self.local@,
        }
    }
}

impl View for NodeData {
    type V = DataView;

    open spec fn view(&self) -> DataView {
        match self {
            NodeData::Element(e) => DataView::Element { name: e.name@, attrs: e.attributes@ },
            NodeData::Text(s) => DataView::Text(s@),
            NodeData::Comment(s) => DataView::Comment(s@),
            NodeData::Doctype(d) => DataView::Doctype {
                name: d.name@,
                public_id: d.public_id@,
                system_id: d.system_id@,
            },
            NodeData::Document(d) => DataView::Document { quirks: d.quirks_mode },
        }
    }
}

/// Element payloads must have a well-formed attribute store.
pub open spec fn data_view_wf(d: DataView) -> bool {
    match d {
        DataView::Element { name, attrs } => attrs_wf(attrs),
        _ => true,
    }
}

/// The contents of a text payload, or empty for other payloads.
pub open spec fn text_of(d: DataView) -> Seq<char> {
    match d {
        DataView::Text(s) => s,
        _ => Seq::empty(),
    }
}

/// The name of an element payload.
pub open spec fn elem_name_of(d: DataView) -> QualNameView {
    match d {
        DataView::Element { name, attrs } => name,
        _ => QualNameView { prefix: None, ns: Seq::empty(), local: Seq::empty() },
    }
}

/// The attributes of an element payload, or empty for other payloads.
pub open spec fn attrs_of(d: DataView) -> Seq<AttrEntry> {
    match d {
        DataView::Element { name, attrs } => attrs,
        _ => Seq::empty(),
    }
}

impl DocumentData {
    /// The quirks mode of the document, as determined by the HTML parser.
    pub fn quirks_mode(&self) -> (m: QuirksMode)
        ensures
            m == self.quirks_mode,
    {
        self.quirks_mode
    }
}

impl NodeData {
    /// If this payload is element data, a reference to it.
    pub fn as_element(&self) -> (r: Option<&ElementData>)
        ensures
            match r {
                Some(e) => self@ == (DataView::Element { name: e.name@, attrs: e.attributes@ }),
                None => !(self@ is Element),
            },
    {
        match self {
            NodeData::Element(e) => Some(e),
            _ => None,
        }
    }

    /// If this payload is text, a reference to its contents.
    pub fn as_text(&self) -> (r: Option<&String>)
        ensures
            match r {
                Some(s) => self@ == DataView::Text(s@),
                None => !(self@ is Text),
            },
    {
        match self {
            NodeData::Text(s) => Some(s),
            _ => None,
        }
    }

    /// If this payload is a comment, a reference to its contents.
    pub fn as_comment(&self) -> (r: Option<&String>)
        ensures
            match r {
                Some(s) => self@ == DataView::Comment(s@),
                None => !(self@ is Comment),
            },
    {
        match self {
            NodeData::Comment(s) => Some(s),
            _ => None,
        }
    }

    /// If this payload is doctype data, a reference to it.
    pub fn as_doctype(&self) -> (r: Option<&Doctype>)
        ensures
            match r {
                Some(d) => self@ == (DataView::Doctype {
                    name: d.name@,
                    public_id: d.public_id@,
                    system_id: d.system_id@,
                }),
                None => !(self@ is Doctype),
            },
    {
        match self {
            NodeData::Doctype(d) => Some(d),
            _ => None,
        }
    }

    /// If this payload is document data, a reference to it.
    pub fn as_document(&self) -> (r: Option<&DocumentData>)
        ensures
            match r {
                Some(d) => self@ == (DataView::Document { quirks: d.quirks_mode }),
                None => !(self@ is Document),
            },
    {
        match self {
            NodeData::Document(d) => Some(d),
            _ => None,
        }
    }
}

// ---------------------------------------------------------------------------
// Nodes and the tree arena
// ---------------------------------------------------------------------------

/// A reference to a node of a [`Tree`]: the index of its slot.
#[derive(Clone, Copy, PartialEq, Eq, Structural, Debug, Hash)]
pub struct NodeRef {
    /// The slot index.
    pub id: usize,
}

/// A node inside the tree: five links plus its payload.
struct Node {
    parent: MoveCell<Option<usize>>,
    previous_sibling: MoveCell<Option<usize>>,
    next_sibling: MoveCell<Option<usize>>,
    first_child: MoveCell<Option<usize>>,
    last_child: MoveCell<Option<usize>>,
    live: bool,
    data: NodeData,
}

/// The abstract value of a tree.
#[verifier::ext_equal]
pub struct TreeView {
    /// The slots holding live nodes.
    pub live: Set<int>,
    /// The parent of each live node, if any.
    pub parent: Map<int, Option<int>>,
    /// The whole sibling chain each live node belongs to, in order.
    pub chain: Map<int, Seq<int>>,
    /// The children of each live node, in order.
    pub kids: Map<int, Seq<int>>,
    /// The payload of each live node.
    pub data: Map<int, DataView>,
}

pub open spec fn oi(o: Option<usize>) -> Option<int> {
    match o {
        Some(u) => Some(u as int),
        None => None,
    }
}

pub open spec fn opt_ref_view(o: Option<NodeRef>) -> Option<int> {
    match o {
        Some(r) => Some(r.id as int),
        None => None,
    }
}

// ---------------------------------------------------------------------------
// Well-formedness of a view
// ---------------------------------------------------------------------------

/// One step up the parent links.
pub open spec fn pstep(v: TreeView, m: int) -> Option<int> {
    if v.live.contains(m) {
        v.parent[m]
    } else {
        None
    }
}

/// `k` steps up the parent links, starting at `n`.
pub open spec fn parent_iter(v: TreeView, n: int, k: nat) -> Option<int>
    decreases k,
{
    if k == 0 {
        Some(n)
    } else {
        match parent_iter(v, n, (k - 1) as nat) {
            Some(m) => pstep(v, m),
            None => None,
        }
    }
}

/// Whether `b` is `a` itself or an ancestor of `a`.
pub open spec fn reaches(v: TreeView, a: int, b: int) -> bool {
    exists |k: nat| parent_iter(v, a, k) == Some(b)
}

/// No node is its own strict ancestor.
pub open spec fn acyclic(v: TreeView) -> bool {
    forall |n: int, k: nat| 1 <= k ==> #[trigger] parent_iter(v, n, k) != Some(n)
}

/// The sibling chain of `n` lists live nodes, exactly once each, all in the
/// same chain with the same parent, and `n` among them.
pub open spec fn chain_ok(v: TreeView, n: int) -> bool {
    let s = v.chain[n];
    &&& s.contains(n)
    &&& s.no_duplicates()
    &&& forall |j: int| 0 <= j < s.len() ==> v.live.contains(#[trigger] s[j])
    &&& forall |j: int| 0 <= j < s.len() ==> v.chain[#[trigger] s[j]] == s
    &&& forall |j: int| 0 <= j < s.len() ==> v.parent[#[trigger] s[j]] == v.parent[n]
}

/// A node with a parent is one of that parent's children, and its sibling
/// chain is exactly the parent's child list.
pub open spec fn parent_ok(v: TreeView, c: int) -> bool {
    match v.parent[c] {
        Some(p) => v.live.contains(p) && p != c && v.kids[p] == v.chain[c],
        None => true,
    }
}

/// Each child in a child list is live and points back at the parent.
pub open spec fn kids_ok(v: TreeView, p: int) -> bool {
    let t = v.kids[p];
    forall |j: int| 0 <= j < t.len() ==>
        v.live.contains(#[trigger] t[j]) && v.parent[t[j]] == Some(p) && v.chain[t[j]] == t
}

/// Well-formedness of a tree view.
pub open spec fn inv(v: TreeView) -> bool {
    &&& v.live.finite()
    &&& v.parent.dom() =~= v.live
    &&& v.chain.dom() =~= v.live
    &&& v.kids.dom() =~= v.live
    &&& v.data.dom() =~= v.live
    &&& forall |n: int| v.live.contains(n) ==> #[trigger] chain_ok(v, n)
    &&& forall |n: int| v.live.contains(n) ==> #[trigger] parent_ok(v, n)
    &&& forall |n: int| v.live.contains(n) ==> #[trigger] kids_ok(v, n)
    &&& forall |n: int| v.live.contains(n) ==> data_view_wf(#[trigger] v.data[n])
    &&& acyclic(v)
}

/// The position of `c` inside its sibling chain.
pub open spec fn chain_pos(v: TreeView, c: int) -> int {
    choose |j: int| 0 <= j < v.chain[c].len() && v.chain[c][j] == c
}

// ---------------------------------------------------------------------------
// Model transformers: what each operation does to the abstract value
// ---------------------------------------------------------------------------

/// A fresh node: live, detached, childless, with payload `d`.
pub open spec fn add_node_model(v: TreeView, n: int, d: DataView) -> TreeView {
    TreeView {
        live: v.live.insert(n),
        parent: v.parent.insert(n, None),
        chain: v.chain.insert(n, seq![n]),
        kids: v.kids.insert(n, Seq::empty()),
        data: v.data.insert(n, d),
    }
}

/// Node `c` leaves its sibling chain and loses its parent; its own subtree
/// is untouched.
pub open spec fn detach_model(v: TreeView, c: int) -> TreeView {
    let s = v.chain[c];
    let k = chain_pos(v, c);
    let s1 = s.remove(k);
    TreeView {
        live: v.live,
        parent: v.parent.insert(c, None),
        chain: Map::new(
            |i: int| v.live.contains(i),
            |i: int| if i == c {
                seq![c]
            } else if v.chain[i] == s {
                s1
            } else {
                v.chain[i]
            },
        ),
        kids: Map::new(
            |i: int| v.live.contains(i),
            |i: int| if v.parent[c] == Some(i) {
                s1
            } else {
                v.kids[i]
            },
        ),
        data: v.data,
    }
}

/// A detached node `c` becomes the child of `p` at position `j`.
pub open spec fn attach_child_model(v: TreeView, p: int, c: int, j: int) -> TreeView {
    let t = v.kids[p];
    let t2 = t.insert(j, c);
    TreeView {
        live: v.live,
        parent: v.parent.insert(c, Some(p)),
        chain: Map::new(
            |i: int| v.live.contains(i),
            |i: int| if i == c || (t.len() > 0 && v.chain[i] == t) {
                t2
            } else {
                v.chain[i]
            },
        ),
        kids: Map::new(
            |i: int| v.live.contains(i),
            |i: int| if i == p {
                t2
            } else {
                v.kids[i]
            },
        ),
        data: v.data,
    }
}

/// A detached node `c` joins the sibling chain of `n` at position `j`,
/// taking `n`'s parent (which may be absent: inserting next to a root is a
/// plain sibling-list operation).
pub open spec fn attach_sibling_model(v: TreeView, n: int, c: int, j: int) -> TreeView {
    let s = v.chain[n];
    let s2 = s.insert(j, c);
    TreeView {
        live: v.live,
        parent: v.parent.insert(c, v.parent[n]),
        chain: Map::new(
            |i: int| v.live.contains(i),
            |i: int| if i == c || v.chain[i] == s {
                s2
            } else {
                v.chain[i]
            },
        ),
        kids: Map::new(
            |i: int| v.live.contains(i),
            |i: int| if v.parent[n] == Some(i) {
                s2
            } else {
                v.kids[i]
            },
        ),
        data: v.data,
    }
}

/// What `append` does to the abstract value: the child leaves its old
/// position and becomes the last child of `p`.
pub open spec fn append_model(v: TreeView, p: int, c: int) -> TreeView {
    let v1 = detach_model(v, c);
    attach_child_model(v1, p, c, v1.kids[p].len() as int)
}

/// What `prepend` does to the abstract value: the child leaves its old
/// position and becomes the first child of `p`.
pub open spec fn prepend_model(v: TreeView, p: int, c: int) -> TreeView {
    let v1 = detach_model(v, c);
    attach_child_model(v1, p, c, 0)
}

/// What `insert_after` does to the abstract value.
pub open spec fn insert_after_model(v: TreeView, n: int, c: int) -> TreeView {
    let v1 = detach_model(v, c);
    attach_sibling_model(v1, n, c, chain_pos(v1, n) + 1)
}

/// What `insert_before` does to the abstract value.
pub open spec fn insert_before_model(v: TreeView, n: int, c: int) -> TreeView {
    let v1 = detach_model(v, c);
    attach_sibling_model(v1, n, c, chain_pos(v1, n))
}

// ---------------------------------------------------------------------------
// Lemmas about parent chains
// ---------------------------------------------------------------------------

/// Splitting a parent walk: `a + b` steps are `a` steps and then `b` steps.
pub proof fn lemma_iter_compose(v: TreeView, x: int, a: nat, b: nat)
    ensures
        parent_iter(v, x, a + b) == (match parent_iter(v, x, a) {
            Some(y) => parent_iter(v, y, b),
            None => None::<int>,
        }),
    decreases b,
{
    if b == 0 {
    } else {
        lemma_iter_compose(v, x, a, (b - 1) as nat);
        assert(a + b == (a + (b - 1) as nat) + 1);
        match parent_iter(v, x, a) {
            Some(y) => {
                assert(parent_iter(v, y, b) == (match parent_iter(v, y, (b - 1) as nat) {
                    Some(m) => pstep(v, m),
                    None => None::<int>,
                }));
            }
            None => {}
        }
    }
}

/// If two views agree on every parent step except at `c`, a walk that never
/// visits `c` before its end is the same in both.
pub proof fn lemma_iter_agree_avoid(v1: TreeView, v2: TreeView, c: int, x: int, k: nat)
    requires
        forall |m: int| m != c ==> #[trigger] pstep(v1, m) == pstep(v2, m),
        forall |j: nat| j < k ==> #[trigger] parent_iter(v2, x, j) != Some(c),
    ensures
        parent_iter(v2, x, k) == parent_iter(v1, x, k),
    decreases k,
{
    if k == 0 {
    } else {
        lemma_iter_agree_avoid(v1, v2, c, x, (k - 1) as nat);
        assert(parent_iter(v2, x, (k - 1) as nat) != Some(c));
        match parent_iter(v2, x, (k - 1) as nat) {
            Some(m) => {
                assert(m != c);
                assert(pstep(v1, m) == pstep(v2, m));
            }
            None => {}
        }
    }
}

/// If no parent step ever yields `c`, no walk from elsewhere reaches `c`.
pub proof fn lemma_never_reaches_unpointed(v: TreeView, c: int, x: int, k: nat)
    requires
        x != c,
        forall |m: int| #[trigger] pstep(v, m) != Some(c),
    ensures
        parent_iter(v, x, k) != Some(c),
    decreases k,
{
    if k == 0 {
    } else {
        lemma_never_reaches_unpointed(v, c, x, (k - 1) as nat);
    }
}

/// Removing a parent edge only removes walks: a successful walk in the new
/// view was already there.
pub proof fn lemma_iter_sub(v1: TreeView, v2: TreeView, c: int, x: int, k: nat, y: int)
    requires
        forall |m: int| m != c ==> #[trigger] pstep(v1, m) == pstep(v2, m),
        pstep(v2, c) is None,
        parent_iter(v2, x, k) == Some(y),
    ensures
        parent_iter(v1, x, k) == Some(y),
    decreases k,
{
    if k == 0 {
    } else {
        match parent_iter(v2, x, (k - 1) as nat) {
            Some(m) => {
                lemma_iter_sub(v1, v2, c, x, (k - 1) as nat, m);
                assert(pstep(v2, m) == Some(y));
                assert(m != c);
            }
            None => {
                assert(false);
            }
        }
    }
}

/// Removing a parent edge preserves acyclicity.
pub proof fn lemma_remove_edge_acyclic(v1: TreeView, v2: TreeView, c: int)
    requires
        acyclic(v1),
        forall |m: int| m != c ==> #[trigger] pstep(v1, m) == pstep(v2, m),
        pstep(v2, c) is None,
    ensures
        acyclic(v2),
{
    assert forall |n: int, k: nat| 1 <= k implies #[trigger] parent_iter(v2, n, k) != Some(n) by {
        if parent_iter(v2, n, k) == Some(n) {
            lemma_iter_sub(v1, v2, c, n, k, n);
        }
    }
}

/// The first index at which a walk visits `c`.
pub proof fn lemma_first_hit(v: TreeView, x: int, c: int, k: nat) -> (j: nat)
    requires
        parent_iter(v, x, k) == Some(c),
    ensures
        j <= k,
        parent_iter(v, x, j) == Some(c),
        forall |m: nat| m < j ==> #[trigger] parent_iter(v, x, m) != Some(c),
    decreases k,
{
    if exists |m: nat| m < k && #[trigger] parent_iter(v, x, m) == Some(c) {
        let m = choose |m: nat| m < k && #[trigger] parent_iter(v, x, m) == Some(c);
        lemma_first_hit(v, x, c, m)
    } else {
        k
    }
}

/// Attaching a detached node `c` below `p` preserves acyclicity, provided
/// `c` was not already `p` or an ancestor of `p`.
pub proof fn lemma_attach_acyclic(v1: TreeView, v2: TreeView, c: int, p: int)
    requires
        acyclic(v1),
        forall |m: int| m != c ==> #[trigger] pstep(v1, m) == pstep(v2, m),
        pstep(v1, c) is None,
        pstep(v2, c) == Some(p),
        !reaches(v1, p, c),
    ensures
        acyclic(v2),
{
    assert forall |n: int, k: nat| 1 <= k implies #[trigger] parent_iter(v2, n, k) != Some(n) by {
        if parent_iter(v2, n, k) == Some(n) {
            // First rotate the cycle so that it starts at `c` if it visits `c`.
            if exists |j: nat| j < k && #[trigger] parent_iter(v2, n, j) == Some(c) {
                let j0 = choose |j: nat| j < k && #[trigger] parent_iter(v2, n, j) == Some(c);
                // walk: n --j0--> c, and n --k--> n, so c --(k-j0)--> n --j0--> c
                lemma_iter_compose(v2, n, j0, (k - j0) as nat);
                assert(parent_iter(v2, c, (k - j0) as nat) == Some(n));
                lemma_iter_compose(v2, c, (k - j0) as nat, j0);
                assert(parent_iter(v2, c, k) == Some(c));
                // one step from c goes to p
                assert(parent_iter(v2, c, 0nat) == Some(c));
                assert(parent_iter(v2, c, 0nat + 1) == pstep(v2, c));
                assert(parent_iter(v2, c, 1) == Some(p));
                lemma_iter_compose(v2, c, 1, (k - 1) as nat);
                assert(parent_iter(v2, p, (k - 1) as nat) == Some(c));
                if k == 1 {
                    assert(p == c);
                    assert(parent_iter(v1, p, 0) == Some(c));
                    assert(reaches(v1, p, c));
                } else {
                    let j1 = lemma_first_hit(v2, p, c, (k - 1) as nat);
                    lemma_iter_agree_avoid(v1, v2, c, p, j1);
                    assert(parent_iter(v1, p, j1) == Some(c));
                    assert(reaches(v1, p, c));
                }
            } else {
                lemma_iter_agree_avoid(v1, v2, c, n, k);
                assert(parent_iter(v1, n, k) == Some(n));
            }
        }
    }
}

/// A fresh, isolated node changes no parent step at all.
pub proof fn lemma_iter_all_agree(v1: TreeView, v2: TreeView, x: int, k: nat)
    requires
        forall |m: int| #[trigger] pstep(v1, m) == pstep(v2, m),
    ensures
        parent_iter(v2, x, k) == parent_iter(v1, x, k),
    decreases k,
{
    if k == 0 {
    } else {
        lemma_iter_all_agree(v1, v2, x, (k - 1) as nat);
    }
}

// ---------------------------------------------------------------------------
// The tree arena
// ---------------------------------------------------------------------------

/// An arena of nodes forming a forest of document trees.
pub struct Tree {
    nodes: Vec<Node>,
    sib: Ghost<Map<int, Seq<int>>>,
    pos: Ghost<Map<int, int>>,
}

impl Tree {
    pub closed spec fn is_live(&self, i: int) -> bool {
        0 <= i < self.nodes@.len() && self.nodes@[i].live
    }
}

impl View for Tree {
    type V = TreeView;

    closed spec fn view(&self) -> TreeView {
        TreeView {
            live: Set::new(|i: int| self.is_live(i)),
            parent: Map::new(|i: int| self.is_live(i), |i: int| oi(self.nodes@[i].parent@)),
            chain: Map::new(|i: int| self.is_live(i), |i: int| self.sib@[i]),
            kids: Map::new(
                |i: int| self.is_live(i),
                |i: int| match self.nodes@[i].first_child@ {
                    None => Seq::<int>::empty(),
                    Some(f) => self.sib@[f as int],
                },
            ),
            data: Map::new(|i: int| self.is_live(i), |i: int| self.nodes@[i].data@),
        }
    }
}

impl Tree {
    /// Exec links of one live node agree with its chain and position.
    spec fn node_corr(&self, i: int) -> bool {
        let s = self.sib@[i];
        let k = self.pos@[i];
        &&& 0 <= k < s.len()
        &&& s[k] == i
        &&& oi(self.nodes@[i].previous_sibling@) == (if k == 0 {
            None::<int>
        } else {
            Some(s[k - 1])
        })
        &&& oi(self.nodes@[i].next_sibling@) == (if k == s.len() - 1 {
            None::<int>
        } else {
            Some(s[k + 1])
        })
        &&& match self.nodes@[i].first_child@ {
            None => self.nodes@[i].last_child@ is None,
            Some(f) => {
                &&& self.is_live(f as int)
                &&& self.pos@[f as int] == 0
                &&& oi(self.nodes@[f as int].parent@) == Some(i)
                &&& oi(self.nodes@[i].last_child@) == Some(self.sib@[f as int].last())
            }
        }
    }

    spec fn link_corr(&self) -> bool {
        forall |i: int| self.is_live(i) ==> #[trigger] self.node_corr(i)
    }

    /// Well-formedness: the exec links realize the abstract view, and the
    /// view satisfies [`inv`].
    pub closed spec fn wf(&self) -> bool {
        &&& self.link_corr()
        &&& inv(self@)
    }

    /// Well-formedness of the tree gives well-formedness of its view.
    pub proof fn lemma_wf_inv(&self)
        requires
            self.wf(),
        ensures
            inv(self@),
    {
    }

    /// An empty arena.
    pub fn new() -> (t: Tree)
        ensures
            t.wf(),
            t@.live == Set::<int>::empty(),
            t@ == (TreeView {
                live: Set::<int>::empty(),
                parent: Map::<int, Option<int>>::empty(),
                chain: Map::<int, Seq<int>>::empty(),
                kids: Map::<int, Seq<int>>::empty(),
                data: Map::<int, DataView>::empty(),
            }),
    {
        let t = Tree {
            nodes: Vec::new(),
            sib: Ghost(Map::empty()),
            pos: Ghost(Map::empty()),
        };
        proof {
            assert(t@.live =~= Set::<int>::empty());
            assert(t@.parent =~= Map::<int, Option<int>>::empty());
            assert(t@.chain =~= Map::<int, Seq<int>>::empty());
            assert(t@.kids =~= Map::<int, Seq<int>>::empty());
            assert(t@.data =~= Map::<int, DataView>::empty());
            assert(t@ =~= (TreeView {
                live: Set::<int>::empty(),
                parent: Map::<int, Option<int>>::empty(),
                chain: Map::<int, Seq<int>>::empty(),
                kids: Map::<int, Seq<int>>::empty(),
                data: Map::<int, DataView>::empty(),
            }));
            assert forall |n: int, k: nat| 1 <= k implies #[trigger] parent_iter(t@, n, k) != Some(n) by {
                lemma_never_reaches_unpointed(t@, n, n + 1, k);
                if parent_iter(t@, n, k) == Some(n) {
                    assert(parent_iter(t@, n, (k - 1) as nat) is Some);
                    let m = parent_iter(t@, n, (k - 1) as nat)->0;
                    assert(pstep(t@, m) == Some(n));
                    assert(false);
                }
            }
        }
        t
    }

    /// Create a new node holding the given payload.  The node is live,
    /// detached and childless.
    pub fn new_node(&mut self, data: NodeData) -> (r: NodeRef)
        requires
            old(self).wf(),
            data_view_wf(data@),
        ensures
            final(self).wf(),
            !old(self)@.live.contains(r.id as int),
            final(self)@ == add_node_model(old(self)@, r.id as int, data@),
    {
        let ghost vold = old(self)@;
        let ghost d = data@;
        let id = self.nodes.len();
        let ghost n = id as int;
        let node = Node {
            parent: MoveCell::new(None),
            previous_sibling: MoveCell::new(None),
            next_sibling: MoveCell::new(None),
            first_child: MoveCell::new(None),
            last_child: MoveCell::new(None),
            live: true,
            data,
        };
        self.nodes.push(node);
        proof {
            self.sib@ = self.sib@.insert(n, seq![n]);
            self.pos@ = self.pos@.insert(n, 0);

            // the new abstract value is the old one plus a fresh node
            assert(!vold.live.contains(n));
            assert forall |i: int| #[trigger] self.is_live(i) <==>
                (old(self).is_live(i) || i == n) by {}
            assert(self@.live =~= vold.live.insert(n));
            assert(self@.parent =~= vold.parent.insert(n, None));
            assert(self@.chain =~= vold.chain.insert(n, seq![n]));
            assert forall |i: int| self.is_live(i) implies
                #[trigger] self@.kids[i] == add_node_model(vold, n, d).kids[i] by {
                if i != n {
                    assert(old(self).node_corr(i));
                    match old(self).nodes@[i].first_child@ {
                        None => {}
                        Some(f) => {
                            assert(old(self).is_live(f as int));
                            assert(f as int != n);
                        }
                    }
                }
            }
            assert(self@.kids =~= vold.kids.insert(n, Seq::<int>::empty()));
            assert(self@.data =~= vold.data.insert(n, d));
            assert(self@ =~= add_node_model(vold, n, d));

            // exec links still realize the view
            assert forall |i: int| self.is_live(i) implies #[trigger] self.node_corr(i) by {
                if i == n {
                    assert(self.sib@[n] == seq![n]);
                    assert(self.sib@[n][0] == n);
                } else {
                    assert(old(self).node_corr(i));
                    assert(self.nodes@[i] == old(self).nodes@[i]);
                    match old(self).nodes@[i].first_child@ {
                        None => {}
                        Some(f) => {
                            assert(f as int != n);
                        }
                    }
                }
            }

            lemma_add_node_model_inv(vold, n, d);
        }
        NodeRef { id }
    }

    /// Create a new element node.
    pub fn new_element(&mut self, name: QualName, attributes: Attributes) -> (r: NodeRef)
        requires
            old(self).wf(),
            attrs_wf(attributes@),
        ensures
            final(self).wf(),
            !old(self)@.live.contains(r.id as int),
            final(self)@ == add_node_model(old(self)@, r.id as int, DataView::Element {
                name: name@,
                attrs: attributes@,
            }),
    {
        self.new_node(NodeData::Element(ElementData { name, attributes }))
    }

    /// Create a new text node.
    pub fn new_text(&mut self, value: String) -> (r: NodeRef)
        requires
            old(self).wf(),
        ensures
            final(self).wf(),
            !old(self)@.live.contains(r.id as int),
            final(self)@ == add_node_model(old(self)@, r.id as int, DataView::Text(value@)),
    {
        self.new_node(NodeData::Text(value))
    }

    /// Create a new comment node.
    pub fn new_comment(&mut self, value: String) -> (r: NodeRef)
        requires
            old(self).wf(),
        ensures
            final(self).wf(),
            !old(self)@.live.contains(r.id as int),
            final(self)@ == add_node_model(old(self)@, r.id as int, DataView::Comment(value@)),
    {
        self.new_node(NodeData::Comment(value))
    }

    /// Create a new doctype node.
    pub fn new_doctype(&mut self, name: String, public_id: String, system_id: String)
        -> (r: NodeRef)
        requires
            old(self).wf(),
        ensures
            final(self).wf(),
            !old(self)@.live.contains(r.id as int),
            final(self)@ == add_node_model(old(self)@, r.id as int, DataView::Doctype {
                name: name@,
                public_id: public_id@,
                system_id: system_id@,
            }),
    {
        self.new_node(NodeData::Doctype(Doctype { name, public_id, system_id }))
    }

    /// Create a new document node, in no-quirks mode.
    pub fn new_document(&mut self) -> (r: NodeRef)
        requires
            old(self).wf(),
        ensures
            final(self).wf(),
            !old(self)@.live.contains(r.id as int),
            final(self)@ == add_node_model(old(self)@, r.id as int, DataView::Document {
                quirks: QuirksMode::NoQuirks,
            }),
    {
        self.new_node(NodeData::Document(DocumentData { quirks_mode: QuirksMode::NoQuirks }))
    }

    /// Whether a reference names a live node of this tree.
    pub fn is_node_live(&self, node: NodeRef) -> (r: bool)
        ensures
            r == self@.live.contains(node.id as int),
    {
        node.id < self.nodes.len() && self.nodes[node.id].live
    }

    /// A reference to a node's payload.
    pub fn data(&self, node: NodeRef) -> (r: &NodeData)
        requires
            self.wf(),
            self@.live.contains(node.id as int),
        ensures
            r@ == self@.data[node.id as int],
    {
        &self.nodes[node.id].data
    }

    /// The parent of a node, unless it is a root.
    pub fn parent(&self, node: NodeRef) -> (r: Option<NodeRef>)
        requires
            self.wf(),
            self@.live.contains(node.id as int),
        ensures
            opt_ref_view(r) == self@.parent[node.id as int],
    {
        match self.nodes[node.id].parent.clone_inner() {
            Some(u) => Some(NodeRef { id: u }),
            None => None,
        }
    }

    /// The first child of a node, unless it has no child.
    pub fn first_child(&self, node: NodeRef) -> (r: Option<NodeRef>)
        requires
            self.wf(),
            self@.live.contains(node.id as int),
        ensures
            opt_ref_view(r) == (if self@.kids[node.id as int].len() == 0 {
                None::<int>
            } else {
                Some(self@.kids[node.id as int][0])
            }),
    {
        let ghost i = node.id as int;
        proof {
            assert(self.node_corr(i));
            match self.nodes@[i].first_child@ {
                None => {}
                Some(f) => {
                    assert(self.node_corr(f as int));
                    assert(self.sib@[f as int][self.pos@[f as int]] == f as int);
                }
            }
        }
        match self.nodes[node.id].first_child.clone_inner() {
            Some(u) => Some(NodeRef { id: u }),
            None => None,
        }
    }

    /// The last child of a node, unless it has no child.
    pub fn last_child(&self, node: NodeRef) -> (r: Option<NodeRef>)
        requires
            self.wf(),
            self@.live.contains(node.id as int),
        ensures
            opt_ref_view(r) == (if self@.kids[node.id as int].len() == 0 {
                None::<int>
            } else {
                Some(self@.kids[node.id as int].last())
            }),
    {
        let ghost i = node.id as int;
        proof {
            assert(self.node_corr(i));
            match self.nodes@[i].first_child@ {
                None => {}
                Some(f) => {
                    assert(self.node_corr(f as int));
                    assert(self.sib@[f as int][self.pos@[f as int]] == f as int);
                    assert(self@.kids[i].len() > 0);
                }
            }
        }
        match self.nodes[node.id].last_child.clone_inner() {
            Some(u) => Some(NodeRef { id: u }),
            None => None,
        }
    }

    /// The previous sibling of a node, unless it is a first child.
    pub fn previous_sibling(&self, node: NodeRef) -> (r: Option<NodeRef>)
        requires
            self.wf(),
            self@.live.contains(node.id as int),
        ensures
            ({
                let s = self@.chain[node.id as int];
                let k = chain_pos(self@, node.id as int);
                opt_ref_view(r) == (if k == 0 { None::<int> } else { Some(s[k - 1]) })
            }),
    {
        let ghost i = node.id as int;
        proof {
            assert(self.node_corr(i));
            lemma_chain_pos_unique(self@, i, self.pos@[i]);
        }
        match self.nodes[node.id].previous_sibling.clone_inner() {
            Some(u) => Some(NodeRef { id: u }),
            None => None,
        }
    }

    /// The next sibling of a node, unless it is a last child.
    pub fn next_sibling(&self, node: NodeRef) -> (r: Option<NodeRef>)
        requires
            self.wf(),
            self@.live.contains(node.id as int),
        ensures
            ({
                let s = self@.chain[node.id as int];
                let k = chain_pos(self@, node.id as int);
                opt_ref_view(r) == (if k == s.len() - 1 { None::<int> } else { Some(s[k + 1]) })
            }),
    {
        let ghost i = node.id as int;
        proof {
            assert(self.node_corr(i));
            lemma_chain_pos_unique(self@, i, self.pos@[i]);
        }
        match self.nodes[node.id].next_sibling.clone_inner() {
            Some(u) => Some(NodeRef { id: u }),
            None => None,
        }
    }

    /// Detach a node from its parent and siblings.  Its own children are not
    /// affected.
    #[verifier::rlimit(50)]
    pub fn detach(&mut self, node: NodeRef)
        requires
            old(self).wf(),
            old(self)@.live.contains(node.id as int),
        ensures
            final(self).wf(),
            final(self)@ == detach_model(old(self)@, node.id as int),
    {
        let ghost vold = old(self)@;
        let ghost c = node.id as int;
        let ghost s = vold.chain[c];
        let ghost k0 = old(self).pos@[c];
        let ghost s1 = s.remove(k0);
        proof {
            assert(old(self).node_corr(c));
            assert(chain_ok(vold, c));
            assert(old(self).sib@[c] == s);
            assert(s[k0] == c);
            lemma_chain_pos_unique(vold, c, k0);
            s.remove_ensures(k0);
            lemma_remove_nodup(s, k0);
            // every member of s is live, with chain s, at its own index
            assert forall |j: int| 0 <= j < s.len() implies
                vold.live.contains(#[trigger] s[j]) && vold.chain[s[j]] == s
                && old(self).node_corr(s[j]) && old(self).pos@[s[j]] == j
                && vold.parent[s[j]] == vold.parent[c]
            by {
                assert(old(self).node_corr(s[j]));
                assert(old(self).sib@[s[j]] == s);
                let pj = old(self).pos@[s[j]];
                assert(s[pj] == s[j]);
            }
            // when c has a parent p, p is live, not c, not in s, with kids s
            match vold.parent[c] {
                Some(p) => {
                    assert(parent_ok(vold, c));
                    assert(old(self).node_corr(p));
                    if s.contains(p) {
                        assert(vold.parent[p] == vold.parent[c]);
                        assert(parent_ok(vold, p));
                        assert(false);
                    }
                }
                None => {}
            }
        }
        let i = node.id;
        let parent_opt = self.nodes[i].parent.take();
        let prev_opt = self.nodes[i].previous_sibling.take();
        let next_opt = self.nodes[i].next_sibling.take();
        proof {
            assert(oi(parent_opt) == vold.parent[c]);
            assert(oi(prev_opt) == (if k0 == 0 { None::<int> } else { Some(s[k0 - 1]) }));
            assert(oi(next_opt) == (if k0 == s.len() - 1 { None::<int> } else { Some(s[k0 + 1]) }));
            match next_opt {
                Some(nx) => {
                    assert(vold.live.contains(nx as int));
                    assert(self.is_live(nx as int));
                }
                None => {}
            }
            match parent_opt {
                Some(p) => {
                    assert(vold.live.contains(p as int));
                    assert(self.is_live(p as int));
                }
                None => {}
            }
        }
        match next_opt {
            Some(nx) => self.nodes[nx].previous_sibling.set(prev_opt),
            None => match parent_opt {
                Some(p) => self.nodes[p].last_child.set(prev_opt),
                None => {}
            },
        }
        proof {
            match prev_opt {
                Some(pv) => {
                    assert(vold.live.contains(pv as int));
                    assert(self.is_live(pv as int));
                }
                None => {}
            }
        }
        match prev_opt {
            Some(pv) => self.nodes[pv].next_sibling.set(next_opt),
            None => match parent_opt {
                Some(p) => self.nodes[p].first_child.set(next_opt),
                None => {}
            },
        }
        proof {
            let pold = old(self).pos@;
            self.sib@ = Map::new(
                |i: int| vold.live.contains(i),
                |i: int| if i == c {
                    seq![c]
                } else if vold.chain[i] == s {
                    s1
                } else {
                    vold.chain[i]
                },
            );
            self.pos@ = Map::new(
                |i: int| vold.live.contains(i),
                |i: int| if i == c {
                    0
                } else if vold.chain[i] == s {
                    if pold[i] < k0 { pold[i] } else { pold[i] - 1 }
                } else {
                    pold[i]
                },
            );

            let w = detach_model(vold, c);
            // node ids touched by the exec updates
            let nxi = oi(old(self).nodes@[c].next_sibling@);
            let pvi = oi(old(self).nodes@[c].previous_sibling@);
            let pri = vold.parent[c];

            // liveness and lengths are untouched
            assert forall |j: int| #[trigger] self.is_live(j) <==> old(self).is_live(j) by {}
            assert(self@.live =~= w.live);

            // untouched nodes keep their exec fields
            assert forall |j: int| 0 <= j < self.nodes@.len()
                && j != c && Some(j) != nxi && Some(j) != pvi && Some(j) != pri
                implies self.nodes@[j] == old(self).nodes@[j] by {}

            // parent map
            assert forall |j: int| self.is_live(j) implies
                #[trigger] self@.parent[j] == w.parent[j] by {
                if j != c {
                    assert(self.nodes@[j].parent@ == old(self).nodes@[j].parent@);
                }
            }
            assert(self@.parent =~= w.parent);

            // chain map: by construction of the ghost update
            assert(self@.chain =~= w.chain);

            // kids map
            assert forall |j: int| self.is_live(j) implies
                #[trigger] self@.kids[j] == w.kids[j] by {
                if Some(j) == pri {
                    // c's old parent: its child list is s without c
                    assert(vold.kids[j] == s);
                    if k0 == 0 {
                        assert(self.nodes@[j].first_child@ == old(self).nodes@[c].next_sibling@);
                        if s.len() == 1 {
                            assert(self@.kids[j] =~= Seq::<int>::empty());
                            assert(s1 =~= Seq::<int>::empty());
                        } else {
                            assert(oi(self.nodes@[j].first_child@) == Some(s[1]));
                            assert(vold.chain[s[1]] == s);
                            assert(self@.kids[j] == s1);
                        }
                    } else {
                        assert(self.nodes@[j].first_child@ == old(self).nodes@[j].first_child@);
                        assert(old(self).node_corr(j));
                        assert(oi(old(self).nodes@[j].first_child@) == (
                            if vold.kids[j].len() == 0 { None::<int> } else { Some(vold.kids[j][0]) }
                        )) by {
                            match old(self).nodes@[j].first_child@ {
                                None => { assert(vold.kids[j] =~= Seq::<int>::empty()); }
                                Some(f) => {
                                    assert(old(self).node_corr(f as int));
                                    assert(old(self).sib@[f as int][old(self).pos@[f as int]] == f as int);
                                }
                            }
                        }
                        assert(oi(self.nodes@[j].first_child@) == Some(s[0]));
                        assert(s[0] != c);
                        assert(vold.chain[s[0]] == s);
                        assert(self@.kids[j] == s1);
                    }
                } else {
                    // any other node keeps its first child, whose chain is not s
                    assert(self.nodes@[j].first_child@ == old(self).nodes@[j].first_child@);
                    match old(self).nodes@[j].first_child@ {
                        None => {}
                        Some(f) => {
                            assert(old(self).node_corr(j));
                            assert(oi(old(self).nodes@[f as int].parent@) == Some(j));
                            assert(vold.parent[f as int] == Some(j));
                            if f as int == c {
                                assert(vold.parent[c] == Some(j));
                                assert(false);
                            }
                            if vold.chain[f as int] == s {
                                assert(vold.live.contains(f as int));
                                assert(chain_ok(vold, f as int));
                                assert(vold.chain[f as int].contains(f as int));
                                assert(s.contains(f as int));
                                assert(vold.parent[f as int] == vold.parent[c]);
                                assert(parent_ok(vold, f as int));
                                assert(false);
                            }
                        }
                    }
                }
            }
            assert(self@.kids =~= w.kids);

            // data map
            assert forall |j: int| self.is_live(j) implies
                #[trigger] self@.data[j] == w.data[j] by {
                assert(self.nodes@[j].data == old(self).nodes@[j].data);
            }
            assert(self@.data =~= w.data);

            assert(self@ =~= w);

            // exec links still realize the view
            assert forall |j: int| self.is_live(j) implies #[trigger] self.node_corr(j) by {
                assert(old(self).node_corr(j));
                if j == c {
                    assert(self.sib@[c] == seq![c]);
                    assert(self.pos@[c] == 0);
                    assert(self.nodes@[c].previous_sibling@ is None);
                    assert(self.nodes@[c].next_sibling@ is None);
                    assert(self.nodes@[c].first_child@ == old(self).nodes@[c].first_child@);
                    assert(self.nodes@[c].last_child@ == old(self).nodes@[c].last_child@);
                    match old(self).nodes@[c].first_child@ {
                        None => {}
                        Some(f) => {
                            assert(oi(old(self).nodes@[f as int].parent@) == Some(c));
                            assert(vold.parent[f as int] == Some(c));
                            if f as int == c {
                                assert(false);
                            }
                            if vold.chain[f as int] == s {
                                assert(vold.live.contains(f as int));
                                assert(chain_ok(vold, f as int));
                                assert(vold.chain[f as int].contains(f as int));
                                assert(s.contains(f as int));
                                assert(vold.parent[f as int] == vold.parent[c]);
                                assert(parent_ok(vold, f as int));
                                assert(false);
                            }
                            assert(Some(f as int) != nxi && Some(f as int) != pvi) by {
                                if Some(f as int) == nxi || Some(f as int) == pvi {
                                    assert(s.contains(f as int));
                                }
                            }
                            if Some(f as int) == pri {
                                assert(vold.parent[c] == Some(f as int));
                                assert(vold.parent[f as int] == Some(c));
                                assert(chain_ok(vold, f as int));
                                // two-cycle: c -> f -> c contradicts acyclicity
                                assert(parent_iter(vold, c, 0nat) == Some(c));
                                assert(parent_iter(vold, c, 0nat + 1) == pstep(vold, c));
                                assert(parent_iter(vold, c, 1) == Some(f as int));
                                assert(parent_iter(vold, c, 1nat + 1) == pstep(vold, f as int));
                                assert(parent_iter(vold, c, 2) == Some(c));
                                assert(false);
                            }
                            assert(self.nodes@[f as int] == old(self).nodes@[f as int]);
                            assert(self.sib@[f as int] == old(self).sib@[f as int]);
                            assert(self.pos@[f as int] == old(self).pos@[f as int]);
                        }
                    }
                } else if vold.chain[j] == s {
                    // j is a remaining member of c's old chain
                    assert(s.contains(j));
                    let pj = old(self).pos@[j];
                    assert(s[pj] == j && pj != k0);
                    let qj = self.pos@[j];
                    assert(qj == (if pj < k0 { pj } else { pj - 1 }));
                    assert(self.sib@[j] == s1);
                    assert(s1[qj] == j);
                    // previous link
                    if Some(j) == nxi {
                        assert(pj == k0 + 1);
                        assert(self.nodes@[j].previous_sibling@ == old(self).nodes@[c].previous_sibling@);
                        if k0 == 0 {
                            assert(qj == 0);
                            assert(oi(self.nodes@[j].previous_sibling@) is None);
                        } else {
                            assert(oi(self.nodes@[j].previous_sibling@) == Some(s[k0 - 1]));
                            assert(s1[qj - 1] == s[k0 - 1]);
                        }
                    } else {
                        assert(self.nodes@[j].previous_sibling@ == old(self).nodes@[j].previous_sibling@);
                        if pj > k0 {
                            assert(pj > k0 + 1);
                            assert(oi(self.nodes@[j].previous_sibling@) == Some(s[pj - 1]));
                            assert(s1[qj - 1] == s[pj - 1]);
                        } else {
                            if pj > 0 {
                                assert(oi(self.nodes@[j].previous_sibling@) == Some(s[pj - 1]));
                                assert(s[pj - 1] != c);
                                assert(s1[qj - 1] == s[pj - 1]);
                            }
                        }
                    }
                    // next link
                    if Some(j) == pvi {
                        assert(pj == k0 - 1);
                        assert(self.nodes@[j].next_sibling@ == old(self).nodes@[c].next_sibling@);
                        if k0 == s.len() - 1 {
                            assert(qj == s1.len() - 1);
                            assert(oi(self.nodes@[j].next_sibling@) is None);
                        } else {
                            assert(oi(self.nodes@[j].next_sibling@) == Some(s[k0 + 1]));
                            assert(s1[qj + 1] == s[k0 + 1]);
                        }
                    } else {
                        assert(self.nodes@[j].next_sibling@ == old(self).nodes@[j].next_sibling@);
                        if pj < k0 {
                            assert(pj < k0 - 1);
                            assert(oi(self.nodes@[j].next_sibling@) == Some(s[pj + 1]));
                            assert(s1[qj + 1] == s[pj + 1]);
                        } else {
                            if pj < s.len() - 1 {
                                assert(oi(self.nodes@[j].next_sibling@) == Some(s[pj + 1]));
                                assert(s[pj + 1] != c);
                                assert(s1[qj + 1] == s[pj + 1]);
                            } else {
                                assert(qj == s1.len() - 1);
                            }
                        }
                    }
                    // children links: unchanged, and the first child's chain is not s
                    assert(Some(j) != pri);
                    assert(self.nodes@[j].first_child@ == old(self).nodes@[j].first_child@);
                    assert(self.nodes@[j].last_child@ == old(self).nodes@[j].last_child@);
                    match old(self).nodes@[j].first_child@ {
                        None => {}
                        Some(f) => {
                            assert(oi(old(self).nodes@[f as int].parent@) == Some(j));
                            assert(vold.parent[f as int] == Some(j));
                            if f as int == c {
                                assert(vold.parent[c] == Some(j));
                                assert(s.contains(j));
                                assert(vold.parent[j] == vold.parent[c]);
                                assert(vold.parent[j] == Some(j));
                                assert(parent_ok(vold, j));
                                assert(false);
                            }
                            if vold.chain[f as int] == s {
                                assert(vold.live.contains(f as int));
                                assert(chain_ok(vold, f as int));
                                assert(vold.chain[f as int].contains(f as int));
                                assert(s.contains(f as int));
                                assert(vold.parent[f as int] == vold.parent[c]);
                                assert(vold.parent[c] == Some(j));
                                assert(s.contains(j));
                                assert(vold.parent[j] == Some(j));
                                assert(parent_ok(vold, j));
                                assert(false);
                            }
                            assert(self.sib@[f as int] == old(self).sib@[f as int]);
                            assert(self.pos@[f as int] == old(self).pos@[f as int]);
                            if Some(f as int) == nxi {
                                assert(k0 < s.len() - 1);
                                assert(s[k0 + 1] == f as int);
                                assert(s.contains(s[k0 + 1]));
                                assert(false);
                            }
                            if Some(f as int) == pvi {
                                assert(k0 > 0);
                                assert(s[k0 - 1] == f as int);
                                assert(s.contains(s[k0 - 1]));
                                assert(false);
                            }
                            if Some(f as int) == pri {
                                assert(s.contains(j));
                                assert(vold.parent[j] == vold.parent[c]);
                                assert(vold.parent[j] == Some(f as int));
                                assert(vold.parent[f as int] == Some(j));
                                assert(parent_iter(vold, j, 0nat) == Some(j));
                                assert(parent_iter(vold, j, 0nat + 1) == pstep(vold, j));
                                assert(parent_iter(vold, j, 1) == Some(f as int));
                                assert(parent_iter(vold, j, 1nat + 1) == pstep(vold, f as int));
                                assert(parent_iter(vold, j, 2) == Some(j));
                                assert(false);
                            }
                            assert(self.nodes@[f as int] == old(self).nodes@[f as int]);
                        }
                    }
                } else if Some(j) == pri {
                    // c's old parent: sibling links unchanged, child links possibly updated
                    assert(!s.contains(j));
                    assert(vold.chain[j] != s) by {
                        if vold.chain[j] == s {
                            assert(chain_ok(vold, j));
                            assert(vold.chain[j].contains(j));
                        }
                    }
                    assert(self.sib@[j] == old(self).sib@[j]);
                    assert(self.pos@[j] == old(self).pos@[j]);
                    assert(self.nodes@[j].previous_sibling@ == old(self).nodes@[j].previous_sibling@);
                    assert(self.nodes@[j].next_sibling@ == old(self).nodes@[j].next_sibling@);
                    assert(vold.kids[j] == s);
                    // new first and last child
                    if k0 == 0 && s.len() == 1 {
                        assert(self.nodes@[j].first_child@ is None);
                        assert(self.nodes@[j].last_child@ is None);
                    } else if k0 == 0 {
                        assert(oi(self.nodes@[j].first_child@) == Some(s[1]));
                        assert(self.sib@[s[1]] == s1);
                        assert(self.pos@[s[1]] == 0);
                        assert(oi(self.nodes@[s[1]].parent@) == Some(j)) by {
                            assert(old(self).node_corr(s[1]));
                            assert(vold.parent[s[1]] == Some(j));
                            if s[1] == c { assert(false); }
                        }
                        if k0 == s.len() - 1 {
                        } else {
                            assert(oi(self.nodes@[j].last_child@) == oi(old(self).nodes@[j].last_child@));
                            assert(oi(old(self).nodes@[j].last_child@) == Some(s.last())) by {
                                assert(old(self).node_corr(j));
                            }
                            assert(s1.last() == s.last());
                        }
                    } else {
                        assert(oi(self.nodes@[j].first_child@) == oi(old(self).nodes@[j].first_child@));
                        assert(old(self).node_corr(j));
                        assert(oi(old(self).nodes@[j].first_child@) == Some(s[0])) by {
                            match old(self).nodes@[j].first_child@ {
                                None => { assert(vold.kids[j] =~= Seq::<int>::empty()); assert(false); }
                                Some(f) => {
                                    assert(old(self).node_corr(f as int));
                                    assert(old(self).sib@[f as int] == vold.kids[j]);
                                    assert(old(self).pos@[f as int] == 0);
                                    assert(s[0] == f as int);
                                }
                            }
                        }
                        assert(self.sib@[s[0]] == s1);
                        assert(self.pos@[s[0]] == 0);
                        assert(oi(self.nodes@[s[0]].parent@) == Some(j)) by {
                            assert(vold.parent[s[0]] == Some(j));
                            if s[0] == c { assert(false); }
                        }
                        if k0 == s.len() - 1 {
                            assert(oi(self.nodes@[j].last_child@) == Some(s[k0 - 1]));
                            assert(s1.last() == s[k0 - 1]);
                        } else {
                            assert(oi(self.nodes@[j].last_child@) == Some(s.last()));
                            assert(s1.last() == s.last());
                        }
                    }
                } else {
                    // untouched node
                    assert(self.nodes@[j] == old(self).nodes@[j]) by {
                        if Some(j) == nxi || Some(j) == pvi {
                            assert(s.contains(j));
                            assert(vold.chain[j] == s);
                            assert(false);
                        }
                    }
                    assert(self.sib@[j] == old(self).sib@[j]);
                    assert(self.pos@[j] == old(self).pos@[j]);
                    match old(self).nodes@[j].first_child@ {
                        None => {}
                        Some(f) => {
                            assert(oi(old(self).nodes@[f as int].parent@) == Some(j));
                            assert(vold.parent[f as int] == Some(j));
                            if f as int == c {
                                assert(vold.parent[c] == Some(j));
                                assert(false);
                            }
                            if vold.chain[f as int] == s {
                                assert(vold.live.contains(f as int));
                                assert(chain_ok(vold, f as int));
                                assert(vold.chain[f as int].contains(f as int));
                                assert(s.contains(f as int));
                                assert(vold.parent[f as int] == vold.parent[c]);
                                assert(parent_ok(vold, f as int));
                                assert(false);
                            }
                            assert(self.sib@[f as int] == old(self).sib@[f as int]);
                            assert(self.pos@[f as int] == old(self).pos@[f as int]);
                            if Some(f as int) == nxi {
                                assert(k0 < s.len() - 1);
                                assert(s[k0 + 1] == f as int);
                                assert(s.contains(s[k0 + 1]));
                                assert(false);
                            }
                            if Some(f as int) == pvi {
                                assert(k0 > 0);
                                assert(s[k0 - 1] == f as int);
                                assert(s.contains(s[k0 - 1]));
                                assert(false);
                            }
                            if Some(f as int) == pri {
                                assert(vold.parent[c] == Some(f as int));
                                assert(vold.parent[f as int] == Some(j));
                                assert(vold.kids[f as int] == vold.chain[c]);
                                assert(kids_ok(vold, j));
                                // f is c's parent: only its first/last child
                                // cells may have changed, and f is not in s
                                assert(!s.contains(f as int)) by {
                                    if s.contains(f as int) {
                                        assert(vold.parent[f as int] == vold.parent[c]);
                                        assert(vold.parent[c] == Some(f as int));
                                        assert(vold.parent[f as int] == Some(f as int));
                                        assert(parent_ok(vold, f as int));
                                        assert(false);
                                    }
                                }
                                // only the first/last child links of f change, and
                                // only when c had no next/prev sibling
                                assert(self.nodes@[f as int].parent@ == old(self).nodes@[f as int].parent@);
                                // f's own chain and position are unchanged
                                assert(vold.chain[f as int] != s);
                            }
                            assert(self.nodes@[f as int].parent@ == old(self).nodes@[f as int].parent@);
                        }
                    }
                    // j's own links are unchanged; f's parent and position data too
                }
            }

            lemma_detach_model_inv(vold, c);
            assert(inv(self@));
        }
    }

    /// Attach a detached node `c` as the last (`at_end`) or first child of
    /// `p`.
    #[verifier::rlimit(50)]
    fn attach_child(&mut self, p: usize, c: usize, at_end: bool)
        requires
            old(self).wf(),
            old(self)@.live.contains(p as int),
            old(self)@.live.contains(c as int),
            old(self)@.parent[c as int] is None,
            old(self)@.chain[c as int] == seq![c as int],
            !reaches(old(self)@, p as int, c as int),
        ensures
            final(self).wf(),
            final(self)@ == attach_child_model(old(self)@, p as int, c as int,
                if at_end { old(self)@.kids[p as int].len() as int } else { 0 }),
    {
        let ghost vold = old(self)@;
        let ghost pi = p as int;
        let ghost ci = c as int;
        let ghost t = vold.kids[pi];
        let ghost j: int = if at_end { t.len() as int } else { 0 };
        let ghost t2 = t.insert(j, ci);
        proof {
            assert(old(self).node_corr(pi));
            assert(old(self).node_corr(ci));
            assert(kids_ok(vold, pi));
            assert(chain_ok(vold, ci));
            assert(pi != ci) by {
                assert(parent_iter(vold, pi, 0nat) == Some(pi));
            }
            assert(old(self).sib@[ci] == seq![ci]);
            assert(old(self).pos@[ci] == 0);
            assert(old(self).nodes@[ci].previous_sibling@ is None);
            assert(old(self).nodes@[ci].next_sibling@ is None);
            assert(old(self).nodes@[ci].parent@ is None);
            lemma_detached_facts(vold, ci);
            assert(!t.contains(ci));
            assert(t.no_duplicates()) by {
                if t.len() > 0 {
                    assert(vold.live.contains(t[0]) && vold.chain[t[0]] == t);
                    assert(chain_ok(vold, t[0]));
                }
            }
            t.insert_ensures(j, ci);
            lemma_insert_nodup(t, j, ci);
            assert forall |i: int| 0 <= i < t.len() implies
                vold.live.contains(#[trigger] t[i]) && vold.parent[t[i]] == Some(pi)
                && vold.chain[t[i]] == t && old(self).node_corr(t[i])
                && old(self).pos@[t[i]] == i
            by {
                assert(old(self).node_corr(t[i]));
                assert(old(self).sib@[t[i]] == t);
                let q = old(self).pos@[t[i]];
                assert(t[q] == t[i]);
            }
            // p is not a member of t
            if t.contains(pi) {
                assert(vold.parent[pi] == Some(pi));
                assert(parent_ok(vold, pi));
                assert(false);
            }
            // p's first and last child realize t
            assert(oi(old(self).nodes@[pi].first_child@) == (
                if t.len() == 0 { None::<int> } else { Some(t[0]) }
            )) by {
                match old(self).nodes@[pi].first_child@ {
                    None => { assert(vold.kids[pi] =~= Seq::<int>::empty()); }
                    Some(f) => {
                        assert(old(self).node_corr(f as int));
                        assert(old(self).sib@[f as int][old(self).pos@[f as int]] == f as int);
                    }
                }
            }
            assert(oi(old(self).nodes@[pi].last_child@) == (
                if t.len() == 0 { None::<int> } else { Some(t.last()) }
            ));
        }
        proof {
            assert(self.is_live(ci));
        }
        self.nodes[c].parent.set(Some(p));
        if at_end {
            let last_opt = self.nodes[p].last_child.replace(Some(c));
            match last_opt {
                Some(l) => {
                    proof {
                        assert(t.len() > 0 && l as int == t.last());
                        assert(vold.live.contains(l as int));
                        assert(self.is_live(l as int));
                    }
                    self.nodes[l].next_sibling.set(Some(c));
                    self.nodes[c].previous_sibling.set(Some(l));
                }
                None => {
                    self.nodes[p].first_child.set(Some(c));
                }
            }
        } else {
            let first_opt = self.nodes[p].first_child.replace(Some(c));
            match first_opt {
                Some(f) => {
                    proof {
                        assert(t.len() > 0 && f as int == t[0]);
                        assert(vold.live.contains(f as int));
                        assert(self.is_live(f as int));
                    }
                    self.nodes[f].previous_sibling.set(Some(c));
                    self.nodes[c].next_sibling.set(Some(f));
                }
                None => {
                    self.nodes[p].last_child.set(Some(c));
                }
            }
        }
        proof {
            let pold = old(self).pos@;
            self.sib@ = Map::new(
                |i: int| vold.live.contains(i),
                |i: int| if i == ci || (t.len() > 0 && vold.chain[i] == t) {
                    t2
                } else {
                    vold.chain[i]
                },
            );
            self.pos@ = Map::new(
                |i: int| vold.live.contains(i),
                |i: int| if i == ci {
                    j
                } else if t.len() > 0 && vold.chain[i] == t {
                    if pold[i] < j { pold[i] } else { pold[i] + 1 }
                } else {
                    pold[i]
                },
            );

            let w = attach_child_model(vold, pi, ci, j);

            assert forall |m: int| #[trigger] self.is_live(m) <==> old(self).is_live(m) by {}
            assert(self@.live =~= w.live);

            // only c, p, and the old boundary child were touched
            assert forall |m: int| 0 <= m < self.nodes@.len()
                && m != ci && m != pi
                && !(t.len() > 0 && at_end && m == t.last())
                && !(t.len() > 0 && !at_end && m == t[0])
                implies self.nodes@[m] == old(self).nodes@[m] by {}

            assert forall |m: int| self.is_live(m) implies
                #[trigger] self@.parent[m] == w.parent[m] by {
                if m != ci {
                    assert(self.nodes@[m].parent@ == old(self).nodes@[m].parent@);
                }
            }
            assert(self@.parent =~= w.parent);
            assert(self@.chain =~= w.chain);

            assert forall |m: int| self.is_live(m) implies
                #[trigger] self@.kids[m] == w.kids[m] by {
                if m == pi {
                    if at_end {
                        if t.len() == 0 {
                            assert(oi(self.nodes@[pi].first_child@) == Some(ci));
                            assert(self.sib@[ci] == t2);
                        } else {
                            assert(self.nodes@[pi].first_child@ == old(self).nodes@[pi].first_child@);
                            assert(oi(self.nodes@[pi].first_child@) == Some(t[0]));
                            assert(t[0] != ci);
                            assert(vold.chain[t[0]] == t);
                            assert(self.sib@[t[0]] == t2);
                        }
                    } else {
                        assert(oi(self.nodes@[pi].first_child@) == Some(ci));
                        assert(self.sib@[ci] == t2);
                    }
                    assert(self@.kids[m] == t2);
                } else {
                    assert(self.nodes@[m].first_child@ == old(self).nodes@[m].first_child@);
                    match old(self).nodes@[m].first_child@ {
                        None => {}
                        Some(f) => {
                            assert(old(self).node_corr(m));
                            assert(oi(old(self).nodes@[f as int].parent@) == Some(m));
                            assert(vold.parent[f as int] == Some(m));
                            assert(f as int != ci);
                            if t.len() > 0 && vold.chain[f as int] == t {
                                assert(vold.live.contains(f as int));
                                assert(chain_ok(vold, f as int));
                                assert(t.contains(f as int));
                                assert(vold.parent[f as int] == Some(pi));
                                assert(false);
                            }
                            assert(self.sib@[f as int] == old(self).sib@[f as int]);
                        }
                    }
                }
            }
            assert(self@.kids =~= w.kids);

            assert forall |m: int| self.is_live(m) implies
                #[trigger] self@.data[m] == w.data[m] by {
                assert(self.nodes@[m].data == old(self).nodes@[m].data);
            }
            assert(self@.data =~= w.data);
            assert(self@ =~= w);

            // exec links still realize the view
            assert forall |m: int| self.is_live(m) implies #[trigger] self.node_corr(m) by {
                assert(old(self).node_corr(m));
                if m == ci {
                    assert(self.sib@[ci] == t2);
                    assert(self.pos@[ci] == j);
                    assert(t2[j] == ci);
                    if at_end {
                        if t.len() == 0 {
                            assert(self.nodes@[ci].previous_sibling@ is None);
                        } else {
                            assert(oi(self.nodes@[ci].previous_sibling@) == Some(t.last()));
                            assert(t2[j - 1] == t[j - 1]);
                        }
                        assert(self.nodes@[ci].next_sibling@ is None);
                        assert(j == t2.len() - 1);
                    } else {
                        assert(self.nodes@[ci].previous_sibling@ is None);
                        if t.len() == 0 {
                            assert(self.nodes@[ci].next_sibling@ is None);
                            assert(j == t2.len() - 1);
                        } else {
                            assert(oi(self.nodes@[ci].next_sibling@) == Some(t[0]));
                            assert(t2[1] == t[0]);
                        }
                    }
                    // children of c untouched
                    assert(self.nodes@[ci].first_child@ == old(self).nodes@[ci].first_child@);
                    assert(self.nodes@[ci].last_child@ == old(self).nodes@[ci].last_child@);
                    match old(self).nodes@[ci].first_child@ {
                        None => {}
                        Some(f) => {
                            assert(oi(old(self).nodes@[f as int].parent@) == Some(ci));
                            assert(vold.parent[f as int] == Some(ci));
                            assert(f as int != ci);
                            if t.len() > 0 && vold.chain[f as int] == t {
                                assert(vold.live.contains(f as int));
                                assert(chain_ok(vold, f as int));
                                assert(t.contains(f as int));
                                assert(false);
                            }
                            assert(f as int != pi) by {
                                if f as int == pi {
                                    assert(parent_iter(vold, ci, 0nat) == Some(ci));
                                    assert(parent_iter(vold, ci, 0nat + 1) == pstep(vold, ci));
                                    assert(parent_iter(vold, pi, 0nat) == Some(pi));
                                    assert(parent_iter(vold, pi, 0nat + 1) == pstep(vold, pi));
                                    assert(parent_iter(vold, pi, 1) == Some(ci));
                                    assert(reaches(vold, pi, ci));
                                }
                            }
                            assert(self.nodes@[f as int] == old(self).nodes@[f as int]);
                            assert(self.sib@[f as int] == old(self).sib@[f as int]);
                            assert(self.pos@[f as int] == old(self).pos@[f as int]);
                        }
                    }
                } else if t.len() > 0 && vold.chain[m] == t {
                    assert(chain_ok(vold, m));
                    assert(t.contains(m));
                    let q = pold[m];
                    assert(t[q] == m);
                    let q2 = self.pos@[m];
                    assert(q2 == (if q < j { q } else { q + 1 }));
                    assert(self.sib@[m] == t2);
                    assert(t2[q2] == m);
                    if at_end {
                        assert(q2 == q);
                        // only the old last child's next link changed
                        if m == t.last() {
                            assert(oi(self.nodes@[m].next_sibling@) == Some(ci));
                            assert(t2[q + 1] == ci);
                            assert(self.nodes@[m].previous_sibling@ == old(self).nodes@[m].previous_sibling@);
                        } else {
                            assert(self.nodes@[m] == old(self).nodes@[m]);
                        }
                        if q > 0 {
                            assert(t2[q - 1] == t[q - 1]);
                        }
                        if q < t.len() - 1 {
                            assert(t2[q + 1] == t[q + 1]);
                        }
                    } else {
                        assert(q2 == q + 1);
                        if m == t[0] {
                            assert(oi(self.nodes@[m].previous_sibling@) == Some(ci));
                            assert(t2[0] == ci);
                            assert(self.nodes@[m].next_sibling@ == old(self).nodes@[m].next_sibling@);
                        } else {
                            assert(self.nodes@[m] == old(self).nodes@[m]);
                            assert(t2[q2 - 1] == t[q - 1]);
                        }
                        if q < t.len() - 1 {
                            assert(t2[q2 + 1] == t[q + 1]);
                        } else {
                            assert(q2 == t2.len() - 1);
                        }
                    }
                    // children of m untouched
                    assert(self.nodes@[m].first_child@ == old(self).nodes@[m].first_child@);
                    assert(self.nodes@[m].last_child@ == old(self).nodes@[m].last_child@);
                    match old(self).nodes@[m].first_child@ {
                        None => {}
                        Some(f) => {
                            assert(oi(old(self).nodes@[f as int].parent@) == Some(m));
                            assert(vold.parent[f as int] == Some(m));
                            assert(f as int != ci);
                            if t.len() > 0 && vold.chain[f as int] == t {
                                assert(vold.live.contains(f as int));
                                assert(chain_ok(vold, f as int));
                                assert(t.contains(f as int));
                                assert(vold.parent[f as int] == Some(pi));
                                assert(m == pi);
                                assert(t.contains(pi));
                                assert(false);
                            }
                            assert(f as int != pi) by {
                                if f as int == pi {
                                    assert(vold.parent[pi] == Some(m));
                                    assert(vold.parent[m] == Some(pi));
                                    assert(parent_iter(vold, m, 0nat) == Some(m));
                                    assert(parent_iter(vold, m, 0nat + 1) == pstep(vold, m));
                                    assert(parent_iter(vold, m, 1) == Some(pi));
                                    assert(parent_iter(vold, m, 1nat + 1) == pstep(vold, pi));
                                    assert(parent_iter(vold, m, 2) == Some(m));
                                    assert(false);
                                }
                            }
                            assert(self.nodes@[f as int] == old(self).nodes@[f as int]);
                            assert(self.sib@[f as int] == old(self).sib@[f as int]);
                            assert(self.pos@[f as int] == old(self).pos@[f as int]);
                        }
                    }
                } else if m == pi {
                    assert(vold.chain[pi] != t) by {
                        if vold.chain[pi] == t {
                            assert(chain_ok(vold, pi));
                            assert(vold.chain[pi].contains(pi));
                            assert(t.contains(pi));
                        }
                    }
                    assert(self.sib@[pi] == old(self).sib@[pi]);
                    assert(self.pos@[pi] == old(self).pos@[pi]);
                    assert(self.nodes@[pi].previous_sibling@ == old(self).nodes@[pi].previous_sibling@);
                    assert(self.nodes@[pi].next_sibling@ == old(self).nodes@[pi].next_sibling@);
                    assert(self.nodes@[pi].parent@ == old(self).nodes@[pi].parent@);
                    // new first and last child of p
                    if at_end {
                        if t.len() == 0 {
                            assert(oi(self.nodes@[pi].first_child@) == Some(ci));
                            assert(oi(self.nodes@[pi].last_child@) == Some(ci));
                            assert(self.sib@[ci] == t2);
                            assert(self.pos@[ci] == 0);
                            assert(oi(self.nodes@[ci].parent@) == Some(pi));
                            assert(t2.last() == ci);
                        } else {
                            assert(oi(self.nodes@[pi].first_child@) == Some(t[0]));
                            assert(oi(self.nodes@[pi].last_child@) == Some(ci));
                            assert(t[0] != ci);
                            assert(self.sib@[t[0]] == t2);
                            assert(self.pos@[t[0]] == 0);
                            assert(oi(self.nodes@[t[0]].parent@) == Some(pi)) by {
                                if t[0] == t.last() {
                                    assert(self.nodes@[t[0]].parent@ == old(self).nodes@[t[0]].parent@);
                                } else {
                                    assert(self.nodes@[t[0]] == old(self).nodes@[t[0]]);
                                }
                            }
                            assert(t2.last() == ci);
                        }
                    } else {
                        assert(oi(self.nodes@[pi].first_child@) == Some(ci));
                        assert(self.sib@[ci] == t2);
                        assert(self.pos@[ci] == 0);
                        assert(oi(self.nodes@[ci].parent@) == Some(pi));
                        if t.len() == 0 {
                            assert(oi(self.nodes@[pi].last_child@) == Some(ci));
                            assert(t2.last() == ci);
                        } else {
                            assert(oi(self.nodes@[pi].last_child@) == Some(t.last()));
                            assert(t2.last() == t.last());
                        }
                    }
                } else {
                    // untouched node
                    assert(self.nodes@[m] == old(self).nodes@[m]) by {
                        if t.len() > 0 && at_end && m == t.last() {
                            assert(chain_ok(vold, t.last()));
                            assert(t.contains(t.last()));
                            assert(vold.chain[m] == t);
                        }
                        if t.len() > 0 && !at_end && m == t[0] {
                            assert(t.contains(t[0]));
                            assert(vold.chain[m] == t);
                        }
                    }
                    assert(self.sib@[m] == old(self).sib@[m]);
                    assert(self.pos@[m] == old(self).pos@[m]);
                    match old(self).nodes@[m].first_child@ {
                        None => {}
                        Some(f) => {
                            assert(oi(old(self).nodes@[f as int].parent@) == Some(m));
                            assert(vold.parent[f as int] == Some(m));
                            assert(f as int != ci);
                            if t.len() > 0 && vold.chain[f as int] == t {
                                assert(vold.live.contains(f as int));
                                assert(chain_ok(vold, f as int));
                                assert(t.contains(f as int));
                                assert(vold.parent[f as int] == Some(pi));
                                assert(m == pi);
                                assert(false);
                            }
                            assert(self.sib@[f as int] == old(self).sib@[f as int]);
                            assert(self.pos@[f as int] == old(self).pos@[f as int]);
                            if f as int == pi {
                                // only p's first/last child links changed;
                                // f's parent link is intact
                                assert(self.nodes@[pi].parent@ == old(self).nodes@[pi].parent@);
                            } else {
                                assert(self.nodes@[f as int] == old(self).nodes@[f as int]);
                            }
                        }
                    }
                }
            }

            lemma_attach_child_model_inv(vold, pi, ci, j);
            assert(inv(self@));
        }
    }

    /// Attach a detached node `c` as the sibling right after (`after`) or
    /// right before `n`.  `n` may be a root: inserting next to a root is a
    /// plain sibling-list operation.
    #[verifier::rlimit(100)]
    #[verifier::spinoff_prover]
    fn attach_sibling(&mut self, n: usize, c: usize, after: bool)
        requires
            old(self).wf(),
            old(self)@.live.contains(n as int),
            old(self)@.live.contains(c as int),
            old(self)@.parent[c as int] is None,
            old(self)@.chain[c as int] == seq![c as int],
            !reaches(old(self)@, n as int, c as int),
        ensures
            final(self).wf(),
            final(self)@ == attach_sibling_model(old(self)@, n as int, c as int,
                chain_pos(old(self)@, n as int) + (if after { 1int } else { 0int })),
    {
        let ghost vold = old(self)@;
        let ghost ni = n as int;
        let ghost ci = c as int;
        let ghost s = vold.chain[ni];
        let ghost k0 = old(self).pos@[ni];
        let ghost j: int = if after { k0 + 1 } else { k0 };
        let ghost s2 = s.insert(j, ci);
        proof {
            assert(old(self).node_corr(ni));
            assert(old(self).node_corr(ci));
            assert(chain_ok(vold, ni));
            assert(chain_ok(vold, ci));
            assert(ni != ci) by {
                assert(parent_iter(vold, ni, 0nat) == Some(ni));
            }
            assert(old(self).sib@[ni] == s);
            assert(s[k0] == ni);
            lemma_chain_pos_unique(vold, ni, k0);
            assert(old(self).sib@[ci] == seq![ci]);
            assert(old(self).pos@[ci] == 0);
            assert(old(self).nodes@[ci].previous_sibling@ is None);
            assert(old(self).nodes@[ci].next_sibling@ is None);
            assert(old(self).nodes@[ci].parent@ is None);
            lemma_detached_facts(vold, ci);
            assert(!s.contains(ci));
            s.insert_ensures(j, ci);
            lemma_insert_nodup(s, j, ci);
            assert forall |i: int| 0 <= i < s.len() implies
                vold.live.contains(#[trigger] s[i]) && vold.parent[s[i]] == vold.parent[ni]
                && vold.chain[s[i]] == s && old(self).node_corr(s[i])
                && old(self).pos@[s[i]] == i
            by {
                assert(old(self).node_corr(s[i]));
                assert(old(self).sib@[s[i]] == s);
                let q = old(self).pos@[s[i]];
                assert(s[q] == s[i]);
            }
            // when n has a parent p, p is live, not in s, with first/last
            // children at the ends of s
            match vold.parent[ni] {
                Some(p) => {
                    assert(parent_ok(vold, ni));
                    assert(vold.kids[p] == s);
                    assert(old(self).node_corr(p));
                    if s.contains(p) {
                        assert(vold.parent[p] == vold.parent[ni]);
                        assert(parent_ok(vold, p));
                        assert(false);
                    }
                    assert(oi(old(self).nodes@[p].first_child@) == Some(s[0])) by {
                        match old(self).nodes@[p].first_child@ {
                            None => { assert(vold.kids[p] =~= Seq::<int>::empty()); assert(false); }
                            Some(f) => {
                                assert(old(self).node_corr(f as int));
                                assert(old(self).sib@[f as int][old(self).pos@[f as int]] == f as int);
                            }
                        }
                    }
                    assert(oi(old(self).nodes@[p].last_child@) == Some(s.last()));
                    assert(p != ci);
                }
                None => {}
            }
        }
        let par_opt = self.nodes[n].parent.clone_inner();
        proof {
            assert(oi(par_opt) == vold.parent[ni]);
            assert(self.is_live(ci));
        }
        self.nodes[c].parent.set(par_opt);
        if after {
            self.nodes[c].previous_sibling.set(Some(n));
            let next_opt = self.nodes[n].next_sibling.replace(Some(c));
            match next_opt {
                Some(nx) => {
                    proof {
                        assert(k0 < s.len() - 1 && nx as int == s[k0 + 1]);
                        assert(vold.live.contains(nx as int));
                        assert(self.is_live(nx as int));
                    }
                    self.nodes[nx].previous_sibling.set(Some(c));
                    self.nodes[c].next_sibling.set(Some(nx));
                }
                None => {
                    match par_opt {
                        Some(p) => {
                            proof {
                                assert(vold.live.contains(p as int));
                                assert(self.is_live(p as int));
                            }
                            self.nodes[p].last_child.set(Some(c));
                        }
                        None => {}
                    }
                }
            }
        } else {
            self.nodes[c].next_sibling.set(Some(n));
            let prev_opt = self.nodes[n].previous_sibling.replace(Some(c));
            match prev_opt {
                Some(pv) => {
                    proof {
                        assert(k0 > 0 && pv as int == s[k0 - 1]);
                        assert(vold.live.contains(pv as int));
                        assert(self.is_live(pv as int));
                    }
                    self.nodes[pv].next_sibling.set(Some(c));
                    self.nodes[c].previous_sibling.set(Some(pv));
                }
                None => {
                    match par_opt {
                        Some(p) => {
                            proof {
                                assert(vold.live.contains(p as int));
                                assert(self.is_live(p as int));
                            }
                            self.nodes[p].first_child.set(Some(c));
                        }
                        None => {}
                    }
                }
            }
        }
        proof {
            let pold = old(self).pos@;
            self.sib@ = Map::new(
                |i: int| vold.live.contains(i),
                |i: int| if i == ci || vold.chain[i] == s {
                    s2
                } else {
                    vold.chain[i]
                },
            );
            self.pos@ = Map::new(
                |i: int| vold.live.contains(i),
                |i: int| if i == ci {
                    j
                } else if vold.chain[i] == s {
                    if pold[i] < j { pold[i] } else { pold[i] + 1 }
                } else {
                    pold[i]
                },
            );

            let w = attach_sibling_model(vold, ni, ci, j);
            let pri = vold.parent[ni];

            assert forall |m: int| #[trigger] self.is_live(m) <==> old(self).is_live(m) by {}
            assert(self@.live =~= w.live);

            // only c, n, n's old boundary sibling, and possibly n's parent
            // were touched
            assert forall |m: int| 0 <= m < self.nodes@.len()
                && m != ci && m != ni && Some(m) != pri
                && !(after && k0 < s.len() - 1 && m == s[k0 + 1])
                && !(!after && k0 > 0 && m == s[k0 - 1])
                implies self.nodes@[m] == old(self).nodes@[m] by {}

            assert forall |m: int| self.is_live(m) implies
                #[trigger] self@.parent[m] == w.parent[m] by {
                if m != ci {
                    assert(self.nodes@[m].parent@ == old(self).nodes@[m].parent@);
                }
            }
            assert(self@.parent =~= w.parent);
            assert(self@.chain =~= w.chain);

            assert forall |m: int| self.is_live(m) implies
                #[trigger] self@.kids[m] == w.kids[m] by {
                if Some(m) == pri {
                    // n's parent: its first child is s[0] or c
                    if !after && k0 == 0 {
                        assert(oi(self.nodes@[m].first_child@) == Some(ci));
                        assert(self.sib@[ci] == s2);
                    } else {
                        assert(self.nodes@[m].first_child@ == old(self).nodes@[m].first_child@);
                        assert(oi(self.nodes@[m].first_child@) == Some(s[0]));
                        assert(s[0] != ci);
                        assert(vold.chain[s[0]] == s);
                        assert(self.sib@[s[0]] == s2);
                    }
                    assert(self@.kids[m] == s2);
                } else {
                    assert(self.nodes@[m].first_child@ == old(self).nodes@[m].first_child@);
                    match old(self).nodes@[m].first_child@ {
                        None => {}
                        Some(f) => {
                            assert(old(self).node_corr(m));
                            assert(oi(old(self).nodes@[f as int].parent@) == Some(m));
                            assert(vold.parent[f as int] == Some(m));
                            assert(f as int != ci);
                            if vold.chain[f as int] == s {
                                assert(vold.live.contains(f as int));
                                assert(chain_ok(vold, f as int));
                                assert(s.contains(f as int));
                                assert(vold.parent[f as int] == vold.parent[ni]);
                                assert(Some(m) == pri);
                                assert(false);
                            }
                            assert(self.sib@[f as int] == old(self).sib@[f as int]);
                        }
                    }
                }
            }
            assert(self@.kids =~= w.kids);

            assert forall |m: int| self.is_live(m) implies
                #[trigger] self@.data[m] == w.data[m] by {
                assert(self.nodes@[m].data == old(self).nodes@[m].data);
            }
            assert(self@.data =~= w.data);
            assert(self@ =~= w);

            // exec links still realize the view
            assert forall |m: int| self.is_live(m) implies #[trigger] self.node_corr(m) by {
                assert(old(self).node_corr(m));
                if m == ci {
                    assert(self.sib@[ci] == s2);
                    assert(self.pos@[ci] == j);
                    assert(s2[j] == ci);
                    if after {
                        assert(oi(self.nodes@[ci].previous_sibling@) == Some(ni));
                        assert(s2[j - 1] == s[k0]);
                        if k0 < s.len() - 1 {
                            assert(oi(self.nodes@[ci].next_sibling@) == Some(s[k0 + 1]));
                            assert(s2[j + 1] == s[k0 + 1]);
                        } else {
                            assert(self.nodes@[ci].next_sibling@ is None);
                            assert(j == s2.len() - 1);
                        }
                    } else {
                        assert(oi(self.nodes@[ci].next_sibling@) == Some(ni));
                        assert(s2[j + 1] == s[k0]);
                        if k0 > 0 {
                            assert(oi(self.nodes@[ci].previous_sibling@) == Some(s[k0 - 1]));
                            assert(s2[j - 1] == s[k0 - 1]);
                        } else {
                            assert(self.nodes@[ci].previous_sibling@ is None);
                            assert(j == 0);
                        }
                    }
                    // children of c untouched
                    assert(self.nodes@[ci].first_child@ == old(self).nodes@[ci].first_child@);
                    assert(self.nodes@[ci].last_child@ == old(self).nodes@[ci].last_child@);
                    match old(self).nodes@[ci].first_child@ {
                        None => {}
                        Some(f) => {
                            assert(oi(old(self).nodes@[f as int].parent@) == Some(ci));
                            assert(vold.parent[f as int] == Some(ci));
                            assert(f as int != ci);
                            if vold.chain[f as int] == s {
                                assert(vold.live.contains(f as int));
                                assert(chain_ok(vold, f as int));
                                assert(s.contains(f as int));
                                assert(vold.parent[f as int] == vold.parent[ni]);
                                // then c reaches itself through n's parent:
                                // impossible since c has no parent; in fact
                                // parent[f] == Some(c) and parent[f] == parent[n],
                                // so parent[n] == Some(c), giving reaches(n, c)
                                assert(vold.parent[ni] == Some(ci));
                                assert(parent_iter(vold, ni, 0nat) == Some(ni));
                                assert(parent_iter(vold, ni, 0nat + 1) == pstep(vold, ni));
                                assert(parent_iter(vold, ni, 1) == Some(ci));
                                assert(reaches(vold, ni, ci));
                                assert(false);
                            }
                            if Some(f as int) == pri {
                                assert(vold.parent[ni] == Some(f as int));
                                assert(vold.parent[f as int] == Some(ci));
                                assert(parent_iter(vold, ni, 0nat) == Some(ni));
                                assert(parent_iter(vold, ni, 0nat + 1) == pstep(vold, ni));
                                assert(parent_iter(vold, ni, 1) == Some(f as int));
                                assert(parent_iter(vold, ni, 1nat + 1) == pstep(vold, f as int));
                                assert(parent_iter(vold, ni, 2) == Some(ci));
                                assert(reaches(vold, ni, ci));
                                assert(false);
                            }
                            assert(f as int != ni);
                            assert(self.nodes@[f as int] == old(self).nodes@[f as int]);
                            assert(self.sib@[f as int] == old(self).sib@[f as int]);
                            assert(self.pos@[f as int] == old(self).pos@[f as int]);
                        }
                    }
                } else if vold.chain[m] == s {
                    assert(chain_ok(vold, m));
                    assert(s.contains(m));
                    let q = pold[m];
                    assert(s[q] == m);
                    let q2 = self.pos@[m];
                    assert(q2 == (if q < j { q } else { q + 1 }));
                    assert(self.sib@[m] == s2);
                    assert(s2[q2] == m);
                    // previous link
                    if after {
                        if m == ni {
                            assert(q == k0 && q2 == k0);
                            assert(self.nodes@[m].previous_sibling@ == old(self).nodes@[m].previous_sibling@);
                            if q2 > 0 {
                                assert(s2[q2 - 1] == s[q - 1]);
                            }
                            assert(oi(self.nodes@[m].next_sibling@) == Some(ci));
                            assert(s2[q2 + 1] == ci);
                        } else if k0 < s.len() - 1 && m == s[k0 + 1] {
                            assert(q == k0 + 1 && q2 == k0 + 2);
                            assert(oi(self.nodes@[m].previous_sibling@) == Some(ci));
                            assert(s2[q2 - 1] == ci);
                            assert(self.nodes@[m].next_sibling@ == old(self).nodes@[m].next_sibling@);
                            if q < s.len() - 1 {
                                assert(s2[q2 + 1] == s[q + 1]);
                            } else {
                                assert(q2 == s2.len() - 1);
                            }
                        } else {
                            assert(self.nodes@[m] == old(self).nodes@[m]);
                            if q < j {
                                assert(q < k0);
                                if q > 0 { assert(s2[q2 - 1] == s[q - 1]); }
                                assert(s2[q2 + 1] == s[q + 1]);
                            } else {
                                assert(q > k0 + 1);
                                assert(s2[q2 - 1] == s[q - 1]);
                                if q < s.len() - 1 {
                                    assert(s2[q2 + 1] == s[q + 1]);
                                } else {
                                    assert(q2 == s2.len() - 1);
                                }
                            }
                        }
                    } else {
                        if m == ni {
                            assert(q == k0 && q2 == k0 + 1);
                            assert(oi(self.nodes@[m].previous_sibling@) == Some(ci));
                            assert(s2[q2 - 1] == ci);
                            assert(self.nodes@[m].next_sibling@ == old(self).nodes@[m].next_sibling@);
                            if q < s.len() - 1 {
                                assert(s2[q2 + 1] == s[q + 1]);
                            } else {
                                assert(q2 == s2.len() - 1);
                            }
                        } else if k0 > 0 && m == s[k0 - 1] {
                            assert(q == k0 - 1 && q2 == k0 - 1);
                            assert(self.nodes@[m].previous_sibling@ == old(self).nodes@[m].previous_sibling@);
                            if q > 0 { assert(s2[q2 - 1] == s[q - 1]); }
                            assert(oi(self.nodes@[m].next_sibling@) == Some(ci));
                            assert(s2[q2 + 1] == ci);
                        } else {
                            assert(self.nodes@[m] == old(self).nodes@[m]);
                            if q < j {
                                assert(q < k0 - 1);
                                if q > 0 { assert(s2[q2 - 1] == s[q - 1]); }
                                assert(s2[q2 + 1] == s[q + 1]);
                            } else {
                                assert(q > k0);
                                assert(s2[q2 - 1] == s[q - 1]);
                                if q < s.len() - 1 {
                                    assert(s2[q2 + 1] == s[q + 1]);
                                } else {
                                    assert(q2 == s2.len() - 1);
                                }
                            }
                        }
                    }
                    // children of m untouched
                    assert(self.nodes@[m].first_child@ == old(self).nodes@[m].first_child@);
                    assert(self.nodes@[m].last_child@ == old(self).nodes@[m].last_child@);
                    match old(self).nodes@[m].first_child@ {
                        None => {}
                        Some(f) => {
                            assert(oi(old(self).nodes@[f as int].parent@) == Some(m));
                            assert(vold.parent[f as int] == Some(m));
                            assert(f as int != ci);
                            if vold.chain[f as int] == s {
                                assert(vold.live.contains(f as int));
                                assert(chain_ok(vold, f as int));
                                assert(s.contains(f as int));
                                assert(vold.parent[f as int] == vold.parent[ni]);
                                assert(vold.parent[m] == vold.parent[ni]);
                                assert(vold.parent[m] == Some(m)) by {
                                    assert(vold.parent[f as int] == Some(m));
                                }
                                assert(parent_ok(vold, m));
                                assert(false);
                            }
                            if Some(f as int) == pri {
                                assert(vold.parent[m] == vold.parent[ni]);
                                assert(vold.parent[m] == Some(f as int));
                                assert(vold.parent[f as int] == Some(m));
                                assert(parent_iter(vold, m, 0nat) == Some(m));
                                assert(parent_iter(vold, m, 0nat + 1) == pstep(vold, m));
                                assert(parent_iter(vold, m, 1) == Some(f as int));
                                assert(parent_iter(vold, m, 1nat + 1) == pstep(vold, f as int));
                                assert(parent_iter(vold, m, 2) == Some(m));
                                assert(false);
                            }
                            assert(self.nodes@[f as int] == old(self).nodes@[f as int]);
                            assert(self.sib@[f as int] == old(self).sib@[f as int]);
                            assert(self.pos@[f as int] == old(self).pos@[f as int]);
                        }
                    }
                } else if Some(m) == pri {
                    assert(!s.contains(m));
                    assert(vold.chain[m] != s) by {
                        if vold.chain[m] == s {
                            assert(chain_ok(vold, m));
                            assert(vold.chain[m].contains(m));
                        }
                    }
                    assert(self.sib@[m] == old(self).sib@[m]);
                    assert(self.pos@[m] == old(self).pos@[m]);
                    assert(self.nodes@[m].previous_sibling@ == old(self).nodes@[m].previous_sibling@);
                    assert(self.nodes@[m].next_sibling@ == old(self).nodes@[m].next_sibling@);
                    assert(self.nodes@[m].parent@ == old(self).nodes@[m].parent@);
                    assert(vold.kids[m] == s);
                    // new first and last child of the parent
                    if !after && k0 == 0 {
                        assert(oi(self.nodes@[m].first_child@) == Some(ci));
                        assert(self.sib@[ci] == s2);
                        assert(self.pos@[ci] == 0);
                        assert(oi(self.nodes@[ci].parent@) == Some(m));
                        assert(oi(self.nodes@[m].last_child@) == Some(s.last()));
                        assert(s2.last() == s.last());
                        assert(s.last() != ci);
                        assert(self.sib@[s.last()] == s2) by {
                            assert(s.contains(s.last()));
                            assert(vold.chain[s.last()] == s);
                        }
                    } else {
                        assert(oi(self.nodes@[m].first_child@) == Some(s[0]));
                        assert(s[0] != ci);
                        assert(self.sib@[s[0]] == s2);
                        assert(self.pos@[s[0]] == 0);
                        assert(oi(self.nodes@[s[0]].parent@) == Some(m)) by {
                            assert(self.nodes@[s[0]].parent@ == old(self).nodes@[s[0]].parent@);
                            assert(vold.parent[s[0]] == vold.parent[ni]);
                        }
                        if after && k0 == s.len() - 1 {
                            assert(oi(self.nodes@[m].last_child@) == Some(ci));
                            assert(s2.last() == ci);
                        } else {
                            assert(oi(self.nodes@[m].last_child@) == Some(s.last()));
                            assert(s2.last() == s.last());
                        }
                    }
                } else {
                    // untouched node
                    assert(self.nodes@[m] == old(self).nodes@[m]) by {
                        if after && k0 < s.len() - 1 && m == s[k0 + 1] {
                            assert(s.contains(s[k0 + 1]));
                            assert(vold.chain[m] == s);
                        }
                        if !after && k0 > 0 && m == s[k0 - 1] {
                            assert(s.contains(s[k0 - 1]));
                            assert(vold.chain[m] == s);
                        }
                    }
                    assert(self.sib@[m] == old(self).sib@[m]);
                    assert(self.pos@[m] == old(self).pos@[m]);
                    match old(self).nodes@[m].first_child@ {
                        None => {}
                        Some(f) => {
                            assert(oi(old(self).nodes@[f as int].parent@) == Some(m));
                            assert(vold.parent[f as int] == Some(m));
                            assert(f as int != ci);
                            if vold.chain[f as int] == s {
                                assert(vold.live.contains(f as int));
                                assert(chain_ok(vold, f as int));
                                assert(s.contains(f as int));
                                assert(vold.parent[f as int] == vold.parent[ni]);
                                assert(Some(m) == pri);
                                assert(false);
                            }
                            assert(self.sib@[f as int] == old(self).sib@[f as int]);
                            assert(self.pos@[f as int] == old(self).pos@[f as int]);
                            if Some(f as int) == pri {
                                assert(self.nodes@[f as int].parent@ == old(self).nodes@[f as int].parent@);
                            } else {
                                assert(self.nodes@[f as int] == old(self).nodes@[f as int]);
                            }
                        }
                    }
                }
            }

            assert(0 <= j <= s.len());
            assert(chain_pos(vold, ni) == k0);
            lemma_attach_sibling_model_inv(vold, ni, ci, j);
            assert(inv(self@));
        }
    }

    /// Append a new child to this node, after existing children.
    ///
    /// The new child is detached from its previous position first.  The
    /// child must not be the parent itself or one of its ancestors.
    pub fn append(&mut self, parent: NodeRef, new_child: NodeRef)
        requires
            old(self).wf(),
            old(self)@.live.contains(parent.id as int),
            old(self)@.live.contains(new_child.id as int),
            !reaches(old(self)@, parent.id as int, new_child.id as int),
        ensures
            final(self).wf(),
            final(self)@ == append_model(old(self)@, parent.id as int, new_child.id as int),
    {
        let ghost vold = old(self)@;
        let ghost pi = parent.id as int;
        let ghost ci = new_child.id as int;
        self.detach(new_child);
        proof {
            lemma_detach_preserves_nonreach(vold, ci, pi, ci);
        }
        self.attach_child(parent.id, new_child.id, true);
    }

    /// Prepend a new child to this node, before existing children.
    ///
    /// The new child is detached from its previous position first.  The
    /// child must not be the parent itself or one of its ancestors.
    pub fn prepend(&mut self, parent: NodeRef, new_child: NodeRef)
        requires
            old(self).wf(),
            old(self)@.live.contains(parent.id as int),
            old(self)@.live.contains(new_child.id as int),
            !reaches(old(self)@, parent.id as int, new_child.id as int),
        ensures
            final(self).wf(),
            final(self)@ == prepend_model(old(self)@, parent.id as int, new_child.id as int),
    {
        let ghost vold = old(self)@;
        let ghost pi = parent.id as int;
        let ghost ci = new_child.id as int;
        self.detach(new_child);
        proof {
            lemma_detach_preserves_nonreach(vold, ci, pi, ci);
        }
        self.attach_child(parent.id, new_child.id, false);
    }

    /// Insert a new sibling after this node.
    ///
    /// The new sibling is detached from its previous position first.  It
    /// must not be this node or one of its ancestors.  This node may be a
    /// root: inserting next to a root is a plain sibling-list operation.
    pub fn insert_after(&mut self, node: NodeRef, new_sibling: NodeRef)
        requires
            old(self).wf(),
            old(self)@.live.contains(node.id as int),
            old(self)@.live.contains(new_sibling.id as int),
            !reaches(old(self)@, node.id as int, new_sibling.id as int),
        ensures
            final(self).wf(),
            final(self)@ == insert_after_model(old(self)@, node.id as int, new_sibling.id as int),
    {
        let ghost vold = old(self)@;
        let ghost ni = node.id as int;
        let ghost ci = new_sibling.id as int;
        self.detach(new_sibling);
        proof {
            lemma_detach_preserves_nonreach(vold, ci, ni, ci);
        }
        self.attach_sibling(node.id, new_sibling.id, true);
    }

    /// Insert a new sibling before this node.
    ///
    /// The new sibling is detached from its previous position first.  It
    /// must not be this node or one of its ancestors.  This node may be a
    /// root: inserting next to a root is a plain sibling-list operation.
    pub fn insert_before(&mut self, node: NodeRef, new_sibling: NodeRef)
        requires
            old(self).wf(),
            old(self)@.live.contains(node.id as int),
            old(self)@.live.contains(new_sibling.id as int),
            !reaches(old(self)@, node.id as int, new_sibling.id as int),
        ensures
            final(self).wf(),
            final(self)@ == insert_before_model(old(self)@, node.id as int, new_sibling.id as int),
    {
        let ghost vold = old(self)@;
        let ghost ni = node.id as int;
        let ghost ci = new_sibling.id as int;
        self.detach(new_sibling);
        proof {
            lemma_detach_preserves_nonreach(vold, ci, ni, ci);
        }
        self.attach_sibling(node.id, new_sibling.id, false);
    }

    /// Set the quirks mode of a document node.
    pub fn set_quirks_mode(&mut self, node: NodeRef, mode: QuirksMode)
        requires
            old(self).wf(),
            old(self)@.live.contains(node.id as int),
            old(self)@.data[node.id as int] is Document,
        ensures
            final(self).wf(),
            final(self)@ == (TreeView {
                data: old(self)@.data.insert(node.id as int, DataView::Document { quirks: mode }),
                ..old(self)@
            }),
    {
        let ghost vold = old(self)@;
        let ghost i = node.id as int;
        self.nodes[node.id].data = NodeData::Document(DocumentData { quirks_mode: mode });
        proof {
            let w = TreeView {
                data: vold.data.insert(i, DataView::Document { quirks: mode }),
                ..vold
            };
            self.lemma_payload_update(old(self), i, w);
        }
    }

    /// Append text to the buffer of a text node.
    pub fn push_text(&mut self, node: NodeRef, text: &str)
        requires
            old(self).wf(),
            old(self)@.live.contains(node.id as int),
            old(self)@.data[node.id as int] is Text,
        ensures
            final(self).wf(),
            final(self)@ == (TreeView {
                data: old(self)@.data.insert(node.id as int,
                    DataView::Text(text_of(old(self)@.data[node.id as int]) + text@)),
                ..old(self)@
            }),
    {
        let ghost vold = old(self)@;
        let ghost i = node.id as int;
        match &mut self.nodes[node.id].data {
            NodeData::Text(buf) => {
                buf.append(text);
            }
            _ => {
                proof {
                    assert(false);
                }
            }
        }
        proof {
            let w = TreeView {
                data: vold.data.insert(i, DataView::Text(text_of(vold.data[i]) + text@)),
                ..vold
            };
            self.lemma_payload_update(old(self), i, w);
        }
    }

    /// Replace the whole contents of a text node's buffer.
    pub fn set_text(&mut self, node: NodeRef, value: String)
        requires
            old(self).wf(),
            old(self)@.live.contains(node.id as int),
            old(self)@.data[node.id as int] is Text,
        ensures
            final(self).wf(),
            final(self)@ == (TreeView {
                data: old(self)@.data.insert(node.id as int, DataView::Text(value@)),
                ..old(self)@
            }),
    {
        let ghost vold = old(self)@;
        let ghost i = node.id as int;
        match &mut self.nodes[node.id].data {
            NodeData::Text(buf) => {
                *buf = value;
            }
            _ => {
                proof {
                    assert(false);
                }
            }
        }
        proof {
            let w = TreeView {
                data: vold.data.insert(i, DataView::Text(value@)),
                ..vold
            };
            self.lemma_payload_update(old(self), i, w);
        }
    }

    /// Insert or replace an attribute of an element node in the null
    /// namespace, returning the previous attribute with that name, if any.
    pub fn set_attribute(&mut self, node: NodeRef, local: String, value: String)
        -> (r: Option<Attribute>)
        requires
            old(self).wf(),
            old(self)@.live.contains(node.id as int),
            old(self)@.data[node.id as int] is Element,
        ensures
            final(self).wf(),
            ({
                let a = attrs_of(old(self)@.data[node.id as int]);
                let e = AttrEntry {
                    ns: Seq::<char>::empty(),
                    local: local@,
                    prefix: None,
                    value: value@,
                };
                let a2 = if has_key(a, Seq::<char>::empty(), local@) {
                    a.update(key_index(a, Seq::<char>::empty(), local@), e)
                } else {
                    a.push(e)
                };
                &&& final(self)@ == (TreeView {
                    data: old(self)@.data.insert(node.id as int, DataView::Element {
                        name: elem_name_of(old(self)@.data[node.id as int]),
                        attrs: a2,
                    }),
                    ..old(self)@
                })
                &&& match r {
                    Some(attr) => has_key(a, Seq::<char>::empty(), local@)
                        && crate::attributes::opt_str_view(attr.prefix)
                            == a[key_index(a, Seq::<char>::empty(), local@)].prefix
                        && attr.value@ == a[key_index(a, Seq::<char>::empty(), local@)].value,
                    None => !has_key(a, Seq::<char>::empty(), local@),
                }
            }),
    {
        let ghost vold = old(self)@;
        let ghost i = node.id as int;
        proof {
            assert(data_view_wf(vold.data[i]));
        }
        let r = match &mut self.nodes[node.id].data {
            NodeData::Element(el) => el.attributes.insert(local, value),
            _ => vstd::pervasive::unreached(),
        };
        proof {
            let a = attrs_of(vold.data[i]);
            let e = AttrEntry {
                ns: Seq::<char>::empty(),
                local: local@,
                prefix: None,
                value: value@,
            };
            let a2 = if has_key(a, Seq::<char>::empty(), local@) {
                a.update(key_index(a, Seq::<char>::empty(), local@), e)
            } else {
                a.push(e)
            };
            let w = TreeView {
                data: vold.data.insert(i, DataView::Element {
                    name: elem_name_of(vold.data[i]),
                    attrs: a2,
                }),
                ..vold
            };
            self.lemma_payload_update(old(self), i, w);
        }
        r
    }

    /// Remove and return the attribute of an element node with the given
    /// local name in the null namespace, if any.
    pub fn remove_attribute(&mut self, node: NodeRef, local: &str) -> (r: Option<Attribute>)
        requires
            old(self).wf(),
            old(self)@.live.contains(node.id as int),
            old(self)@.data[node.id as int] is Element,
        ensures
            final(self).wf(),
            ({
                let a = attrs_of(old(self)@.data[node.id as int]);
                let a2 = if has_key(a, Seq::<char>::empty(), local@) {
                    a.remove(key_index(a, Seq::<char>::empty(), local@))
                } else {
                    a
                };
                &&& final(self)@ == (TreeView {
                    data: old(self)@.data.insert(node.id as int, DataView::Element {
                        name: elem_name_of(old(self)@.data[node.id as int]),
                        attrs: a2,
                    }),
                    ..old(self)@
                })
                &&& match r {
                    Some(attr) => has_key(a, Seq::<char>::empty(), local@)
                        && crate::attributes::opt_str_view(attr.prefix)
                            == a[key_index(a, Seq::<char>::empty(), local@)].prefix
                        && attr.value@ == a[key_index(a, Seq::<char>::empty(), local@)].value,
                    None => !has_key(a, Seq::<char>::empty(), local@),
                }
            }),
    {
        let ghost vold = old(self)@;
        let ghost i = node.id as int;
        proof {
            assert(data_view_wf(vold.data[i]));
        }
        let r = match &mut self.nodes[node.id].data {
            NodeData::Element(el) => el.attributes.remove(local),
            _ => vstd::pervasive::unreached(),
        };
        proof {
            let a = attrs_of(vold.data[i]);
            let a2 = if has_key(a, Seq::<char>::empty(), local@) {
                a.remove(key_index(a, Seq::<char>::empty(), local@))
            } else {
                a
            };
            let w = TreeView {
                data: vold.data.insert(i, DataView::Element {
                    name: elem_name_of(vold.data[i]),
                    attrs: a2,
                }),
                ..vold
            };
            self.lemma_payload_update(old(self), i, w);
        }
        r
    }

    /// Add an attribute to an element node when no attribute with that
    /// expanded name exists yet.
    pub fn add_attribute_if_missing(&mut self, node: NodeRef, name: ExpandedName,
        prefix: Option<String>, value: String)
        requires
            old(self).wf(),
            old(self)@.live.contains(node.id as int),
            old(self)@.data[node.id as int] is Element,
        ensures
            final(self).wf(),
            final(self)@ == (TreeView {
                data: old(self)@.data.insert(node.id as int, DataView::Element {
                    name: elem_name_of(old(self)@.data[node.id as int]),
                    attrs: ({
                        let a = attrs_of(old(self)@.data[node.id as int]);
                        if has_key(a, name.ns@, name.local@) {
                            a
                        } else {
                            a.push(AttrEntry {
                                ns: name.ns@,
                                local: name.local@,
                                prefix: crate::attributes::opt_str_view(prefix),
                                value: value@,
                            })
                        }
                    }),
                }),
                ..old(self)@
            }),
    {
        let ghost vold = old(self)@;
        let ghost i = node.id as int;
        let ghost e = AttrEntry {
            ns: name.ns@,
            local: name.local@,
            prefix: crate::attributes::opt_str_view(prefix),
            value: value@,
        };
        proof {
            assert(data_view_wf(vold.data[i]));
        }
        match &mut self.nodes[node.id].data {
            NodeData::Element(el) => {
                el.attributes.insert_if_missing(name, prefix, value);
            }
            _ => {
                proof {
                    assert(false);
                }
            }
        }
        proof {
            let a = attrs_of(vold.data[i]);
            let w = TreeView {
                data: vold.data.insert(i, DataView::Element {
                    name: elem_name_of(vold.data[i]),
                    attrs: if has_key(a, name.ns@, name.local@) { a } else { a.push(e) },
                }),
                ..vold
            };
            self.lemma_payload_update(old(self), i, w);
        }
    }

    /// A reference to the attributes of an element node.
    pub fn attributes(&self, node: NodeRef) -> (r: &Attributes)
        requires
            self.wf(),
            self@.live.contains(node.id as int),
            self@.data[node.id as int] is Element,
        ensures
            r@ == attrs_of(self@.data[node.id as int]),
            attrs_wf(r@),
    {
        proof {
            assert(data_view_wf(self@.data[node.id as int]));
        }
        match &self.nodes[node.id].data {
            NodeData::Element(el) => &el.attributes,
            _ => vstd::pervasive::unreached(),
        }
    }

    /// After a payload-only update of node `i`, the tree realizes `w` and
    /// stays well-formed.
    proof fn lemma_payload_update(&self, prev: &Self, i: int, w: TreeView)
        requires
            prev.wf(),
            prev.is_live(i),
            self.nodes@.len() == prev.nodes@.len(),
            self.sib == prev.sib,
            self.pos == prev.pos,
            forall |m: int| 0 <= m < prev.nodes@.len() && m != i
                ==> self.nodes@[m] == prev.nodes@[m],
            self.nodes@[i].live == prev.nodes@[i].live,
            self.nodes@[i].parent == prev.nodes@[i].parent,
            self.nodes@[i].previous_sibling == prev.nodes@[i].previous_sibling,
            self.nodes@[i].next_sibling == prev.nodes@[i].next_sibling,
            self.nodes@[i].first_child == prev.nodes@[i].first_child,
            self.nodes@[i].last_child == prev.nodes@[i].last_child,
            w.live == prev@.live,
            w.parent == prev@.parent,
            w.chain == prev@.chain,
            w.kids == prev@.kids,
            w.data =~= prev@.data.insert(i, self.nodes@[i].data@),
            data_view_wf(self.nodes@[i].data@),
        ensures
            self.wf(),
            self@ == w,
    {
        assert forall |m: int| #[trigger] self.is_live(m) <==> prev.is_live(m) by {}
        assert(self@.live =~= w.live);
        assert(self@.parent =~= w.parent);
        assert(self@.chain =~= w.chain);
        assert forall |m: int| self.is_live(m) implies
            #[trigger] self@.kids[m] == w.kids[m] by {
            assert(self.nodes@[m].first_child@ == prev.nodes@[m].first_child@);
        }
        assert(self@.kids =~= w.kids);
        assert forall |m: int| self.is_live(m) implies
            #[trigger] self@.data[m] == w.data[m] by {}
        assert(self@.data =~= w.data);
        assert(self@ =~= w);
        assert forall |m: int| self.is_live(m) implies #[trigger] self.node_corr(m) by {
            assert(prev.node_corr(m));
        }
        lemma_same_structure_inv(prev@, self@);
    }

    /// Free one slot: drop its payload and links and mark it dead.
    fn clear_slot(&mut self, i: usize)
        requires
            i < old(self).nodes@.len(),
        ensures
            final(self).nodes@.len() == old(self).nodes@.len(),
            final(self).sib == old(self).sib,
            final(self).pos == old(self).pos,
            forall |j: int| 0 <= j < old(self).nodes@.len() && j != i
                ==> final(self).nodes@[j] == old(self).nodes@[j],
            !final(self).nodes@[i as int].live,
    {
        self.nodes[i].parent.set(None);
        self.nodes[i].previous_sibling.set(None);
        self.nodes[i].next_sibling.set(None);
        self.nodes[i].first_child.set(None);
        self.nodes[i].last_child.set(None);
        self.nodes[i].live = false;
        self.nodes[i].data = NodeData::Text(String::new());
    }

    /// Free a fully detached node and its whole subtree, given the list of
    /// the subtree's slots.  The auxiliary state is the list itself; no
    /// call recursion is involved, so arbitrarily deep or wide subtrees are
    /// reclaimed without exhausting the call stack.
    pub(crate) fn reclaim_ids(&mut self, node: NodeRef, ids: &Vec<usize>)
        requires
            old(self).wf(),
            old(self)@.live.contains(node.id as int),
            old(self)@.parent[node.id as int] is None,
            old(self)@.chain[node.id as int] == seq![node.id as int],
            ids@.map_values(|u: usize| u as int) == descendants_of(old(self)@, node.id as int),
        ensures
            final(self).wf(),
            final(self)@ == reclaim_model(old(self)@, node.id as int),
    {
        let ghost v0 = old(self)@;
        let ghost ci = node.id as int;
        let ghost dead = subtree_set(v0, ci);
        let ghost dseq = ids@.map_values(|u: usize| u as int);
        proof {
            old(self).lemma_wf_inv();
            lemma_descendants_members(v0, ci);
            assert forall |x: int| dseq.contains(x) <==> dead.contains(x) by {
                assert(descendants_of(v0, ci).contains(x) <==> (v0.live.contains(x)
                    && reaches(v0, x, ci)));
            }
            assert(dseq.take(0) =~= Seq::<int>::empty());
        }
        let n = ids.len();
        let mut k: usize = 0;
        while k < n
            invariant
                n == ids@.len(),
                k <= n,
                dseq == ids@.map_values(|u: usize| u as int),
                forall |x: int| dseq.contains(x) <==> dead.contains(x),
                self.nodes@.len() == old(self).nodes@.len(),
                self.sib == old(self).sib,
                self.pos == old(self).pos,
                forall |j: int| 0 <= j < old(self).nodes@.len()
                    && !dseq.take(k as int).contains(j)
                    ==> self.nodes@[j] == old(self).nodes@[j],
                forall |j: int| 0 <= j < old(self).nodes@.len()
                    && dseq.take(k as int).contains(j)
                    ==> !(#[trigger] self.nodes@[j]).live,
                forall |x: int| dead.contains(x) ==> old(self).is_live(x),
            decreases n - k,
        {
            proof {
                assert(dseq[k as int] == ids@[k as int] as int);
                assert(dseq.contains(dseq[k as int]));
                assert(dead.contains(ids@[k as int] as int));
                assert(old(self).is_live(ids@[k as int] as int));
            }
            let i = ids[k];
            self.clear_slot(i);
            proof {
                assert(dseq.take(k + 1) =~= dseq.take(k as int).push(dseq[k as int]));
                assert forall |j: int| 0 <= j < old(self).nodes@.len()
                    && dseq.take(k + 1).contains(j)
                    implies !(#[trigger] self.nodes@[j]).live by {
                    if j != i {
                        assert(dseq.take(k as int).contains(j)) by {
                            let jj = choose |jj: int| 0 <= jj < dseq.take(k + 1).len()
                                && #[trigger] dseq.take(k + 1)[jj] == j;
                            assert(jj < k);
                            assert(dseq.take(k as int)[jj] == j);
                        }
                    }
                }
                assert forall |j: int| 0 <= j < old(self).nodes@.len()
                    && !dseq.take(k + 1).contains(j)
                    implies self.nodes@[j] == old(self).nodes@[j] by {
                    assert(!dseq.take(k as int).contains(j)) by {
                        if dseq.take(k as int).contains(j) {
                            let jj = choose |jj: int| 0 <= jj < dseq.take(k as int).len()
                                && #[trigger] dseq.take(k as int)[jj] == j;
                            assert(dseq.take(k + 1)[jj] == j);
                        }
                    }
                    assert(j != i) by {
                        if j == i {
                            assert(dseq.take(k + 1)[k as int] == dseq[k as int]);
                        }
                    }
                }
            }
            k = k + 1;
        }
        proof {
            assert(dseq.take(n as int) =~= dseq);
            let pold = old(self).pos@;
            self.sib@ = Map::new(
                |i: int| v0.live.contains(i) && !dead.contains(i),
                |i: int| v0.chain[i],
            );
            self.pos@ = Map::new(
                |i: int| v0.live.contains(i) && !dead.contains(i),
                |i: int| pold[i],
            );
            let w = reclaim_model(v0, ci);

            // survivors are untouched, dead slots are not live
            assert forall |m: int| #[trigger] self.is_live(m) <==>
                (old(self).is_live(m) && !dead.contains(m)) by {
                if dseq.contains(m) {
                    assert(!self.nodes@[m].live);
                } else {
                    if 0 <= m < old(self).nodes@.len() {
                        assert(self.nodes@[m] == old(self).nodes@[m]);
                    }
                }
            }
            assert(self@.live =~= w.live);
            assert forall |m: int| self.is_live(m) implies
                self.nodes@[m] == old(self).nodes@[m] by {
                assert(!dseq.contains(m));
            }
            assert(self@.parent =~= w.parent);
            assert(self@.chain =~= w.chain);
            assert forall |m: int| self.is_live(m) implies
                #[trigger] self@.kids[m] == w.kids[m] by {
                assert(old(self).node_corr(m));
                match old(self).nodes@[m].first_child@ {
                    None => {}
                    Some(f) => {
                        lemma_reclaim_survivors(v0, ci, m);
                        assert(oi(old(self).nodes@[f as int].parent@) == Some(m));
                        assert(v0.parent[f as int] == Some(m));
                        assert(parent_ok(v0, f as int));
                        assert(v0.kids[m] == v0.chain[f as int]);
                        assert(chain_ok(v0, f as int));
                        assert(v0.kids[m].contains(f as int)) by {
                            assert(v0.chain[f as int].contains(f as int));
                        }
                        assert(!dead.contains(f as int));
                        assert(self.sib@[f as int] == v0.chain[f as int]);
                        assert(old(self).sib@[f as int] == v0.chain[f as int]);
                    }
                }
            }
            assert(self@.kids =~= w.kids);
            assert forall |m: int| self.is_live(m) implies
                #[trigger] self@.data[m] == w.data[m] by {}
            assert(self@.data =~= w.data);
            assert(self@ =~= w);

            assert forall |m: int| self.is_live(m) implies #[trigger] self.node_corr(m) by {
                assert(old(self).node_corr(m));
                lemma_reclaim_survivors(v0, ci, m);
                assert(chain_ok(v0, m));
                assert(!dead.contains(m));
                assert(self.sib@[m] == old(self).sib@[m]);
                assert(self.pos@[m] == old(self).pos@[m]);
                match old(self).nodes@[m].first_child@ {
                    None => {}
                    Some(f) => {
                        assert(oi(old(self).nodes@[f as int].parent@) == Some(m));
                        assert(v0.parent[f as int] == Some(m));
                        assert(parent_ok(v0, f as int));
                        assert(v0.kids[m] == v0.chain[f as int]);
                        assert(chain_ok(v0, f as int));
                        assert(v0.kids[m].contains(f as int)) by {
                            assert(v0.chain[f as int].contains(f as int));
                        }
                        assert(!dead.contains(f as int));
                        assert(self.sib@[f as int] == old(self).sib@[f as int]);
                        assert(self.pos@[f as int] == old(self).pos@[f as int]);
                        assert(!dseq.contains(f as int));
                        assert(self.nodes@[f as int] == old(self).nodes@[f as int]);
                    }
                }
            }
            lemma_reclaim_model_inv(v0, ci);
            assert(inv(self@));
        }
    }
}

/// A view that differs from a well-formed one only in its payloads, all of
/// them still well-formed, is well-formed.
proof fn lemma_same_structure_inv(v: TreeView, w: TreeView)
    requires
        inv(v),
        w.live == v.live,
        w.parent == v.parent,
        w.chain == v.chain,
        w.kids == v.kids,
        w.data.dom() =~= v.data.dom(),
        forall |m: int| w.live.contains(m) ==> data_view_wf(#[trigger] w.data[m]),
    ensures
        inv(w),
{
    assert forall |m: int| w.live.contains(m) implies #[trigger] chain_ok(w, m) by {
        assert(chain_ok(v, m));
    }
    assert forall |m: int| w.live.contains(m) implies #[trigger] parent_ok(w, m) by {
        assert(parent_ok(v, m));
    }
    assert forall |m: int| w.live.contains(m) implies #[trigger] kids_ok(w, m) by {
        assert(kids_ok(v, m));
    }
    assert forall |m: int| #[trigger] pstep(v, m) == pstep(w, m) by {}
    assert forall |x: int, k: nat| 1 <= k implies #[trigger] parent_iter(w, x, k) != Some(x) by {
        lemma_iter_all_agree(v, w, x, k);
    }
}

/// A stuck walk stays stuck: once a node has no parent step, longer walks
/// from it yield nothing.
proof fn lemma_stuck(v: TreeView, x: int, k: nat)
    requires
        pstep(v, x) is None,
        k >= 1,
    ensures
        parent_iter(v, x, k) is None,
    decreases k,
{
    if k == 1 {
        assert(parent_iter(v, x, 0nat) == Some(x));
    } else {
        lemma_stuck(v, x, (k - 1) as nat);
    }
}

/// After detaching, the detached node is no ancestor-or-self of anything
/// except itself: in particular it is no longer a descendant of its old
/// root.
pub proof fn lemma_detach_unreachable(v: TreeView, c: int, r: int)
    requires
        r != c,
    ensures
        !reaches(detach_model(v, c), c, r),
{
    let w = detach_model(v, c);
    assert(w.parent[c] is None);
    assert(pstep(w, c) is None);
    assert forall |k: nat| #[trigger] parent_iter(w, c, k) != Some(r) by {
        if k == 0 {
            assert(parent_iter(w, c, 0nat) == Some(c));
        } else {
            lemma_stuck(w, c, k);
        }
    }
}

/// Moving a node (detaching it, then appending it under a new parent)
/// leaves its whole subtree intact: every node of the subtree keeps its
/// payload, its children, its sibling chain and (except the moved node
/// itself) its parent, and remains a descendant of the moved node.
pub proof fn lemma_move_preserves_subtree(v: TreeView, c: int, p: int, x: int)
    requires
        inv(v),
        v.live.contains(c),
        v.live.contains(p),
        !reaches(v, p, c),
        v.live.contains(x),
        reaches(v, x, c),
    ensures
        ({
            let w = append_model(v, p, c);
            &&& w.kids[x] == v.kids[x]
            &&& w.data[x] == v.data[x]
            &&& (x != c ==> w.parent[x] == v.parent[x] && w.chain[x] == v.chain[x])
            &&& w.parent[c] == Some(p)
            &&& reaches(w, x, c)
        }),
{
    let v1 = detach_model(v, c);
    let w = append_model(v, p, c);
    let s = v.chain[c];
    let k = chain_pos(v, c);
    let t1 = v1.kids[p];
    assert(chain_ok(v, c));
    assert(s.contains(c));
    assert(0 <= k < s.len() && s[k] == c);

    // x is not p
    assert(x != p);

    // c's old parent (if any) is not in c's subtree
    let q_opt = v.parent[c];
    match q_opt {
        Some(q) => {
            assert(!reaches(v, q, c)) by {
                if reaches(v, q, c) {
                    let kk = choose |kk: nat| parent_iter(v, q, kk) == Some(c);
                    assert(parent_iter(v, c, 0nat) == Some(c));
                    assert(parent_iter(v, c, 0nat + 1) == pstep(v, c));
                    assert(parent_iter(v, c, 1) == Some(q));
                    lemma_iter_compose(v, c, 1, kk);
                    assert(parent_iter(v, c, 1 + kk) == Some(c));
                }
            }
            assert(x != q);
        }
        None => {}
    }

    // strict descendants of c are not siblings of c and not children of p
    if x != c {
        // x has some walk to c of length >= 1; its first step goes to a node
        // still inside the subtree
        assert(!s.contains(x)) by {
            if s.contains(x) {
                assert(v.parent[x] == v.parent[c]);
                let kk = choose |kk: nat| parent_iter(v, x, kk) == Some(c);
                assert(kk != 0);
                match q_opt {
                    Some(q) => {
                        assert(parent_iter(v, x, 0nat) == Some(x));
                        assert(parent_iter(v, x, 0nat + 1) == pstep(v, x));
                        assert(parent_iter(v, x, 1) == Some(q));
                        lemma_iter_compose(v, x, 1, (kk - 1) as nat);
                        assert(parent_iter(v, q, (kk - 1) as nat) == Some(c));
                        assert(reaches(v, q, c));
                        assert(!reaches(v, q, c));
                    }
                    None => {
                        assert(pstep(v, x) is None);
                        lemma_stuck(v, x, kk);
                    }
                }
            }
        }
        assert(v.chain[x] != s) by {
            if v.chain[x] == s {
                assert(chain_ok(v, x));
                assert(v.chain[x].contains(x));
            }
        }
        assert(v.parent[x] != Some(p)) by {
            if v.parent[x] == Some(p) {
                let kk = choose |kk: nat| parent_iter(v, x, kk) == Some(c);
                assert(kk != 0);
                assert(parent_iter(v, x, 0nat) == Some(x));
                assert(parent_iter(v, x, 0nat + 1) == pstep(v, x));
                assert(parent_iter(v, x, 1) == Some(p));
                lemma_iter_compose(v, x, 1, (kk - 1) as nat);
                assert(parent_iter(v, p, (kk - 1) as nat) == Some(c));
                assert(reaches(v, p, c));
            }
        }
        assert(v1.chain[x] == v.chain[x]);
        assert(v1.parent[x] == v.parent[x]);
        // x is not in p's (post-detach) child list
        assert(!(t1.len() > 0 && v1.chain[x] == t1)) by {
            if t1.len() > 0 && v1.chain[x] == t1 {
                assert(inv(v1)) by { lemma_detach_model_inv(v, c); }
                assert(chain_ok(v1, x));
                assert(v1.chain[x].contains(x));
                assert(kids_ok(v1, p));
                assert(v1.parent[x] == Some(p));
            }
        }
        assert(w.chain[x] == v.chain[x]);
        assert(w.parent[x] == v.parent[x]);
    }

    // kids are preserved for every subtree node
    assert(v1.kids[x] == v.kids[x]) by {
        match q_opt {
            Some(q) => { assert(x != q); }
            None => {}
        }
    }
    assert(w.kids[x] == v1.kids[x]);
    assert(w.data[x] == v.data[x]);
    assert(w.parent[c] == Some(p));

    // the walk from x to c survives the move
    assert forall |m: int| m != c implies #[trigger] pstep(v, m) == pstep(w, m) by {}
    let kk = choose |kk: nat| parent_iter(v, x, kk) == Some(c);
    let k0 = lemma_first_hit(v, x, c, kk);
    lemma_iter_agree_avoid(w, v, c, x, k0);
    assert(parent_iter(w, x, k0) == Some(c));
    assert(reaches(w, x, c));
}

/// Detaching removes parent edges, so it cannot create a new ancestor
/// relationship.
pub proof fn lemma_detach_preserves_nonreach(v: TreeView, c: int, x: int, y: int)
    requires
        !reaches(v, x, y),
    ensures
        !reaches(detach_model(v, c), x, y),
{
    let w = detach_model(v, c);
    assert forall |m: int| m != c implies #[trigger] pstep(v, m) == pstep(w, m) by {}
    assert(pstep(w, c) is None);
    if reaches(w, x, y) {
        let k = choose |k: nat| parent_iter(w, x, k) == Some(y);
        lemma_iter_sub(v, w, c, x, k, y);
        assert(reaches(v, x, y));
    }
}

/// Invariant preservation, spelled out for one node of a well-formed view:
/// a node with a parent back-reference has a live parent whose child list
/// holds it; its sibling chain is consistent in both directions; and it is
/// never its own ancestor.
pub proof fn lemma_invariant_preservation(v: TreeView, n: int)
    requires
        inv(v),
        v.live.contains(n),
    ensures
        match v.parent[n] {
            Some(p) => v.live.contains(p) && v.kids[p].contains(n),
            None => true,
        },
        v.chain[n].contains(n),
        forall |j: int| 0 <= j < v.chain[n].len() ==>
            v.chain[#[trigger] v.chain[n][j]] == v.chain[n],
        forall |k: nat| 1 <= k ==> parent_iter(v, n, k) != Some(n),
{
    assert(chain_ok(v, n));
    assert(parent_ok(v, n));
    match v.parent[n] {
        Some(p) => {
            assert(v.kids[p] == v.chain[n]);
            assert(v.chain[n].contains(n));
        }
        None => {}
    }
}

/// In a well-formed view the position of a node in its chain is unique, so
/// [`chain_pos`] picks exactly it.
pub proof fn lemma_chain_pos_unique(v: TreeView, c: int, k: int)
    requires
        inv(v),
        v.live.contains(c),
        0 <= k < v.chain[c].len(),
        v.chain[c][k] == c,
    ensures
        chain_pos(v, c) == k,
{
    assert(chain_ok(v, c));
    let s = v.chain[c];
    assert(0 <= chain_pos(v, c) < s.len() && s[chain_pos(v, c)] == c);
}

/// A live, childless node is not reachable upward from anywhere else.
pub proof fn lemma_childless_unreachable(v: TreeView, c: int, x: int)
    requires
        inv(v),
        v.live.contains(c),
        v.kids[c] == Seq::<int>::empty(),
        x != c,
    ensures
        !reaches(v, x, c),
{
    assert forall |m: int| #[trigger] pstep(v, m) != Some(c) by {
        if pstep(v, m) == Some(c) {
            assert(v.live.contains(m));
            assert(v.parent[m] == Some(c));
            assert(parent_ok(v, m));
            assert(v.kids[c] == v.chain[m]);
            assert(chain_ok(v, m));
            assert(v.chain[m].contains(m));
            assert(false);
        }
    }
    assert forall |k: nat| #[trigger] parent_iter(v, x, k) != Some(c) by {
        lemma_never_reaches_unpointed(v, c, x, k);
    }
}

/// Removing one element of a duplicate-free sequence.
proof fn lemma_remove_nodup(s: Seq<int>, k: int)
    requires
        0 <= k < s.len(),
        s.no_duplicates(),
    ensures
        s.remove(k).no_duplicates(),
        forall |x: int| s.remove(k).contains(x) <==> (s.contains(x) && x != s[k]),
{
    s.remove_ensures(k);
    let s1 = s.remove(k);
    assert forall |a: int, b: int|
        0 <= a < s1.len() && 0 <= b < s1.len() && a != b
        implies s1[a] != s1[b]
    by {
        let a0: int = if a < k { a } else { a + 1 };
        let b0: int = if b < k { b } else { b + 1 };
        assert(s1[a] == s[a0] && s1[b] == s[b0]);
    }
    assert forall |x: int| s1.contains(x) <==> (s.contains(x) && x != s[k]) by {
        if s1.contains(x) {
            let j = choose |j: int| 0 <= j < s1.len() && s1[j] == x;
            let j0: int = if j < k { j } else { j + 1 };
            assert(s[j0] == x);
            assert(j0 != k);
        }
        if s.contains(x) && x != s[k] {
            let j0 = choose |j: int| 0 <= j < s.len() && s[j] == x;
            assert(j0 != k);
            let j: int = if j0 < k { j0 } else { j0 - 1 };
            assert(s1[j] == x);
        }
    }
}

/// Inserting a fresh element into a duplicate-free sequence.
proof fn lemma_insert_nodup(s: Seq<int>, j: int, c: int)
    requires
        0 <= j <= s.len(),
        s.no_duplicates(),
        !s.contains(c),
    ensures
        s.insert(j, c).no_duplicates(),
        forall |x: int| s.insert(j, c).contains(x) <==> (s.contains(x) || x == c),
{
    s.insert_ensures(j, c);
    let s2 = s.insert(j, c);
    assert forall |a: int, b: int|
        0 <= a < s2.len() && 0 <= b < s2.len() && a != b
        implies s2[a] != s2[b]
    by {
        if a != j && b != j {
            let a0: int = if a < j { a } else { a - 1 };
            let b0: int = if b < j { b } else { b - 1 };
            assert(s2[a] == s[a0] && s2[b] == s[b0]);
        } else if a == j {
            let b0: int = if b < j { b } else { b - 1 };
            assert(s2[b] == s[b0]);
            assert(s.contains(s[b0]));
        } else {
            let a0: int = if a < j { a } else { a - 1 };
            assert(s2[a] == s[a0]);
            assert(s.contains(s[a0]));
        }
    }
    assert forall |x: int| s2.contains(x) <==> (s.contains(x) || x == c) by {
        if s2.contains(x) {
            let i = choose |i: int| 0 <= i < s2.len() && s2[i] == x;
            if i != j {
                let i0: int = if i < j { i } else { i - 1 };
                assert(s[i0] == x);
                assert(s.contains(x));
            }
        }
        if s.contains(x) {
            let i0 = choose |i: int| 0 <= i < s.len() && s[i] == x;
            let i: int = if i0 < j { i0 } else { i0 + 1 };
            assert(s2[i] == x);
        }
        if x == c {
            assert(s2[j] == c);
        }
    }
}

/// A detached node sits alone in its own chain and in nobody's child list.
proof fn lemma_detached_facts(v: TreeView, c: int)
    requires
        inv(v),
        v.live.contains(c),
        v.parent[c] is None,
        v.chain[c] == seq![c as int],
    ensures
        forall |m: int| v.live.contains(m) && m != c ==> !(#[trigger] v.chain[m]).contains(c),
        forall |m: int| v.live.contains(m) ==> !(#[trigger] v.kids[m]).contains(c),
{
    assert forall |m: int| v.live.contains(m) && m != c
        implies !(#[trigger] v.chain[m]).contains(c) by {
        if v.chain[m].contains(c) {
            assert(chain_ok(v, m));
            let i = choose |i: int| 0 <= i < v.chain[m].len() && v.chain[m][i] == c;
            assert(v.chain[c] == v.chain[m]);
            assert(v.chain[c].contains(m)) by {
                assert(v.chain[m].contains(m));
            }
            assert(seq![c as int].contains(m));
            assert(seq![c as int][0] == c);
            let im = choose |i: int| 0 <= i < seq![c as int].len() && seq![c as int][i] == m;
            assert(im == 0);
            assert(m == c);
        }
    }
    assert forall |m: int| v.live.contains(m)
        implies !(#[trigger] v.kids[m]).contains(c) by {
        if v.kids[m].contains(c) {
            assert(kids_ok(v, m));
            let i = choose |i: int| 0 <= i < v.kids[m].len() && v.kids[m][i] == c;
            assert(v.parent[c] == Some(m));
        }
    }
}

/// Attaching a detached node as a child of `p` at position `j` preserves
/// well-formedness of the view.
pub proof fn lemma_attach_child_model_inv(v: TreeView, p: int, c: int, j: int)
    requires
        inv(v),
        v.live.contains(p),
        v.live.contains(c),
        v.parent[c] is None,
        v.chain[c] == seq![c as int],
        !reaches(v, p, c),
        0 <= j <= v.kids[p].len(),
    ensures
        inv(attach_child_model(v, p, c, j)),
{
    let w = attach_child_model(v, p, c, j);
    let t = v.kids[p];
    let t2 = t.insert(j, c);
    assert(kids_ok(v, p));
    assert(p != c) by {
        assert(parent_iter(v, p, 0nat) == Some(p));
    }
    lemma_detached_facts(v, c);
    assert(!t.contains(c));
    assert(t.no_duplicates()) by {
        if t.len() > 0 {
            assert(v.live.contains(t[0]) && v.chain[t[0]] == t);
            assert(chain_ok(v, t[0]));
        }
    }
    t.insert_ensures(j, c);
    lemma_insert_nodup(t, j, c);
    // members of t are live children of p with chain t
    assert forall |i: int| 0 <= i < t.len() implies
        v.live.contains(#[trigger] t[i]) && v.parent[t[i]] == Some(p) && v.chain[t[i]] == t
    by {}

    assert(w.parent.dom() =~= w.live);
    assert(w.chain.dom() =~= w.live);
    assert(w.kids.dom() =~= w.live);
    assert(w.data.dom() =~= w.live);

    assert forall |m: int| w.live.contains(m) implies #[trigger] chain_ok(w, m) by {
        if m == c || (t.len() > 0 && v.chain[m] == t) {
            assert(w.chain[m] == t2);
            if m == c {
                assert(t2[j] == c);
                assert(t2.contains(c));
            } else {
                assert(chain_ok(v, m));
                assert(t.contains(m));
                assert(t2.contains(m));
            }
            assert forall |i: int| 0 <= i < t2.len() implies
                w.live.contains(#[trigger] t2[i]) && w.chain[t2[i]] == t2
                && w.parent[t2[i]] == w.parent[m]
            by {
                assert(t2.contains(t2[i]));
                if t2[i] == c {
                    assert(w.parent[c] == Some(p));
                } else {
                    assert(t.contains(t2[i]));
                    assert(v.chain[t2[i]] == t);
                    assert(t.len() > 0);
                    assert(v.parent[t2[i]] == Some(p));
                }
                if m == c {
                    assert(w.parent[m] == Some(p));
                } else {
                    assert(t.contains(m));
                    assert(v.parent[m] == Some(p));
                    assert(w.parent[m] == Some(p));
                }
            }
        } else {
            assert(chain_ok(v, m));
            let u = v.chain[m];
            assert(w.chain[m] == u);
            assert forall |i: int| 0 <= i < u.len() implies
                w.live.contains(#[trigger] u[i]) && w.chain[u[i]] == u
                && w.parent[u[i]] == w.parent[m]
            by {
                assert(v.chain[u[i]] == u);
                if u[i] == c {
                    assert(v.chain[m].contains(c));
                }
                assert(u[i] != c);
                if t.len() > 0 && v.chain[u[i]] == t {
                    assert(u == t);
                }
            }
        }
    }

    assert forall |m: int| w.live.contains(m) implies #[trigger] parent_ok(w, m) by {
        if m == c {
            assert(w.parent[c] == Some(p));
            assert(w.kids[p] == t2);
            assert(w.chain[c] == t2);
        } else {
            assert(parent_ok(v, m));
            assert(chain_ok(v, m));
            match v.parent[m] {
                Some(q) => {
                    assert(w.parent[m] == Some(q));
                    if q == p {
                        assert(v.kids[p] == v.chain[m]);
                        assert(v.chain[m] == t);
                        assert(t.contains(m));
                        assert(w.chain[m] == t2);
                        assert(w.kids[p] == t2);
                    } else {
                        assert(w.kids[q] == v.kids[q]);
                        if t.len() > 0 && v.chain[m] == t {
                            assert(t.contains(m));
                            assert(v.parent[m] == Some(p));
                        }
                        assert(w.chain[m] == v.chain[m]);
                    }
                }
                None => {}
            }
        }
    }

    assert forall |m: int| w.live.contains(m) implies #[trigger] kids_ok(w, m) by {
        if m == p {
            assert(w.kids[p] == t2);
            assert forall |i: int| 0 <= i < t2.len() implies
                w.live.contains(#[trigger] t2[i]) && w.parent[t2[i]] == Some(p)
                && w.chain[t2[i]] == t2
            by {
                assert(t2.contains(t2[i]));
                if t2[i] == c {
                } else {
                    assert(t.contains(t2[i]));
                    assert(v.parent[t2[i]] == Some(p));
                    assert(v.chain[t2[i]] == t);
                    assert(t.len() > 0);
                }
            }
        } else {
            assert(kids_ok(v, m));
            let u = v.kids[m];
            assert(w.kids[m] == u);
            assert forall |i: int| 0 <= i < u.len() implies
                w.live.contains(#[trigger] u[i]) && w.parent[u[i]] == Some(m)
                && w.chain[u[i]] == u
            by {
                assert(v.parent[u[i]] == Some(m));
                assert(u[i] != c);
                if t.len() > 0 && v.chain[u[i]] == t {
                    assert(t.contains(u[i]));
                    assert(v.parent[u[i]] == Some(p));
                }
            }
        }
    }

    assert forall |m: int| w.live.contains(m) implies data_view_wf(#[trigger] w.data[m]) by {
        assert(data_view_wf(v.data[m]));
    }

    assert forall |m: int| m != c implies #[trigger] pstep(v, m) == pstep(w, m) by {}
    assert(pstep(v, c) is None);
    assert(pstep(w, c) == Some(p));
    lemma_attach_acyclic(v, w, c, p);
}

/// Attaching a detached node `c` into the sibling chain of `n` at position
/// `j` preserves well-formedness of the view.
pub proof fn lemma_attach_sibling_model_inv(v: TreeView, n: int, c: int, j: int)
    requires
        inv(v),
        v.live.contains(n),
        v.live.contains(c),
        v.parent[c] is None,
        v.chain[c] == seq![c as int],
        !reaches(v, n, c),
        0 <= j <= v.chain[n].len(),
    ensures
        inv(attach_sibling_model(v, n, c, j)),
{
    let w = attach_sibling_model(v, n, c, j);
    let s = v.chain[n];
    let s2 = s.insert(j, c);
    assert(chain_ok(v, n));
    assert(n != c) by {
        assert(parent_iter(v, n, 0nat) == Some(n));
    }
    lemma_detached_facts(v, c);
    assert(!s.contains(c));
    s.insert_ensures(j, c);
    lemma_insert_nodup(s, j, c);
    assert forall |i: int| 0 <= i < s.len() implies
        v.live.contains(#[trigger] s[i]) && v.parent[s[i]] == v.parent[n] && v.chain[s[i]] == s
    by {}

    assert(w.parent.dom() =~= w.live);
    assert(w.chain.dom() =~= w.live);
    assert(w.kids.dom() =~= w.live);
    assert(w.data.dom() =~= w.live);

    assert forall |m: int| w.live.contains(m) implies #[trigger] chain_ok(w, m) by {
        if m == c || v.chain[m] == s {
            assert(w.chain[m] == s2);
            if m == c {
                assert(s2[j] == c);
                assert(s2.contains(c));
            } else {
                assert(chain_ok(v, m));
                assert(s.contains(m));
                assert(s2.contains(m));
            }
            assert forall |i: int| 0 <= i < s2.len() implies
                w.live.contains(#[trigger] s2[i]) && w.chain[s2[i]] == s2
                && w.parent[s2[i]] == w.parent[m]
            by {
                assert(s2.contains(s2[i]));
                if s2[i] == c {
                    assert(w.parent[c] == v.parent[n]);
                } else {
                    assert(s.contains(s2[i]));
                    assert(v.chain[s2[i]] == s);
                    assert(v.parent[s2[i]] == v.parent[n]);
                }
                if m == c {
                    assert(w.parent[m] == v.parent[n]);
                } else {
                    assert(s.contains(m));
                    assert(v.parent[m] == v.parent[n]);
                    assert(w.parent[m] == v.parent[n]);
                }
            }
        } else {
            assert(chain_ok(v, m));
            let u = v.chain[m];
            assert(w.chain[m] == u);
            assert forall |i: int| 0 <= i < u.len() implies
                w.live.contains(#[trigger] u[i]) && w.chain[u[i]] == u
                && w.parent[u[i]] == w.parent[m]
            by {
                assert(v.chain[u[i]] == u);
                if u[i] == c {
                    assert(v.chain[m].contains(c));
                }
                assert(u[i] != c);
            }
        }
    }

    assert forall |m: int| w.live.contains(m) implies #[trigger] parent_ok(w, m) by {
        if m == c {
            match v.parent[n] {
                Some(q) => {
                    assert(w.parent[c] == Some(q));
                    assert(v.live.contains(q)) by {
                        assert(parent_ok(v, n));
                    }
                    assert(q != c) by {
                        if q == c {
                            assert(parent_iter(v, n, 0nat) == Some(n));
                            assert(parent_iter(v, n, 0nat + 1) == pstep(v, n));
                            assert(parent_iter(v, n, 1) == Some(c));
                        }
                    }
                    assert(parent_ok(v, n));
                    assert(v.kids[q] == v.chain[n]);
                    assert(w.kids[q] == s2);
                    assert(w.chain[c] == s2);
                }
                None => {}
            }
        } else {
            assert(parent_ok(v, m));
            assert(chain_ok(v, m));
            match v.parent[m] {
                Some(q) => {
                    assert(w.parent[m] == Some(q));
                    if v.parent[n] == Some(q) {
                        assert(parent_ok(v, n));
                        assert(v.kids[q] == v.chain[n]);
                        assert(v.kids[q] == v.chain[m]);
                        assert(v.chain[m] == s);
                        assert(w.chain[m] == s2);
                        assert(w.kids[q] == s2);
                    } else {
                        assert(w.kids[q] == v.kids[q]);
                        if v.chain[m] == s {
                            assert(s.contains(m));
                            assert(v.parent[m] == v.parent[n]);
                        }
                        assert(w.chain[m] == v.chain[m]);
                    }
                }
                None => {}
            }
        }
    }

    assert forall |m: int| w.live.contains(m) implies #[trigger] kids_ok(w, m) by {
        if v.parent[n] == Some(m) {
            assert(parent_ok(v, n));
            assert(v.kids[m] == s);
            assert(w.kids[m] == s2);
            assert forall |i: int| 0 <= i < s2.len() implies
                w.live.contains(#[trigger] s2[i]) && w.parent[s2[i]] == Some(m)
                && w.chain[s2[i]] == s2
            by {
                assert(s2.contains(s2[i]));
                if s2[i] == c {
                } else {
                    assert(s.contains(s2[i]));
                    assert(v.parent[s2[i]] == v.parent[n]);
                    assert(v.chain[s2[i]] == s);
                }
            }
        } else {
            assert(kids_ok(v, m));
            let u = v.kids[m];
            assert(w.kids[m] == u);
            assert forall |i: int| 0 <= i < u.len() implies
                w.live.contains(#[trigger] u[i]) && w.parent[u[i]] == Some(m)
                && w.chain[u[i]] == u
            by {
                assert(v.parent[u[i]] == Some(m));
                assert(u[i] != c);
                if v.chain[u[i]] == s {
                    assert(s.contains(u[i]));
                    assert(v.parent[u[i]] == v.parent[n]);
                }
            }
        }
    }

    assert forall |m: int| w.live.contains(m) implies data_view_wf(#[trigger] w.data[m]) by {
        assert(data_view_wf(v.data[m]));
    }

    assert forall |m: int| m != c implies #[trigger] pstep(v, m) == pstep(w, m) by {}
    match v.parent[n] {
        Some(p) => {
            assert(pstep(v, c) is None);
            assert(pstep(w, c) == Some(p));
            assert(!reaches(v, p, c)) by {
                if reaches(v, p, c) {
                    let k = choose |k: nat| parent_iter(v, p, k) == Some(c);
                    assert(parent_iter(v, n, 0nat) == Some(n));
                    assert(parent_iter(v, n, 0nat + 1) == pstep(v, n));
                    assert(parent_iter(v, n, 1) == Some(p));
                    lemma_iter_compose(v, n, 1, k);
                    assert(parent_iter(v, n, 1 + k) == Some(c));
                    assert(reaches(v, n, c));
                }
            }
            lemma_attach_acyclic(v, w, c, p);
        }
        None => {
            assert forall |m: int| #[trigger] pstep(v, m) == pstep(w, m) by {
                if m == c {
                    assert(pstep(v, c) is None);
                    assert(w.parent[c] is None);
                }
            }
            assert forall |x: int, k: nat| 1 <= k implies
                #[trigger] parent_iter(w, x, k) != Some(x) by {
                lemma_iter_all_agree(v, w, x, k);
            }
        }
    }
}

/// Detaching a live node preserves well-formedness of the view.
pub proof fn lemma_detach_model_inv(v: TreeView, c: int)
    requires
        inv(v),
        v.live.contains(c),
    ensures
        inv(detach_model(v, c)),
{
    let w = detach_model(v, c);
    let s = v.chain[c];
    let k = chain_pos(v, c);
    let s1 = s.remove(k);
    assert(chain_ok(v, c));
    assert(s.contains(c));
    assert(0 <= k < s.len() && s[k] == c);
    s.remove_ensures(k);
    lemma_remove_nodup(s, k);

    // members of s are live, share c's parent, and their chain is s
    assert forall |j: int| 0 <= j < s.len() implies
        v.live.contains(#[trigger] s[j]) && v.chain[s[j]] == s && v.parent[s[j]] == v.parent[c]
    by {}

    // when c has a parent p, p is not itself a member of s
    match v.parent[c] {
        Some(p) => {
            assert(parent_ok(v, c));
            if s.contains(p) {
                assert(v.parent[p] == v.parent[c]);
                assert(parent_ok(v, p));
                assert(false);
            }
        }
        None => {}
    }

    assert(w.parent.dom() =~= w.live);
    assert(w.chain.dom() =~= w.live);
    assert(w.kids.dom() =~= w.live);
    assert(w.data.dom() =~= w.live);

    assert forall |m: int| w.live.contains(m) implies #[trigger] chain_ok(w, m) by {
        if m == c {
            assert(w.chain[c] == seq![c]);
            assert(w.chain[c][0] == c);
            assert(w.chain[c].contains(c));
            assert(w.chain[c].no_duplicates());
        } else if v.chain[m] == s {
            assert(chain_ok(v, m));
            assert(s.contains(m));
            assert(w.chain[m] == s1);
            assert(s1.contains(m));
            assert forall |j: int| 0 <= j < s1.len() implies
                w.live.contains(#[trigger] s1[j]) && w.chain[s1[j]] == s1
                && w.parent[s1[j]] == w.parent[m]
            by {
                assert(s1.contains(s1[j]));
                assert(s.contains(s1[j]) && s1[j] != c);
                assert(v.chain[s1[j]] == s);
                assert(v.parent[s1[j]] == v.parent[c]);
                assert(v.parent[m] == v.parent[c]);
            }
        } else {
            assert(chain_ok(v, m));
            let t = v.chain[m];
            assert(w.chain[m] == t);
            assert forall |j: int| 0 <= j < t.len() implies
                w.live.contains(#[trigger] t[j]) && w.chain[t[j]] == t
                && w.parent[t[j]] == w.parent[m]
            by {
                assert(v.chain[t[j]] == t);
                if t[j] == c {
                    assert(v.chain[c] == t);
                    assert(false);
                }
                assert(v.parent[t[j]] == v.parent[m]);
                if v.parent[m] == Some(c) || m == c {
                }
                if m == c {
                    assert(false);
                }
            }
            // m's own parent entry: unchanged since m != c
        }
    }

    assert forall |m: int| w.live.contains(m) implies #[trigger] parent_ok(w, m) by {
        if m == c {
            assert(w.parent[c] is None);
        } else {
            assert(parent_ok(v, m));
            assert(chain_ok(v, m));
            match v.parent[m] {
                Some(q) => {
                    assert(w.parent[m] == Some(q));
                    if v.parent[c] == Some(q) {
                        // m is a sibling of c
                        assert(v.kids[q] == v.chain[c]);
                        assert(v.kids[q] == v.chain[m]);
                        assert(v.chain[m] == s);
                        assert(w.kids[q] == s1);
                        assert(w.chain[m] == s1);
                    } else {
                        assert(w.kids[q] == v.kids[q]);
                        if v.chain[m] == s {
                            assert(s.contains(m));
                            assert(v.parent[m] == v.parent[c]);
                            assert(false);
                        }
                        assert(w.chain[m] == v.chain[m]);
                    }
                }
                None => {}
            }
        }
    }

    assert forall |m: int| w.live.contains(m) implies #[trigger] kids_ok(w, m) by {
        if v.parent[c] == Some(m) {
            assert(parent_ok(v, c));
            assert(v.kids[m] == s);
            assert(w.kids[m] == s1);
            assert forall |j: int| 0 <= j < s1.len() implies
                w.live.contains(#[trigger] s1[j]) && w.parent[s1[j]] == Some(m)
                && w.chain[s1[j]] == s1
            by {
                assert(s1.contains(s1[j]));
                assert(s.contains(s1[j]) && s1[j] != c);
                assert(v.chain[s1[j]] == s);
                assert(v.parent[s1[j]] == v.parent[c]);
            }
        } else {
            assert(kids_ok(v, m));
            let t = v.kids[m];
            assert(w.kids[m] == t);
            assert forall |j: int| 0 <= j < t.len() implies
                w.live.contains(#[trigger] t[j]) && w.parent[t[j]] == Some(m)
                && w.chain[t[j]] == t
            by {
                assert(v.parent[t[j]] == Some(m));
                if t[j] == c {
                    assert(false);
                }
                if v.chain[t[j]] == s {
                    assert(s.contains(t[j]));
                    assert(v.parent[t[j]] == v.parent[c]);
                    assert(false);
                }
            }
        }
    }

    assert forall |m: int| w.live.contains(m) implies data_view_wf(#[trigger] w.data[m]) by {
        assert(data_view_wf(v.data[m]));
    }

    assert forall |m: int| m != c implies #[trigger] pstep(v, m) == pstep(w, m) by {}
    assert(pstep(w, c) is None);
    lemma_remove_edge_acyclic(v, w, c);
}

/// Adding a fresh, detached, childless node preserves well-formedness.
proof fn lemma_add_node_model_inv(v: TreeView, n: int, d: DataView)
    requires
        inv(v),
        !v.live.contains(n),
        data_view_wf(d),
    ensures
        inv(add_node_model(v, n, d)),
{
    let w = add_node_model(v, n, d);
    assert(w.parent.dom() =~= w.live);
    assert(w.chain.dom() =~= w.live);
    assert(w.kids.dom() =~= w.live);
    assert(w.data.dom() =~= w.live);

    assert forall |m: int| w.live.contains(m) implies #[trigger] chain_ok(w, m) by {
        if m == n {
            assert(w.chain[n] == seq![n]);
            assert(w.chain[n][0] == n);
            assert(w.chain[n].contains(n));
            assert(w.chain[n].no_duplicates());
        } else {
            assert(chain_ok(v, m));
            let s = v.chain[m];
            assert(w.chain[m] == s);
            assert forall |j: int| 0 <= j < s.len() implies #[trigger] s[j] != n by {
                assert(v.live.contains(s[j]));
            }
        }
    }
    assert forall |m: int| w.live.contains(m) implies #[trigger] parent_ok(w, m) by {
        if m == n {
        } else {
            assert(parent_ok(v, m));
            match v.parent[m] {
                Some(p) => {
                    assert(v.live.contains(p));
                    assert(p != n);
                }
                None => {}
            }
        }
    }
    assert forall |m: int| w.live.contains(m) implies #[trigger] kids_ok(w, m) by {
        if m == n {
        } else {
            assert(kids_ok(v, m));
            let t = v.kids[m];
            assert(w.kids[m] == t);
            assert forall |j: int| 0 <= j < t.len() implies #[trigger] t[j] != n by {
                assert(v.live.contains(t[j]));
            }
        }
    }
    assert forall |m: int| w.live.contains(m) implies data_view_wf(#[trigger] w.data[m]) by {
        if m != n {
            assert(data_view_wf(v.data[m]));
        }
    }
    assert forall |m: int| #[trigger] pstep(v, m) == pstep(w, m) by {
        if m == n {
            assert(pstep(v, n) is None);
            assert(w.parent[n] is None);
        }
    }
    assert forall |x: int, k: nat| 1 <= k implies #[trigger] parent_iter(w, x, k) != Some(x) by {
        lemma_iter_all_agree(v, w, x, k);
    }
}

// ---------------------------------------------------------------------------
// Subtrees
// ---------------------------------------------------------------------------

/// The nodes of the subtree rooted at `n`: everything that can walk up to
/// `n`.
pub open spec fn subtree_set(v: TreeView, n: int) -> Set<int> {
    Set::new(|x: int| v.live.contains(x) && reaches(v, x, n))
}

pub open spec fn subtree_size(v: TreeView, n: int) -> nat {
    subtree_set(v, n).len()
}

/// The subtree of a live node is a finite, nonempty subset of the live
/// nodes.
pub proof fn lemma_subtree_finite(v: TreeView, n: int)
    requires
        inv(v),
        v.live.contains(n),
    ensures
        subtree_set(v, n).finite(),
        subtree_set(v, n).contains(n),
        subtree_size(v, n) >= 1,
{
    assert(subtree_set(v, n).subset_of(v.live));
    vstd::set_lib::lemma_len_subset(subtree_set(v, n), v.live);
    assert(parent_iter(v, n, 0nat) == Some(n));
    assert(subtree_set(v, n).contains(n));
    if subtree_set(v, n).len() == 0 {
        vstd::set_lib::lemma_set_empty_equivalency_len(subtree_set(v, n));
        assert(subtree_set(v, n) =~= Set::<int>::empty());
    }
}

/// A child's subtree sits strictly inside its parent's.
pub proof fn lemma_child_subtree_smaller(v: TreeView, n: int, c: int)
    requires
        inv(v),
        v.live.contains(n),
        v.live.contains(c),
        v.parent[c] == Some(n),
    ensures
        subtree_set(v, c).subset_of(subtree_set(v, n)),
        subtree_size(v, c) < subtree_size(v, n),
        !subtree_set(v, c).contains(n),
{
    lemma_subtree_finite(v, n);
    lemma_subtree_finite(v, c);
    assert forall |x: int| subtree_set(v, c).contains(x)
        implies subtree_set(v, n).contains(x) by {
        let k = choose |k: nat| parent_iter(v, x, k) == Some(c);
        lemma_iter_compose(v, x, k, 1);
        assert(parent_iter(v, c, 0nat) == Some(c));
        assert(parent_iter(v, c, 0nat + 1) == pstep(v, c));
        assert(parent_iter(v, x, k + 1) == Some(n));
    }
    // n itself is not in c's subtree
    assert(!subtree_set(v, c).contains(n)) by {
        if reaches(v, n, c) {
            let k = choose |k: nat| parent_iter(v, n, k) == Some(c);
            assert(k != 0) by {
                if k == 0 {
                    assert(parent_iter(v, n, 0nat) == Some(n));
                    assert(n == c);
                    assert(v.parent[c] == Some(c));
                    assert(parent_ok(v, c));
                }
            }
            lemma_iter_compose(v, n, k, 1);
            assert(parent_iter(v, c, 0nat) == Some(c));
            assert(parent_iter(v, c, 0nat + 1) == pstep(v, c));
            assert(parent_iter(v, n, k + 1) == Some(n));
        }
    }
    assert(subtree_set(v, c).subset_of(subtree_set(v, n).remove(n)));
    vstd::set_lib::lemma_len_subset(subtree_set(v, c), subtree_set(v, n).remove(n));
}

/// Splitting a walk to a strict descendant: it passes through a child.
pub proof fn lemma_reaches_through_child(v: TreeView, x: int, n: int)
    requires
        inv(v),
        v.live.contains(x),
        v.live.contains(n),
        reaches(v, x, n),
        x != n,
    ensures
        exists |c: int| #[trigger] v.kids[n].contains(c) && reaches(v, x, c),
{
    let k0 = choose |k: nat| parent_iter(v, x, k) == Some(n);
    let k = lemma_first_hit(v, x, n, k0);
    assert(k != 0) by {
        if k == 0 {
            assert(parent_iter(v, x, 0nat) == Some(x));
        }
    }
    let y = parent_iter(v, x, (k - 1) as nat);
    assert(y is Some) by {
        if y is None {
            assert(parent_iter(v, x, k) is None);
        }
    }
    let yi = y->0;
    assert(pstep(v, yi) == Some(n));
    assert(v.live.contains(yi));
    assert(v.parent[yi] == Some(n));
    assert(parent_ok(v, yi));
    assert(v.kids[n] == v.chain[yi]);
    assert(chain_ok(v, yi));
    assert(v.kids[n].contains(yi));
    assert(reaches(v, x, yi));
}


/// The subtree nodes in preorder: a node before its descendants.
pub open spec fn descendant_seq_node(v: TreeView, n: int, fuel: nat) -> Seq<int>
    decreases fuel, 0int, 0int,
{
    if fuel == 0 {
        Seq::empty()
    } else {
        seq![n] + descendant_seq_list(v, v.kids[n], (fuel - 1) as nat)
    }
}

pub open spec fn descendant_seq_list(v: TreeView, ns: Seq<int>, fuel: nat) -> Seq<int>
    decreases fuel, 1int, ns.len(),
{
    if ns.len() == 0 {
        Seq::empty()
    } else {
        descendant_seq_node(v, ns[0], fuel) + descendant_seq_list(v, ns.drop_first(), fuel)
    }
}

/// The nodes of the subtree of `n` in preorder, `n` first.
pub open spec fn descendants_of(v: TreeView, n: int) -> Seq<int> {
    descendant_seq_node(v, n, subtree_size(v, n))
}

/// Membership in a concatenation.
proof fn lemma_seq_contains_add(a: Seq<int>, b: Seq<int>, x: int)
    ensures
        (a + b).contains(x) <==> (a.contains(x) || b.contains(x)),
{
    if (a + b).contains(x) {
        let i = choose |i: int| 0 <= i < (a + b).len() && (a + b)[i] == x;
        if i < a.len() {
            assert(a[i] == x);
        } else {
            assert(b[i - a.len()] == x);
        }
    }
    if a.contains(x) {
        let i = choose |i: int| 0 <= i < a.len() && a[i] == x;
        assert((a + b)[i] == x);
    }
    if b.contains(x) {
        let i = choose |i: int| 0 <= i < b.len() && b[i] == x;
        assert((a + b)[a.len() + i] == x);
    }
}

proof fn lemma_desc_members_list(v: TreeView, p: int, off: int, fuel: nat)
    requires
        inv(v),
        v.live.contains(p),
        0 <= off < v.kids[p].len(),
        forall |i: int| off <= i < v.kids[p].len()
            ==> subtree_size(v, #[trigger] v.kids[p][i]) <= fuel,
    ensures
        forall |x: int| #[trigger] descendant_seq_list(v, v.kids[p].skip(off), fuel).contains(x)
            <==> (v.live.contains(x) && exists |j: int| off <= j < v.kids[p].len()
                && reaches(v, x, #[trigger] v.kids[p][j])),
    decreases fuel, 1int, v.kids[p].len() - off,
{
    let t = v.kids[p];
    let ns = t.skip(off);
    assert(kids_ok(v, p));
    let c0 = t[off];
    assert(ns[0] == c0);
    assert(v.live.contains(c0) && v.parent[c0] == Some(p));
    lemma_subtree_finite(v, c0);
    lemma_desc_members_node(v, c0, fuel);
    let d0 = descendant_seq_node(v, c0, fuel);
    if off == t.len() - 1 {
        assert(ns.drop_first() =~= Seq::<int>::empty());
        assert(descendant_seq_list(v, ns.drop_first(), fuel) =~= Seq::<int>::empty()) by {
            assert(ns.drop_first().len() == 0);
        }
        let ds = descendant_seq_list(v, ns, fuel);
        assert(ds == d0 + descendant_seq_list(v, ns.drop_first(), fuel));
        assert(ds =~= d0);
        assert forall |x: int| ds.contains(x)
            <==> (v.live.contains(x) && exists |j: int| off <= j < t.len()
                && reaches(v, x, #[trigger] t[j])) by {
            if ds.contains(x) {
                assert(reaches(v, x, t[off]));
            }
            if v.live.contains(x) && exists |j: int| off <= j < t.len()
                && reaches(v, x, #[trigger] t[j]) {
                let j = choose |j: int| off <= j < t.len() && reaches(v, x, #[trigger] t[j]);
                assert(j == off);
                assert(d0.contains(x));
            }
        }
    } else {
        lemma_desc_members_list(v, p, off + 1, fuel);
        let ns1 = t.skip(off + 1);
        assert(ns.drop_first() =~= ns1);
        let d1 = descendant_seq_list(v, ns1, fuel);
        let ds = descendant_seq_list(v, ns, fuel);
        assert(ds == d0 + d1);
        assert forall |x: int| ds.contains(x)
            <==> (v.live.contains(x) && exists |j: int| off <= j < t.len()
                && reaches(v, x, #[trigger] t[j])) by {
            lemma_seq_contains_add(d0, d1, x);
            if ds.contains(x) {
                if d0.contains(x) {
                    assert(reaches(v, x, t[off]));
                } else {
                    assert(d1.contains(x));
                }
            }
            if v.live.contains(x) && exists |j: int| off <= j < t.len()
                && reaches(v, x, #[trigger] t[j]) {
                let j = choose |j: int| off <= j < t.len() && reaches(v, x, #[trigger] t[j]);
                if j == off {
                    assert(d0.contains(x));
                } else {
                    assert(d1.contains(x));
                }
            }
        }
    }
}

proof fn lemma_desc_members_node(v: TreeView, n: int, fuel: nat)
    requires
        inv(v),
        v.live.contains(n),
        subtree_size(v, n) <= fuel,
    ensures
        forall |x: int| #[trigger] descendant_seq_node(v, n, fuel).contains(x)
            <==> (v.live.contains(x) && reaches(v, x, n)),
    decreases fuel, 0int, 0int,
{
    lemma_subtree_finite(v, n);
    assert(fuel >= 1);
    let t = v.kids[n];
    assert(kids_ok(v, n));
    let ds = descendant_seq_node(v, n, fuel);
    let dl = descendant_seq_list(v, t, (fuel - 1) as nat);
    assert(ds == seq![n] + dl);
    assert(parent_iter(v, n, 0nat) == Some(n));
    if t.len() == 0 {
        assert(dl =~= Seq::<int>::empty()) by {
            assert(t.len() == 0);
        }
        assert forall |x: int| ds.contains(x)
            <==> (v.live.contains(x) && reaches(v, x, n)) by {
            lemma_seq_contains_add(seq![n], dl, x);
            if x == n {
                assert(seq![n][0] == n);
                assert(seq![n].contains(n));
            }
            if seq![n].contains(x) {
                assert(x == n);
            }
            if v.live.contains(x) && reaches(v, x, n) && x != n {
                lemma_reaches_through_child(v, x, n);
                let c = choose |c: int| #[trigger] v.kids[n].contains(c) && reaches(v, x, c);
                assert(false);
            }
        }
    } else {
        assert forall |i: int| 0 <= i < t.len() implies
            subtree_size(v, #[trigger] t[i]) <= (fuel - 1) as nat by {
            assert(v.live.contains(t[i]) && v.parent[t[i]] == Some(n));
            lemma_child_subtree_smaller(v, n, t[i]);
        }
        lemma_desc_members_list(v, n, 0, (fuel - 1) as nat);
        assert(t.skip(0) =~= t);
        assert forall |x: int| ds.contains(x)
            <==> (v.live.contains(x) && reaches(v, x, n)) by {
            lemma_seq_contains_add(seq![n], dl, x);
            if x == n {
                assert(seq![n][0] == n);
                assert(seq![n].contains(n));
            }
            if seq![n].contains(x) {
                assert(x == n);
            }
            if dl.contains(x) {
                assert(dl == descendant_seq_list(v, v.kids[n].skip(0), (fuel - 1) as nat));
                assert(descendant_seq_list(v, v.kids[n].skip(0), (fuel - 1) as nat).contains(x));
                let j = choose |j: int| 0 <= j < v.kids[n].len()
                    && reaches(v, x, #[trigger] v.kids[n][j]);
                assert(v.parent[v.kids[n][j]] == Some(n));
                let k = choose |k: nat| parent_iter(v, x, k) == Some(v.kids[n][j]);
                lemma_iter_compose(v, x, k, 1);
                assert(parent_iter(v, v.kids[n][j], 0nat) == Some(v.kids[n][j]));
                assert(parent_iter(v, v.kids[n][j], 0nat + 1) == pstep(v, v.kids[n][j]));
                assert(parent_iter(v, x, k + 1) == Some(n));
            }
            if v.live.contains(x) && reaches(v, x, n) && x != n {
                lemma_reaches_through_child(v, x, n);
                let c = choose |c: int| #[trigger] v.kids[n].contains(c) && reaches(v, x, c);
                let j = choose |j: int| 0 <= j < v.kids[n].len()
                    && #[trigger] v.kids[n][j] == c;
                assert(reaches(v, x, v.kids[n][j]));
                assert(exists |jj: int| 0 <= jj < v.kids[n].len()
                    && reaches(v, x, #[trigger] v.kids[n][jj]));
                assert(descendant_seq_list(v, v.kids[n].skip(0), (fuel - 1) as nat).contains(x));
                assert(dl == descendant_seq_list(v, v.kids[n].skip(0), (fuel - 1) as nat));
                assert(dl.contains(x));
            }
        }
    }
}

/// The preorder node sequence of a subtree holds exactly the subtree's
/// nodes.
pub proof fn lemma_descendants_members(v: TreeView, n: int)
    requires
        inv(v),
        v.live.contains(n),
    ensures
        forall |x: int| #[trigger] descendants_of(v, n).contains(x)
            <==> (v.live.contains(x) && reaches(v, x, n)),
{
    lemma_desc_members_node(v, n, subtree_size(v, n));
    assert forall |x: int| #[trigger] descendants_of(v, n).contains(x)
        <==> (v.live.contains(x) && reaches(v, x, n)) by {
        assert(descendants_of(v, n) == descendant_seq_node(v, n, subtree_size(v, n)));
        if descendant_seq_node(v, n, subtree_size(v, n)).contains(x) {
        }
        if v.live.contains(x) && reaches(v, x, n) {
            assert(descendant_seq_node(v, n, subtree_size(v, n)).contains(x));
        }
    }
}

// ---------------------------------------------------------------------------
// Reclamation
// ---------------------------------------------------------------------------

/// Reclaiming a fully detached node frees it together with its whole
/// subtree: those slots stop being live and every map forgets them.
pub open spec fn reclaim_model(v: TreeView, c: int) -> TreeView {
    let dead = subtree_set(v, c);
    TreeView {
        live: v.live.difference(dead),
        parent: Map::new(|i: int| v.live.contains(i) && !dead.contains(i), |i: int| v.parent[i]),
        chain: Map::new(|i: int| v.live.contains(i) && !dead.contains(i), |i: int| v.chain[i]),
        kids: Map::new(|i: int| v.live.contains(i) && !dead.contains(i), |i: int| v.kids[i]),
        data: Map::new(|i: int| v.live.contains(i) && !dead.contains(i), |i: int| v.data[i]),
    }
}

/// A walk that succeeds after steps were removed already succeeded before.
proof fn lemma_iter_sub_general(v1: TreeView, v2: TreeView, x: int, k: nat, y: int)
    requires
        forall |m: int| #[trigger] pstep(v2, m) is None || pstep(v2, m) == pstep(v1, m),
        parent_iter(v2, x, k) == Some(y),
    ensures
        parent_iter(v1, x, k) == Some(y),
    decreases k,
{
    if k == 0 {
    } else {
        match parent_iter(v2, x, (k - 1) as nat) {
            Some(m) => {
                lemma_iter_sub_general(v1, v2, x, (k - 1) as nat, m);
                assert(pstep(v2, m) == Some(y));
            }
            None => {
                assert(false);
            }
        }
    }
}

/// A strict member of a detached subtree has a parent inside the subtree.
proof fn lemma_dead_parent_dead(v: TreeView, c: int, x: int)
    requires
        inv(v),
        v.live.contains(c),
        subtree_set(v, c).contains(x),
        x != c,
    ensures
        match v.parent[x] {
            Some(q) => subtree_set(v, c).contains(q),
            None => false,
        },
{
    let k = choose |k: nat| parent_iter(v, x, k) == Some(c);
    assert(k != 0) by {
        if k == 0 {
            assert(parent_iter(v, x, 0nat) == Some(x));
        }
    }
    match v.parent[x] {
        Some(q) => {
            assert(pstep(v, x) == Some(q));
            assert(parent_iter(v, x, 0nat) == Some(x));
            assert(parent_iter(v, x, 0nat + 1) == pstep(v, x));
            lemma_iter_compose(v, x, 1, (k - 1) as nat);
            assert(parent_iter(v, q, (k - 1) as nat) == Some(c));
            assert(parent_ok(v, x));
        }
        None => {
            assert(pstep(v, x) is None);
            lemma_stuck(v, x, k);
            assert(false);
        }
    }
}

/// A surviving node keeps all of its relatives when a detached subtree is
/// reclaimed: its chain members, its children and its parent all survive.
pub proof fn lemma_reclaim_survivors(v: TreeView, c: int, m: int)
    requires
        inv(v),
        v.live.contains(c),
        v.parent[c] is None,
        v.chain[c] == seq![c as int],
        v.live.contains(m),
        !subtree_set(v, c).contains(m),
    ensures
        forall |j: int| 0 <= j < v.chain[m].len()
            ==> !subtree_set(v, c).contains(#[trigger] v.chain[m][j]),
        forall |j: int| 0 <= j < v.kids[m].len()
            ==> !subtree_set(v, c).contains(#[trigger] v.kids[m][j]),
        match v.parent[m] {
            Some(p) => !subtree_set(v, c).contains(p),
            None => true,
        },
{
    assert(chain_ok(v, m));
    assert(kids_ok(v, m));
    assert(parent_ok(v, m));
    assert forall |j: int| 0 <= j < v.chain[m].len()
        implies !subtree_set(v, c).contains(#[trigger] v.chain[m][j]) by {
        let x = v.chain[m][j];
        if subtree_set(v, c).contains(x) {
            if x == c {
                assert(v.chain[c] == v.chain[m]);
                assert(seq![c as int].contains(m)) by {
                    assert(v.chain[m].contains(m));
                }
                let im = choose |i: int| 0 <= i < seq![c as int].len() && seq![c as int][i] == m;
                assert(m == c);
                assert(subtree_set(v, c).contains(c)) by {
                    assert(parent_iter(v, c, 0nat) == Some(c));
                }
                assert(false);
            } else {
                lemma_dead_parent_dead(v, c, x);
                let q = v.parent[x]->0;
                assert(v.parent[m] == v.parent[x]);
                // m has the same parent, which is inside the subtree, so m
                // is inside as well
                let kq = choose |k: nat| parent_iter(v, q, k) == Some(c);
                assert(pstep(v, m) == Some(q));
                assert(parent_iter(v, m, 0nat) == Some(m));
                assert(parent_iter(v, m, 0nat + 1) == pstep(v, m));
                lemma_iter_compose(v, m, 1, kq);
                assert(parent_iter(v, m, 1 + kq) == Some(c));
                assert(false);
            }
        }
    }
    assert forall |j: int| 0 <= j < v.kids[m].len()
        implies !subtree_set(v, c).contains(#[trigger] v.kids[m][j]) by {
        let y = v.kids[m][j];
        assert(v.parent[y] == Some(m));
        if subtree_set(v, c).contains(y) {
            if y == c {
                assert(false);
            } else {
                lemma_dead_parent_dead(v, c, y);
                assert(subtree_set(v, c).contains(m));
            }
        }
    }
    match v.parent[m] {
        Some(p) => {
            if subtree_set(v, c).contains(p) {
                let kp = choose |k: nat| parent_iter(v, p, k) == Some(c);
                assert(pstep(v, m) == Some(p));
                assert(parent_iter(v, m, 0nat) == Some(m));
                assert(parent_iter(v, m, 0nat + 1) == pstep(v, m));
                lemma_iter_compose(v, m, 1, kp);
                assert(parent_iter(v, m, 1 + kp) == Some(c));
            }
        }
        None => {}
    }
}

/// Reclaiming a fully detached node preserves well-formedness of the view.
pub proof fn lemma_reclaim_model_inv(v: TreeView, c: int)
    requires
        inv(v),
        v.live.contains(c),
        v.parent[c] is None,
        v.chain[c] == seq![c as int],
    ensures
        inv(reclaim_model(v, c)),
{
    let w = reclaim_model(v, c);
    let dead = subtree_set(v, c);
    assert(w.live.finite()) by {
        assert(w.live.subset_of(v.live));
        vstd::set_lib::lemma_len_subset(w.live, v.live);
    }
    assert(w.parent.dom() =~= w.live);
    assert(w.chain.dom() =~= w.live);
    assert(w.kids.dom() =~= w.live);
    assert(w.data.dom() =~= w.live);

    assert forall |m: int| w.live.contains(m) implies #[trigger] chain_ok(w, m) by {
        assert(chain_ok(v, m));
        lemma_reclaim_survivors(v, c, m);
        let s = v.chain[m];
        assert(w.chain[m] == s);
        assert forall |j: int| 0 <= j < s.len() implies
            w.live.contains(#[trigger] s[j]) && w.chain[s[j]] == s
            && w.parent[s[j]] == w.parent[m] by {
            assert(!dead.contains(s[j]));
            assert(v.chain[s[j]] == s);
            assert(v.parent[s[j]] == v.parent[m]);
        }
    }
    assert forall |m: int| w.live.contains(m) implies #[trigger] parent_ok(w, m) by {
        assert(parent_ok(v, m));
        lemma_reclaim_survivors(v, c, m);
        match v.parent[m] {
            Some(p) => {
                assert(!dead.contains(p));
                assert(w.kids[p] == v.kids[p]);
                assert(w.chain[m] == v.chain[m]);
            }
            None => {}
        }
    }
    assert forall |m: int| w.live.contains(m) implies #[trigger] kids_ok(w, m) by {
        assert(kids_ok(v, m));
        lemma_reclaim_survivors(v, c, m);
        let t = v.kids[m];
        assert(w.kids[m] == t);
        assert forall |j: int| 0 <= j < t.len() implies
            w.live.contains(#[trigger] t[j]) && w.parent[t[j]] == Some(m)
            && w.chain[t[j]] == t by {
            assert(!dead.contains(t[j]));
            assert(v.parent[t[j]] == Some(m));
            assert(v.chain[t[j]] == t);
        }
    }
    assert forall |m: int| w.live.contains(m) implies data_view_wf(#[trigger] w.data[m]) by {
        assert(data_view_wf(v.data[m]));
    }
    assert forall |m: int| #[trigger] pstep(w, m) is None || pstep(w, m) == pstep(v, m) by {
        if w.live.contains(m) {
            assert(pstep(w, m) == v.parent[m]);
        }
    }
    assert forall |n: int, k: nat| 1 <= k implies #[trigger] parent_iter(w, n, k) != Some(n) by {
        if parent_iter(w, n, k) == Some(n) {
            lemma_iter_sub_general(v, w, n, k, n);
        }
    }
}


} // verus!
