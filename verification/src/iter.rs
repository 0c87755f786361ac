//! Node iterators: ancestors, siblings, descendants, and the edge-based
//! preorder traversal.
//!
//! All iterators are pull-based cursors over a [`Tree`].  The edge
//! traversal yields a `Start` edge before a node's children and an `End`
//! edge after them (open-tag / close-tag order); the descendant iterator
//! and the serializer are built on it.  The abstract edge sequence of a
//! subtree is [`edges`], and [`lemma_edge_steps`] shows that following the
//! link-at-a-time advance rule walks exactly that sequence.
//!
//! The sibling range is double-ended ([`Siblings::next`] from the front,
//! [`Siblings::next_back`] from the back); for the preceding-sibling
//! ranges, walking with `next_back` visits the closest sibling first.  The
//! edge and descendant cursors walk forward only — a traversal restarts by
//! re-invoking its constructor, which is all the restart the tree promises
//! anyway.

use vstd::prelude::*;
use crate::tree::{
    Tree, TreeView, NodeRef, inv, reaches, parent_iter, pstep, chain_ok, parent_ok, kids_ok,
    chain_pos, opt_ref_view, lemma_iter_compose, lemma_chain_pos_unique, subtree_set,
    subtree_size, lemma_subtree_finite, lemma_child_subtree_smaller, descendant_seq_node,
    descendant_seq_list, descendants_of, reclaim_model,
};

verus! {

// ---------------------------------------------------------------------------
// The abstract edge sequence
// ---------------------------------------------------------------------------

/// One edge of the preorder traversal: the start (open tag) or end (close
/// tag) of a node.
#[derive(Clone, Copy, PartialEq, Eq, Structural, Debug)]
pub enum NodeEdge {
    /// The start of a node, yielded before its descendants.
    Start(NodeRef),
    /// The end of a node, yielded after its descendants.
    End(NodeRef),
}

/// Abstract value of one traversal edge.
#[verifier::ext_equal]
pub enum EdgeView {
    Start(int),
    End(int),
}

impl View for NodeEdge {
    type V = EdgeView;

    open spec fn view(&self) -> EdgeView {
        match self {
            NodeEdge::Start(n) => EdgeView::Start(n.id as int),
            NodeEdge::End(n) => EdgeView::End(n.id as int),
        }
    }
}

/// The node an edge belongs to.
pub open spec fn edge_node(e: EdgeView) -> int {
    match e {
        EdgeView::Start(n) => n,
        EdgeView::End(n) => n,
    }
}

/// The edge sequence of the subtree rooted at `n`, with explicit recursion
/// fuel.
pub open spec fn edge_seq_node(v: TreeView, n: int, fuel: nat) -> Seq<EdgeView>
    decreases fuel, 0int, 0int,
{
    if fuel == 0 {
        Seq::empty()
    } else {
        seq![EdgeView::Start(n)] + edge_seq_list(v, v.kids[n], (fuel - 1) as nat)
            + seq![EdgeView::End(n)]
    }
}

/// The concatenated edge sequences of a list of subtrees.
pub open spec fn edge_seq_list(v: TreeView, ns: Seq<int>, fuel: nat) -> Seq<EdgeView>
    decreases fuel, 1int, ns.len(),
{
    if ns.len() == 0 {
        Seq::empty()
    } else {
        edge_seq_node(v, ns[0], fuel) + edge_seq_list(v, ns.drop_first(), fuel)
    }
}

/// The edge sequence of the subtree rooted at `n`: start and end edges in
/// depth-first order, the start of a node before its children, its end
/// after them.
pub open spec fn edges(v: TreeView, n: int) -> Seq<EdgeView> {
    edge_seq_node(v, n, subtree_size(v, n))
}

/// The advance rule of the edge traversal: from the start of a node to its
/// first child (or its own end), from the end of a node to its next
/// sibling's start (or its parent's end).
pub open spec fn edge_step(v: TreeView, e: EdgeView) -> Option<EdgeView> {
    match e {
        EdgeView::Start(n) => if v.kids[n].len() > 0 {
            Some(EdgeView::Start(v.kids[n][0]))
        } else {
            Some(EdgeView::End(n))
        },
        EdgeView::End(n) => match next_in_chain(v, n) {
            Some(m) => Some(EdgeView::Start(m)),
            None => match v.parent[n] {
                Some(p) => Some(EdgeView::End(p)),
                None => None,
            },
        },
    }
}

/// The next sibling of a node, if any.
pub open spec fn next_in_chain(v: TreeView, n: int) -> Option<int> {
    let s = v.chain[n];
    let k = chain_pos(v, n);
    if k == s.len() - 1 {
        None
    } else {
        Some(s[k + 1])
    }
}

/// The previous sibling of a node, if any.
pub open spec fn prev_in_chain(v: TreeView, n: int) -> Option<int> {
    let s = v.chain[n];
    let k = chain_pos(v, n);
    if k == 0 {
        None
    } else {
        Some(s[k - 1])
    }
}

/// What it means for a sequence of edges to be the well-formed traversal of
/// the subtree at `n`: it starts with `Start(n)`, ends with `End(n)`,
/// follows the advance rule at every step, mentions only live subtree
/// nodes, and mentions `n` itself only at its two ends.
pub open spec fn edge_run_ok(v: TreeView, n: int, es: Seq<EdgeView>) -> bool {
    &&& es.len() >= 2
    &&& es[0] == EdgeView::Start(n)
    &&& es.last() == EdgeView::End(n)
    &&& forall |i: int| 0 <= i < es.len() - 1 ==> Some(#[trigger] es[i + 1]) == edge_step(v, es[i])
    &&& forall |i: int| 0 <= i < es.len() ==> v.live.contains(edge_node(#[trigger] es[i]))
        && reaches(v, edge_node(es[i]), n)
    &&& forall |i: int| 0 < i < es.len() - 1 ==> edge_node(#[trigger] es[i]) != n
}

proof fn lemma_edge_steps_list(v: TreeView, p: int, off: int, fuel: nat)
    requires
        inv(v),
        v.live.contains(p),
        0 <= off < v.kids[p].len(),
        forall |i: int| off <= i < v.kids[p].len()
            ==> subtree_size(v, #[trigger] v.kids[p][i]) <= fuel,
    ensures
        ({
            let ns = v.kids[p].skip(off);
            let es = edge_seq_list(v, ns, fuel);
            &&& es.len() >= 2
            &&& es[0] == EdgeView::Start(ns[0])
            &&& es.last() == EdgeView::End(ns.last())
            &&& forall |i: int| 0 <= i < es.len() - 1 ==> Some(#[trigger] es[i + 1]) == edge_step(v, es[i])
            &&& forall |i: int| 0 <= i < es.len() ==> v.live.contains(edge_node(#[trigger] es[i]))
                && (exists |c: int| #[trigger] v.kids[p].contains(c) && reaches(v, edge_node(es[i]), c))
        }),
    decreases fuel, 1int, v.kids[p].len() - off,
{
    reveal_with_fuel(edge_seq_list, 3);
    reveal_with_fuel(edge_seq_node, 3);
    let t = v.kids[p];
    let ns = t.skip(off);
    assert(kids_ok(v, p));
    let c0 = t[off];
    assert(ns[0] == c0);
    assert(v.live.contains(c0) && v.parent[c0] == Some(p) && v.chain[c0] == t);
    lemma_subtree_finite(v, c0);
    assert(subtree_size(v, c0) >= 1);
    assert(subtree_size(v, c0) <= fuel);
    lemma_edge_steps_node(v, c0, fuel);
    let e0 = edge_seq_node(v, c0, fuel);
    assert(edge_run_ok(v, c0, e0));
    // position of c0 in its chain t
    assert(chain_ok(v, c0));
    assert(t.no_duplicates()) by {
        assert(v.chain[c0] == t);
    }
    lemma_chain_pos_unique(v, c0, off);

    if off == t.len() - 1 {
        // last child: the list is a single subtree
        assert(ns.drop_first() =~= Seq::<int>::empty());
        let es = edge_seq_list(v, ns, fuel);
        assert(es =~= e0 + Seq::<EdgeView>::empty());
        assert(es =~= e0);
        assert forall |i: int| 0 <= i < es.len() implies
            v.live.contains(edge_node(#[trigger] es[i]))
            && (exists |c: int| #[trigger] v.kids[p].contains(c) && reaches(v, edge_node(es[i]), c)) by {
            assert(v.live.contains(edge_node(es[i])) && reaches(v, edge_node(es[i]), c0));
            assert(t.contains(c0));
        }
    } else {
        lemma_edge_steps_list(v, p, off + 1, fuel);
        let ns1 = t.skip(off + 1);
        assert(ns.drop_first() =~= ns1);
        let e1 = edge_seq_list(v, ns1, fuel);
        let es = edge_seq_list(v, ns, fuel);
        assert(es == e0 + e1);
        assert(es[0] == e0[0]);
        assert(es.last() == e1.last()) by {
            assert(es[es.len() - 1] == e1[e1.len() - 1]);
        }
        assert(ns.last() == ns1.last());
        // the junction step: End(c0) -> Start(next sibling)
        assert(next_in_chain(v, c0) == Some(t[off + 1])) by {
            assert(chain_pos(v, c0) == off);
        }
        assert forall |i: int| 0 <= i < es.len() - 1 implies
            Some(#[trigger] es[i + 1]) == edge_step(v, es[i]) by {
            assert(es == e0 + e1);
            assert(e0.len() >= 2);
            assert(edge_run_ok(v, c0, e0));
            if i < e0.len() - 1 {
                assert(es[i] == e0[i] && es[i + 1] == e0[i + 1]);
                assert(Some(e0[i + 1]) == edge_step(v, e0[i]));
            } else if i == e0.len() - 1 {
                assert(es[i] == e0[i]);
                assert(es[i] == EdgeView::End(c0));
                assert(es[i + 1] == e1[0]);
                assert(e1[0] == EdgeView::Start(ns1[0]));
                assert(ns1[0] == t[off + 1]);
            } else {
                let j = i - e0.len();
                assert(es[i] == e1[j] && es[i + 1] == e1[j + 1]);
                assert(Some(e1[j + 1]) == edge_step(v, e1[j]));
            }
        }
        assert forall |i: int| 0 <= i < es.len() implies
            v.live.contains(edge_node(#[trigger] es[i]))
            && (exists |c: int| #[trigger] v.kids[p].contains(c) && reaches(v, edge_node(es[i]), c)) by {
            if i < e0.len() {
                assert(es[i] == e0[i]);
                assert(v.live.contains(edge_node(es[i])) && reaches(v, edge_node(es[i]), c0));
                assert(t.contains(c0));
            } else {
                let j = i - e0.len();
                assert(es[i] == e1[j]);
                assert(v.live.contains(edge_node(e1[j])));
            }
        }
    }
}

proof fn lemma_edge_steps_node(v: TreeView, n: int, fuel: nat)
    requires
        inv(v),
        v.live.contains(n),
        subtree_size(v, n) <= fuel,
    ensures
        edge_run_ok(v, n, edge_seq_node(v, n, fuel)),
    decreases fuel, 0int, 0int,
{
    reveal_with_fuel(edge_seq_list, 3);
    reveal_with_fuel(edge_seq_node, 3);
    lemma_subtree_finite(v, n);
    assert(fuel >= 1);
    let t = v.kids[n];
    assert(kids_ok(v, n));
    let el = edge_seq_list(v, t, (fuel - 1) as nat);
    let es = edge_seq_node(v, n, fuel);
    assert(es == seq![EdgeView::Start(n)] + el + seq![EdgeView::End(n)]);
    assert(parent_iter(v, n, 0nat) == Some(n));
    if t.len() == 0 {
        assert(el =~= Seq::<EdgeView>::empty());
        assert(es.len() == 2);
        assert(es[0] == EdgeView::Start(n));
        assert(es[1] == EdgeView::End(n));
        assert(es.last() == EdgeView::End(n));
        assert forall |i: int| 0 <= i < es.len() - 1 implies
            Some(#[trigger] es[i + 1]) == edge_step(v, es[i]) by {
            assert(i == 0);
        }
    } else {
        // children have strictly smaller subtrees
        assert forall |i: int| 0 <= i < t.len() implies
            subtree_size(v, #[trigger] t[i]) <= (fuel - 1) as nat by {
            assert(v.live.contains(t[i]) && v.parent[t[i]] == Some(n));
            lemma_child_subtree_smaller(v, n, t[i]);
        }
        lemma_edge_steps_list(v, n, 0, (fuel - 1) as nat);
        assert(t.skip(0) =~= t);
        assert(el.len() >= 2);
        assert(el[0] == EdgeView::Start(t[0]));
        assert(el.last() == EdgeView::End(t.last()));
        assert(es[0] == EdgeView::Start(n));
        assert(es.last() == EdgeView::End(n));
        // the last child has no next sibling and its parent is n
        assert(next_in_chain(v, t.last()) is None) by {
            assert(v.chain[t.last()] == t);
            assert(chain_ok(v, t.last()));
            lemma_chain_pos_unique(v, t.last(), t.len() - 1);
        }
        assert forall |i: int| 0 <= i < es.len() - 1 implies
            Some(#[trigger] es[i + 1]) == edge_step(v, es[i]) by {
            if i == 0 {
                assert(es[1] == el[0]);
            } else if i < es.len() - 2 {
                let j = i - 1;
                assert(es[i] == el[j] && es[i + 1] == el[j + 1]);
                assert(Some(el[j + 1]) == edge_step(v, el[j]));
            } else {
                assert(es[i] == el[el.len() - 1]);
                assert(es[i] == EdgeView::End(t.last()));
                assert(v.parent[t.last()] == Some(n));
            }
        }
        assert forall |i: int| 0 <= i < es.len() implies
            v.live.contains(edge_node(#[trigger] es[i]))
            && reaches(v, edge_node(es[i]), n) by {
            if 0 < i < es.len() - 1 {
                let j = i - 1;
                assert(es[i] == el[j]);
                assert(v.live.contains(edge_node(el[j])));
                let c = choose |c: int| #[trigger] v.kids[n].contains(c)
                    && reaches(v, edge_node(el[j]), c);
                assert(v.parent[c] == Some(n));
                let k = choose |k: nat| parent_iter(v, edge_node(es[i]), k) == Some(c);
                lemma_iter_compose(v, edge_node(es[i]), k, 1);
                assert(parent_iter(v, c, 0nat) == Some(c));
                assert(parent_iter(v, c, 0nat + 1) == pstep(v, c));
                assert(parent_iter(v, edge_node(es[i]), k + 1) == Some(n));
            }
        }
        assert forall |i: int| 0 < i < es.len() - 1 implies
            edge_node(#[trigger] es[i]) != n by {
            let j = i - 1;
            assert(es[i] == el[j]);
            assert(v.live.contains(edge_node(el[j])));
            let c = choose |c: int| #[trigger] v.kids[n].contains(c)
                && reaches(v, edge_node(el[j]), c);
            if edge_node(es[i]) == n {
                // then n would be inside a child's subtree
                assert(v.parent[c] == Some(n));
                lemma_child_subtree_smaller(v, n, c);
                assert(subtree_set(v, c).contains(n)) by {
                    assert(reaches(v, n, c));
                }
                assert(false);
            }
        }
    }
}

/// The edge sequence of a live node's subtree is a well-formed traversal
/// run: it starts at `Start(n)`, ends at `End(n)`, and follows the advance
/// rule at every interior step.
pub proof fn lemma_edge_steps(v: TreeView, n: int)
    requires
        inv(v),
        v.live.contains(n),
    ensures
        edge_run_ok(v, n, edges(v, n)),
{
    lemma_edge_steps_node(v, n, subtree_size(v, n));
}

// ---------------------------------------------------------------------------
// Descendants as the start edges of the traversal
// ---------------------------------------------------------------------------

/// The nodes of the `Start` edges of an edge sequence, in order.
pub open spec fn start_nodes(es: Seq<EdgeView>) -> Seq<int>
    decreases es.len(),
{
    if es.len() == 0 {
        Seq::empty()
    } else {
        (match es[0] {
            EdgeView::Start(n) => seq![n],
            EdgeView::End(n) => Seq::empty(),
        }) + start_nodes(es.drop_first())
    }
}

/// `start_nodes` distributes over concatenation.
pub proof fn lemma_start_nodes_add(a: Seq<EdgeView>, b: Seq<EdgeView>)
    ensures
        start_nodes(a + b) == start_nodes(a) + start_nodes(b),
    decreases a.len(),
{
    if a.len() == 0 {
        assert(a + b =~= b);
        assert(start_nodes(a) =~= Seq::<int>::empty());
        assert(start_nodes(a) + start_nodes(b) =~= start_nodes(b));
    } else {
        lemma_start_nodes_add(a.drop_first(), b);
        assert((a + b).drop_first() =~= a.drop_first() + b);
        assert((a + b)[0] == a[0]);
        match a[0] {
            EdgeView::Start(n) => {
                assert(start_nodes(a + b) =~= seq![n] + (start_nodes(a.drop_first()) + start_nodes(b)));
                assert(start_nodes(a) + start_nodes(b) =~= seq![n] + (start_nodes(a.drop_first()) + start_nodes(b)));
            }
            EdgeView::End(n) => {
                assert(start_nodes(a + b) =~= start_nodes(a.drop_first()) + start_nodes(b));
            }
        }
    }
}

proof fn lemma_descendants_are_starts_list(v: TreeView, ns: Seq<int>, fuel: nat)
    ensures
        descendant_seq_list(v, ns, fuel) == start_nodes(edge_seq_list(v, ns, fuel)),
    decreases fuel, 1int, ns.len(),
{
    if ns.len() == 0 {
    } else {
        lemma_descendants_are_starts_node(v, ns[0], fuel);
        lemma_descendants_are_starts_list(v, ns.drop_first(), fuel);
        lemma_start_nodes_add(edge_seq_node(v, ns[0], fuel), edge_seq_list(v, ns.drop_first(), fuel));
    }
}

proof fn lemma_descendants_are_starts_node(v: TreeView, n: int, fuel: nat)
    ensures
        descendant_seq_node(v, n, fuel) == start_nodes(edge_seq_node(v, n, fuel)),
    decreases fuel, 0int, 0int,
{
    if fuel == 0 {
    } else {
        reveal_with_fuel(start_nodes, 3);
        reveal_with_fuel(edge_seq_node, 2);
        reveal_with_fuel(descendant_seq_node, 2);
        lemma_descendants_are_starts_list(v, v.kids[n], (fuel - 1) as nat);
        let el = edge_seq_list(v, v.kids[n], (fuel - 1) as nat);
        lemma_start_nodes_add(seq![EdgeView::Start(n)] + el, seq![EdgeView::End(n)]);
        lemma_start_nodes_add(seq![EdgeView::Start(n)], el);
        assert(start_nodes(seq![EdgeView::End(n)]) =~= Seq::<int>::empty());
        assert(start_nodes(seq![EdgeView::Start(n)]) =~= seq![n]) by {
            assert(seq![EdgeView::Start(n)].drop_first() =~= Seq::<EdgeView>::empty());
        }
        assert(descendant_seq_node(v, n, fuel) =~= start_nodes(edge_seq_node(v, n, fuel)));
    }
}

/// Edge/descendant correspondence: the preorder node sequence of a subtree
/// is exactly the sequence of nodes whose `Start` edge appears in its edge
/// traversal, and it begins with the subtree root itself.
pub proof fn lemma_descendants_are_start_edges(v: TreeView, n: int)
    requires
        inv(v),
        v.live.contains(n),
    ensures
        descendants_of(v, n) == start_nodes(edges(v, n)),
        descendants_of(v, n).len() >= 1,
        descendants_of(v, n)[0] == n,
{
    lemma_descendants_are_starts_node(v, n, subtree_size(v, n));
    lemma_subtree_finite(v, n);
    assert(subtree_size(v, n) >= 1);
    let el = edge_seq_list(v, v.kids[n], (subtree_size(v, n) - 1) as nat);
    assert(descendant_seq_node(v, n, subtree_size(v, n)) ==
        seq![n] + descendant_seq_list(v, v.kids[n], (subtree_size(v, n) - 1) as nat));
}

// ---------------------------------------------------------------------------
// Exec iterators
// ---------------------------------------------------------------------------

/// An iterator over a node and its ancestors.
pub struct Ancestors {
    /// The node yielded next, if any.
    pub cursor: Option<NodeRef>,
}

impl Ancestors {
    /// The cursor names a live node, if any.
    pub open spec fn valid(&self, v: TreeView) -> bool {
        match self.cursor {
            Some(n) => v.live.contains(n.id as int),
            None => true,
        }
    }

    /// Yield the current node and step to its parent.
    pub fn next(&mut self, t: &Tree) -> (r: Option<NodeRef>)
        requires
            t.wf(),
            old(self).valid(t@),
        ensures
            final(self).valid(t@),
            r == old(self).cursor,
            match old(self).cursor {
                Some(n) => opt_ref_view(final(self).cursor) == t@.parent[n.id as int],
                None => final(self).cursor is None,
            },
    {
        proof {
            t.lemma_wf_inv();
        }
        match self.cursor {
            Some(n) => {
                self.cursor = t.parent(n);
                proof {
                    assert(parent_ok(t@, n.id as int));
                }
                Some(n)
            }
            None => None,
        }
    }
}

/// A double-ended iterator over a range of siblings, both bounds inclusive.
pub struct Siblings {
    /// The next node to yield from the front and from the back, if any.
    pub bounds: Option<(NodeRef, NodeRef)>,
}

impl Siblings {
    /// Both cursors name live nodes.
    pub open spec fn valid(&self, v: TreeView) -> bool {
        match self.bounds {
            Some((a, b)) => v.live.contains(a.id as int) && v.live.contains(b.id as int),
            None => true,
        }
    }

    /// Yield the front node and advance it along the sibling chain,
    /// stopping after the front and back cursors meet.
    pub fn next(&mut self, t: &Tree) -> (r: Option<NodeRef>)
        requires
            t.wf(),
            old(self).valid(t@),
        ensures
            final(self).valid(t@),
            match old(self).bounds {
                Some((a, b)) => r == Some(a)
                    && (if a != b && next_in_chain(t@, a.id as int) is Some {
                        opt_bounds_view(final(self).bounds)
                            == Some((next_in_chain(t@, a.id as int)->0, b.id as int))
                    } else {
                        final(self).bounds is None
                    }),
                None => r is None && final(self).bounds is None,
            },
    {
        proof {
            t.lemma_wf_inv();
        }
        match self.bounds {
            Some((a, b)) => {
                proof {
                    lemma_next_in_chain_live(t@, a.id as int);
                }
                if a == b {
                    self.bounds = None;
                } else {
                    match t.next_sibling(a) {
                        Some(s) => {
                            self.bounds = Some((s, b));
                        }
                        None => {
                            self.bounds = None;
                        }
                    }
                }
                Some(a)
            }
            None => None,
        }
    }

    /// Yield the back node and move it backwards along the sibling chain,
    /// stopping after the cursors meet.
    pub fn next_back(&mut self, t: &Tree) -> (r: Option<NodeRef>)
        requires
            t.wf(),
            old(self).valid(t@),
        ensures
            final(self).valid(t@),
            match old(self).bounds {
                Some((a, b)) => r == Some(b)
                    && (if a != b && prev_in_chain(t@, b.id as int) is Some {
                        opt_bounds_view(final(self).bounds)
                            == Some((a.id as int, prev_in_chain(t@, b.id as int)->0))
                    } else {
                        final(self).bounds is None
                    }),
                None => r is None && final(self).bounds is None,
            },
    {
        proof {
            t.lemma_wf_inv();
        }
        match self.bounds {
            Some((a, b)) => {
                proof {
                    lemma_prev_in_chain_live(t@, b.id as int);
                }
                if a == b {
                    self.bounds = None;
                } else {
                    match t.previous_sibling(b) {
                        Some(s) => {
                            self.bounds = Some((a, s));
                        }
                        None => {
                            self.bounds = None;
                        }
                    }
                }
                Some(b)
            }
            None => None,
        }
    }
}

pub open spec fn opt_bounds_view(o: Option<(NodeRef, NodeRef)>) -> Option<(int, int)> {
    match o {
        Some((a, b)) => Some((a.id as int, b.id as int)),
        None => None,
    }
}

/// The next sibling of a live node is live.
pub proof fn lemma_next_in_chain_live(v: TreeView, n: int)
    requires
        inv(v),
        v.live.contains(n),
    ensures
        match next_in_chain(v, n) {
            Some(m) => v.live.contains(m),
            None => true,
        },
{
    assert(chain_ok(v, n));
    let s = v.chain[n];
    assert(s.contains(n));
    let k = chain_pos(v, n);
    assert(0 <= k < s.len() && s[k] == n);
}

/// The previous sibling of a live node is live.
pub proof fn lemma_prev_in_chain_live(v: TreeView, n: int)
    requires
        inv(v),
        v.live.contains(n),
    ensures
        match prev_in_chain(v, n) {
            Some(m) => v.live.contains(m),
            None => true,
        },
{
    assert(chain_ok(v, n));
    let s = v.chain[n];
    assert(s.contains(n));
    let k = chain_pos(v, n);
    assert(0 <= k < s.len() && s[k] == n);
}

/// A cursor over the start and end edges of a subtree, in depth-first
/// order.
pub struct Traverse {
    /// The subtree root.
    pub root: NodeRef,
    /// The edge yielded next, if any.
    pub cursor: Option<NodeEdge>,
    /// How many edges of the subtree's sequence lie behind the cursor.
    pub count: Ghost<int>,
    /// Whether the root's own start and end edges are left out: a strict
    /// traversal walks positions `1` to `len - 2` of the edge sequence.
    pub strict: bool,
}

impl Traverse {
    /// The position just past the last edge this traversal yields.
    pub open spec fn stop(&self, v: TreeView) -> int {
        let es = edges(v, self.root.id as int);
        if self.strict {
            es.len() - 1
        } else {
            es.len() as int
        }
    }

    /// The cursor stands at position `count` of the edge sequence of the
    /// subtree.
    pub open spec fn valid(&self, v: TreeView) -> bool {
        let es = edges(v, self.root.id as int);
        &&& v.live.contains(self.root.id as int)
        &&& 0 <= self.count@ <= self.stop(v)
        &&& match self.cursor {
            Some(e) => self.count@ < self.stop(v) && e@ == es[self.count@],
            None => self.count@ == self.stop(v),
        }
    }

    /// Yield the current edge and advance by the traversal rule.
    pub fn next(&mut self, t: &Tree) -> (r: Option<NodeEdge>)
        requires
            t.wf(),
            old(self).valid(t@),
        ensures
            final(self).valid(t@),
            final(self).root == old(self).root,
            final(self).strict == old(self).strict,
            ({
                let es = edges(t@, old(self).root.id as int);
                match r {
                    Some(e) => old(self).count@ < old(self).stop(t@)
                        && e@ == es[old(self).count@]
                        && final(self).count@ == old(self).count@ + 1,
                    None => old(self).count@ == old(self).stop(t@)
                        && final(self).count@ == old(self).count@,
                }
            }),
    {
        let ghost v = t@;
        let ghost ri = self.root.id as int;
        let ghost es = edges(v, ri);
        proof {
            t.lemma_wf_inv();
            lemma_edge_steps(v, ri);
        }
        match self.cursor {
            Some(e) => {
                let ghost i = self.count@;
                proof {
                    assert(es[i] == e@);
                    assert(v.live.contains(edge_node(e@)));
                }
                let is_root_end = match e {
                    NodeEdge::End(n) => n == self.root,
                    NodeEdge::Start(_) => false,
                };
                if is_root_end {
                    proof {
                        assert(e@ == EdgeView::End(ri));
                        // the root's end edge appears only at the very end,
                        // which a strict traversal never reaches
                        if i < es.len() - 1 {
                            if i == 0 {
                                assert(es[0] == EdgeView::Start(ri));
                            } else {
                                assert(edge_node(es[i]) != ri);
                            }
                        }
                        assert(i == es.len() - 1);
                        assert(!self.strict);
                    }
                    self.cursor = None;
                    self.count = Ghost(self.count@ + 1);
                } else {
                    proof {
                        assert(i < es.len() - 1) by {
                            if i == es.len() - 1 {
                                assert(es[i] == EdgeView::End(ri));
                            }
                        }
                        assert(Some(es[i + 1]) == edge_step(v, es[i]));
                    }
                    let next_edge = match e {
                        NodeEdge::Start(n) => {
                            match t.first_child(n) {
                                Some(f) => NodeEdge::Start(f),
                                None => NodeEdge::End(n),
                            }
                        }
                        NodeEdge::End(n) => {
                            proof {
                                lemma_next_in_chain_live(v, n.id as int);
                            }
                            match t.next_sibling(n) {
                                Some(s) => NodeEdge::Start(s),
                                None => {
                                    match t.parent(n) {
                                        Some(p) => NodeEdge::End(p),
                                        None => vstd::pervasive::unreached(),
                                    }
                                }
                            }
                        }
                    };
                    proof {
                        assert(next_edge@ == es[i + 1]);
                    }
                    let next_is_root_end = self.strict && (match next_edge {
                        NodeEdge::End(n) => n.id == self.root.id,
                        NodeEdge::Start(_) => false,
                    });
                    if next_is_root_end {
                        proof {
                            // the strict traversal stops just before the
                            // root's end edge
                            assert(es[i + 1] == EdgeView::End(ri));
                            if i + 1 < es.len() - 1 {
                                if i + 1 == 0 {
                                } else {
                                    assert(edge_node(es[i + 1]) != ri);
                                }
                            }
                            assert(i + 1 == es.len() - 1);
                        }
                        self.cursor = None;
                        self.count = Ghost(self.count@ + 1);
                    } else {
                        proof {
                            if self.strict && i + 1 == es.len() - 1 {
                                assert(es[i + 1] == EdgeView::End(ri));
                            }
                        }
                        self.cursor = Some(next_edge);
                        self.count = Ghost(self.count@ + 1);
                    }
                }
                Some(e)
            }
            None => None,
        }
    }
}

/// An iterator over the nodes of a subtree in preorder.
pub struct Descendants {
    /// The underlying edge traversal.
    pub walk: Traverse,
    /// How many nodes were yielded already.
    pub yielded: Ghost<int>,
}

impl Descendants {
    /// The underlying traversal is valid and `yielded` counts the start
    /// edges already passed.
    pub open spec fn valid(&self, v: TreeView) -> bool {
        let es = edges(v, self.walk.root.id as int);
        &&& self.walk.valid(v)
        &&& !self.walk.strict
        &&& self.yielded@ == start_nodes(es.take(self.walk.count@)).len()
    }

    /// The preorder node sequence this iterator walks.
    pub open spec fn full_seq(&self, v: TreeView) -> Seq<int> {
        descendants_of(v, self.walk.root.id as int)
    }

    /// Yield the next node in preorder.
    pub fn next(&mut self, t: &Tree) -> (r: Option<NodeRef>)
        requires
            t.wf(),
            old(self).valid(t@),
        ensures
            final(self).valid(t@),
            final(self).walk.root == old(self).walk.root,
            ({
                let ds = old(self).full_seq(t@);
                match r {
                    Some(n) => old(self).yielded@ < ds.len() && n.id as int == ds[old(self).yielded@]
                        && final(self).yielded@ == old(self).yielded@ + 1,
                    None => old(self).yielded@ == ds.len()
                        && final(self).yielded@ == old(self).yielded@,
                }
            }),
    {
        let ghost v = t@;
        let ghost ri = self.walk.root.id as int;
        let ghost es = edges(v, ri);
        proof {
            t.lemma_wf_inv();
            lemma_descendants_are_start_edges(v, ri);
            lemma_edge_steps(v, ri);
            assert(es.take(es.len() as int) =~= es);
        }
        loop
            invariant
                t.wf(),
                self.walk.valid(t@),
                !self.walk.strict,
                self.walk.root == old(self).walk.root,
                ri == self.walk.root.id as int,
                v == t@,
                es == edges(v, ri),
                descendants_of(v, ri) == start_nodes(es),
                self.yielded@ == start_nodes(es.take(self.walk.count@)).len(),
                self.yielded@ == old(self).yielded@,
            decreases es.len() - self.walk.count@,
        {
            let ghost i = self.walk.count@;
            match self.walk.next(t) {
                Some(edge) => {
                    proof {
                        assert(es.take(i + 1) =~= es.take(i).push(es[i]));
                        lemma_start_nodes_add(es.take(i), seq![es[i]]);
                        assert(es.take(i).push(es[i]) =~= es.take(i) + seq![es[i]]);
                    }
                    match edge {
                        NodeEdge::Start(n) => {
                            proof {
                                assert(es[i] == EdgeView::Start(n.id as int));
                                assert(start_nodes(seq![es[i]]) =~= seq![n.id as int]) by {
                                    assert(seq![es[i]].drop_first() =~= Seq::<EdgeView>::empty());
                                    assert(start_nodes(Seq::<EdgeView>::empty()) =~= Seq::<int>::empty());
                                }
                                assert(start_nodes(es.take(i + 1))
                                    == start_nodes(es.take(i)) + seq![n.id as int]);
                                // the yielded node is the next preorder node
                                lemma_start_nodes_prefix(es, i);
                                assert(start_nodes(es.take(i + 1))[old(self).yielded@]
                                    == n.id as int);
                                assert(start_nodes(es.take(i + 1)).len()
                                    == old(self).yielded@ + 1);
                                assert(start_nodes(es)[old(self).yielded@] == n.id as int);
                                assert(start_nodes(es).len() >= old(self).yielded@ + 1) by {
                                    assert(es.take(es.len() as int) =~= es);
                                    lemma_start_nodes_prefix(es, i);
                                }
                            }
                            self.yielded = Ghost(self.yielded@ + 1);
                            return Some(n);
                        }
                        NodeEdge::End(_) => {
                            proof {
                                assert(start_nodes(seq![es[i]]) =~= Seq::<int>::empty()) by {
                                    assert(seq![es[i]].drop_first() =~= Seq::<EdgeView>::empty());
                                    assert(start_nodes(Seq::<EdgeView>::empty()) =~= Seq::<int>::empty());
                                }
                                assert(start_nodes(es.take(i + 1)) =~= start_nodes(es.take(i)));
                            }
                        }
                    }
                }
                None => {
                    proof {
                        assert(self.walk.count@ == es.len());
                        assert(es.take(es.len() as int) =~= es);
                    }
                    return None;
                }
            }
        }
    }
}

/// A prefix of start nodes is a prefix of the whole start-node sequence.
pub proof fn lemma_start_nodes_prefix(es: Seq<EdgeView>, i: int)
    requires
        0 <= i < es.len(),
    ensures
        start_nodes(es.take(i + 1)).len() <= start_nodes(es).len(),
        forall |j: int| 0 <= j < start_nodes(es.take(i + 1)).len()
            ==> #[trigger] start_nodes(es.take(i + 1))[j] == start_nodes(es)[j],
    decreases es.len(),
{
    let rest = es.skip(i + 1);
    assert(es =~= es.take(i + 1) + rest);
    lemma_start_nodes_add(es.take(i + 1), rest);
}

impl Tree {
    /// An iterator over this node and its ancestors.
    pub fn inclusive_ancestors(&self, node: NodeRef) -> (r: Ancestors)
        requires
            self.wf(),
            self@.live.contains(node.id as int),
        ensures
            r.valid(self@),
            r.cursor == Some(node),
    {
        Ancestors { cursor: Some(node) }
    }

    /// An iterator over this node's ancestors.
    pub fn ancestors(&self, node: NodeRef) -> (r: Ancestors)
        requires
            self.wf(),
            self@.live.contains(node.id as int),
        ensures
            r.valid(self@),
            opt_ref_view(r.cursor) == self@.parent[node.id as int],
    {
        proof {
            self.lemma_wf_inv();
            assert(parent_ok(self@, node.id as int));
        }
        Ancestors { cursor: self.parent(node) }
    }

    /// A double-ended iterator over this node's children.
    pub fn children(&self, node: NodeRef) -> (r: Siblings)
        requires
            self.wf(),
            self@.live.contains(node.id as int),
        ensures
            r.valid(self@),
            opt_bounds_view(r.bounds) == (if self@.kids[node.id as int].len() == 0 {
                None::<(int, int)>
            } else {
                Some((self@.kids[node.id as int][0], self@.kids[node.id as int].last()))
            }),
    {
        proof {
            self.lemma_wf_inv();
            assert(kids_ok(self@, node.id as int));
        }
        match (self.first_child(node), self.last_child(node)) {
            (Some(a), Some(b)) => Siblings { bounds: Some((a, b)) },
            (None, None) => Siblings { bounds: None },
            _ => vstd::pervasive::unreached(),
        }
    }

    /// A double-ended iterator over the siblings after this node,
    /// exclusive.
    pub fn following_siblings(&self, node: NodeRef) -> (r: Siblings)
        requires
            self.wf(),
            self@.live.contains(node.id as int),
        ensures
            r.valid(self@),
            opt_bounds_view(r.bounds) == (
                match (self@.parent[node.id as int], next_in_chain(self@, node.id as int)) {
                    (Some(p), Some(m)) => Some((m, self@.kids[p].last())),
                    _ => None::<(int, int)>,
                }
            ),
    {
        proof {
            self.lemma_wf_inv();
            lemma_next_in_chain_live(self@, node.id as int);
            assert(parent_ok(self@, node.id as int));
            assert(chain_ok(self@, node.id as int));
            assert(self@.chain[node.id as int].contains(node.id as int));
        }
        let p_opt = self.parent(node);
        let n_opt = self.next_sibling(node);
        match (p_opt, n_opt) {
            (Some(p), Some(m)) => {
                match self.last_child(p) {
                    Some(b) => Siblings { bounds: Some((m, b)) },
                    None => vstd::pervasive::unreached(),
                }
            }
            _ => Siblings { bounds: None },
        }
    }

    /// A double-ended iterator over the siblings before this node,
    /// exclusive; `next_back` walks from this node outward.
    pub fn preceding_siblings(&self, node: NodeRef) -> (r: Siblings)
        requires
            self.wf(),
            self@.live.contains(node.id as int),
        ensures
            r.valid(self@),
            opt_bounds_view(r.bounds) == (
                match (self@.parent[node.id as int], prev_in_chain(self@, node.id as int)) {
                    (Some(p), Some(m)) => Some((self@.kids[p][0], m)),
                    _ => None::<(int, int)>,
                }
            ),
    {
        proof {
            self.lemma_wf_inv();
            lemma_prev_in_chain_live(self@, node.id as int);
            assert(parent_ok(self@, node.id as int));
            assert(chain_ok(self@, node.id as int));
            assert(self@.chain[node.id as int].contains(node.id as int));
        }
        let p_opt = self.parent(node);
        let n_opt = self.previous_sibling(node);
        match (p_opt, n_opt) {
            (Some(p), Some(m)) => {
                match self.first_child(p) {
                    Some(a) => Siblings { bounds: Some((a, m)) },
                    None => vstd::pervasive::unreached(),
                }
            }
            _ => Siblings { bounds: None },
        }
    }

    /// A double-ended iterator over this node and the siblings before it;
    /// `next_back` walks from this node outward.  For a root node it yields
    /// the node alone.
    pub fn inclusive_preceding_siblings(&self, node: NodeRef) -> (r: Siblings)
        requires
            self.wf(),
            self@.live.contains(node.id as int),
        ensures
            r.valid(self@),
            opt_bounds_view(r.bounds) == Some((
                match self@.parent[node.id as int] {
                    Some(p) => self@.kids[p][0],
                    None => node.id as int,
                },
                node.id as int,
            )),
    {
        proof {
            self.lemma_wf_inv();
            assert(parent_ok(self@, node.id as int));
            assert(chain_ok(self@, node.id as int));
            assert(self@.chain[node.id as int].contains(node.id as int));
        }
        match self.parent(node) {
            Some(p) => {
                match self.first_child(p) {
                    Some(a) => Siblings { bounds: Some((a, node)) },
                    None => vstd::pervasive::unreached(),
                }
            }
            None => Siblings { bounds: Some((node, node)) },
        }
    }

    /// A double-ended iterator over this node and the siblings after it.
    /// For a root node it yields the node alone.
    pub fn inclusive_following_siblings(&self, node: NodeRef) -> (r: Siblings)
        requires
            self.wf(),
            self@.live.contains(node.id as int),
        ensures
            r.valid(self@),
            opt_bounds_view(r.bounds) == Some((
                node.id as int,
                match self@.parent[node.id as int] {
                    Some(p) => self@.kids[p].last(),
                    None => node.id as int,
                },
            )),
    {
        proof {
            self.lemma_wf_inv();
            assert(parent_ok(self@, node.id as int));
            assert(chain_ok(self@, node.id as int));
            assert(self@.chain[node.id as int].contains(node.id as int));
        }
        match self.parent(node) {
            Some(p) => {
                match self.last_child(p) {
                    Some(b) => Siblings { bounds: Some((node, b)) },
                    None => vstd::pervasive::unreached(),
                }
            }
            None => Siblings { bounds: Some((node, node)) },
        }
    }

    /// An edge traversal of this node and its descendants.
    pub fn traverse_inclusive(&self, node: NodeRef) -> (r: Traverse)
        requires
            self.wf(),
            self@.live.contains(node.id as int),
        ensures
            r.valid(self@),
            r.root == node,
            r.count@ == 0,
            !r.strict,
    {
        proof {
            self.lemma_wf_inv();
            lemma_edge_steps(self@, node.id as int);
        }
        Traverse { root: node, cursor: Some(NodeEdge::Start(node)), count: Ghost(0), strict: false }
    }

    /// An edge traversal of this node's descendants: the edge sequence of
    /// the subtree without the root's own start and end edges.
    pub fn traverse(&self, node: NodeRef) -> (r: Traverse)
        requires
            self.wf(),
            self@.live.contains(node.id as int),
        ensures
            r.valid(self@),
            r.root == node,
            r.count@ == 1,
            r.strict,
    {
        let ghost v = self@;
        let ghost ri = node.id as int;
        let ghost es = edges(v, ri);
        proof {
            self.lemma_wf_inv();
            lemma_edge_steps(v, ri);
            assert(es[0int] == EdgeView::Start(ri));
            assert(Some(es[0int + 1]) == edge_step(v, es[0int]));
        }
        let cursor = match self.first_child(node) {
            Some(f) => {
                proof {
                    assert(es[1] == EdgeView::Start(f.id as int));
                    // with a child present the walk has interior edges
                    if es.len() == 2 {
                        assert(es[1] == EdgeView::End(ri));
                    }
                    assert(es.len() > 2);
                }
                Some(NodeEdge::Start(f))
            }
            None => {
                proof {
                    assert(es[1] == EdgeView::End(ri));
                    // a childless subtree has exactly its two own edges
                    if es.len() > 2 {
                        assert(edge_node(es[1]) != ri);
                    }
                    assert(es.len() == 2);
                }
                None
            }
        };
        Traverse { root: node, cursor, count: Ghost(1), strict: true }
    }

    /// An iterator over this node and its descendants, in tree order.
    pub fn inclusive_descendants(&self, node: NodeRef) -> (r: Descendants)
        requires
            self.wf(),
            self@.live.contains(node.id as int),
        ensures
            r.valid(self@),
            r.walk.root == node,
            r.yielded@ == 0,
    {
        let walk = self.traverse_inclusive(node);
        proof {
            let es = edges(self@, node.id as int);
            assert(es.take(0) =~= Seq::<EdgeView>::empty());
        }
        Descendants { walk, yielded: Ghost(0) }
    }

    /// An iterator over this node's strict descendants, in tree order.
    pub fn descendants(&self, node: NodeRef) -> (r: Descendants)
        requires
            self.wf(),
            self@.live.contains(node.id as int),
        ensures
            r.valid(self@),
            r.walk.root == node,
            r.yielded@ == 1,
            r.full_seq(self@)[0] == node.id as int,
    {
        proof {
            self.lemma_wf_inv();
            lemma_descendants_are_start_edges(self@, node.id as int);
        }
        let mut it = self.inclusive_descendants(node);
        let first = it.next(self);
        it
    }

    /// Free a fully detached node together with its whole subtree.  The
    /// walk keeps an explicit list of slots instead of recursing, so
    /// arbitrarily deep or wide subtrees are reclaimed without exhausting
    /// the call stack.
    pub fn reclaim(&mut self, node: NodeRef)
        requires
            old(self).wf(),
            old(self)@.live.contains(node.id as int),
            old(self)@.parent[node.id as int] is None,
            old(self)@.chain[node.id as int] == seq![node.id as int],
        ensures
            final(self).wf(),
            final(self)@ == reclaim_model(old(self)@, node.id as int),
    {
        let ghost v = old(self)@;
        let ghost ri = node.id as int;
        let ghost ds = descendants_of(v, ri);
        let mut ids: Vec<usize> = Vec::new();
        let mut it = self.inclusive_descendants(node);
        proof {
            self.lemma_wf_inv();
            assert(ids@.map_values(|u: usize| u as int) =~= ds.take(0));
        }
        loop
            invariant
                *self == *old(self),
                self.wf(),
                v == self@,
                ri == node.id as int,
                ds == descendants_of(v, ri),
                it.valid(v),
                it.walk.root == node,
                0 <= it.yielded@ <= ds.len(),
                ids@.map_values(|u: usize| u as int) == ds.take(it.yielded@),
            ensures
                *self == *old(self),
                ids@.map_values(|u: usize| u as int) == ds,
            decreases ds.len() - it.yielded@,
        {
            let ghost y = it.yielded@;
            match it.next(self) {
                Some(nd) => {
                    ids.push(nd.id);
                    proof {
                        assert(ds.take(y + 1) =~= ds.take(y).push(ds[y]));
                        assert(ids@.map_values(|u: usize| u as int) =~= ds.take(y + 1));
                    }
                }
                None => {
                    proof {
                        assert(it.yielded@ == ds.len());
                        assert(ds.take(ds.len() as int) =~= ds);
                    }
                    break;
                }
            }
        }
        self.reclaim_ids(node, &ids);
    }
}

} // verus!
