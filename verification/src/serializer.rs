//! Serialization: a depth-first walk over the edge traversal, emitting a
//! textual form per node variant.
//!
//! The exact text of a subtree is pinned down by [`ser_spec`]: the
//! concatenation, over the edge traversal, of each edge's emission.  An
//! element's start edge emits its open tag with the attributes in
//! insertion order, its end edge the close tag; text is escaped; comments
//! and doctypes emit their bracketed forms; a document node emits nothing
//! of its own.

use vstd::prelude::*;
use crate::attributes::AttrEntry;
use crate::tree::{Tree, TreeView, NodeRef, DataView, text_of, inv};
use crate::iter::{
    Traverse, EdgeView, NodeEdge, edges, edge_node, lemma_edge_steps, edge_run_ok,
};

verus! {

/// Which part of a subtree `serialize` emits.
#[derive(Clone, Copy, PartialEq, Eq, Structural, Debug)]
pub enum TraversalScope {
    /// The node itself and all its descendants.
    IncludeNode,
    /// Only the node's descendants.
    ChildrenOnly,
}

// ---------------------------------------------------------------------------
// The emission specification
// ---------------------------------------------------------------------------

/// The escaped form of one character of a text run.
pub open spec fn escape_text_char(c: char) -> Seq<char> {
    if c == '&' {
        seq!['&', 'a', 'm', 'p', ';']
    } else if c == '<' {
        seq!['&', 'l', 't', ';']
    } else if c == '>' {
        seq!['&', 'g', 't', ';']
    } else {
        seq![c]
    }
}

/// The escaped form of a text run.
pub open spec fn escape_text(s: Seq<char>) -> Seq<char>
    decreases s.len(),
{
    if s.len() == 0 {
        Seq::empty()
    } else {
        escape_text_char(s[0]) + escape_text(s.drop_first())
    }
}

/// The escaped form of one character of an attribute value.
pub open spec fn escape_attr_char(c: char) -> Seq<char> {
    if c == '&' {
        seq!['&', 'a', 'm', 'p', ';']
    } else if c == '"' {
        seq!['&', 'q', 'u', 'o', 't', ';']
    } else {
        seq![c]
    }
}

/// The escaped form of an attribute value.
pub open spec fn escape_attr(s: Seq<char>) -> Seq<char>
    decreases s.len(),
{
    if s.len() == 0 {
        Seq::empty()
    } else {
        escape_attr_char(s[0]) + escape_attr(s.drop_first())
    }
}

/// The serialized form of an attribute list: ` local="value"` for each
/// attribute, in insertion order.
pub open spec fn attr_text(attrs: Seq<AttrEntry>) -> Seq<char>
    decreases attrs.len(),
{
    if attrs.len() == 0 {
        Seq::empty()
    } else {
        seq![' '] + attrs[0].local + seq!['=', '"'] + escape_attr(attrs[0].value) + seq!['"']
            + attr_text(attrs.drop_first())
    }
}

/// What one traversal edge emits.
pub open spec fn emit(v: TreeView, e: EdgeView) -> Seq<char> {
    match e {
        EdgeView::Start(n) => match v.data[n] {
            DataView::Element { name, attrs } =>
                seq!['<'] + name.local + attr_text(attrs) + seq!['>'],
            DataView::Text(s) => escape_text(s),
            DataView::Comment(s) => seq!['<', '!', '-', '-'] + s + seq!['-', '-', '>'],
            DataView::Doctype { name, public_id, system_id } =>
                seq!['<', '!', 'D', 'O', 'C', 'T', 'Y', 'P', 'E', ' '] + name + seq!['>'],
            DataView::Document { quirks } => Seq::empty(),
        },
        EdgeView::End(n) => match v.data[n] {
            DataView::Element { name, attrs } => seq!['<', '/'] + name.local + seq!['>'],
            _ => Seq::empty(),
        },
    }
}

/// The concatenated emission of a sequence of edges.
pub open spec fn ser_edges(v: TreeView, es: Seq<EdgeView>) -> Seq<char>
    decreases es.len(),
{
    if es.len() == 0 {
        Seq::empty()
    } else {
        emit(v, es[0]) + ser_edges(v, es.drop_first())
    }
}

/// The serialized text of the subtree at `n`: its whole edge traversal for
/// the include-self scope, the traversal without the outermost two edges
/// for the children-only scope.
pub open spec fn ser_spec(v: TreeView, n: int, scope: TraversalScope) -> Seq<char> {
    match scope {
        TraversalScope::IncludeNode => ser_edges(v, edges(v, n)),
        TraversalScope::ChildrenOnly => ser_edges(v,
            edges(v, n).subrange(1, edges(v, n).len() - 1)),
    }
}

/// The concatenation of the text-node contents of a sequence of edges.
pub open spec fn texts_of_edges(v: TreeView, es: Seq<EdgeView>) -> Seq<char>
    decreases es.len(),
{
    if es.len() == 0 {
        Seq::empty()
    } else {
        (match es[0] {
            EdgeView::Start(n) => if v.data[n] is Text {
                text_of(v.data[n])
            } else {
                Seq::empty()
            },
            EdgeView::End(n) => Seq::empty(),
        }) + texts_of_edges(v, es.drop_first())
    }
}

/// The concatenation of all text in the subtree of `n`, in tree order.
pub open spec fn text_contents_spec(v: TreeView, n: int) -> Seq<char> {
    texts_of_edges(v, edges(v, n))
}

// ---------------------------------------------------------------------------
// Concatenation lemmas
// ---------------------------------------------------------------------------

/// `ser_edges` distributes over concatenation.
pub proof fn lemma_ser_edges_add(v: TreeView, a: Seq<EdgeView>, b: Seq<EdgeView>)
    ensures
        ser_edges(v, a + b) == ser_edges(v, a) + ser_edges(v, b),
    decreases a.len(),
{
    if a.len() == 0 {
        assert(a + b =~= b);
        assert(ser_edges(v, a) + ser_edges(v, b) =~= ser_edges(v, b));
    } else {
        lemma_ser_edges_add(v, a.drop_first(), b);
        assert((a + b).drop_first() =~= a.drop_first() + b);
        assert((a + b)[0] == a[0]);
        assert(ser_edges(v, a + b) =~= ser_edges(v, a) + ser_edges(v, b));
    }
}

/// `texts_of_edges` distributes over concatenation.
pub proof fn lemma_texts_add(v: TreeView, a: Seq<EdgeView>, b: Seq<EdgeView>)
    ensures
        texts_of_edges(v, a + b) == texts_of_edges(v, a) + texts_of_edges(v, b),
    decreases a.len(),
{
    if a.len() == 0 {
        assert(a + b =~= b);
        assert(texts_of_edges(v, a) + texts_of_edges(v, b) =~= texts_of_edges(v, b));
    } else {
        lemma_texts_add(v, a.drop_first(), b);
        assert((a + b).drop_first() =~= a.drop_first() + b);
        assert((a + b)[0] == a[0]);
        assert(texts_of_edges(v, a + b) =~= texts_of_edges(v, a) + texts_of_edges(v, b));
    }
}

/// `escape_text` distributes over concatenation.
pub proof fn lemma_escape_text_add(a: Seq<char>, b: Seq<char>)
    ensures
        escape_text(a + b) == escape_text(a) + escape_text(b),
    decreases a.len(),
{
    if a.len() == 0 {
        assert(a + b =~= b);
        assert(escape_text(a) + escape_text(b) =~= escape_text(b));
    } else {
        lemma_escape_text_add(a.drop_first(), b);
        assert((a + b).drop_first() =~= a.drop_first() + b);
        assert((a + b)[0] == a[0]);
        assert(escape_text(a + b) =~= escape_text(a) + escape_text(b));
    }
}

/// `escape_attr` distributes over concatenation.
pub proof fn lemma_escape_attr_add(a: Seq<char>, b: Seq<char>)
    ensures
        escape_attr(a + b) == escape_attr(a) + escape_attr(b),
    decreases a.len(),
{
    if a.len() == 0 {
        assert(a + b =~= b);
        assert(escape_attr(a) + escape_attr(b) =~= escape_attr(b));
    } else {
        lemma_escape_attr_add(a.drop_first(), b);
        assert((a + b).drop_first() =~= a.drop_first() + b);
        assert((a + b)[0] == a[0]);
        assert(escape_attr(a + b) =~= escape_attr(a) + escape_attr(b));
    }
}

/// Serialization is a function of the payloads along the traversal: two
/// edge sequences of the same shape whose nodes carry equal payloads emit
/// the same text.  In particular, any reconstruction of a subtree whose
/// preorder variant and attribute sequence matches the source serializes to
/// the same text.
pub proof fn lemma_ser_depends_on_payloads(v1: TreeView, v2: TreeView, a: Seq<EdgeView>,
    b: Seq<EdgeView>)
    requires
        a.len() == b.len(),
        forall |i: int| 0 <= i < a.len() ==> (((#[trigger] a[i]) is Start <==> (#[trigger] b[i]) is Start)
            && v1.data[edge_node(a[i])] == v2.data[edge_node(b[i])]),
    ensures
        ser_edges(v1, a) == ser_edges(v2, b),
    decreases a.len(),
{
    if a.len() == 0 {
        assert(ser_edges(v1, a) =~= ser_edges(v2, b));
    } else {
        assert forall |i: int| 0 <= i < a.drop_first().len() implies
            (((#[trigger] a.drop_first()[i]) is Start <==> (#[trigger] b.drop_first()[i]) is Start)
            && v1.data[edge_node(a.drop_first()[i])] == v2.data[edge_node(b.drop_first()[i])]) by {
            assert(a.drop_first()[i] == a[i + 1]);
            assert(b.drop_first()[i] == b[i + 1]);
        }
        lemma_ser_depends_on_payloads(v1, v2, a.drop_first(), b.drop_first());
        assert(a[0] is Start <==> b[0] is Start);
        assert(v1.data[edge_node(a[0])] == v2.data[edge_node(b[0])]);
        assert(emit(v1, a[0]) == emit(v2, b[0]));
    }
}

/// `escape_text` of a single character.
pub proof fn lemma_escape_text_single(c: char)
    ensures
        escape_text(seq![c]) == escape_text_char(c),
{
    assert(seq![c].drop_first() =~= Seq::<char>::empty());
    assert(escape_text(Seq::<char>::empty()) =~= Seq::<char>::empty());
    assert(escape_text(seq![c]) =~= escape_text_char(c) + escape_text(seq![c].drop_first()));
    assert(escape_text(seq![c]) =~= escape_text_char(c));
}

/// `escape_attr` of a single character.
pub proof fn lemma_escape_attr_single(c: char)
    ensures
        escape_attr(seq![c]) == escape_attr_char(c),
{
    assert(seq![c].drop_first() =~= Seq::<char>::empty());
    assert(escape_attr(Seq::<char>::empty()) =~= Seq::<char>::empty());
    assert(escape_attr(seq![c]) =~= escape_attr_char(c) + escape_attr(seq![c].drop_first()));
    assert(escape_attr(seq![c]) =~= escape_attr_char(c));
}

/// `ser_edges` of a single edge.
pub proof fn lemma_ser_edges_single(v: TreeView, e: EdgeView)
    ensures
        ser_edges(v, seq![e]) == emit(v, e),
{
    assert(seq![e].drop_first() =~= Seq::<EdgeView>::empty());
    assert(ser_edges(v, Seq::<EdgeView>::empty()) =~= Seq::<char>::empty());
    assert(ser_edges(v, seq![e]) =~= emit(v, e) + ser_edges(v, seq![e].drop_first()));
    assert(ser_edges(v, seq![e]) =~= emit(v, e));
}

/// `texts_of_edges` of a single edge.
pub proof fn lemma_texts_single(v: TreeView, e: EdgeView)
    ensures
        texts_of_edges(v, seq![e]) == (match e {
            EdgeView::Start(n) => if v.data[n] is Text {
                text_of(v.data[n])
            } else {
                Seq::<char>::empty()
            },
            EdgeView::End(n) => Seq::<char>::empty(),
        }),
{
    let piece = match e {
        EdgeView::Start(n) => if v.data[n] is Text {
            text_of(v.data[n])
        } else {
            Seq::<char>::empty()
        },
        EdgeView::End(n) => Seq::<char>::empty(),
    };
    assert(seq![e].drop_first() =~= Seq::<EdgeView>::empty());
    assert(texts_of_edges(v, Seq::<EdgeView>::empty()) =~= Seq::<char>::empty());
    assert(texts_of_edges(v, seq![e]) =~= piece + texts_of_edges(v, seq![e].drop_first()));
    assert(texts_of_edges(v, seq![e]) =~= piece);
}

/// `attr_text` of one more attribute.
pub proof fn lemma_attr_text_push(attrs: Seq<AttrEntry>, e: AttrEntry)
    ensures
        attr_text(attrs.push(e)) == attr_text(attrs)
            + (seq![' '] + e.local + seq!['=', '"'] + escape_attr(e.value) + seq!['"']),
    decreases attrs.len(),
{
    if attrs.len() == 0 {
        assert(attrs.push(e)[0] == e);
        assert(attrs.push(e).drop_first() =~= Seq::<AttrEntry>::empty());
        assert(attr_text(Seq::<AttrEntry>::empty()) =~= Seq::<char>::empty());
        assert(attr_text(attrs) =~= Seq::<char>::empty());
        assert(attr_text(attrs.push(e)) =~= seq![' '] + e.local + seq!['=', '"']
            + escape_attr(e.value) + seq!['"'] + attr_text(attrs.push(e).drop_first()));
        assert(attr_text(attrs.push(e)) =~= attr_text(attrs)
            + (seq![' '] + e.local + seq!['=', '"'] + escape_attr(e.value) + seq!['"']));
    } else {
        assert(attrs.push(e)[0] == attrs[0]);
        assert(attrs.push(e).drop_first() =~= attrs.drop_first().push(e));
        lemma_attr_text_push(attrs.drop_first(), e);
        assert(attr_text(attrs.push(e)) =~= attr_text(attrs)
            + (seq![' '] + e.local + seq!['=', '"'] + escape_attr(e.value) + seq!['"']));
    }
}

// ---------------------------------------------------------------------------
// Exec serialization
// ---------------------------------------------------------------------------

/// Relies on `String::from_iter` over `char`: collecting characters yields
/// exactly that character sequence.
#[verifier::external_body]
pub(crate) fn string_from_chars(v: Vec<char>) -> (r: String)
    ensures
        r@ == v@,
{
    v.into_iter().collect()
}

/// Append the characters of `s` to `out`.
fn push_str_chars(out: &mut Vec<char>, s: &str)
    ensures
        final(out)@ == old(out)@ + s@,
{
    let n = s.unicode_len();
    let mut i: usize = 0;
    proof {
        assert(final(out)@ + s@.take(0) =~= final(out)@);
    }
    while i < n
        invariant
            n == s@.len(),
            i <= n,
            out@ == old(out)@ + s@.take(i as int),
        decreases n - i,
    {
        let c = s.get_char(i);
        out.push(c);
        proof {
            assert(s@.take(i + 1) =~= s@.take(i as int).push(s@[i as int]));
            assert(old(out)@ + s@.take(i + 1) =~= (old(out)@ + s@.take(i as int)).push(s@[i as int]));
        }
        i = i + 1;
    }
    proof {
        assert(s@.take(n as int) =~= s@);
    }
}

/// Append the escaped form of text `s` to `out`.
fn push_escaped_text(out: &mut Vec<char>, s: &str)
    ensures
        final(out)@ == old(out)@ + escape_text(s@),
{
    let n = s.unicode_len();
    let mut i: usize = 0;
    proof {
        assert(escape_text(s@.take(0)) =~= Seq::<char>::empty());
        assert(old(out)@ + escape_text(s@.take(0)) =~= old(out)@);
    }
    while i < n
        invariant
            n == s@.len(),
            i <= n,
            out@ == old(out)@ + escape_text(s@.take(i as int)),
        decreases n - i,
    {
        let c = s.get_char(i);
        if c == '&' {
            out.push('&');
            out.push('a');
            out.push('m');
            out.push('p');
            out.push(';');
        } else if c == '<' {
            out.push('&');
            out.push('l');
            out.push('t');
            out.push(';');
        } else if c == '>' {
            out.push('&');
            out.push('g');
            out.push('t');
            out.push(';');
        } else {
            out.push(c);
        }
        proof {
            let cc = s@[i as int];
            assert(s@.take(i + 1) =~= s@.take(i as int) + seq![cc]);
            lemma_escape_text_add(s@.take(i as int), seq![cc]);
            lemma_escape_text_single(cc);
            assert(out@ =~= old(out)@ + escape_text(s@.take(i + 1)));
        }
        i = i + 1;
    }
    proof {
        assert(s@.take(n as int) =~= s@);
    }
}

/// Append the escaped form of attribute value `s` to `out`.
fn push_escaped_attr(out: &mut Vec<char>, s: &str)
    ensures
        final(out)@ == old(out)@ + escape_attr(s@),
{
    let n = s.unicode_len();
    let mut i: usize = 0;
    proof {
        assert(escape_attr(s@.take(0)) =~= Seq::<char>::empty());
        assert(old(out)@ + escape_attr(s@.take(0)) =~= old(out)@);
    }
    while i < n
        invariant
            n == s@.len(),
            i <= n,
            out@ == old(out)@ + escape_attr(s@.take(i as int)),
        decreases n - i,
    {
        let c = s.get_char(i);
        if c == '&' {
            out.push('&');
            out.push('a');
            out.push('m');
            out.push('p');
            out.push(';');
        } else if c == '"' {
            out.push('&');
            out.push('q');
            out.push('u');
            out.push('o');
            out.push('t');
            out.push(';');
        } else {
            out.push(c);
        }
        proof {
            let cc = s@[i as int];
            assert(s@.take(i + 1) =~= s@.take(i as int) + seq![cc]);
            lemma_escape_attr_add(s@.take(i as int), seq![cc]);
            lemma_escape_attr_single(cc);
            assert(out@ =~= old(out)@ + escape_attr(s@.take(i + 1)));
        }
        i = i + 1;
    }
    proof {
        assert(s@.take(n as int) =~= s@);
    }
}

/// Append the serialized attribute list to `out`.
fn push_attrs(out: &mut Vec<char>, attrs: &crate::attributes::Attributes)
    ensures
        final(out)@ == old(out)@ + attr_text(attrs@),
{
    let n = attrs.len();
    let mut i: usize = 0;
    proof {
        assert(attr_text(attrs@.take(0)) =~= Seq::<char>::empty());
        assert(old(out)@ + attr_text(attrs@.take(0)) =~= old(out)@);
    }
    while i < n
        invariant
            n == attrs@.len(),
            i <= n,
            out@ == old(out)@ + attr_text(attrs@.take(i as int)),
        decreases n - i,
    {
        let pair = attrs.entry_at(i);
        out.push(' ');
        push_str_chars(out, pair.0.local.as_str());
        out.push('=');
        out.push('"');
        push_escaped_attr(out, pair.1.value.as_str());
        out.push('"');
        proof {
            let e = attrs@[i as int];
            assert(attrs@.take(i + 1) =~= attrs@.take(i as int).push(e));
            lemma_attr_text_push(attrs@.take(i as int), e);
            assert(out@ =~= old(out)@ + attr_text(attrs@.take(i + 1)));
        }
        i = i + 1;
    }
    proof {
        assert(attrs@.take(n as int) =~= attrs@);
    }
}

/// Append the emission of one traversal edge to `out`.
fn emit_edge(t: &Tree, e: NodeEdge, out: &mut Vec<char>)
    requires
        t.wf(),
        t@.live.contains(edge_node(e@)),
    ensures
        final(out)@ == old(out)@ + emit(t@, e@),
{
    match e {
        NodeEdge::Start(n) => {
            match t.data(n) {
                crate::tree::NodeData::Element(el) => {
                    out.push('<');
                    push_str_chars(out, el.name.local.as_str());
                    push_attrs(out, &el.attributes);
                    out.push('>');
                    proof {
                        assert(out@ =~= old(out)@ + emit(t@, e@));
                    }
                }
                crate::tree::NodeData::Text(s) => {
                    push_escaped_text(out, s.as_str());
                }
                crate::tree::NodeData::Comment(s) => {
                    out.push('<');
                    out.push('!');
                    out.push('-');
                    out.push('-');
                    push_str_chars(out, s.as_str());
                    out.push('-');
                    out.push('-');
                    out.push('>');
                    proof {
                        assert(out@ =~= old(out)@ + emit(t@, e@));
                    }
                }
                crate::tree::NodeData::Doctype(d) => {
                    out.push('<');
                    out.push('!');
                    out.push('D');
                    out.push('O');
                    out.push('C');
                    out.push('T');
                    out.push('Y');
                    out.push('P');
                    out.push('E');
                    out.push(' ');
                    push_str_chars(out, d.name.as_str());
                    out.push('>');
                    proof {
                        assert(out@ =~= old(out)@ + emit(t@, e@));
                    }
                }
                crate::tree::NodeData::Document(_) => {
                    proof {
                        assert(out@ =~= old(out)@ + emit(t@, e@));
                    }
                }
            }
        }
        NodeEdge::End(n) => {
            match t.data(n) {
                crate::tree::NodeData::Element(el) => {
                    out.push('<');
                    out.push('/');
                    push_str_chars(out, el.name.local.as_str());
                    out.push('>');
                    proof {
                        assert(out@ =~= old(out)@ + emit(t@, e@));
                    }
                }
                _ => {
                    proof {
                        assert(out@ =~= old(out)@ + emit(t@, e@));
                    }
                }
            }
        }
    }
}

impl Tree {
    /// Serialize a subtree to text: the node itself with all descendants,
    /// or only its descendants, depending on the scope.
    pub fn serialize(&self, node: NodeRef, scope: TraversalScope) -> (r: String)
        requires
            self.wf(),
            self@.live.contains(node.id as int),
        ensures
            r@ == ser_spec(self@, node.id as int, scope),
    {
        let ghost v = self@;
        let ghost ri = node.id as int;
        let ghost es = edges(v, ri);
        proof {
            self.lemma_wf_inv();
            lemma_edge_steps(v, ri);
        }
        let mut out: Vec<char> = Vec::new();
        let mut walk = self.traverse_inclusive(node);
        let children_only = match scope {
            TraversalScope::ChildrenOnly => true,
            TraversalScope::IncludeNode => false,
        };
        if children_only {
            let skipped = walk.next(self);
        }
        let ghost lo: int = if children_only { 1 } else { 0 };
        proof {
            assert(es.subrange(lo, lo) =~= Seq::<EdgeView>::empty());
            assert(out@ =~= Seq::<char>::empty() + ser_edges(v, es.subrange(lo, lo)));
            assert(out@ =~= ser_edges(v, es.subrange(lo, lo)));
        }
        loop
            invariant
                self.wf(),
                walk.valid(self@),
                walk.root == node,
                !walk.strict,
                v == self@,
                ri == node.id as int,
                es == edges(v, ri),
                edge_run_ok(v, ri, es),
                children_only <==> lo == 1,
                children_only <==> scope == TraversalScope::ChildrenOnly,
                lo == 0 || lo == 1,
                lo <= walk.count@ <= es.len(),
                children_only ==> walk.count@ <= es.len() - 1,
                out@ == ser_edges(v, es.subrange(lo, walk.count@)),
            decreases es.len() - walk.count@,
        {
            let ghost i = walk.count@;
            match walk.next(self) {
                Some(e) => {
                    let at_root_end = children_only && (match e {
                        NodeEdge::End(n) => n.id == node.id,
                        NodeEdge::Start(_) => false,
                    });
                    if at_root_end {
                        proof {
                            assert(e@ == EdgeView::End(ri));
                            if i < es.len() - 1 {
                                if i == 0 {
                                    assert(es[0] == EdgeView::Start(ri));
                                } else {
                                    assert(edge_node(es[i]) != ri);
                                }
                                assert(false);
                            }
                            assert(i == es.len() - 1);
                            assert(es.subrange(1, i) =~= es.subrange(1, es.len() - 1));
                            assert(out@ == ser_spec(v, ri, scope));
                        }
                        return string_from_chars(out);
                    }
                    proof {
                        assert(v.live.contains(edge_node(es[i])));
                        if children_only && i == es.len() - 1 {
                            assert(es[i] == EdgeView::End(ri));
                            assert(false);
                        }
                    }
                    emit_edge(self, e, &mut out);
                    proof {
                        assert(es.subrange(lo, i + 1) =~= es.subrange(lo, i) + seq![es[i]]);
                        lemma_ser_edges_add(v, es.subrange(lo, i), seq![es[i]]);
                        lemma_ser_edges_single(v, es[i]);
                        assert(out@ =~= ser_edges(v, es.subrange(lo, i + 1)));
                    }
                }
                None => {
                    proof {
                        if children_only {
                            assert(false);
                        }
                        assert(walk.count@ == es.len());
                        assert(lo == 0);
                        assert(es.subrange(0, es.len() as int) =~= es);
                        assert(out@ == ser_spec(v, ri, scope));
                    }
                    return string_from_chars(out);
                }
            }
        }
    }

    /// The concatenation of all text in this subtree, in tree order.
    pub fn text_contents(&self, node: NodeRef) -> (r: String)
        requires
            self.wf(),
            self@.live.contains(node.id as int),
        ensures
            r@ == text_contents_spec(self@, node.id as int),
    {
        let ghost v = self@;
        let ghost ri = node.id as int;
        let ghost es = edges(v, ri);
        proof {
            self.lemma_wf_inv();
            lemma_edge_steps(v, ri);
        }
        let mut out: Vec<char> = Vec::new();
        let mut walk = self.traverse_inclusive(node);
        proof {
            assert(es.subrange(0, 0) =~= Seq::<EdgeView>::empty());
            assert(out@ =~= texts_of_edges(v, es.subrange(0, 0)));
        }
        loop
            invariant
                self.wf(),
                walk.valid(self@),
                walk.root == node,
                !walk.strict,
                v == self@,
                ri == node.id as int,
                es == edges(v, ri),
                edge_run_ok(v, ri, es),
                0 <= walk.count@ <= es.len(),
                out@ == texts_of_edges(v, es.subrange(0, walk.count@)),
            decreases es.len() - walk.count@,
        {
            let ghost i = walk.count@;
            match walk.next(self) {
                Some(e) => {
                    proof {
                        assert(v.live.contains(edge_node(es[i])));
                    }
                    match e {
                        NodeEdge::Start(n) => {
                            match self.data(n) {
                                crate::tree::NodeData::Text(s) => {
                                    push_str_chars(&mut out, s.as_str());
                                }
                                _ => {}
                            }
                        }
                        NodeEdge::End(_) => {}
                    }
                    proof {
                        assert(es.subrange(0, i + 1) =~= es.subrange(0, i) + seq![es[i]]);
                        lemma_texts_add(v, es.subrange(0, i), seq![es[i]]);
                        lemma_texts_single(v, es[i]);
                        assert(out@ =~= texts_of_edges(v, es.subrange(0, i + 1)));
                    }
                }
                None => {
                    proof {
                        assert(walk.count@ == es.len());
                        assert(es.subrange(0, es.len() as int) =~= es);
                    }
                    return string_from_chars(out);
                }
            }
        }
    }
}

} // verus!
