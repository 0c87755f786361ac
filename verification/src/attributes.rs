//! Namespace-aware element attributes.
//!
//! An element's attributes form a mapping from an expanded name (namespace
//! URL plus local name) to a value, together with an optional serialization
//! prefix.  The store keeps entries in insertion order, so that observable
//! iteration (and re-serialization) is deterministic, and it never holds two
//! entries with the same expanded name.

use vstd::prelude::*;

verus! {

/// Namespace URL and local part of an attribute name.
#[derive(Clone, Debug)]
pub struct ExpandedName {
    /// Namespace URL; the empty string is the null namespace.
    pub ns: String,
    /// Local part of the name.
    pub local: String,
}

/// The non-identifying parts of an attribute.
#[derive(Clone, Debug)]
pub struct Attribute {
    /// The namespace prefix, if any.
    pub prefix: Option<String>,
    /// The attribute value.
    pub value: String,
}

/// Abstract value of one attribute entry.
#[verifier::ext_equal]
pub struct AttrEntry {
    pub ns: Seq<char>,
    pub local: Seq<char>,
    pub prefix: Option<Seq<char>>,
    pub value: Seq<char>,
}

pub open spec fn opt_str_view(o: Option<String>) -> Option<Seq<char>> {
    match o {
        Some(s) => Some(s@),
        None => None,
    }
}

pub open spec fn entry_view(kv: (ExpandedName, Attribute)) -> AttrEntry {
    AttrEntry {
        ns: kv.0.ns@,
        local: kv.0.local@,
        prefix: opt_str_view(kv.1.prefix),
        value: kv.1.value@,
    }
}

/// No two entries share an expanded name.
pub open spec fn attrs_wf(s: Seq<AttrEntry>) -> bool {
    forall |i: int, j: int|
        0 <= i < s.len() && 0 <= j < s.len()
        && (#[trigger] s[i]).ns == (#[trigger] s[j]).ns && s[i].local == s[j].local
        ==> i == j
}

/// Whether some entry has the given expanded name.
pub open spec fn has_key(s: Seq<AttrEntry>, ns: Seq<char>, local: Seq<char>) -> bool {
    exists |i: int| 0 <= i < s.len() && (#[trigger] s[i]).ns == ns && s[i].local == local
}

/// The index of the entry with the given expanded name.
pub open spec fn key_index(s: Seq<AttrEntry>, ns: Seq<char>, local: Seq<char>) -> int {
    choose |i: int| 0 <= i < s.len() && (#[trigger] s[i]).ns == ns && s[i].local == local
}

impl ExpandedName {
    /// Trivial constructor.
    pub fn new(ns: String, local: String) -> (r: ExpandedName)
        ensures
            r.ns@ == ns@,
            r.local@ == local@,
    {
        ExpandedName { ns, local }
    }
}

/// Relies on str's `PartialEq`: two string slices are equal exactly when
/// their character sequences are equal.
#[verifier::external_body]
fn str_eq(a: &str, b: &str) -> (r: bool)
    ensures
        r == (a@ == b@),
{
    a == b
}

proof fn lemma_push_keeps_wf(s: Seq<AttrEntry>, e: AttrEntry)
    requires
        attrs_wf(s),
        !has_key(s, e.ns, e.local),
    ensures
        attrs_wf(s.push(e)),
{
    let t = s.push(e);
    assert forall |a: int, b: int|
        0 <= a < t.len() && 0 <= b < t.len()
        && (#[trigger] t[a]).ns == (#[trigger] t[b]).ns && t[a].local == t[b].local
        implies a == b
    by {
        if a < s.len() && b < s.len() {
            assert(s[a] == t[a] && s[b] == t[b]);
        } else if a < s.len() && b == s.len() {
            assert(s[a] == t[a] && t[b] == e);
        } else if b < s.len() && a == s.len() {
            assert(s[b] == t[b] && t[a] == e);
        }
    }
}

/// An insertion-ordered map of attributes with unique expanded names.
#[derive(Debug)]
pub struct Attributes {
    map: Vec<(ExpandedName, Attribute)>,
}

impl View for Attributes {
    type V = Seq<AttrEntry>;

    closed spec fn view(&self) -> Seq<AttrEntry> {
        self.map@.map(|i: int, kv: (ExpandedName, Attribute)| entry_view(kv))
    }
}

impl Attributes {
    /// An empty attribute store.
    pub fn new() -> (r: Attributes)
        ensures
            r@ == Seq::<AttrEntry>::empty(),
            attrs_wf(r@),
    {
        let r = Attributes { map: Vec::new() };
        proof {
            assert(r@ =~= Seq::<AttrEntry>::empty());
        }
        r
    }

    /// The number of attributes.
    pub fn len(&self) -> (n: usize)
        ensures
            n == self@.len(),
    {
        self.map.len()
    }

    /// The entry at a position, in insertion order.
    pub fn entry_at(&self, i: usize) -> (r: &(ExpandedName, Attribute))
        requires
            i < self@.len(),
        ensures
            entry_view(*r) == self@[i as int],
    {
        &self.map[i]
    }

    /// The position of the entry with the given expanded name, if any.
    pub fn find(&self, ns: &str, local: &str) -> (r: Option<usize>)
        requires
            attrs_wf(self@),
        ensures
            match r {
                Some(i) => i < self@.len() && self@[i as int].ns == ns@
                    && self@[i as int].local == local@
                    && i == key_index(self@, ns@, local@)
                    && has_key(self@, ns@, local@),
                None => !has_key(self@, ns@, local@),
            },
    {
        let n = self.map.len();
        let mut i: usize = 0;
        while i < n
            invariant
                n == self@.len(),
                i <= n,
                attrs_wf(self@),
                forall |j: int| 0 <= j < i ==> !((#[trigger] self@[j]).ns == ns@ && self@[j].local == local@),
            decreases n - i,
        {
            assert(self@[i as int] == entry_view(self.map@[i as int]));
            if str_eq(self.map[i].0.ns.as_str(), ns) && str_eq(self.map[i].0.local.as_str(), local) {
                return Some(i);
            }
            i = i + 1;
        }
        None
    }

    /// Whether an attribute with the given local name exists in the null
    /// namespace.
    pub fn contains(&self, local: &str) -> (r: bool)
        requires
            attrs_wf(self@),
        ensures
            r == has_key(self@, Seq::<char>::empty(), local@),
    {
        proof {
            reveal_strlit("");
            assert(""@ =~= Seq::<char>::empty());
        }
        match self.find("", local) {
            Some(_) => true,
            None => false,
        }
    }

    /// The value of the attribute with the given local name in the null
    /// namespace, if any.
    pub fn get(&self, local: &str) -> (r: Option<&String>)
        requires
            attrs_wf(self@),
        ensures
            match r {
                Some(v) => has_key(self@, Seq::<char>::empty(), local@)
                    && v@ == self@[key_index(self@, Seq::<char>::empty(), local@)].value,
                None => !has_key(self@, Seq::<char>::empty(), local@),
            },
    {
        proof {
            reveal_strlit("");
            assert(""@ =~= Seq::<char>::empty());
        }
        match self.find("", local) {
            Some(i) => {
                assert(self@[i as int] == entry_view(self.map@[i as int]));
                Some(&self.map[i].1.value)
            }
            None => None,
        }
    }

    /// Insert an attribute with the given expanded name, prefix and value,
    /// returning the previous attribute with that name, if any.  A replaced
    /// entry keeps its position; a new entry goes to the end.
    pub fn insert_ns(&mut self, name: ExpandedName, prefix: Option<String>, value: String)
        -> (r: Option<Attribute>)
        requires
            attrs_wf(old(self)@),
        ensures
            attrs_wf(final(self)@),
            ({
                let e = AttrEntry {
                    ns: name.ns@,
                    local: name.local@,
                    prefix: opt_str_view(prefix),
                    value: value@,
                };
                match r {
                    Some(a) => has_key(old(self)@, name.ns@, name.local@)
                        && ({
                            let k = key_index(old(self)@, name.ns@, name.local@);
                            &&& opt_str_view(a.prefix) == old(self)@[k].prefix
                            &&& a.value@ == old(self)@[k].value
                            &&& final(self)@ == old(self)@.update(k, e)
                        }),
                    None => !has_key(old(self)@, name.ns@, name.local@)
                        && final(self)@ == old(self)@.push(e),
                }
            }),
    {
        let ghost e = AttrEntry {
            ns: name.ns@,
            local: name.local@,
            prefix: opt_str_view(prefix),
            value: value@,
        };
        let found = self.find(name.ns.as_str(), name.local.as_str());
        match found {
            Some(i) => {
                let ghost k = i as int;
                let mut fresh = Attribute { prefix, value };
                core::mem::swap(&mut self.map[i].1, &mut fresh);
                proof {
                    assert(self@[k] == entry_view(self.map@[k]));
                    assert(self@ =~= old(self)@.update(k, e));
                    assert forall |a: int, b: int|
                        0 <= a < self@.len() && 0 <= b < self@.len()
                        && (#[trigger] self@[a]).ns == (#[trigger] self@[b]).ns
                        && self@[a].local == self@[b].local
                        implies a == b
                    by {
                        assert(self@[a].ns == old(self)@[a].ns && self@[a].local == old(self)@[a].local);
                        assert(self@[b].ns == old(self)@[b].ns && self@[b].local == old(self)@[b].local);
                        assert(attrs_wf(old(self)@));
                    }
                }
                Some(fresh)
            }
            None => {
                self.map.push((name, Attribute { prefix, value }));
                proof {
                    assert(self@ =~= old(self)@.push(e));
                    lemma_push_keeps_wf(old(self)@, e);
                }
                None
            }
        }
    }

    /// Insert an attribute with the given local name in the null namespace,
    /// returning the previous attribute with that name, if any.
    pub fn insert(&mut self, local: String, value: String) -> (r: Option<Attribute>)
        requires
            attrs_wf(old(self)@),
        ensures
            attrs_wf(final(self)@),
            ({
                let e = AttrEntry {
                    ns: Seq::<char>::empty(),
                    local: local@,
                    prefix: None,
                    value: value@,
                };
                match r {
                    Some(a) => has_key(old(self)@, Seq::<char>::empty(), local@)
                        && ({
                            let k = key_index(old(self)@, Seq::<char>::empty(), local@);
                            &&& opt_str_view(a.prefix) == old(self)@[k].prefix
                            &&& a.value@ == old(self)@[k].value
                            &&& final(self)@ == old(self)@.update(k, e)
                        }),
                    None => !has_key(old(self)@, Seq::<char>::empty(), local@)
                        && final(self)@ == old(self)@.push(e),
                }
            }),
    {
        let ns = String::new();
        self.insert_ns(ExpandedName { ns, local }, None, value)
    }

    /// Insert an attribute only when no attribute with that expanded name
    /// exists yet.
    pub fn insert_if_missing(&mut self, name: ExpandedName, prefix: Option<String>, value: String)
        requires
            attrs_wf(old(self)@),
        ensures
            attrs_wf(final(self)@),
            final(self)@ == (if has_key(old(self)@, name.ns@, name.local@) {
                old(self)@
            } else {
                old(self)@.push(AttrEntry {
                    ns: name.ns@,
                    local: name.local@,
                    prefix: opt_str_view(prefix),
                    value: value@,
                })
            }),
    {
        let ghost e = AttrEntry {
            ns: name.ns@,
            local: name.local@,
            prefix: opt_str_view(prefix),
            value: value@,
        };
        let found = self.find(name.ns.as_str(), name.local.as_str());
        match found {
            Some(_) => {}
            None => {
                self.map.push((name, Attribute { prefix, value }));
                proof {
                    assert(self@ =~= old(self)@.push(e));
                    lemma_push_keeps_wf(old(self)@, e);
                }
            }
        }
    }

    /// Remove and return the attribute with the given local name in the null
    /// namespace, if any.
    pub fn remove(&mut self, local: &str) -> (r: Option<Attribute>)
        requires
            attrs_wf(old(self)@),
        ensures
            attrs_wf(final(self)@),
            match r {
                Some(a) => has_key(old(self)@, Seq::<char>::empty(), local@)
                    && ({
                        let k = key_index(old(self)@, Seq::<char>::empty(), local@);
                        &&& opt_str_view(a.prefix) == old(self)@[k].prefix
                        &&& a.value@ == old(self)@[k].value
                        &&& final(self)@ == old(self)@.remove(k)
                    }),
                None => !has_key(old(self)@, Seq::<char>::empty(), local@)
                    && final(self)@ == old(self)@,
            },
    {
        proof {
            reveal_strlit("");
            assert(""@ =~= Seq::<char>::empty());
        }
        let found = self.find("", local);
        match found {
            Some(i) => {
                let ghost k = i as int;
                let pair = self.map.remove(i);
                proof {
                    assert(self@ =~= old(self)@.remove(k));
                    assert forall |a: int, b: int|
                        0 <= a < self@.len() && 0 <= b < self@.len()
                        && (#[trigger] self@[a]).ns == (#[trigger] self@[b]).ns
                        && self@[a].local == self@[b].local
                        implies a == b
                    by {
                        let a0: int = if a < k { a } else { a + 1 };
                        let b0: int = if b < k { b } else { b + 1 };
                        assert(old(self)@[a0] == self@[a]);
                        assert(old(self)@[b0] == self@[b]);
                        assert(attrs_wf(old(self)@));
                    }
                }
                Some(pair.1)
            }
            None => None,
        }
    }
}

} // verus!
