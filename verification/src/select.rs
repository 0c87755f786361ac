//! The element view: the fixed read interface an external selector engine
//! consumes, plus the pseudo-class vocabulary it may ask about.

use vstd::prelude::*;
use vstd::string::StringExecFns;
use crate::tree::{Tree, TreeView, NodeRef, DataView, attrs_of, text_of, inv, parent_ok, kids_ok, chain_ok};
use crate::attributes::{AttrEntry, has_key, key_index, attrs_wf};

verus! {

/// A pseudo-class a selector may test on an element.
#[derive(Clone, Copy, PartialEq, Eq, Structural, Debug, Hash)]
pub enum PseudoClass {
    AnyLink,
    Link,
    Visited,
    Active,
    Focus,
    Hover,
    Enabled,
    Disabled,
    Checked,
    Indeterminate,
}

/// The pseudo-elements this library supports: none are ever produced, so
/// the one variant below never leaves [`KuchikiSelectors::parse_pseudo_element`].
#[derive(Clone, Copy, PartialEq, Eq, Structural, Debug, Hash)]
pub enum PseudoElement {
    Unsupported,
}

/// The CSS text of a pseudo-class.
pub open spec fn pseudo_class_css(p: PseudoClass) -> Seq<char> {
    match p {
        PseudoClass::AnyLink => ":any-link"@,
        PseudoClass::Link => ":link"@,
        PseudoClass::Visited => ":visited"@,
        PseudoClass::Active => ":active"@,
        PseudoClass::Focus => ":focus"@,
        PseudoClass::Hover => ":hover"@,
        PseudoClass::Enabled => ":enabled"@,
        PseudoClass::Disabled => ":disabled"@,
        PseudoClass::Checked => ":checked"@,
        PseudoClass::Indeterminate => ":indeterminate"@,
    }
}

impl PseudoClass {
    /// The CSS text of this pseudo-class.
    pub fn to_css(&self) -> (r: String)
        ensures
            r@ == pseudo_class_css(*self),
    {
        match self {
            PseudoClass::AnyLink => String::from_str(":any-link"),
            PseudoClass::Link => String::from_str(":link"),
            PseudoClass::Visited => String::from_str(":visited"),
            PseudoClass::Active => String::from_str(":active"),
            PseudoClass::Focus => String::from_str(":focus"),
            PseudoClass::Hover => String::from_str(":hover"),
            PseudoClass::Enabled => String::from_str(":enabled"),
            PseudoClass::Disabled => String::from_str(":disabled"),
            PseudoClass::Checked => String::from_str(":checked"),
            PseudoClass::Indeterminate => String::from_str(":indeterminate"),
        }
    }
}

/// Case-insensitive equality of two characters, folding ASCII letters only.
pub open spec fn ascii_eq_ci(a: char, b: char) -> bool {
    ||| a == b
    ||| ('A' <= a <= 'Z' && b as u32 == a as u32 + 32)
    ||| ('A' <= b <= 'Z' && a as u32 == b as u32 + 32)
}

/// Case-insensitive equality of two strings, folding ASCII letters only.
pub open spec fn str_eq_ci(a: Seq<char>, b: Seq<char>) -> bool {
    a.len() == b.len() && forall |i: int| 0 <= i < a.len() ==> ascii_eq_ci(#[trigger] a[i], b[i])
}

/// Whether two strings are equal up to ASCII case.
pub fn eq_ignore_ascii_case(a: &str, b: &str) -> (r: bool)
    ensures
        r == str_eq_ci(a@, b@),
{
    let na = a.unicode_len();
    let nb = b.unicode_len();
    if na != nb {
        return false;
    }
    let mut i: usize = 0;
    while i < na
        invariant
            na == a@.len(),
            na == b@.len(),
            i <= na,
            forall |j: int| 0 <= j < i ==> ascii_eq_ci(#[trigger] a@[j], b@[j]),
        decreases na - i,
    {
        let ca = a.get_char(i);
        let cb = b.get_char(i);
        let same = if ca == cb {
            true
        } else if 'A' <= ca && ca <= 'Z' && cb as u32 == ca as u32 + 32 {
            true
        } else if 'A' <= cb && cb <= 'Z' && ca as u32 == cb as u32 + 32 {
            true
        } else {
            false
        };
        if !same {
            return false;
        }
        i = i + 1;
    }
    true
}

/// The selector vocabulary of this library: it parses the standard
/// non-tree-structural pseudo-classes and no pseudo-elements.
#[derive(Debug)]
pub struct KuchikiSelectors;

impl KuchikiSelectors {
    /// Parse a pseudo-class name, ignoring ASCII case.
    pub fn parse_non_ts_pseudo_class(name: &str) -> (r: Result<PseudoClass, ()>)
        ensures
            match r {
                Ok(p) => str_eq_ci(name@, match p {
                    PseudoClass::AnyLink => "any-link"@,
                    PseudoClass::Link => "link"@,
                    PseudoClass::Visited => "visited"@,
                    PseudoClass::Active => "active"@,
                    PseudoClass::Focus => "focus"@,
                    PseudoClass::Hover => "hover"@,
                    PseudoClass::Enabled => "enabled"@,
                    PseudoClass::Disabled => "disabled"@,
                    PseudoClass::Checked => "checked"@,
                    PseudoClass::Indeterminate => "indeterminate"@,
                }),
                Err(u) => !str_eq_ci(name@, "any-link"@) && !str_eq_ci(name@, "link"@)
                    && !str_eq_ci(name@, "visited"@) && !str_eq_ci(name@, "active"@)
                    && !str_eq_ci(name@, "focus"@) && !str_eq_ci(name@, "hover"@)
                    && !str_eq_ci(name@, "enabled"@) && !str_eq_ci(name@, "disabled"@)
                    && !str_eq_ci(name@, "checked"@) && !str_eq_ci(name@, "indeterminate"@),
            },
    {
        if eq_ignore_ascii_case(name, "any-link") {
            Ok(PseudoClass::AnyLink)
        } else if eq_ignore_ascii_case(name, "link") {
            Ok(PseudoClass::Link)
        } else if eq_ignore_ascii_case(name, "visited") {
            Ok(PseudoClass::Visited)
        } else if eq_ignore_ascii_case(name, "active") {
            Ok(PseudoClass::Active)
        } else if eq_ignore_ascii_case(name, "focus") {
            Ok(PseudoClass::Focus)
        } else if eq_ignore_ascii_case(name, "hover") {
            Ok(PseudoClass::Hover)
        } else if eq_ignore_ascii_case(name, "enabled") {
            Ok(PseudoClass::Enabled)
        } else if eq_ignore_ascii_case(name, "disabled") {
            Ok(PseudoClass::Disabled)
        } else if eq_ignore_ascii_case(name, "checked") {
            Ok(PseudoClass::Checked)
        } else if eq_ignore_ascii_case(name, "indeterminate") {
            Ok(PseudoClass::Indeterminate)
        } else {
            Err(())
        }
    }

    /// Parse a pseudo-element name; none are supported.
    pub fn parse_pseudo_element(name: &str) -> (r: Result<PseudoElement, ()>)
        ensures
            r is Err,
    {
        Err(())
    }
}

/// The whitespace that separates class names in a `class` attribute.
pub open spec fn is_selector_space(c: char) -> bool {
    c == ' ' || c == '\t' || c == '\n' || c == '\r' || c == '\u{c}'
}

/// A valid class name for membership tests: nonempty and free of the
/// selector whitespace characters.  A `class` attribute is split into
/// whitespace-separated tokens, and a token never contains whitespace, so
/// a name that does can never equal one.
pub open spec fn is_class_token(name: Seq<char>) -> bool {
    &&& name.len() > 0
    &&& forall |i: int| 0 <= i < name.len() ==> !is_selector_space(#[trigger] name[i])
}

/// Whether `name` occurs in `s` delimited by whitespace or the string's
/// edges.  For a whitespace-free `name` this is exactly membership among
/// the whitespace-separated tokens of `s`.
pub open spec fn has_word(s: Seq<char>, name: Seq<char>) -> bool {
    exists |i: int| 0 <= i <= s.len() - name.len()
        && #[trigger] s.subrange(i, i + name.len()) == name
        && (i == 0 || is_selector_space(s[i - 1]))
        && (i + name.len() == s.len() || is_selector_space(s[i + name.len()]))
}

/// Whether `name` occurs in `s` as a whitespace-delimited word, checked at
/// one candidate position after another.
fn word_at(s: &str, name: &str, i: usize) -> (r: bool)
    requires
        i + name@.len() <= s@.len(),
    ensures
        r == (s@.subrange(i as int, i as int + name@.len() as int) == name@
            && (i == 0 || is_selector_space(s@[i as int - 1]))
            && (i + name@.len() == s@.len() || is_selector_space(s@[i as int + name@.len() as int]))),
{
    let n = name.unicode_len();
    let sn = s.unicode_len();
    // boundary before
    if i > 0 {
        let before = s.get_char(i - 1);
        let sp = before == ' ' || before == '\t' || before == '\n' || before == '\r'
            || before == '\u{c}';
        if !sp {
            proof {
                assert(!is_selector_space(s@[i as int - 1]));
            }
            return false;
        }
    }
    // boundary after
    if i + n < sn {
        let after = s.get_char(i + n);
        let sp = after == ' ' || after == '\t' || after == '\n' || after == '\r'
            || after == '\u{c}';
        if !sp {
            proof {
                assert(!is_selector_space(s@[i as int + name@.len() as int]));
            }
            return false;
        }
    }
    // the word itself
    let mut j: usize = 0;
    while j < n
        invariant
            n == name@.len(),
            sn == s@.len(),
            i + n <= sn,
            j <= n,
            forall |k: int| 0 <= k < j ==> #[trigger] s@[i as int + k] == name@[k],
        decreases n - j,
    {
        if s.get_char(i + j) != name.get_char(j) {
            proof {
                assert(s@.subrange(i as int, i as int + name@.len() as int)[j as int]
                    == s@[i as int + j]);
            }
            return false;
        }
        j = j + 1;
    }
    proof {
        assert forall |k: int| 0 <= k < name@.len() implies
            s@.subrange(i as int, i as int + name@.len() as int)[k] == name@[k] by {
            assert(s@[i as int + k] == name@[k]);
        }
        assert(s@.subrange(i as int, i as int + name@.len() as int) =~= name@);
    }
    true
}

/// Whether the whitespace-separated tokens of `s` include `name`.  A name
/// that is empty or itself contains whitespace matches nothing.
pub fn contains_word(s: &str, name: &str) -> (r: bool)
    ensures
        r == (is_class_token(name@) && has_word(s@, name@)),
{
    let n = name.unicode_len();
    let sn = s.unicode_len();
    // a name containing whitespace can never equal a token
    let mut j: usize = 0;
    while j < n
        invariant
            n == name@.len(),
            j <= n,
            forall |k: int| 0 <= k < j ==> !is_selector_space(#[trigger] name@[k]),
        decreases n - j,
    {
        let c = name.get_char(j);
        if c == ' ' || c == '\t' || c == '\n' || c == '\r' || c == '\u{c}' {
            proof {
                assert(is_selector_space(name@[j as int]));
                assert(!is_class_token(name@));
            }
            return false;
        }
        j = j + 1;
    }
    if n == 0 || n > sn {
        proof {
            if n > sn && has_word(s@, name@) {
                let i = choose |i: int| 0 <= i <= s@.len() - name@.len()
                    && #[trigger] s@.subrange(i, i + name@.len() as int) == name@
                    && (i == 0 || is_selector_space(s@[i - 1]))
                    && (i + name@.len() == s@.len() || is_selector_space(s@[i + name@.len()]));
                assert(false);
            }
        }
        return false;
    }
    let mut i: usize = 0;
    while i <= sn - n
        invariant
            n == name@.len(),
            sn == s@.len(),
            0 < n <= sn,
            is_class_token(name@),
            i <= sn - n + 1,
            forall |k: int| 0 <= k < i ==> !(
                #[trigger] s@.subrange(k, k + name@.len() as int) == name@
                && (k == 0 || is_selector_space(s@[k - 1]))
                && (k + name@.len() == s@.len() || is_selector_space(s@[k + name@.len()]))),
        decreases sn - n - i + 1,
    {
        if word_at(s, name, i) {
            return true;
        }
        i = i + 1;
    }
    proof {
        if has_word(s@, name@) {
            let k = choose |k: int| 0 <= k <= s@.len() - name@.len()
                && #[trigger] s@.subrange(k, k + name@.len() as int) == name@
                && (k == 0 || is_selector_space(s@[k - 1]))
                && (k + name@.len() == s@.len() || is_selector_space(s@[k + name@.len()]));
            assert(k < i);
            assert(false);
        }
    }
    false
}

/// The length of the leading run of non-whitespace characters.
pub open spec fn token_len(s: Seq<char>) -> int
    decreases s.len(),
{
    if s.len() == 0 || is_selector_space(s[0]) {
        0
    } else {
        1 + token_len(s.drop_first())
    }
}

/// The leading token run is within bounds, positive exactly when the string
/// starts with a non-whitespace character, and whitespace-free.
pub proof fn lemma_token_len(s: Seq<char>)
    ensures
        0 <= token_len(s) <= s.len(),
        s.len() > 0 && !is_selector_space(s[0]) ==> token_len(s) >= 1,
        forall |i: int| 0 <= i < token_len(s) ==> !is_selector_space(#[trigger] s[i]),
        token_len(s) < s.len() ==> is_selector_space(s[token_len(s)]),
    decreases s.len(),
{
    if s.len() == 0 || is_selector_space(s[0]) {
    } else {
        lemma_token_len(s.drop_first());
        assert forall |i: int| 0 <= i < token_len(s)
            implies !is_selector_space(#[trigger] s[i]) by {
            if i > 0 {
                assert(s.drop_first()[i - 1] == s[i]);
            }
        }
        if token_len(s) < s.len() {
            assert(s.drop_first()[token_len(s) - 1] == s[token_len(s)]);
        }
    }
}

/// The leading token run of a string whose first `k` characters are not
/// whitespace and whose character `k` (if any) is whitespace has length `k`.
pub proof fn lemma_token_len_is(s: Seq<char>, k: int)
    requires
        0 <= k <= s.len(),
        forall |i: int| 0 <= i < k ==> !is_selector_space(#[trigger] s[i]),
        k < s.len() ==> is_selector_space(s[k]),
    ensures
        token_len(s) == k,
    decreases s.len(),
{
    if k == 0 {
    } else {
        assert(!is_selector_space(s[0]));
        assert forall |i: int| 0 <= i < k - 1
            implies !is_selector_space(#[trigger] s.drop_first()[i]) by {
            assert(s.drop_first()[i] == s[i + 1]);
        }
        if k - 1 < s.drop_first().len() {
            assert(s.drop_first()[k - 1] == s[k]);
        }
        lemma_token_len_is(s.drop_first(), k - 1);
    }
}

/// The whitespace-separated tokens of a string, in order.
pub open spec fn split_spaces(s: Seq<char>) -> Seq<Seq<char>>
    decreases s.len(),
    via split_spaces_decreases
{
    if s.len() == 0 {
        Seq::empty()
    } else if is_selector_space(s[0]) {
        split_spaces(s.drop_first())
    } else {
        seq![s.take(token_len(s))] + split_spaces(s.skip(token_len(s)))
    }
}

#[via_fn]
proof fn split_spaces_decreases(s: Seq<char>) {
    if s.len() != 0 && !is_selector_space(s[0]) {
        lemma_token_len(s);
    }
}

/// Whether a character is selector whitespace.
fn is_space_char(c: char) -> (r: bool)
    ensures
        r == is_selector_space(c),
{
    c == ' ' || c == '\t' || c == '\n' || c == '\r' || c == '\u{c}'
}

/// Split a string into its whitespace-separated tokens, in order.
pub fn split_class_names(s: &str) -> (r: Vec<String>)
    ensures
        r@.map_values(|c: String| c@) == split_spaces(s@),
{
    let n = s.unicode_len();
    let mut out: Vec<String> = Vec::new();
    let mut i: usize = 0;
    proof {
        assert(s@.skip(0) =~= s@);
        assert(out@.map_values(|c: String| c@) =~= Seq::<Seq<char>>::empty());
    }
    while i < n
        invariant
            n == s@.len(),
            i <= n,
            out@.map_values(|c: String| c@) + split_spaces(s@.skip(i as int)) == split_spaces(s@),
        decreases n - i,
    {
        let c = s.get_char(i);
        if is_space_char(c) {
            proof {
                assert(s@.skip(i as int)[0] == s@[i as int]);
                assert(s@.skip(i as int).drop_first() =~= s@.skip(i + 1));
            }
            i = i + 1;
        } else {
            // scan to the end of the token starting here
            let mut j = i;
            while j < n && !is_space_char(s.get_char(j))
                invariant
                    n == s@.len(),
                    i <= j <= n,
                    forall |k: int| i <= k < j ==> !is_selector_space(#[trigger] s@[k]),
                decreases n - j,
            {
                j = j + 1;
            }
            // copy the token out
            let mut token: Vec<char> = Vec::new();
            let mut k = i;
            proof {
                assert(token@ =~= s@.subrange(i as int, i as int));
            }
            while k < j
                invariant
                    n == s@.len(),
                    i <= k <= j <= n,
                    token@ == s@.subrange(i as int, k as int),
                decreases j - k,
            {
                let ch = s.get_char(k);
                token.push(ch);
                proof {
                    assert(s@.subrange(i as int, k + 1)
                        =~= s@.subrange(i as int, k as int).push(s@[k as int]));
                }
                k = k + 1;
            }
            proof {
                let rest = s@.skip(i as int);
                assert forall |m: int| 0 <= m < j - i
                    implies !is_selector_space(#[trigger] rest[m]) by {
                    assert(rest[m] == s@[i + m]);
                }
                if j < n {
                    assert(rest[j - i] == s@[j as int]);
                }
                lemma_token_len_is(rest, j - i);
                assert(!is_selector_space(rest[0])) by {
                    assert(rest[0] == s@[i as int]);
                }
                assert(split_spaces(rest) == seq![rest.take(j - i)]
                    + split_spaces(rest.skip(j - i)));
                assert(rest.take(j - i) =~= s@.subrange(i as int, j as int));
                assert(rest.skip(j - i) =~= s@.skip(j as int));
                assert(token@ == s@.subrange(i as int, j as int));
            }
            let ghost out0 = out@;
            let word = crate::serializer::string_from_chars(token);
            out.push(word);
            proof {
                assert(out@.map_values(|c: String| c@)
                    =~= out0.map_values(|c: String| c@).push(s@.subrange(i as int, j as int)));
                assert(out@.map_values(|c: String| c@) + split_spaces(s@.skip(j as int))
                    =~= split_spaces(s@));
            }
            i = j;
        }
    }
    proof {
        assert(s@.skip(n as int) =~= Seq::<char>::empty());
        assert(split_spaces(Seq::<char>::empty()) =~= Seq::<Seq<char>>::empty());
        assert(out@.map_values(|c: String| c@) =~= split_spaces(s@));
    }
    out
}

/// Whether a child node is insignificant for emptiness: neither an element
/// nor a nonempty text node.
pub open spec fn child_insignificant(v: TreeView, x: int) -> bool {
    &&& !(v.data[x] is Element)
    &&& (v.data[x] is Text ==> text_of(v.data[x]).len() == 0)
}

/// The first element node of a list, if any.
pub open spec fn first_element_of(v: TreeView, s: Seq<int>) -> Option<int>
    decreases s.len(),
{
    if s.len() == 0 {
        None
    } else if v.data[s[0]] is Element {
        Some(s[0])
    } else {
        first_element_of(v, s.drop_first())
    }
}

/// The last element node of a list, if any.
pub open spec fn last_element_of(v: TreeView, s: Seq<int>) -> Option<int>
    decreases s.len(),
{
    if s.len() == 0 {
        None
    } else if v.data[s.last()] is Element {
        Some(s.last())
    } else {
        last_element_of(v, s.drop_last())
    }
}

impl Tree {
    /// The value of an element's `id` attribute, if any.
    pub fn get_id(&self, node: NodeRef) -> (r: Option<&String>)
        requires
            self.wf(),
            self@.live.contains(node.id as int),
            self@.data[node.id as int] is Element,
        ensures
            ({
                let attrs = attrs_of(self@.data[node.id as int]);
                match r {
                    Some(v) => has_key(attrs, Seq::<char>::empty(), "id"@)
                        && v@ == attrs[key_index(attrs, Seq::<char>::empty(), "id"@)].value,
                    None => !has_key(attrs, Seq::<char>::empty(), "id"@),
                }
            }),
    {
        self.attributes(node).get("id")
    }

    /// Whether an element's `class` attribute holds the given name among
    /// its whitespace-separated tokens.  A name that is empty or contains
    /// whitespace matches nothing; so does a missing attribute.
    pub fn has_class(&self, node: NodeRef, name: &str) -> (r: bool)
        requires
            self.wf(),
            self@.live.contains(node.id as int),
            self@.data[node.id as int] is Element,
        ensures
            ({
                let attrs = attrs_of(self@.data[node.id as int]);
                r == (has_key(attrs, Seq::<char>::empty(), "class"@)
                    && is_class_token(name@)
                    && has_word(attrs[key_index(attrs, Seq::<char>::empty(), "class"@)].value, name@))
            }),
    {
        match self.attributes(node).get("class") {
            Some(value) => contains_word(value.as_str(), name),
            None => false,
        }
    }

    /// Whether this element is empty for selector purposes: no element
    /// child and no nonempty text child.
    pub fn is_empty(&self, node: NodeRef) -> (r: bool)
        requires
            self.wf(),
            self@.live.contains(node.id as int),
        ensures
            r == (forall |j: int| 0 <= j < self@.kids[node.id as int].len()
                ==> child_insignificant(self@, #[trigger] self@.kids[node.id as int][j])),
    {
        let ghost v = self@;
        let ghost ks = v.kids[node.id as int];
        proof {
            self.lemma_wf_inv();
            assert(kids_ok(v, node.id as int));
        }
        let mut cur = self.first_child(node);
        let ghost mut idx: int = 0;
        loop
            invariant
                self.wf(),
                v == self@,
                v.live.contains(node.id as int),
                ks == v.kids[node.id as int],
                0 <= idx <= ks.len(),
                crate::tree::opt_ref_view(cur) == (if idx < ks.len() {
                    Some(ks[idx])
                } else {
                    None::<int>
                }),
                forall |j: int| 0 <= j < idx ==> child_insignificant(v, #[trigger] ks[j]),
            ensures
                (forall |j: int| 0 <= j < ks.len() ==> child_insignificant(v, #[trigger] ks[j]))
                    == (idx == ks.len()),
                idx < ks.len() ==> !child_insignificant(v, ks[idx]),
            decreases ks.len() - idx,
        {
            match cur {
                Some(c) => {
                    proof {
                        self.lemma_wf_inv();
                        assert(kids_ok(v, node.id as int));
                        assert(v.live.contains(v.kids[node.id as int][idx]));
                        assert(v.chain[v.kids[node.id as int][idx]] == v.kids[node.id as int]);
                        assert(v.live.contains(ks[idx]));
                        assert(v.chain[c.id as int] == ks);
                        crate::tree::lemma_chain_pos_unique(v, c.id as int, idx);
                    }
                    let significant = match self.data(c) {
                        crate::tree::NodeData::Element(_) => true,
                        crate::tree::NodeData::Text(buf) => buf.unicode_len() > 0,
                        _ => false,
                    };
                    if significant {
                        proof {
                            assert(!child_insignificant(v, ks[idx]));
                        }
                        break;
                    }
                    cur = self.next_sibling(c);
                    proof {
                        idx = idx + 1;
                    }
                }
                None => {
                    break;
                }
            }
        }
        match cur {
            Some(_) => false,
            None => true,
        }
    }

    /// Whether an element belongs to the XHTML namespace, the markup sense
    /// of an HTML element inside an HTML document.
    pub fn is_html_element_in_html_document(&self, node: NodeRef) -> (r: bool)
        requires
            self.wf(),
            self@.live.contains(node.id as int),
            self@.data[node.id as int] is Element,
        ensures
            r == (crate::tree::elem_name_of(self@.data[node.id as int]).ns
                == "http://www.w3.org/1999/xhtml"@),
    {
        let html_ns = String::from_str("http://www.w3.org/1999/xhtml");
        match self.data(node) {
            crate::tree::NodeData::Element(el) => el.name.ns == html_ns,
            _ => vstd::pervasive::unreached(),
        }
    }

    /// Decide a non-tree-structural pseudo-class for an element.  The state
    /// pseudo-classes never hold for a static document; the link
    /// pseudo-classes hold for the HTML link elements carrying an `href`
    /// attribute.
    pub fn matches_non_ts_pseudo_class(&self, node: NodeRef, pseudo: PseudoClass) -> (r: bool)
        requires
            self.wf(),
            self@.live.contains(node.id as int),
            self@.data[node.id as int] is Element,
        ensures
            r == (match pseudo {
                PseudoClass::AnyLink | PseudoClass::Link => {
                    let name = crate::tree::elem_name_of(self@.data[node.id as int]);
                    &&& name.ns == "http://www.w3.org/1999/xhtml"@
                    &&& (name.local == "a"@ || name.local == "area"@ || name.local == "link"@)
                    &&& has_key(attrs_of(self@.data[node.id as int]),
                        Seq::<char>::empty(), "href"@)
                },
                _ => false,
            }),
    {
        match pseudo {
            PseudoClass::AnyLink | PseudoClass::Link => {
                if !self.is_html_element_in_html_document(node) {
                    return false;
                }
                let is_link_tag = match self.data(node) {
                    crate::tree::NodeData::Element(el) => {
                        el.name.local == String::from_str("a")
                            || el.name.local == String::from_str("area")
                            || el.name.local == String::from_str("link")
                    }
                    _ => vstd::pervasive::unreached(),
                };
                if !is_link_tag {
                    return false;
                }
                self.attributes(node).contains("href")
            }
            _ => false,
        }
    }

    /// The parent of a node, if it is an element.
    pub fn parent_element(&self, node: NodeRef) -> (r: Option<NodeRef>)
        requires
            self.wf(),
            self@.live.contains(node.id as int),
        ensures
            crate::tree::opt_ref_view(r) == (match self@.parent[node.id as int] {
                Some(p) => if self@.data[p] is Element { Some(p) } else { None::<int> },
                None => None::<int>,
            }),
    {
        proof {
            self.lemma_wf_inv();
            assert(parent_ok(self@, node.id as int));
        }
        match self.parent(node) {
            Some(p) => {
                match self.data(p) {
                    crate::tree::NodeData::Element(_) => Some(p),
                    _ => None,
                }
            }
            None => None,
        }
    }

    /// The first child of a node that is an element, if any.
    pub fn first_child_element(&self, node: NodeRef) -> (r: Option<NodeRef>)
        requires
            self.wf(),
            self@.live.contains(node.id as int),
        ensures
            crate::tree::opt_ref_view(r) == first_element_of(self@, self@.kids[node.id as int]),
    {
        let ghost v = self@;
        let ghost ks = v.kids[node.id as int];
        proof {
            self.lemma_wf_inv();
            assert(kids_ok(v, node.id as int));
        }
        let mut cur = self.first_child(node);
        let ghost mut idx: int = 0;
        proof {
            assert(ks.skip(0) =~= ks);
        }
        loop
            invariant
                self.wf(),
                v == self@,
                v.live.contains(node.id as int),
                ks == v.kids[node.id as int],
                0 <= idx <= ks.len(),
                crate::tree::opt_ref_view(cur) == (if idx < ks.len() {
                    Some(ks[idx])
                } else {
                    None::<int>
                }),
                first_element_of(v, ks) == first_element_of(v, ks.skip(idx)),
            ensures
                crate::tree::opt_ref_view(cur) == first_element_of(v, ks),
            decreases ks.len() - idx,
        {
            match cur {
                Some(c) => {
                    proof {
                        self.lemma_wf_inv();
                        assert(kids_ok(v, node.id as int));
                        assert(v.live.contains(v.kids[node.id as int][idx]));
                        assert(v.chain[v.kids[node.id as int][idx]] == v.kids[node.id as int]);
                        crate::tree::lemma_chain_pos_unique(v, c.id as int, idx);
                        assert(ks.skip(idx)[0] == ks[idx]);
                    }
                    let found = match self.data(c) {
                        crate::tree::NodeData::Element(_) => true,
                        _ => false,
                    };
                    if found {
                        proof {
                            assert(first_element_of(v, ks.skip(idx)) == Some(ks[idx]));
                        }
                        break;
                    }
                    cur = self.next_sibling(c);
                    proof {
                        assert(ks.skip(idx).drop_first() =~= ks.skip(idx + 1));
                        idx = idx + 1;
                    }
                }
                None => {
                    proof {
                        assert(ks.skip(idx).len() == 0);
                        assert(first_element_of(v, ks.skip(idx)) is None);
                    }
                    break;
                }
            }
        }
        cur
    }

    /// The last child of a node that is an element, if any.
    pub fn last_child_element(&self, node: NodeRef) -> (r: Option<NodeRef>)
        requires
            self.wf(),
            self@.live.contains(node.id as int),
        ensures
            crate::tree::opt_ref_view(r) == last_element_of(self@, self@.kids[node.id as int]),
    {
        let ghost v = self@;
        let ghost ks = v.kids[node.id as int];
        proof {
            self.lemma_wf_inv();
            assert(kids_ok(v, node.id as int));
        }
        let mut cur = self.last_child(node);
        let ghost mut idx: int = ks.len() - 1;
        proof {
            assert(ks.take(ks.len() as int) =~= ks);
        }
        loop
            invariant
                self.wf(),
                v == self@,
                v.live.contains(node.id as int),
                ks == v.kids[node.id as int],
                -1 <= idx < ks.len(),
                crate::tree::opt_ref_view(cur) == (if idx >= 0 {
                    Some(ks[idx])
                } else {
                    None::<int>
                }),
                last_element_of(v, ks) == last_element_of(v, ks.take(idx + 1)),
            ensures
                crate::tree::opt_ref_view(cur) == last_element_of(v, ks),
            decreases idx + 1,
        {
            match cur {
                Some(c) => {
                    proof {
                        self.lemma_wf_inv();
                        assert(kids_ok(v, node.id as int));
                        assert(v.live.contains(v.kids[node.id as int][idx]));
                        assert(v.chain[v.kids[node.id as int][idx]] == v.kids[node.id as int]);
                        crate::tree::lemma_chain_pos_unique(v, c.id as int, idx);
                        assert(ks.take(idx + 1).last() == ks[idx]);
                    }
                    let found = match self.data(c) {
                        crate::tree::NodeData::Element(_) => true,
                        _ => false,
                    };
                    if found {
                        proof {
                            assert(last_element_of(v, ks.take(idx + 1)) == Some(ks[idx]));
                        }
                        break;
                    }
                    cur = self.previous_sibling(c);
                    proof {
                        assert(ks.take(idx + 1).drop_last() =~= ks.take(idx));
                        idx = idx - 1;
                    }
                }
                None => {
                    proof {
                        assert(ks.take(idx + 1).len() == 0);
                        assert(last_element_of(v, ks.take(idx + 1)) is None);
                    }
                    break;
                }
            }
        }
        cur
    }

    /// The closest following sibling of a node that is an element, if any.
    pub fn next_sibling_element(&self, node: NodeRef) -> (r: Option<NodeRef>)
        requires
            self.wf(),
            self@.live.contains(node.id as int),
        ensures
            crate::tree::opt_ref_view(r) == first_element_of(self@,
                self@.chain[node.id as int].skip(
                    crate::tree::chain_pos(self@, node.id as int) + 1)),
    {
        let ghost v = self@;
        let ghost s = v.chain[node.id as int];
        let ghost k0 = crate::tree::chain_pos(v, node.id as int);
        proof {
            self.lemma_wf_inv();
            assert(chain_ok(v, node.id as int));
            assert(s.contains(node.id as int));
        }
        let mut cur = self.next_sibling(node);
        let ghost mut idx: int = k0 + 1;
        loop
            invariant
                self.wf(),
                v == self@,
                v.live.contains(node.id as int),
                s == v.chain[node.id as int],
                k0 == crate::tree::chain_pos(v, node.id as int),
                0 <= k0 < s.len(),
                k0 < idx <= s.len(),
                crate::tree::opt_ref_view(cur) == (if idx < s.len() {
                    Some(s[idx])
                } else {
                    None::<int>
                }),
                first_element_of(v, s.skip(k0 + 1)) == first_element_of(v, s.skip(idx)),
            ensures
                crate::tree::opt_ref_view(cur) == first_element_of(v, s.skip(k0 + 1)),
            decreases s.len() - idx,
        {
            match cur {
                Some(c) => {
                    proof {
                        self.lemma_wf_inv();
                        assert(chain_ok(v, node.id as int));
                        assert(v.live.contains(v.chain[node.id as int][idx]));
                        assert(v.chain[v.chain[node.id as int][idx]]
                            == v.chain[node.id as int]);
                        crate::tree::lemma_chain_pos_unique(v, c.id as int, idx);
                        assert(s.skip(idx)[0] == s[idx]);
                    }
                    let found = match self.data(c) {
                        crate::tree::NodeData::Element(_) => true,
                        _ => false,
                    };
                    if found {
                        proof {
                            assert(first_element_of(v, s.skip(idx)) == Some(s[idx]));
                        }
                        break;
                    }
                    cur = self.next_sibling(c);
                    proof {
                        assert(s.skip(idx).drop_first() =~= s.skip(idx + 1));
                        idx = idx + 1;
                    }
                }
                None => {
                    proof {
                        assert(s.skip(idx).len() == 0);
                        assert(first_element_of(v, s.skip(idx)) is None);
                    }
                    break;
                }
            }
        }
        cur
    }

    /// The closest preceding sibling of a node that is an element, if any.
    pub fn prev_sibling_element(&self, node: NodeRef) -> (r: Option<NodeRef>)
        requires
            self.wf(),
            self@.live.contains(node.id as int),
        ensures
            crate::tree::opt_ref_view(r) == last_element_of(self@,
                self@.chain[node.id as int].take(
                    crate::tree::chain_pos(self@, node.id as int))),
    {
        let ghost v = self@;
        let ghost s = v.chain[node.id as int];
        let ghost k0 = crate::tree::chain_pos(v, node.id as int);
        proof {
            self.lemma_wf_inv();
            assert(chain_ok(v, node.id as int));
            assert(s.contains(node.id as int));
        }
        let mut cur = self.previous_sibling(node);
        let ghost mut idx: int = k0 - 1;
        proof {
            assert(s.take(k0).take(idx + 1) =~= s.take(k0));
        }
        loop
            invariant
                self.wf(),
                v == self@,
                v.live.contains(node.id as int),
                s == v.chain[node.id as int],
                k0 == crate::tree::chain_pos(v, node.id as int),
                0 <= k0 < s.len(),
                -1 <= idx < k0,
                crate::tree::opt_ref_view(cur) == (if idx >= 0 {
                    Some(s[idx])
                } else {
                    None::<int>
                }),
                last_element_of(v, s.take(k0)) == last_element_of(v, s.take(idx + 1)),
            ensures
                crate::tree::opt_ref_view(cur) == last_element_of(v, s.take(k0)),
            decreases idx + 1,
        {
            match cur {
                Some(c) => {
                    proof {
                        self.lemma_wf_inv();
                        assert(chain_ok(v, node.id as int));
                        assert(v.live.contains(v.chain[node.id as int][idx]));
                        assert(v.chain[v.chain[node.id as int][idx]]
                            == v.chain[node.id as int]);
                        crate::tree::lemma_chain_pos_unique(v, c.id as int, idx);
                        assert(s.take(idx + 1).last() == s[idx]);
                    }
                    let found = match self.data(c) {
                        crate::tree::NodeData::Element(_) => true,
                        _ => false,
                    };
                    if found {
                        proof {
                            assert(last_element_of(v, s.take(idx + 1)) == Some(s[idx]));
                        }
                        break;
                    }
                    cur = self.previous_sibling(c);
                    proof {
                        assert(s.take(idx + 1).drop_last() =~= s.take(idx));
                        idx = idx - 1;
                    }
                }
                None => {
                    proof {
                        assert(s.take(idx + 1).len() == 0);
                        assert(last_element_of(v, s.take(idx + 1)) is None);
                    }
                    break;
                }
            }
        }
        cur
    }

    /// The classes of an element: the whitespace-separated tokens of its
    /// `class` attribute, in order, or nothing when the attribute is
    /// missing.
    pub fn classes(&self, node: NodeRef) -> (r: Vec<String>)
        requires
            self.wf(),
            self@.live.contains(node.id as int),
            self@.data[node.id as int] is Element,
        ensures
            ({
                let attrs = attrs_of(self@.data[node.id as int]);
                r@.map_values(|c: String| c@) == (if has_key(attrs, Seq::<char>::empty(), "class"@) {
                    split_spaces(attrs[key_index(attrs, Seq::<char>::empty(), "class"@)].value)
                } else {
                    Seq::<Seq<char>>::empty()
                })
            }),
    {
        match self.attributes(node).get("class") {
            Some(value) => split_class_names(value.as_str()),
            None => {
                let r: Vec<String> = Vec::new();
                proof {
                    assert(r@.map_values(|c: String| c@) =~= Seq::<Seq<char>>::empty());
                }
                r
            }
        }
    }

    /// Whether this element sits directly below the document node.
    pub fn is_root(&self, node: NodeRef) -> (r: bool)
        requires
            self.wf(),
            self@.live.contains(node.id as int),
        ensures
            r == match self@.parent[node.id as int] {
                Some(p) => self@.data[p] is Document,
                None => false,
            },
    {
        proof {
            self.lemma_wf_inv();
            assert(parent_ok(self@, node.id as int));
        }
        match self.parent(node) {
            Some(p) => {
                match self.data(p) {
                    crate::tree::NodeData::Document(_) => true,
                    _ => false,
                }
            }
            None => false,
        }
    }
}

} // verus!
