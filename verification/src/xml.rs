//! XML instance documents: the root element's name and namespace
//! declarations, and the full element tree with resolved in-scope namespaces
//! and byte ranges.
//!
//! Namespaces are resolved like an XML processor: an `xmlns` default
//! namespace and `xmlns:p` prefixes apply to the declaring element and its
//! descendants.

use std::ops::Range;
use vstd::prelude::*;
use vstd::utf8::*;
use vstd::string::StringSliceAdditionalSpecFns;
use crate::text::{opt_view, after_last, chars_of, find_char, rfind_char, split_once, string_of, sub_string, trim, trim_bounds, str_eq, StrMap};
use crate::syntax::{as_ints, child_by_field, child_of_kind, children, field_child, kind_child, kids, node_string, node_text, parse_xml_syntax, tree_view, xml_syntax, SynNode, SynView};

verus! {

broadcast use vstd::slice::group_slice_axioms;

/// The local part of an element name: what follows its last `:`.
pub open spec fn local_part(name: Seq<char>) -> Seq<char> {
    after_last(name, ':')
}

/// The namespace an element name is in, given the in-scope default namespace
/// and prefix bindings: its prefix's binding when the name is prefixed, else
/// the default namespace.
pub open spec fn resolve_name(
    default: Option<Seq<char>>,
    prefixes: Map<Seq<char>, Seq<char>>,
    name: Seq<char>,
) -> Option<Seq<char>> {
    match split_once(name, ':') {
        Some((prefix, _)) => if prefixes.contains_key(prefix) {
            Some(prefixes[prefix])
        } else {
            None
        },
        None => default,
    }
}

/// Root element of an XML document: name and namespace declarations.
pub struct XmlRoot {
    /// Element name exactly as written in the start tag (may be `p:local`).
    pub name: String,
    /// Value of the `xmlns` (default namespace) attribute, if declared.
    pub default_ns: Option<String>,
    /// `xmlns:p` prefix → URI declarations on the root element.
    pub ns_prefixes: StrMap,
}

/// The local part of `cs` (after its last `:`), as a string.
pub fn local_of(cs: &[char]) -> (r: String)
    ensures
        r@ == local_part(cs@),
{
    let n = cs.len();
    match rfind_char(cs, ':') {
        Some(i) => {
            assert(i < n);
            sub_string(cs, i + 1, n)
        },
        None => string_of(cs),
    }
}

/// The namespace of an element named `name`, under `default` and `prefixes`.
pub fn resolve_ns<'a>(default: &'a Option<String>, prefixes: &'a StrMap, name: &str) -> (r:
    Option<&'a String>)
    ensures
        match r {
            Some(s) => resolve_name(opt_view(*default), prefixes@, name@) == Some(s@),
            None => resolve_name(opt_view(*default), prefixes@, name@) is None,
        },
{
    let cs = chars_of(name);
    match find_char(cs.as_slice(), ':') {
        Some(i) => {
            let prefix = sub_string(cs.as_slice(), 0, i);
            prefixes.get(prefix.as_str())
        },
        None => default.as_ref(),
    }
}

impl XmlRoot {
    /// Element name without any `prefix:`.
    pub fn local_name(&self) -> (r: String)
        ensures
            r@ == local_part(self.name@),
    {
        let cs = chars_of(self.name.as_str());
        local_of(cs.as_slice())
    }

    /// The namespace this element is in: its prefix binding if the name is
    /// prefixed, else the default `xmlns`.
    pub fn effective_ns(&self) -> (r: Option<&str>)
        ensures
            match r {
                Some(s) => resolve_name(opt_view(self.default_ns), self.ns_prefixes@, self.name@)
                    == Some(s@),
                None => resolve_name(opt_view(self.default_ns), self.ns_prefixes@, self.name@) is None,
            },
    {
        match resolve_ns(&self.default_ns, &self.ns_prefixes, self.name.as_str()) {
            Some(s) => Some(s.as_str()),
            None => None,
        }
    }
}

/// One element of an XML instance document.
pub struct XmlNode {
    /// Parent element index (None for the document root element).
    pub parent: Option<usize>,
    /// Child element indices (document order).
    pub children: Vec<usize>,
    /// Element name exactly as written (may be `p:local`).
    pub name: String,
    /// Element name without any `prefix:`.
    pub local: String,
    /// Resolved namespace URI of this element (in-scope default/prefix).
    pub ns: Option<String>,
    /// Byte range of the element's name in the start tag.
    pub name_range: Range<usize>,
    /// Byte range of the whole element (start tag through end tag).
    pub elem_range: Range<usize>,
}

/// An XML instance document: an arena of elements, parents before children.
pub struct XmlDoc {
    pub nodes: Vec<XmlNode>,
}

/// Whether element `n`'s span contains byte `b`.
pub open spec fn elem_contains(n: XmlNode, b: int) -> bool {
    n.elem_range.start <= b < n.elem_range.end
}

/// ASCII whitespace byte (`u8::is_ascii_whitespace`).
pub open spec fn is_ascii_ws_byte(c: u8) -> bool {
    c == 32 || c == 9 || c == 10 || c == 12 || c == 13
}

/// Scanning a start tag from byte `j` (before `end`), with `q` the quote
/// currently open: the position of the first `>` outside quotes.
pub open spec fn tag_close(b: Seq<u8>, j: int, end: int, q: Option<u8>) -> Option<int>
    decreases end - j,
{
    if j < 0 || j >= end || j >= b.len() {
        None
    } else {
        let c = b[j];
        match q {
            Some(open) => if c == open {
                tag_close(b, j + 1, end, None)
            } else {
                tag_close(b, j + 1, end, q)
            },
            None => if c == 34u8 || c == 39u8 {
                tag_close(b, j + 1, end, Some(c))
            } else if c == 62u8 {
                Some(j)
            } else {
                tag_close(b, j + 1, end, None)
            },
        }
    }
}

/// Whether `</` starts at byte `j`.
pub open spec fn close_at(b: Seq<u8>, j: int) -> bool {
    b[j] == 60u8 && b[j + 1] == 47u8
}

/// `k` is the first position at or after `from` where `</` starts.
pub open spec fn is_first_close_tag(b: Seq<u8>, from: int, k: int) -> bool {
    &&& from <= k && k + 1 < b.len()
    &&& b[k] == 60u8 && b[k + 1] == 47u8
    &&& forall|j: int| from <= j < k ==> !#[trigger] close_at(b, j)
}

/// The number of leading ASCII-whitespace bytes of `r`.
pub open spec fn lead_ascii_ws(r: Seq<u8>) -> int
    decreases r.len(),
{
    if r.len() > 0 && is_ascii_ws_byte(r[0]) {
        1 + lead_ascii_ws(r.drop_first())
    } else {
        0
    }
}

/// The number of trailing ASCII-whitespace bytes of `r`.
pub open spec fn trail_ascii_ws(r: Seq<u8>) -> int
    decreases r.len(),
{
    if r.len() > 0 && is_ascii_ws_byte(r.last()) {
        1 + trail_ascii_ws(r.drop_last())
    } else {
        0
    }
}

/// What `String::from_utf8_lossy` makes of `b`.
pub uninterp spec fn utf8_lossy(b: Seq<u8>) -> Seq<char>;

/// `String::from_utf8_lossy`: the characters `b` encodes, with each invalid
/// sequence replaced by U+FFFD.
#[verifier::external_body]
fn lossy_string(b: &[u8]) -> (r: String)
    ensures
        r@ == utf8_lossy(b@),
        valid_utf8(b@) ==> r@ == decode_utf8(b@),
{
    String::from_utf8_lossy(b).into_owned()
}

/// The value the text of a leaf element carries: the byte range of its trimmed
/// content and that content, as `XmlDoc::leaf_text` describes.
pub open spec fn leaf_text_of(n: XmlNode, b: Seq<u8>) -> Option<(int, int, Seq<char>)> {
    if n.children@.len() != 0 {
        None
    } else {
        match tag_close(b, n.name_range.start as int, n.elem_range.end as int, None) {
            None => None,
            Some(t) => if t > 0 && b[t - 1] == 47u8 {
                Some((t - 1, t, Seq::<char>::empty()))
            } else if exists|k: int| #[trigger] is_first_close_tag(b, t + 1, k) {
                let k = choose|k: int| #[trigger] is_first_close_tag(b, t + 1, k);
                let raw = b.subrange(t + 1, k);
                let s = lead_ascii_ws(raw);
                let e = if raw.len() - trail_ascii_ws(raw) < s {
                    s
                } else {
                    raw.len() - trail_ascii_ws(raw)
                };
                Some((t + 1 + s, t + 1 + e, decode_utf8(raw.subrange(s, e))))
            } else {
                None
            },
        }
    }
}

proof fn lemma_lead_ascii(r: Seq<u8>, k: int)
    requires
        0 <= k <= r.len(),
        forall|j: int| 0 <= j < k ==> is_ascii_ws_byte(r[j]),
        k < r.len() ==> !is_ascii_ws_byte(r[k]),
    ensures
        lead_ascii_ws(r) == k,
    decreases k,
{
    if k > 0 {
        assert forall|j: int| 0 <= j < k - 1 implies is_ascii_ws_byte(r.drop_first()[j]) by {
            assert(r.drop_first()[j] == r[j + 1]);
        }
        if k - 1 < r.len() - 1 {
            assert(r.drop_first()[k - 1] == r[k]);
        }
        lemma_lead_ascii(r.drop_first(), k - 1);
    } else {
        if r.len() > 0 {
            assert(!is_ascii_ws_byte(r[0]));
        }
    }
}

proof fn lemma_trail_ascii(r: Seq<u8>, k: int)
    requires
        0 <= k <= r.len(),
        forall|j: int| k <= j < r.len() ==> is_ascii_ws_byte(r[j]),
        k > 0 ==> !is_ascii_ws_byte(r[k - 1]),
    ensures
        trail_ascii_ws(r) == r.len() - k,
    decreases r.len() - k,
{
    if k < r.len() {
        assert forall|j: int| k <= j < r.len() - 1 implies is_ascii_ws_byte(r.drop_last()[j]) by {
            assert(r.drop_last()[j] == r[j]);
        }
        if k > 0 {
            assert(r.drop_last()[k - 1] == r[k - 1]);
        }
        lemma_trail_ascii(r.drop_last(), k);
    } else {
        if r.len() > 0 {
            assert(!is_ascii_ws_byte(r.last()));
        }
    }
}

impl XmlDoc {
    /// The deepest element whose span contains `byte`: among the elements that
    /// contain it, the one that starts last (the last such in document order
    /// when several start at the same byte).
    pub fn element_at(&self, byte: usize) -> (r: Option<usize>)
        ensures
            match r {
                Some(i) => {
                    &&& i < self.nodes@.len()
                    &&& elem_contains(self.nodes@[i as int], byte as int)
                    &&& forall|j: int|
                        0 <= j < self.nodes@.len() && elem_contains(#[trigger] self.nodes@[j], byte as int)
                            ==> self.nodes@[j].elem_range.start <= self.nodes@[i as int].elem_range.start
                    &&& forall|j: int|
                        i < j < self.nodes@.len() && elem_contains(#[trigger] self.nodes@[j], byte as int)
                            ==> self.nodes@[j].elem_range.start < self.nodes@[i as int].elem_range.start
                },
                None => forall|j: int|
                    0 <= j < self.nodes@.len() ==> !elem_contains(#[trigger] self.nodes@[j], byte as int),
            },
    {
        let mut best: Option<usize> = None;
        let mut i: usize = 0;
        while i < self.nodes.len()
            invariant
                i <= self.nodes@.len(),
                match best {
                    Some(b) => {
                        &&& b < i
                        &&& elem_contains(self.nodes@[b as int], byte as int)
                        &&& forall|j: int|
                            0 <= j < i && elem_contains(#[trigger] self.nodes@[j], byte as int)
                                ==> self.nodes@[j].elem_range.start <= self.nodes@[b as int].elem_range.start
                        &&& forall|j: int|
                            b < j < i && elem_contains(#[trigger] self.nodes@[j], byte as int)
                                ==> self.nodes@[j].elem_range.start < self.nodes@[b as int].elem_range.start
                    },
                    None => forall|j: int|
                        0 <= j < i ==> !elem_contains(#[trigger] self.nodes@[j], byte as int),
                },
            decreases self.nodes@.len() - i,
        {
            let n = &self.nodes[i];
            if n.elem_range.start <= byte && byte < n.elem_range.end {
                best = match best {
                    None => Some(i),
                    Some(b) => if n.elem_range.start >= self.nodes[b].elem_range.start {
                        Some(i)
                    } else {
                        Some(b)
                    },
                };
            }
            i = i + 1;
        }
        best
    }

    /// The trimmed text content of a leaf element `i` (one with no child
    /// elements), plus the byte range of that trimmed content in `text`.
    /// `None` for container elements (or malformed tag structure).
    pub fn leaf_text(&self, text: &str, i: usize) -> (r: Option<(Range<usize>, String)>)
        requires
            i < self.nodes@.len() && self.nodes@[i as int].children@.len() == 0
                && self.nodes@[i as int].name_range.start < self.nodes@[i as int].elem_range.end
                ==> self.nodes@[i as int].elem_range.end <= text.spec_bytes().len(),
        ensures
            i >= self.nodes@.len() ==> r is None,
            i < self.nodes@.len() ==> match leaf_text_of(self.nodes@[i as int], text.spec_bytes()) {
                Some((s, e, v)) => r matches Some((rg, val)) && rg.start == s && rg.end == e
                    && val@ == v,
                None => r is None,
            },
    {
        if i >= self.nodes.len() {
            return None;
        }
        let n = &self.nodes[i];
        if n.children.len() != 0 {
            return None;
        }
        let bytes = text.as_bytes();
        let ghost b = bytes@;
        let end = n.elem_range.end;
        let mut in_q: Option<u8> = None;
        let mut tag_end: Option<usize> = None;
        let mut j = n.name_range.start;
        while j < end && tag_end.is_none()
            invariant
                b == bytes@,
                j < end ==> end <= b.len(),
                tag_end is None ==> tag_close(b, n.name_range.start as int, end as int, None)
                    == tag_close(b, j as int, end as int, in_q),
                tag_end matches Some(t) ==> tag_close(b, n.name_range.start as int, end as int,
                    None) == Some(t as int) && t < end && b[t as int] == 62u8,
            decreases end - j,
        {
            let c = bytes[j];
            match in_q {
                Some(q) => {
                    if c == q {
                        in_q = None;
                    }
                },
                None => {
                    if c == 34u8 || c == 39u8 {
                        in_q = Some(c);
                    } else if c == 62u8 {
                        tag_end = Some(j);
                    }
                },
            }
            j = j + 1;
        }
        let t = match tag_end {
            Some(t) => t,
            None => {
                return None;
            },
        };
        // The scan stopped at the first `>` outside quotes.
        assert(tag_close(b, n.name_range.start as int, end as int, None) == Some(t as int));
        if t > 0 && bytes[t - 1] == 47u8 {
            return Some((Range { start: t - 1, end: t }, String::new()));
        }
        // Content ends where the closing tag begins: the first `</` after the
        // start tag.
        let mut k = t + 1;
        let blen = bytes.len();
        while k < blen - 1 && !(bytes[k] == 60u8 && bytes[k + 1] == 47u8)
            invariant
                b == bytes@,
                blen == b.len(),
                t < b.len(),
                t + 1 <= k,
                forall|j: int| t + 1 <= j < k ==> !#[trigger] close_at(b, j),
            decreases b.len() - k,
        {
            k = k + 1;
        }
        if k >= blen - 1 {
            proof {
                assert forall|m: int| !#[trigger] is_first_close_tag(b, t + 1, m) by {
                    if is_first_close_tag(b, t + 1, m) {
                        assert(m + 1 < b.len());
                        if m < k {
                            assert(!close_at(b, m));
                        }
                    }
                }
            }
            return None;
        }
        proof {
            assert(is_first_close_tag(b, t + 1, k as int));
            assert forall|m: int| #[trigger] is_first_close_tag(b, t + 1, m) implies m == k by {
                if m < k {
                    assert(!close_at(b, m));
                }
                if k < m {
                    assert(!close_at(b, k as int));
                }
            }
        }
        let raw = vstd::slice::slice_subrange(bytes, t + 1, k);
        let mut s: usize = 0;
        while s < raw.len() && (raw[s] == 32u8 || raw[s] == 9u8 || raw[s] == 10u8 || raw[s]
            == 12u8 || raw[s] == 13u8)
            invariant
                s <= raw@.len(),
                forall|j: int| 0 <= j < s ==> is_ascii_ws_byte(raw@[j]),
            decreases raw@.len() - s,
        {
            s = s + 1;
        }
        let mut e: usize = raw.len();
        while e > s && (raw[e - 1] == 32u8 || raw[e - 1] == 9u8 || raw[e - 1] == 10u8 || raw[e
            - 1] == 12u8 || raw[e - 1] == 13u8)
            invariant
                s <= e <= raw@.len(),
                forall|j: int| e <= j < raw@.len() ==> is_ascii_ws_byte(raw@[j]),
            decreases e - s,
        {
            e = e - 1;
        }
        proof {
            lemma_lead_ascii(raw@, s as int);
            if e > s {
                lemma_trail_ascii(raw@, e as int);
            } else {
                // Everything after `s` is whitespace too.
                lemma_trail_ascii_ge(raw@, s as int);
            }
        }
        proof {
            vstd::utf8::encode_utf8_valid_utf8(text@);
            if s > 0 {
                assert(b[t + s as int] == raw@[s - 1]);
            }
            if e < raw@.len() {
                assert(b[t + 1 + e as int] == raw@[e as int]);
            }
            lemma_ascii_cut_valid(b, t + 1 + s as int, t + 1 + e as int);
            assert(raw@.subrange(s as int, e as int) =~= b.subrange(t + 1 + s as int, t + 1 + e as int));
        }
        let value = lossy_string(vstd::slice::slice_subrange(raw, s, e));
        Some((Range { start: t + 1 + s, end: t + 1 + e }, value))
    }
}

/// In valid UTF-8, the byte after an ASCII byte starts a character.
proof fn lemma_after_ascii(b: Seq<u8>, i: int)
    requires
        valid_utf8(b),
        0 <= i < b.len(),
        b[i] < 0x80u8,
    ensures
        i + 1 < b.len() ==> !is_continuation_byte(b[i + 1]),
{
    is_char_boundary_iff_not_is_continuation_byte(b, i);
    valid_utf8_split(b, i);
    let u = b.subrange(i, b.len() as int);
    assert(u[0] == b[i]);
    assert(valid_utf8(u));
    assert(valid_first_scalar(u));
    assert(length_of_first_scalar(u) == 1);
    let rest = pop_first_scalar(u);
    assert(valid_utf8(rest));
    assert(rest =~= b.subrange(i + 1, b.len() as int));
    if i + 1 < b.len() {
        assert(rest[0] == b[i + 1]);
        assert(valid_first_scalar(rest));
    }
}

/// Bytes of valid UTF-8 cut just after an ASCII byte and just before one
/// (or at the end) are valid UTF-8 themselves.
proof fn lemma_ascii_cut_valid(b: Seq<u8>, s: int, e: int)
    requires
        valid_utf8(b),
        0 < s <= e <= b.len(),
        b[s - 1] < 0x80u8,
        e < b.len() ==> b[e] < 0x80u8,
    ensures
        valid_utf8(b.subrange(s, e)),
{
    lemma_after_ascii(b, s - 1);
    if s < b.len() {
        is_char_boundary_iff_not_is_continuation_byte(b, s);
    } else {
        is_char_boundary_start_end_of_seq(b);
    }
    valid_utf8_split(b, s);
    let u = b.subrange(s, b.len() as int);
    if e < b.len() {
        assert(u[e - s] == b[e]);
        is_char_boundary_iff_not_is_continuation_byte(u, e - s);
    } else {
        is_char_boundary_start_end_of_seq(u);
    }
    valid_utf8_split(u, e - s);
    assert(u.subrange(0, e - s) =~= b.subrange(s, e));
}

proof fn lemma_trail_ascii_range(r: Seq<u8>)
    ensures
        0 <= trail_ascii_ws(r) <= r.len(),
    decreases r.len(),
{
    if r.len() > 0 && is_ascii_ws_byte(r.last()) {
        lemma_trail_ascii_range(r.drop_last());
    }
}

proof fn lemma_trail_ascii_ge(r: Seq<u8>, s: int)
    requires
        0 <= s <= r.len(),
        forall|j: int| s <= j < r.len() ==> is_ascii_ws_byte(r[j]),
    ensures
        r.len() - trail_ascii_ws(r) <= s,
    decreases r.len(),
{
    lemma_trail_ascii_range(r);
    if r.len() > s {
        assert(is_ascii_ws_byte(r.last()));
        assert(trail_ascii_ws(r) == 1 + trail_ascii_ws(r.drop_last()));
        assert forall|j: int| s <= j < r.len() - 1 implies is_ascii_ws_byte(r.drop_last()[j]) by {
            assert(r.drop_last()[j] == r[j]);
        }
        lemma_trail_ascii_ge(r.drop_last(), s);
    }
}


/// An attribute value with one pair of surrounding `"` or `'` removed.
pub open spec fn unquote(v: Seq<char>) -> Seq<char> {
    if v.len() >= 2 && v[0] == '"' && v[v.len() - 1] == '"' {
        v.subrange(1, v.len() - 1)
    } else if v.len() >= 2 && v[0] == '\'' && v[v.len() - 1] == '\'' {
        v.subrange(1, v.len() - 1)
    } else {
        v
    }
}

/// The `(name, value)` an attribute's source text declares: split at the
/// first `=`, both sides trimmed and the value unquoted.
pub open spec fn attr_pair(raw: Seq<char>) -> Option<(Seq<char>, Seq<char>)> {
    match split_once(trim(raw), '=') {
        Some((a, v)) => Some((trim(a), unquote(trim(v)))),
        None => None,
    }
}

/// The attributes among the nodes `ks`, in order; `None` when the text of one
/// of them is not readable.
pub open spec fn attrs_list(t: Seq<SynView>, b: Seq<u8>, ks: Seq<int>) -> Option<Seq<(Seq<char>, Seq<char>)>>
    decreases ks.len(),
{
    if ks.len() == 0 {
        Some(Seq::empty())
    } else if t[ks[0]].kind != "Attribute"@ {
        attrs_list(t, b, ks.drop_first())
    } else {
        match node_text(t, b, ks[0]) {
            None => None,
            Some(raw) => match attrs_list(t, b, ks.drop_first()) {
                None => None,
                Some(rest) => match attr_pair(raw) {
                    Some(pr) => Some(seq![pr] + rest),
                    None => Some(rest),
                },
            },
        }
    }
}

/// In-scope namespaces: the default namespace and the prefix bindings.
pub type ScopeView = (Option<Seq<char>>, Map<Seq<char>, Seq<char>>);

/// The scope after the `xmlns` / `xmlns:p` declarations among `attrs`.
pub open spec fn apply_attrs(sc: ScopeView, attrs: Seq<(Seq<char>, Seq<char>)>) -> ScopeView
    decreases attrs.len(),
{
    if attrs.len() == 0 {
        sc
    } else {
        let s1 = apply_attrs(sc, attrs.drop_last());
        let (n, v) = attrs.last();
        if n == "xmlns"@ {
            (Some(v), s1.1)
        } else if n.len() >= 6 && n.subrange(0, 6) == "xmlns:"@ {
            (s1.0, s1.1.insert(n.subrange(6, n.len() as int), v))
        } else {
            s1
        }
    }
}

/// In-scope namespace declarations, handed down the element tree.
pub struct NsScope {
    pub default: Option<String>,
    pub prefixes: StrMap,
}

impl View for NsScope {
    type V = ScopeView;

    open spec fn view(&self) -> ScopeView {
        (opt_view(self.default), self.prefixes@)
    }
}

impl NsScope {
    /// No declarations in scope.
    pub fn new() -> (r: Self)
        ensures
            r@ == (None::<Seq<char>>, Map::<Seq<char>, Seq<char>>::empty()),
    {
        NsScope { default: None, prefixes: StrMap::new() }
    }

    /// The namespace an element named `raw_name` is in under this scope.
    pub fn resolve(&self, raw_name: &str) -> (r: Option<String>)
        ensures
            opt_view(r) == resolve_name(self@.0, self@.1, raw_name@),
    {
        match resolve_ns(&self.default, &self.prefixes, raw_name) {
            Some(s) => Some(s.clone()),
            None => None,
        }
    }
}

/// The pair view of an attribute list.
pub open spec fn pairs_view(v: Seq<(String, String)>) -> Seq<(Seq<char>, Seq<char>)> {
    v.map_values(|p: (String, String)| (p.0@, p.1@))
}

/// Apply `xmlns` / `xmlns:p` attributes onto a copy of `scope`.
pub fn apply_ns(scope: &NsScope, attrs: &[(String, String)]) -> (r: NsScope)
    ensures
        r@ == apply_attrs(scope@, pairs_view(attrs@)),
{
    let mut out = NsScope { default: match &scope.default {
        Some(d) => Some(d.clone()),
        None => None,
    }, prefixes: StrMap::new() };
    let mut k: usize = 0;
    // Copy the prefix bindings first.
    out.prefixes = scope.prefixes.duplicate();
    proof {
        assert(pairs_view(attrs@).take(0) =~= Seq::<(Seq<char>, Seq<char>)>::empty());
    }
    while k < attrs.len()
        invariant
            k <= attrs@.len(),
            out@ == apply_attrs(scope@, pairs_view(attrs@).take(k as int)),
        decreases attrs@.len() - k,
    {
        let (name, value) = (&attrs[k].0, &attrs[k].1);
        let ncs = chars_of(name.as_str());
        let xmlns_colon = chars_of("xmlns:");
        proof {
            assert(pairs_view(attrs@).take(k + 1).drop_last() =~= pairs_view(attrs@).take(k as int));
            assert(pairs_view(attrs@).take(k + 1).last() == (name@, value@));
        }
        if str_eq(name.as_str(), "xmlns") {
            out.default = Some(value.clone());
        } else if ncs.len() >= 6 && crate::text::starts_with_at(ncs.as_slice(), 0, xmlns_colon.as_slice()) {
            proof {
                reveal_strlit("xmlns:");
                assert(ncs@.subrange(0, 6) == "xmlns:"@);
            }
            let prefix = sub_string(ncs.as_slice(), 6, ncs.len());
            out.prefixes.insert(prefix, value.clone());
        } else {
            proof {
                reveal_strlit("xmlns:");
                if name@.len() >= 6 {
                    assert(ncs@.subrange(0, 6) != "xmlns:"@);
                }
            }
        }
        k = k + 1;
    }
    proof {
        assert(pairs_view(attrs@).take(attrs@.len() as int) =~= pairs_view(attrs@));
    }
    out
}


/// The `(name, value)` an attribute's source text declares.
pub fn attr_of(raw: &str) -> (r: Option<(String, String)>)
    ensures
        match r {
            Some((n, v)) => attr_pair(raw@) == Some((n@, v@)),
            None => attr_pair(raw@) is None,
        },
{
    let cs = chars_of(raw);
    let n = cs.len();
    let (a, z) = trim_bounds(cs.as_slice(), 0, n);
    proof {
        assert(cs@.subrange(0, n as int) =~= cs@);
    }
    let t = sub_chars_v(cs.as_slice(), a, z);
    let tn = t.len();
    match find_char(t.as_slice(), '=') {
        None => None,
        Some(i) => {
            assert(i < tn);
            let (na, nz) = trim_bounds(t.as_slice(), 0, i);
            let (va, vz) = trim_bounds(t.as_slice(), i + 1, tn);
            let name = sub_string(t.as_slice(), na, nz);
            proof {
                assert(t@.subrange(0, i as int) == split_once(t@, '=').unwrap().0);
            }
            let value = if vz - va >= 2 && t[va] == '"' && t[vz - 1] == '"' {
                sub_string(t.as_slice(), va + 1, vz - 1)
            } else if vz - va >= 2 && t[va] == '\'' && t[vz - 1] == '\'' {
                sub_string(t.as_slice(), va + 1, vz - 1)
            } else {
                sub_string(t.as_slice(), va, vz)
            };
            proof {
                let v = t@.subrange(va as int, vz as int);
                assert(v == trim(split_once(t@, '=').unwrap().1));
                if vz >= va + 2 {
                    assert(v[0] == t@[va as int]);
                    assert(v[v.len() - 1] == t@[vz - 1]);
                    assert(v.subrange(1, v.len() - 1) =~= t@.subrange(va + 1, vz - 1));
                }
            }
            Some((name, value))
        },
    }
}

fn sub_chars_v(cs: &[char], lo: usize, hi: usize) -> (r: Vec<char>)
    requires
        lo <= hi <= cs@.len(),
    ensures
        r@ == cs@.subrange(lo as int, hi as int),
{
    crate::text::sub_chars(cs, lo, hi)
}

/// Combines attributes read so far with what the rest of the list gives.
pub open spec fn prepend_attrs(
    done: Seq<(Seq<char>, Seq<char>)>,
    rest: Option<Seq<(Seq<char>, Seq<char>)>>,
) -> Option<Seq<(Seq<char>, Seq<char>)>> {
    match rest {
        Some(r) => Some(done + r),
        None => None,
    }
}

/// The attributes declared by the nodes `ks` (the children of a start tag).
pub fn read_attrs(t: &Vec<SynNode>, b: &[u8], ks: &Vec<usize>) -> (r: Option<Vec<(String, String)>>)
    requires
        forall|q: int| 0 <= q < ks@.len() ==> #[trigger] ks@[q] < t@.len(),
    ensures
        match r {
            Some(v) => attrs_list(tree_view(t@), b@, as_ints(ks@)) == Some(pairs_view(v@)),
            None => attrs_list(tree_view(t@), b@, as_ints(ks@)) is None,
        },
{
    let ghost tv = tree_view(t@);
    let ghost all = as_ints(ks@);
    let mut out: Vec<(String, String)> = Vec::new();
    let mut i: usize = 0;
    proof {
        assert(all.skip(0) =~= all);
        assert(pairs_view(out@) + Seq::<(Seq<char>, Seq<char>)>::empty() =~= Seq::<(Seq<char>, Seq<char>)>::empty());
    }
    while i < ks.len()
        invariant
            tv == tree_view(t@),
            all == as_ints(ks@),
            forall|q: int| 0 <= q < ks@.len() ==> #[trigger] ks@[q] < t@.len(),
            i <= ks@.len(),
            attrs_list(tv, b@, all) == prepend_attrs(pairs_view(out@), attrs_list(tv, b@, all.skip(i as int))),
        decreases ks@.len() - i,
    {
        let k = ks[i];
        proof {
            assert(all.skip(i as int)[0] == k as int);
            assert(all.skip(i as int).drop_first() =~= all.skip(i + 1));
        }
        if str_eq(t[k].kind.as_str(), "Attribute") {
            match node_string(t, b, k) {
                None => {
                    return None;
                },
                Some(raw) => {
                    let ghost before = out@;
                    match attr_of(raw.as_str()) {
                        Some(pr) => {
                            out.push(pr);
                            proof {
                                match attrs_list(tv, b@, all.skip(i + 1)) {
                                    Some(rest) => {
                                        assert(pairs_view(out@) =~= pairs_view(before).push(attr_pair(raw@).unwrap()));
                                        assert(pairs_view(out@) + rest =~= pairs_view(before) + (seq![attr_pair(raw@).unwrap()] + rest));
                                    },
                                    None => {},
                                }
                            }
                        },
                        None => {},
                    }
                },
            }
        }
        i = i + 1;
    }
    proof {
        assert(all.skip(ks@.len() as int) =~= Seq::<int>::empty());
        assert(pairs_view(out@) + Seq::<(Seq<char>, Seq<char>)>::empty() =~= pairs_view(out@));
    }
    Some(out)
}


/// The start tag of element node `e`: its first `STag` child, else its first
/// `EmptyElemTag` child.
pub open spec fn start_tag(t: Seq<SynView>, e: int) -> Option<int> {
    match kind_child(t, e, "STag"@) {
        Some(s) => Some(s),
        None => kind_child(t, e, "EmptyElemTag"@),
    }
}

/// The `Name` node of element `e`'s start tag.
pub open spec fn name_node(t: Seq<SynView>, e: int) -> Option<int> {
    match start_tag(t, e) {
        Some(s) => kind_child(t, s, "Name"@),
        None => None,
    }
}

/// The attributes of element `e`'s start tag.
pub open spec fn elem_attrs(t: Seq<SynView>, b: Seq<u8>, e: int) -> Option<Seq<(Seq<char>, Seq<char>)>> {
    match start_tag(t, e) {
        Some(s) => attrs_list(t, b, kids(t, s)),
        None => None,
    }
}

/// Element node `e` can be read: it has a start tag with a readable name and
/// readable attributes.
pub open spec fn elem_ok(t: Seq<SynView>, b: Seq<u8>, e: int) -> bool {
    &&& 0 <= e < t.len()
    &&& name_node(t, e) matches Some(n) && node_text(t, b, n) is Some
    &&& elem_attrs(t, b, e) is Some
}

/// The name of a readable element.
pub open spec fn elem_name(t: Seq<SynView>, b: Seq<u8>, e: int) -> Seq<char> {
    node_text(t, b, name_node(t, e).unwrap()).unwrap()
}

/// The readable `element` nodes among `ks`, in order.
pub open spec fn ok_elems(t: Seq<SynView>, b: Seq<u8>, ks: Seq<int>) -> Seq<int>
    decreases ks.len(),
{
    if ks.len() == 0 {
        Seq::empty()
    } else if t[ks[0]].kind == "element"@ && elem_ok(t, b, ks[0]) {
        seq![ks[0]] + ok_elems(t, b, ks.drop_first())
    } else {
        ok_elems(t, b, ks.drop_first())
    }
}

/// The child elements of element `e`: the readable `element` children of its
/// first `content` child.
pub open spec fn elem_kids(t: Seq<SynView>, b: Seq<u8>, e: int) -> Seq<int> {
    match kind_child(t, e, "content"@) {
        Some(c) => ok_elems(t, b, kids(t, c)),
        None => Seq::empty(),
    }
}

/// Node `n` describes element `e` of the syntax tree, read under scope `sc`
/// (the scope after `e`'s own declarations).
pub open spec fn node_matches(t: Seq<SynView>, b: Seq<u8>, n: XmlNode, e: int, sc: ScopeView) -> bool {
    &&& elem_ok(t, b, e)
    &&& n.name@ == elem_name(t, b, e)
    &&& n.local@ == local_part(n.name@)
    &&& opt_view(n.ns) == resolve_name(sc.0, sc.1, n.name@)
    &&& n.name_range.start == t[name_node(t, e).unwrap()].start
    &&& n.name_range.end == t[name_node(t, e).unwrap()].end
    &&& n.elem_range.start == t[e].start
    &&& n.elem_range.end == t[e].end
}

/// The syntax nodes that the arena positions `ks` stand for.
pub open spec fn mapped(ks: Seq<usize>, m: Seq<int>) -> Seq<int> {
    ks.map_values(|c: usize| m[c as int])
}

/// The child list of node `k`, where the list of `lo` is given apart.
pub open spec fn kids_at(ns: Seq<XmlNode>, lo: int, lo_kids: Seq<usize>, k: int) -> Seq<usize> {
    if k == lo {
        lo_kids
    } else {
        ns[k].children@
    }
}

/// The children listed for `k` come after it, before `hi`, in increasing
/// order, and name `k` as their parent.
pub open spec fn kids_point_back(ns: Seq<XmlNode>, k: int, hi: int, ks: Seq<usize>) -> bool {
    &&& forall|q: int| 0 <= q < ks.len() ==> k < #[trigger] ks[q] < hi && ns[ks[q] as int].parent == Some(k as usize)
    &&& forall|q: int, w: int| 0 <= q < w < ks.len() ==> ks[q] < ks[w]
}

/// Node `k` has a parent `p` in the region, listed as such, and the scope of
/// `k` is `p`'s scope with `k`'s own declarations applied.
pub open spec fn parent_ok(
    t: Seq<SynView>,
    b: Seq<u8>,
    ns: Seq<XmlNode>,
    m: Seq<int>,
    sc: Seq<ScopeView>,
    lo: int,
    lo_kids: Seq<usize>,
    k: int,
) -> bool {
    match ns[k].parent {
        Some(p) => {
            &&& lo <= p < k
            &&& sc[k] == apply_attrs(sc[p as int], elem_attrs(t, b, m[k]).unwrap())
            &&& kids_at(ns, lo, lo_kids, p as int).contains(k as usize)
        },
        None => false,
    }
}

/// The arena region `[lo, hi)` of `ns` is the element tree of syntax node
/// `m[lo]`: every node describes its syntax element under its scope, every
/// node but `lo` has a parent inside the region that lists it, and every
/// node but `lo` lists exactly its syntax child elements.
pub open spec fn region_ok(
    t: Seq<SynView>,
    b: Seq<u8>,
    ns: Seq<XmlNode>,
    m: Seq<int>,
    sc: Seq<ScopeView>,
    lo: int,
    hi: int,
    lo_kids: Seq<usize>,
) -> bool {
    &&& 0 <= lo < hi == ns.len() == m.len() == sc.len()
    &&& forall|k: int| lo <= k < hi ==> #[trigger] node_matches(t, b, ns[k], m[k], sc[k])
    &&& forall|k: int| lo < k < hi ==> #[trigger] parent_ok(t, b, ns, m, sc, lo, lo_kids, k)
    &&& forall|k: int| lo <= k < hi ==> #[trigger] kids_point_back(ns, k, hi, kids_at(ns, lo, lo_kids, k))
    &&& forall|k: int| lo < k < hi ==> mapped(#[trigger] ns[k].children@, m) == elem_kids(t, b, m[k])
}


/// Appending the finished region of a child element `[mid, hi)` to the region
/// `[lo, mid)` of its parent keeps the parent's region well formed, with the
/// child listed last among the parent's children.
proof fn lemma_region_extend(
    t: Seq<SynView>,
    b: Seq<u8>,
    ns1: Seq<XmlNode>,
    m1: Seq<int>,
    sc1: Seq<ScopeView>,
    ns2: Seq<XmlNode>,
    m2: Seq<int>,
    sc2: Seq<ScopeView>,
    lo: int,
    mid: int,
    hi: int,
    kl: Seq<usize>,
)
    requires
        region_ok(t, b, ns1, m1, sc1, lo, mid, kl),
        mid < hi <= usize::MAX,
        ns2.len() == hi,
        forall|k: int| 0 <= k < mid ==> ns2[k] == ns1[k],
        m2.take(mid) == m1,
        sc2.take(mid) == sc1,
        region_ok(t, b, ns2, m2, sc2, mid, hi, ns2[mid].children@),
        ns2[mid].parent == Some(lo as usize),
        sc2[mid] == apply_attrs(sc1[lo], elem_attrs(t, b, m2[mid]).unwrap()),
        mapped(ns2[mid].children@, m2) == elem_kids(t, b, m2[mid]),
    ensures
        region_ok(t, b, ns2, m2, sc2, lo, hi, kl.push(mid as usize)),
{
    let nkl = kl.push(mid as usize);
    assert(m2.len() == hi);
    assert forall|k: int| lo <= k < hi implies #[trigger] node_matches(t, b, ns2[k], m2[k], sc2[k]) by {
        if k < mid {
            assert(node_matches(t, b, ns1[k], m1[k], sc1[k]));
            assert(m2[k] == m2.take(mid)[k]);
            assert(sc2[k] == sc2.take(mid)[k]);
        }
    }
    assert forall|k: int| lo < k < hi implies #[trigger] parent_ok(t, b, ns2, m2, sc2, lo, nkl, k) by {
        if k < mid {
            assert(parent_ok(t, b, ns1, m1, sc1, lo, kl, k));
            assert(ns2[k] == ns1[k]);
            let p = ns1[k].parent.unwrap() as int;
            assert(m2[k] == m2.take(mid)[k]);
            assert(sc2[k] == sc2.take(mid)[k]);
            assert(sc2[p] == sc2.take(mid)[p]);
            if p == lo {
                let q = choose|q: int| 0 <= q < kl.len() && kl[q] == k as usize;
                assert(nkl[q] == k as usize);
                assert(nkl.contains(k as usize));
            } else {
                assert(ns2[p] == ns1[p]);
                assert(kids_at(ns2, lo, nkl, p) == kids_at(ns1, lo, kl, p));
            }
        } else if k == mid {
            assert(nkl[kl.len() as int] == mid as usize);
            assert(nkl.contains(mid as usize));
            assert(sc2[lo] == sc2.take(mid)[lo]);
        } else {
            assert(parent_ok(t, b, ns2, m2, sc2, mid, ns2[mid].children@, k));
            let p = ns2[k].parent.unwrap() as int;
            assert(kids_at(ns2, lo, nkl, p) == kids_at(ns2, mid, ns2[mid].children@, p));
        }
    }
    assert forall|k: int| lo <= k < hi implies #[trigger] kids_point_back(ns2, k, hi, kids_at(ns2, lo, nkl, k)) by {
        if k < mid {
            assert(kids_point_back(ns1, k, mid, kids_at(ns1, lo, kl, k)));
            if k == lo {
                assert(kids_at(ns1, lo, kl, lo) == kl);
                assert(kids_point_back(ns1, lo, mid, kl));
                assert(kids_at(ns2, lo, nkl, lo) == nkl);
                assert forall|q: int| 0 <= q < nkl.len() implies k < #[trigger] nkl[q] < hi && ns2[nkl[q] as int].parent == Some(k as usize) by {
                    if q < kl.len() {
                        assert(nkl[q] == kl[q]);
                        assert(lo < kl[q] < mid);
                        assert(ns2[kl[q] as int] == ns1[kl[q] as int]);
                    } else {
                        assert(nkl[q] == mid as usize);
                    }
                }
                assert forall|q: int, w: int| 0 <= q < w < nkl.len() implies nkl[q] < nkl[w] by {
                    assert(nkl[q] == kl[q]);
                    if w < kl.len() {
                        assert(nkl[w] == kl[w]);
                    } else {
                        assert(nkl[w] == mid as usize);
                        assert(kl[q] < mid);
                    }
                }
            } else {
                assert(ns2[k] == ns1[k]);
                assert forall|q: int| 0 <= q < ns2[k].children@.len() implies k < #[trigger] ns2[k].children@[q] < hi && ns2[ns2[k].children@[q] as int].parent == Some(k as usize) by {
                    let c = ns1[k].children@[q] as int;
                    assert(ns2[c] == ns1[c]);
                }
            }
        } else {
            assert(kids_point_back(ns2, k, hi, kids_at(ns2, mid, ns2[mid].children@, k)));
        }
    }
    assert forall|k: int| lo < k < hi implies mapped(#[trigger] ns2[k].children@, m2) == elem_kids(t, b, m2[k]) by {
        if k < mid {
            assert(ns2[k] == ns1[k]);
            assert(mapped(ns1[k].children@, m1) == elem_kids(t, b, m1[k]));
            assert(kids_point_back(ns1, k, mid, kids_at(ns1, lo, kl, k)));
            assert(m2[k] == m2.take(mid)[k]);
            assert forall|q: int| 0 <= q < ns1[k].children@.len() implies #[trigger] mapped(ns2[k].children@, m2)[q] == mapped(ns1[k].children@, m1)[q] by {
                let c = ns1[k].children@[q] as int;
                assert(m2[c] == m2.take(mid)[c]);
            }
            assert(mapped(ns2[k].children@, m2) =~= mapped(ns1[k].children@, m1));
        }
    }
}


fn clone_opt(o: &Option<String>) -> (r: Option<String>)
    ensures
        opt_view(r) == opt_view(*o),
{
    match o {
        Some(s) => Some(s.clone()),
        None => None,
    }
}

/// Reads element `e` of the syntax tree and, recursively, its child elements
/// into `nodes` (parents before children), under the in-scope declarations
/// `scope`. `None` (and `nodes` unchanged) when `e` cannot be read.
fn build_element(
    t: &Vec<SynNode>,
    b: &[u8],
    e: usize,
    parent: Option<usize>,
    scope: &NsScope,
    nodes: &mut Vec<XmlNode>,
    Ghost(m0): Ghost<Seq<int>>,
    Ghost(sc0): Ghost<Seq<ScopeView>>,
) -> (r: (Option<usize>, Ghost<Seq<int>>, Ghost<Seq<ScopeView>>))
    requires
        e < t@.len(),
        m0.len() == old(nodes)@.len(),
        sc0.len() == old(nodes)@.len(),
    ensures
        r.0 is Some <==> elem_ok(tree_view(t@), b@, e as int),
        r.0 is None ==> final(nodes)@ == old(nodes)@,
        r.0 matches Some(i) ==> {
            let ns = final(nodes)@;
            let m = r.1@;
            let sc = r.2@;
            &&& i == old(nodes)@.len()
            &&& i < ns.len()
            &&& forall|k: int| 0 <= k < i ==> ns[k] == old(nodes)@[k]
            &&& m.take(i as int) == m0
            &&& sc.take(i as int) == sc0
            &&& m[i as int] == e
            &&& sc[i as int] == apply_attrs(scope@, elem_attrs(tree_view(t@), b@, e as int).unwrap())
            &&& ns[i as int].parent == parent
            &&& region_ok(tree_view(t@), b@, ns, m, sc, i as int, ns.len() as int, ns[i as int].children@)
            &&& mapped(ns[i as int].children@, m) == elem_kids(tree_view(t@), b@, e as int)
        },
    decreases t@.len() - e,
{
    let ghost tv = tree_view(t@);
    let st = match child_of_kind(t, e, "STag") {
        Some(s) => s,
        None => match child_of_kind(t, e, "EmptyElemTag") {
            Some(s) => s,
            None => {
                return (None, Ghost(m0), Ghost(sc0));
            },
        },
    };
    assert(start_tag(tv, e as int) == Some(st as int));
    let nm = match child_of_kind(t, st, "Name") {
        Some(n) => n,
        None => {
            return (None, Ghost(m0), Ghost(sc0));
        },
    };
    let name = match node_string(t, b, nm) {
        Some(s) => s,
        None => {
            return (None, Ghost(m0), Ghost(sc0));
        },
    };
    let skids = children(t, st);
    let attrs = match read_attrs(t, b, &skids) {
        Some(a) => a,
        None => {
            return (None, Ghost(m0), Ghost(sc0));
        },
    };
    let scope2 = apply_ns(scope, attrs.as_slice());
    let ns_of = scope2.resolve(name.as_str());
    let name_cs = chars_of(name.as_str());
    let local = local_of(name_cs.as_slice());
    let name_range = Range { start: t[nm].start, end: t[nm].end };
    let elem_range = Range { start: t[e].start, end: t[e].end };
    let idx = nodes.len();
    let ghost old_nodes = nodes@;
    nodes.push(
        XmlNode {
            parent,
            children: Vec::new(),
            name: name.clone(),
            local: local.clone(),
            ns: clone_opt(&ns_of),
            name_range: Range { start: t[nm].start, end: t[nm].end },
            elem_range: Range { start: t[e].start, end: t[e].end },
        },
    );
    let ghost mut m = m0.push(e as int);
    let ghost mut sc = sc0.push(scope2@);
    let mut kid_list: Vec<usize> = Vec::new();
    proof {
        assert(node_matches(tv, b@, nodes@[idx as int], m[idx as int], sc[idx as int]));
        assert(region_ok(tv, b@, nodes@, m, sc, idx as int, nodes@.len() as int, kid_list@));
        assert(m.take(idx as int) =~= m0);
        assert(sc.take(idx as int) =~= sc0);
    }
    match child_of_kind(t, e, "content") {
        None => {
            proof {
                assert(elem_kids(tv, b@, e as int) =~= Seq::<int>::empty());
                assert(mapped(kid_list@, m) =~= Seq::<int>::empty());
            }
        },
        Some(c) => {
            let ck = children(t, c);
            let ghost cks = as_ints(ck@);
            let mut i: usize = 0;
            let _len0 = nodes.len();
            proof {
                assert(cks.skip(0) =~= cks);
                assert(mapped(kid_list@, m) + ok_elems(tv, b@, cks) =~= ok_elems(tv, b@, cks));
            }
            while i < ck.len()
                invariant
                    tv == tree_view(t@),
                    e < c < t@.len(),
                    cks == as_ints(ck@),
                    cks == crate::syntax::kids(tv, c as int),
                    forall|q: int| 0 <= q < ck@.len() ==> c < #[trigger] ck@[q] < t@.len(),
                    i <= ck@.len(),
                    idx < nodes@.len(),
                    nodes@.len() <= usize::MAX,
                    forall|k: int| 0 <= k < idx ==> nodes@[k] == old_nodes[k],
                    old_nodes == old(nodes)@,
                    nodes@[idx as int].parent == parent,
                    nodes@[idx as int].children@.len() == 0,
                    m.take(idx as int) == m0,
                    sc.take(idx as int) == sc0,
                    m[idx as int] == e,
                    sc[idx as int] == scope2@,
                    scope2@ == apply_attrs(scope@, elem_attrs(tv, b@, e as int).unwrap()),
                    region_ok(tv, b@, nodes@, m, sc, idx as int, nodes@.len() as int, kid_list@),
                    mapped(kid_list@, m) + ok_elems(tv, b@, cks.skip(i as int)) == ok_elems(tv, b@, cks),
                decreases ck@.len() - i,
            {
                let k = ck[i];
                proof {
                    assert(cks.skip(i as int)[0] == k as int);
                    assert(cks.skip(i as int).drop_first() =~= cks.skip(i + 1));
                }
                let is_elem = str_eq(t[k].kind.as_str(), "element");
                if is_elem {
                    let ghost pre_nodes = nodes@;
                    let ghost pre_m = m;
                    let ghost pre_sc = sc;
                    let ghost pre_kids = kid_list@;
                    let (res, Ghost(m2), Ghost(sc2)) = build_element(
                        t,
                        b,
                        k,
                        Some(idx),
                        &scope2,
                        nodes,
                        Ghost(m),
                        Ghost(sc),
                    );
                    let _len1 = nodes.len();
                    match res {
                        Some(ci) => {
                            proof {
                                lemma_region_extend(tv, b@, pre_nodes, pre_m, pre_sc, nodes@, m2, sc2, idx as int, ci as int, nodes@.len() as int, pre_kids);
                                assert(mapped(pre_kids.push(ci), m2) =~= mapped(pre_kids, pre_m).push(k as int)) by {
                                    assert forall|q: int| 0 <= q < pre_kids.len() implies m2[pre_kids[q] as int] == pre_m[pre_kids[q] as int] by {
                                        assert(kids_point_back(pre_nodes, idx as int, pre_nodes.len() as int, kids_at(pre_nodes, idx as int, pre_kids, idx as int)));
                                        assert(m2[pre_kids[q] as int] == m2.take(ci as int)[pre_kids[q] as int]);
                                    }
                                }
                                assert(mapped(pre_kids, pre_m).push(k as int) + ok_elems(tv, b@, cks.skip(i + 1)) =~= mapped(pre_kids, pre_m) + ok_elems(tv, b@, cks.skip(i as int)));
                                m = m2;
                                sc = sc2;
                                assert(m.take(idx as int) =~= m0) by {
                                    assert(m2.take(ci as int).take(idx as int) =~= m2.take(idx as int));
                                }
                                assert(sc.take(idx as int) =~= sc0) by {
                                    assert(sc2.take(ci as int).take(idx as int) =~= sc2.take(idx as int));
                                }
                                assert(m[idx as int] == pre_m[idx as int]) by {
                                    assert(m2.take(ci as int)[idx as int] == pre_m[idx as int]);
                                }
                                assert(sc[idx as int] == pre_sc[idx as int]) by {
                                    assert(sc2.take(ci as int)[idx as int] == pre_sc[idx as int]);
                                }
                            }
                            kid_list.push(ci);
                        },
                        None => {
                            proof {
                                assert(!elem_ok(tv, b@, k as int));
                            }
                        },
                    }
                } else {
                }
                i = i + 1;
            }
            proof {
                assert(cks.skip(ck@.len() as int) =~= Seq::<int>::empty());
                assert(mapped(kid_list@, m) =~= mapped(kid_list@, m) + ok_elems(tv, b@, Seq::<int>::empty()));
                assert(elem_kids(tv, b@, e as int) == ok_elems(tv, b@, cks));
            }
        },
    }
    let ghost pre_nodes = nodes@;
    nodes.set(
        idx,
        XmlNode {
            parent,
            children: kid_list,
            name,
            local,
            ns: ns_of,
            name_range,
            elem_range,
        },
    );
    proof {
        assert(nodes@[idx as int].children@ == kid_list@);
        assert forall|k: int| idx <= k < nodes@.len() implies #[trigger] node_matches(tv, b@, nodes@[k], m[k], sc[k]) by {
            assert(node_matches(tv, b@, pre_nodes[k], m[k], sc[k]));
        }
        assert forall|k: int| idx < k < nodes@.len() implies #[trigger] parent_ok(tv, b@, nodes@, m, sc, idx as int, kid_list@, k) by {
            assert(parent_ok(tv, b@, pre_nodes, m, sc, idx as int, kid_list@, k));
            let p = pre_nodes[k].parent.unwrap() as int;
            assert(kids_at(nodes@, idx as int, kid_list@, p) == kids_at(pre_nodes, idx as int, kid_list@, p));
        }
        assert forall|k: int| idx <= k < nodes@.len() implies #[trigger] kids_point_back(nodes@, k, nodes@.len() as int, kids_at(nodes@, idx as int, kid_list@, k)) by {
            assert(kids_point_back(pre_nodes, k, nodes@.len() as int, kids_at(pre_nodes, idx as int, kid_list@, k)));
            assert(kids_at(nodes@, idx as int, kid_list@, k) == kids_at(pre_nodes, idx as int, kid_list@, k));
            let ks = kids_at(nodes@, idx as int, kid_list@, k);
            assert forall|q: int| 0 <= q < ks.len() implies k < #[trigger] ks[q] < nodes@.len() && nodes@[ks[q] as int].parent == Some(k as usize) by {
                if ks[q] as int == idx {
                } else {
                    assert(nodes@[ks[q] as int] == pre_nodes[ks[q] as int]);
                }
            }
        }
        assert forall|k: int| idx < k < nodes@.len() implies mapped(#[trigger] nodes@[k].children@, m) == elem_kids(tv, b@, m[k]) by {
            assert(nodes@[k] == pre_nodes[k]);
        }
        assert(region_ok(tv, b@, nodes@, m, sc, idx as int, nodes@.len() as int, nodes@[idx as int].children@));
    }
    (Some(idx), Ghost(m), Ghost(sc))
}


/// The root element node of an XML syntax tree: the child of the document
/// node in the `root` field.
pub open spec fn xml_root_elem(t: Seq<SynView>) -> Option<int> {
    if t.len() > 0 {
        field_child(t, 0, "root"@)
    } else {
        None
    }
}

/// The empty scope.
pub open spec fn empty_scope() -> ScopeView {
    (None, Map::empty())
}

/// `nodes` is the element tree of root element `e` of `t` over the bytes `b`:
/// node 0 describes `e` under the declarations on `e`, and every node lists
/// exactly its child elements, each described under its parent's scope with
/// its own declarations applied.
pub open spec fn xml_tree_of(t: Seq<SynView>, b: Seq<u8>, e: int, nodes: Seq<XmlNode>) -> bool {
    exists|m: Seq<int>, sc: Seq<ScopeView>|
        {
            &&& #[trigger] region_ok(t, b, nodes, m, sc, 0, nodes.len() as int, nodes[0].children@)
            &&& m[0] == e
            &&& sc[0] == apply_attrs(empty_scope(), elem_attrs(t, b, e).unwrap())
            &&& nodes[0].parent is None
            &&& mapped(nodes[0].children@, m) == elem_kids(t, b, e)
        }
}

/// Node `i` of `a` and node `j` of `c` carry the same element: the same
/// name, local name, namespace and spans, and the same child elements in the
/// same order, each listed after its parent and itself the same tree.
pub open spec fn same_tree(a: Seq<XmlNode>, i: int, c: Seq<XmlNode>, j: int) -> bool
    decreases a.len() - i,
{
    &&& 0 <= i < a.len()
    &&& 0 <= j < c.len()
    &&& a[i].name@ == c[j].name@
    &&& a[i].local@ == c[j].local@
    &&& opt_view(a[i].ns) == opt_view(c[j].ns)
    &&& a[i].name_range == c[j].name_range
    &&& a[i].elem_range == c[j].elem_range
    &&& a[i].children@.len() == c[j].children@.len()
    &&& forall|q: int| 0 <= q < a[i].children@.len() ==> (i < a[i].children@[q] < a.len() && same_tree(
        a,
        #[trigger] a[i].children@[q] as int,
        c,
        c[j].children@[q] as int,
    ))
}

proof fn lemma_same_tree(
    t: Seq<SynView>,
    b: Seq<u8>,
    n1: Seq<XmlNode>,
    m1: Seq<int>,
    sc1: Seq<ScopeView>,
    n2: Seq<XmlNode>,
    m2: Seq<int>,
    sc2: Seq<ScopeView>,
    i: int,
    j: int,
)
    requires
        region_ok(t, b, n1, m1, sc1, 0, n1.len() as int, n1[0].children@),
        region_ok(t, b, n2, m2, sc2, 0, n2.len() as int, n2[0].children@),
        0 <= i < n1.len(),
        0 <= j < n2.len(),
        m1[i] == m2[j],
        sc1[i] == sc2[j],
        mapped(n1[i].children@, m1) == elem_kids(t, b, m1[i]),
        mapped(n2[j].children@, m2) == elem_kids(t, b, m2[j]),
    ensures
        same_tree(n1, i, n2, j),
    decreases n1.len() - i,
{
    assert(node_matches(t, b, n1[i], m1[i], sc1[i]));
    assert(node_matches(t, b, n2[j], m2[j], sc2[j]));
    let k1 = n1[i].children@;
    let k2 = n2[j].children@;
    assert(mapped(k1, m1).len() == k1.len());
    assert(mapped(k2, m2).len() == k2.len());
    assert(kids_point_back(n1, i, n1.len() as int, kids_at(n1, 0, n1[0].children@, i)));
    assert(kids_point_back(n2, j, n2.len() as int, kids_at(n2, 0, n2[0].children@, j)));
    assert(kids_at(n1, 0, n1[0].children@, i) == k1);
    assert(kids_at(n2, 0, n2[0].children@, j) == k2);
    assert forall|q: int| 0 <= q < k1.len() implies (i < k1[q] < n1.len() && same_tree(n1, #[trigger] k1[q] as int, n2, k2[q] as int)) by {
        let c1 = k1[q] as int;
        let c2 = k2[q] as int;
        assert(i < c1 < n1.len() && n1[c1].parent == Some(i as usize));
        assert(j < c2 < n2.len() && n2[c2].parent == Some(j as usize));
        assert(mapped(k1, m1)[q] == m1[c1]);
        assert(mapped(k2, m2)[q] == m2[c2]);
        assert(parent_ok(t, b, n1, m1, sc1, 0, n1[0].children@, c1));
        assert(parent_ok(t, b, n2, m2, sc2, 0, n2[0].children@, c2));
        assert(mapped(n1[c1].children@, m1) == elem_kids(t, b, m1[c1]));
        assert(mapped(n2[c2].children@, m2) == elem_kids(t, b, m2[c2]));
        lemma_same_tree(t, b, n1, m1, sc1, n2, m2, sc2, c1, c2);
    }
}

/// The element tree of a document is determined by its text: any two
/// element trees of the same root element are the same tree, node for node
/// (they may only number the nodes differently).
pub proof fn law_element_tree_is_determined(t: Seq<SynView>, b: Seq<u8>, e: int, n1: Seq<XmlNode>, n2: Seq<XmlNode>)
    requires
        xml_tree_of(t, b, e, n1),
        xml_tree_of(t, b, e, n2),
    ensures
        same_tree(n1, 0, n2, 0),
{
    let (m1, sc1) = choose|m: Seq<int>, sc: Seq<ScopeView>|
        {
            &&& #[trigger] region_ok(t, b, n1, m, sc, 0, n1.len() as int, n1[0].children@)
            &&& m[0] == e
            &&& sc[0] == apply_attrs(empty_scope(), elem_attrs(t, b, e).unwrap())
            &&& n1[0].parent is None
            &&& mapped(n1[0].children@, m) == elem_kids(t, b, e)
        };
    let (m2, sc2) = choose|m: Seq<int>, sc: Seq<ScopeView>|
        {
            &&& #[trigger] region_ok(t, b, n2, m, sc, 0, n2.len() as int, n2[0].children@)
            &&& m[0] == e
            &&& sc[0] == apply_attrs(empty_scope(), elem_attrs(t, b, e).unwrap())
            &&& n2[0].parent is None
            &&& mapped(n2[0].children@, m) == elem_kids(t, b, e)
        };
    lemma_same_tree(t, b, n1, m1, sc1, n2, m2, sc2, 0, 0);
}

/// In the element tree of a parsed document, every element's parent comes
/// before it.
pub proof fn lemma_tree_parents(t: Seq<SynView>, b: Seq<u8>, e: int, nodes: Seq<XmlNode>)
    requires
        xml_tree_of(t, b, e, nodes),
    ensures
        forall|i: int| 0 <= i < nodes.len() ==> (#[trigger] nodes[i].parent matches Some(p) ==> p < i),
{
    let (m, sc) = choose|m: Seq<int>, sc: Seq<ScopeView>|
        {
            &&& #[trigger] region_ok(t, b, nodes, m, sc, 0, nodes.len() as int, nodes[0].children@)
            &&& m[0] == e
            &&& sc[0] == apply_attrs(empty_scope(), elem_attrs(t, b, e).unwrap())
            &&& nodes[0].parent is None
            &&& mapped(nodes[0].children@, m) == elem_kids(t, b, e)
        };
    assert forall|i: int| 0 <= i < nodes.len() implies (#[trigger] nodes[i].parent matches Some(p) ==> p < i) by {
        if i > 0 {
            assert(parent_ok(t, b, nodes, m, sc, 0, nodes[0].children@, i));
        }
    }
}

/// Whether `text` parses to an XML document with a readable root element.
pub open spec fn xml_parses(text: &str) -> bool {
    &&& xml_syntax(text@) matches Some(t)
    &&& xml_root_elem(t) matches Some(e)
    &&& elem_ok(t, text.spec_bytes(), e)
}

/// Parse an XML document into its full element tree.
///
/// `None` when the text does not parse to a document with a readable root
/// element.
pub fn parse(text: &str) -> (r: Option<XmlDoc>)
    ensures
        r is Some <==> xml_parses(text),
        r matches Some(doc) ==> xml_tree_of(
            xml_syntax(text@).unwrap(),
            text.spec_bytes(),
            xml_root_elem(xml_syntax(text@).unwrap()).unwrap(),
            doc.nodes@,
        ),
{
    let t = match parse_xml_syntax(text) {
        Some(t) => t,
        None => {
            return None;
        },
    };
    let ghost tv = tree_view(t@);
    if t.len() == 0 {
        return None;
    }
    let root = match child_by_field(&t, 0, "root") {
        Some(r) => r,
        None => {
            return None;
        },
    };
    let b = text.as_bytes();
    let mut nodes: Vec<XmlNode> = Vec::new();
    let scope = NsScope::new();
    let (res, Ghost(m), Ghost(sc)) = build_element(
        &t,
        b,
        root,
        None,
        &scope,
        &mut nodes,
        Ghost(Seq::empty()),
        Ghost(Seq::empty()),
    );
    match res {
        None => None,
        Some(i) => {
            proof {
                assert(i == 0);
                assert(region_ok(tv, b@, nodes@, m, sc, 0, nodes@.len() as int, nodes@[0].children@));
            }
            Some(XmlDoc { nodes })
        },
    }
}

/// Parse an XML document and describe its root element.
pub fn parse_root(text: &str) -> (r: Option<XmlRoot>)
    ensures
        r is Some <==> xml_parses(text),
        r matches Some(root) ==> {
            let t = xml_syntax(text@).unwrap();
            let e = xml_root_elem(t).unwrap();
            &&& root.name@ == elem_name(t, text.spec_bytes(), e)
            &&& (opt_view(root.default_ns), root.ns_prefixes@) == apply_attrs(
                empty_scope(),
                elem_attrs(t, text.spec_bytes(), e).unwrap(),
            )
        },
{
    let t = match parse_xml_syntax(text) {
        Some(t) => t,
        None => {
            return None;
        },
    };
    let ghost tv = tree_view(t@);
    if t.len() == 0 {
        return None;
    }
    let root = match child_by_field(&t, 0, "root") {
        Some(r) => r,
        None => {
            return None;
        },
    };
    let b = text.as_bytes();
    let st = match child_of_kind(&t, root, "STag") {
        Some(s) => s,
        None => match child_of_kind(&t, root, "EmptyElemTag") {
            Some(s) => s,
            None => {
                return None;
            },
        },
    };
    let nm = match child_of_kind(&t, st, "Name") {
        Some(n) => n,
        None => {
            return None;
        },
    };
    let name = match node_string(&t, b, nm) {
        Some(s) => s,
        None => {
            return None;
        },
    };
    let skids = children(&t, st);
    let attrs = match read_attrs(&t, b, &skids) {
        Some(a) => a,
        None => {
            return None;
        },
    };
    let scope = apply_ns(&NsScope::new(), attrs.as_slice());
    Some(XmlRoot { name, default_ns: scope.default, ns_prefixes: scope.prefixes })
}

} // verus!
