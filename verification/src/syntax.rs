//! Concrete syntax trees of XML and JSON documents, as produced by the
//! tree-sitter grammars: every node in preorder with its kind, its field name
//! in its parent, its byte range and its depth.
//!
//! The tree shape is recovered from the preorder and the depths: the children
//! of a node are the following nodes one level deeper, up to the first node
//! that is not deeper than it.

use vstd::prelude::*;
use vstd::utf8::*;
use crate::text::str_eq;

verus! {

broadcast use vstd::slice::group_slice_axioms;

/// One node of a syntax tree.
pub struct SynNode {
    /// The grammar's name for the node (`element`, `STag`, `pair`, `"{"`, ...).
    pub kind: String,
    /// The node's field name in its parent, if it has one.
    pub field: Option<String>,
    /// First byte of the node.
    pub start: usize,
    /// One past the last byte of the node.
    pub end: usize,
    /// Distance from the document node (which has depth 0).
    pub depth: usize,
}

/// The mathematical form of a [`SynNode`].
pub struct SynView {
    pub kind: Seq<char>,
    pub field: Option<Seq<char>>,
    pub start: int,
    pub end: int,
    pub depth: int,
}

impl View for SynNode {
    type V = SynView;

    open spec fn view(&self) -> SynView {
        SynView {
            kind: self.kind@,
            field: match self.field {
                Some(f) => Some(f@),
                None => None,
            },
            start: self.start as int,
            end: self.end as int,
            depth: self.depth as int,
        }
    }
}

/// The views of a preorder node list.
pub open spec fn tree_view(nodes: Seq<SynNode>) -> Seq<SynView> {
    nodes.map_values(|n: SynNode| n@)
}

/// The syntax tree that the tree-sitter XML grammar gives `text`.
pub uninterp spec fn xml_syntax(text: Seq<char>) -> Option<Seq<SynView>>;

/// The syntax tree that the tree-sitter JSON grammar gives `text`.
pub uninterp spec fn json_syntax(text: Seq<char>) -> Option<Seq<SynView>>;

/// `tree_sitter::Parser::parse` with the `tree-sitter-xml` grammar: the
/// resulting tree, walked in preorder with a `TreeCursor` (every node, named or
/// not, with its kind, field name, byte range and depth). Nothing more is
/// claimed of it than that it is the named function of `text`.
#[verifier::external_body]
pub fn parse_xml_syntax(text: &str) -> (r: Option<Vec<SynNode>>)
    ensures
        match r {
            Some(v) => xml_syntax(text@) == Some(tree_view(v@)),
            None => xml_syntax(text@) is None,
        },
{
    let mut parser = tree_sitter::Parser::new();
    parser.set_language(&tree_sitter_xml::LANGUAGE_XML.into()).ok()?;
    let tree = parser.parse(text, None)?;
    let (mut c, mut out) = (tree.walk(), Vec::new());
    loop {
        let n = c.node();
        out.push(SynNode { kind: n.kind().to_owned(), field: c.field_name().map(str::to_owned), start: n.start_byte(), end: n.end_byte(), depth: c.depth() as usize });
        if c.goto_first_child() { continue; }
        while !c.goto_next_sibling() {
            if !c.goto_parent() { return Some(out); }
        }
    }
}

/// `tree_sitter::Parser::parse` with the `tree-sitter-json` grammar, walked
/// in preorder like [`parse_xml_syntax`]. Nothing more is claimed of it than
/// that it is the named function of `text`.
#[verifier::external_body]
pub fn parse_json_syntax(text: &str) -> (r: Option<Vec<SynNode>>)
    ensures
        match r {
            Some(v) => json_syntax(text@) == Some(tree_view(v@)),
            None => json_syntax(text@) is None,
        },
{
    let mut parser = tree_sitter::Parser::new();
    parser.set_language(&tree_sitter_json::LANGUAGE.into()).ok()?;
    let tree = parser.parse(text, None)?;
    let (mut c, mut out) = (tree.walk(), Vec::new());
    loop {
        let n = c.node();
        out.push(SynNode { kind: n.kind().to_owned(), field: c.field_name().map(str::to_owned), start: n.start_byte(), end: n.end_byte(), depth: c.depth() as usize });
        if c.goto_first_child() { continue; }
        while !c.goto_next_sibling() {
            if !c.goto_parent() { return Some(out); }
        }
    }
}

/// `std::str::from_utf8`: the string `b` encodes, when `b` is valid UTF-8.
#[verifier::external_body]
pub fn utf8_str(b: &[u8]) -> (r: Option<String>)
    ensures
        r is Some <==> valid_utf8(b@),
        r matches Some(s) ==> s@ == decode_utf8(b@),
{
    std::str::from_utf8(b).ok().map(str::to_owned)
}

/// Node `c` is a child of node `p`.
pub open spec fn is_child(t: Seq<SynView>, p: int, c: int) -> bool {
    &&& 0 <= p < c < t.len()
    &&& t[c].depth == t[p].depth + 1
    &&& forall|k: int| p < k <= c ==> #[trigger] t[k].depth > t[p].depth
}

/// The children of `p` found scanning from node `j` on.
pub open spec fn kids_from(t: Seq<SynView>, p: int, j: int) -> Seq<int>
    decreases t.len() - j,
{
    if j <= p || j >= t.len() || p < 0 || t[j].depth <= t[p].depth {
        Seq::<int>::empty()
    } else if t[j].depth == t[p].depth + 1 {
        seq![j] + kids_from(t, p, j + 1)
    } else {
        kids_from(t, p, j + 1)
    }
}

/// The children of `p`, in order.
pub open spec fn kids(t: Seq<SynView>, p: int) -> Seq<int> {
    kids_from(t, p, p + 1)
}

/// The indices of a vector of node positions, as integers.
pub open spec fn as_ints(v: Seq<usize>) -> Seq<int> {
    v.map_values(|x: usize| x as int)
}

/// `c` is the first child of `p` whose kind is `k`.
pub open spec fn is_first_kind_child(t: Seq<SynView>, p: int, k: Seq<char>, c: int) -> bool {
    &&& is_child(t, p, c)
    &&& t[c].kind == k
    &&& forall|d: int| #[trigger] is_child(t, p, d) && d < c ==> t[d].kind != k
}

/// The first child of `p` whose kind is `k`.
pub open spec fn kind_child(t: Seq<SynView>, p: int, k: Seq<char>) -> Option<int> {
    if exists|c: int| #[trigger] is_first_kind_child(t, p, k, c) {
        Some(choose|c: int| #[trigger] is_first_kind_child(t, p, k, c))
    } else {
        None
    }
}

/// `c` is the first child of `p` whose field is `f`.
pub open spec fn is_first_field_child(t: Seq<SynView>, p: int, f: Seq<char>, c: int) -> bool {
    &&& is_child(t, p, c)
    &&& t[c].field == Some(f)
    &&& forall|d: int| #[trigger] is_child(t, p, d) && d < c ==> t[d].field != Some(f)
}

/// The first child of `p` whose field is `f`.
pub open spec fn field_child(t: Seq<SynView>, p: int, f: Seq<char>) -> Option<int> {
    if exists|c: int| #[trigger] is_first_field_child(t, p, f, c) {
        Some(choose|c: int| #[trigger] is_first_field_child(t, p, f, c))
    } else {
        None
    }
}

/// The text of node `n` of `t` over the document bytes `b`, when its range lies
/// in `b` and is valid UTF-8.
pub open spec fn node_text(t: Seq<SynView>, b: Seq<u8>, n: int) -> Option<Seq<char>> {
    if 0 <= t[n].start <= t[n].end <= b.len() && valid_utf8(b.subrange(t[n].start, t[n].end)) {
        Some(decode_utf8(b.subrange(t[n].start, t[n].end)))
    } else {
        None
    }
}

/// The children of `p`, in order.
pub fn children(t: &Vec<SynNode>, p: usize) -> (r: Vec<usize>)
    requires
        p < t@.len(),
    ensures
        forall|i: int| 0 <= i < r@.len() ==> is_child(tree_view(t@), p as int, #[trigger] r@[i] as int),
        forall|i: int, j: int| 0 <= i < j < r@.len() ==> r@[i] < r@[j],
        forall|c: int| #[trigger] is_child(tree_view(t@), p as int, c) ==> exists|q: int| 0 <= q < r@.len() && r@[q] as int == c,
        as_ints(r@) == kids(tree_view(t@), p as int),
{
    let ghost tv = tree_view(t@);
    let d = t[p].depth;
    let n = t.len();
    let mut out: Vec<usize> = Vec::new();
    assert(p < n);
    let mut j = p + 1;
    while j < t.len() && t[j].depth > d
        invariant
            tv == tree_view(t@),
            d == tv[p as int].depth,
            p < j <= t@.len(),
            forall|k: int| p < k < j ==> #[trigger] tv[k].depth > d,
            forall|i: int| 0 <= i < out@.len() ==> is_child(tv, p as int, #[trigger] out@[i] as int),
            forall|i: int| 0 <= i < out@.len() ==> #[trigger] out@[i] < j,
            forall|i: int, k: int| 0 <= i < k < out@.len() ==> out@[i] < out@[k],
            forall|c: int| #[trigger] is_child(tv, p as int, c) && c < j ==> exists|q: int| 0 <= q < out@.len() && out@[q] as int == c,
            as_ints(out@) + kids_from(tv, p as int, j as int) == kids(tv, p as int),
        decreases t@.len() - j,
    {
        if t[j].depth == d + 1 {
            proof {
                assert(tv[j as int].depth > d);
            }
            let ghost old_out = out@;
            out.push(j);
            proof {
                assert(kids_from(tv, p as int, j as int) == seq![j as int] + kids_from(tv, p as int, j + 1));
                assert(as_ints(out@) =~= as_ints(old_out) + seq![j as int]);
                assert(as_ints(out@) + kids_from(tv, p as int, j + 1) =~= as_ints(old_out) + kids_from(tv, p as int, j as int));
                assert(is_child(tv, p as int, j as int));
                assert forall|c: int| #[trigger] is_child(tv, p as int, c) && c < j + 1 implies exists|q: int| 0 <= q < out@.len() && out@[q] as int == c by {
                    if c == j {
                        assert(out@[out@.len() - 1] as int == c);
                    } else {
                        let q = choose|q: int| 0 <= q < old_out.len() && old_out[q] as int == c;
                        assert(out@[q] == old_out[q]);
                    }
                }
            }
        } else {
            proof {
                assert(tv[j as int].depth > d);
                assert(kids_from(tv, p as int, j as int) == kids_from(tv, p as int, j + 1));
                assert forall|c: int| #[trigger] is_child(tv, p as int, c) && c < j + 1 implies exists|q: int| 0 <= q < out@.len() && out@[q] as int == c by {
                    if c == j {
                        assert(tv[c].depth != d + 1);
                    }
                }
            }
        }
        j = j + 1;
    }
    proof {
        assert(kids_from(tv, p as int, j as int) =~= Seq::<int>::empty());
        assert(as_ints(out@) =~= as_ints(out@) + Seq::<int>::empty());
        assert forall|c: int| #[trigger] is_child(tv, p as int, c) implies exists|q: int| 0 <= q < out@.len() && out@[q] as int == c by {
            if c >= j {
                assert(tv[j as int].depth > tv[p as int].depth);
            }
        }
    }
    out
}

proof fn lemma_kind_child(t: Seq<SynView>, p: int, k: Seq<char>, c: int)
    requires
        is_first_kind_child(t, p, k, c),
    ensures
        kind_child(t, p, k) == Some(c),
{
    let x = choose|x: int| #[trigger] is_first_kind_child(t, p, k, x);
    assert(is_first_kind_child(t, p, k, x));
    if x < c {
        assert(is_child(t, p, x));
    } else if c < x {
        assert(is_child(t, p, c));
    }
}

proof fn lemma_field_child(t: Seq<SynView>, p: int, f: Seq<char>, c: int)
    requires
        is_first_field_child(t, p, f, c),
    ensures
        field_child(t, p, f) == Some(c),
{
    let x = choose|x: int| #[trigger] is_first_field_child(t, p, f, x);
    assert(is_first_field_child(t, p, f, x));
    if x < c {
        assert(is_child(t, p, x));
    } else if c < x {
        assert(is_child(t, p, c));
    }
}

/// The first child of `p` of kind `kind`.
pub fn child_of_kind(t: &Vec<SynNode>, p: usize, kind: &str) -> (r: Option<usize>)
    requires
        p < t@.len(),
    ensures
        match r {
            Some(c) => kind_child(tree_view(t@), p as int, kind@) == Some(c as int) && is_child(
                tree_view(t@),
                p as int,
                c as int,
            ) && c < t@.len(),
            None => kind_child(tree_view(t@), p as int, kind@) is None,
        },
{
    let ghost tv = tree_view(t@);
    let kids = children(t, p);
    let mut i: usize = 0;
    while i < kids.len()
        invariant
            tv == tree_view(t@),
            i <= kids@.len(),
            forall|q: int| 0 <= q < kids@.len() ==> is_child(tv, p as int, #[trigger] kids@[q] as int),
            forall|q: int, w: int| 0 <= q < w < kids@.len() ==> kids@[q] < kids@[w],
            forall|c: int| #[trigger] is_child(tv, p as int, c) ==> exists|q: int| 0 <= q < kids@.len() && kids@[q] as int == c,
            forall|q: int| 0 <= q < i ==> tv[#[trigger] kids@[q] as int].kind != kind@,
        decreases kids@.len() - i,
    {
        let c = kids[i];
        if str_eq(t[c].kind.as_str(), kind) {
            proof {
                assert(is_child(tv, p as int, c as int));
                assert forall|d: int| #[trigger] is_child(tv, p as int, d) && d < c implies tv[d].kind != kind@ by {
                    let q = choose|q: int| 0 <= q < kids@.len() && kids@[q] as int == d;
                    if q > i {
                        assert(kids@[i as int] < kids@[q]);
                    }
                    if q < i {
                        assert(tv[kids@[q] as int].kind != kind@);
                    }
                }
                lemma_kind_child(tv, p as int, kind@, c as int);
            }
            return Some(c);
        }
        i = i + 1;
    }
    proof {
        assert forall|c: int| !#[trigger] is_first_kind_child(tv, p as int, kind@, c) by {
            if is_first_kind_child(tv, p as int, kind@, c) {
                let q = choose|q: int| 0 <= q < kids@.len() && kids@[q] as int == c;
                assert(tv[kids@[q] as int].kind != kind@);
            }
        }
    }
    None
}

/// The first child of `p` whose field is `field`.
pub fn child_by_field(t: &Vec<SynNode>, p: usize, field: &str) -> (r: Option<usize>)
    requires
        p < t@.len(),
    ensures
        match r {
            Some(c) => field_child(tree_view(t@), p as int, field@) == Some(c as int) && is_child(
                tree_view(t@),
                p as int,
                c as int,
            ) && c < t@.len(),
            None => field_child(tree_view(t@), p as int, field@) is None,
        },
{
    let ghost tv = tree_view(t@);
    let kids = children(t, p);
    let mut i: usize = 0;
    while i < kids.len()
        invariant
            tv == tree_view(t@),
            i <= kids@.len(),
            forall|q: int| 0 <= q < kids@.len() ==> is_child(tv, p as int, #[trigger] kids@[q] as int),
            forall|q: int, w: int| 0 <= q < w < kids@.len() ==> kids@[q] < kids@[w],
            forall|c: int| #[trigger] is_child(tv, p as int, c) ==> exists|q: int| 0 <= q < kids@.len() && kids@[q] as int == c,
            forall|q: int| 0 <= q < i ==> tv[#[trigger] kids@[q] as int].field != Some(field@),
        decreases kids@.len() - i,
    {
        let c = kids[i];
        let hit = match &t[c].field {
            Some(f) => str_eq(f.as_str(), field),
            None => false,
        };
        if hit {
            proof {
                assert(is_child(tv, p as int, c as int));
                assert forall|d: int| #[trigger] is_child(tv, p as int, d) && d < c implies tv[d].field != Some(field@) by {
                    let q = choose|q: int| 0 <= q < kids@.len() && kids@[q] as int == d;
                    if q > i {
                        assert(kids@[i as int] < kids@[q]);
                    }
                    if q < i {
                        assert(tv[kids@[q] as int].field != Some(field@));
                    }
                }
                lemma_field_child(tv, p as int, field@, c as int);
            }
            return Some(c);
        }
        i = i + 1;
    }
    proof {
        assert forall|c: int| !#[trigger] is_first_field_child(tv, p as int, field@, c) by {
            if is_first_field_child(tv, p as int, field@, c) {
                let q = choose|q: int| 0 <= q < kids@.len() && kids@[q] as int == c;
                assert(tv[kids@[q] as int].field != Some(field@));
            }
        }
    }
    None
}

/// The text of node `n` over the document bytes `b`.
pub fn node_string(t: &Vec<SynNode>, b: &[u8], n: usize) -> (r: Option<String>)
    requires
        n < t@.len(),
    ensures
        match r {
            Some(s) => node_text(tree_view(t@), b@, n as int) == Some(s@),
            None => node_text(tree_view(t@), b@, n as int) is None,
        },
{
    let s = t[n].start;
    let e = t[n].end;
    if s <= e && e <= b.len() {
        utf8_str(vstd::slice::slice_subrange(b, s, e))
    } else {
        None
    }
}

} // verus!
