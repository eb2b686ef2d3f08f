//! JSON writing: RFC 7951 member completion.
//!
//! Offers the member names that may validly be typed at the caret as
//! snippets, resolved through the JSON instance-to-schema mapping:
//!
//! - at a fresh member slot of the root object: every module's top-level
//!   data node, always module-qualified (`module:name`);
//! - at a fresh member slot inside a mapped container's object or a list
//!   entry: that node's data children; a child in the parent's module is
//!   written bare, any other is qualified with its own module.
//!
//! Containers open `{ ... }`, lists an array with one entry carrying their
//! `key` members, leaf-lists `[ ... ]`; leaves get their value default.

use vstd::prelude::*;
use vstd::string::StringSliceAdditionalSpecFns;
use crate::completion::{
    detail_for, detail_text, entry_view, entry_views, leafy, lemma_sorted_map, pair_name, sort_named, sorted_by,
    CompletionEntry,
};
use crate::json::{json_parses, json_root_obj, json_tree_of, parse, JsonDoc, JsonMember, JsonObject, JsonVal};
use crate::jmap::{doc_wf, doc_wf_check, jmap_result, res_view, res_views};
use crate::schema::{is_data_kind, module_idx, node_of, NodeKind, Schema, SchemaModule, SchemaNode};
use crate::syntax::json_syntax;
use crate::text::{chars_of, push_str, string_of, views};
use crate::valcheck::{checked_type, default_of, default_value, default_view, DefaultValue, DefaultView};
use crate::xml::is_ascii_ws_byte;

verus! {

broadcast use vstd::slice::group_slice_axioms;

/// One completable member.
pub struct Candidate {
    /// The member name as written: `module:name` or `name`.
    pub qname: String,
    pub kind: NodeKind,
    pub keys: Vec<String>,
    pub mandatory: bool,
    /// The value default of a `leaf` member.
    pub default: Option<DefaultValue>,
    /// A checked leaf with no literal default (string, binary, bits): the
    /// value is offered as `"..."` for the user to fill.
    pub quoted_placeholder: bool,
}

/// The mathematical form of a [`Candidate`].
pub type CandView = (Seq<char>, NodeKind, Seq<Seq<char>>, bool, Option<DefaultView>, bool);

/// The view of a candidate.
pub open spec fn cand_view(c: Candidate) -> CandView {
    (c.qname@, c.kind, views(c.keys@), c.mandatory, default_view(c.default), c.quoted_placeholder)
}

/// The views of a sequence of candidates.
pub open spec fn cand_views(cs: Seq<Candidate>) -> Seq<CandView> {
    cs.map_values(|c: Candidate| cand_view(c))
}

/// The value default of a `leaf` member and whether it gets a quoted
/// placeholder instead: only checked types take part.
pub open spec fn leaf_value_default(n: SchemaNode) -> (Option<DefaultView>, bool) {
    if n.kind == NodeKind::Leaf {
        match n.value_type {
            Some(vt) => if checked_type(vt) {
                match default_of(vt) {
                    Some(d) => (Some(d), false),
                    None => (None, true),
                }
            } else {
                (None, false)
            },
            None => (None, false),
        }
    } else {
        (None, false)
    }
}

/// The candidate for node `n` written as `qname`.
pub open spec fn node_cand(n: SchemaNode, qname: Seq<char>) -> CandView {
    let (d, qp) = leaf_value_default(n);
    (qname, n.kind, views(n.keys@), n.mandatory, d, qp)
}

/// The top-level data nodes among `tops` of module `m`, qualified.
pub open spec fn tops_cands(m: SchemaModule, tops: Seq<usize>) -> Seq<CandView>
    decreases tops.len(),
{
    if tops.len() == 0 {
        Seq::empty()
    } else {
        let rest = tops_cands(m, tops.drop_last());
        match node_of(m, tops.last() as int) {
            Some(n) => if is_data_kind(n.kind) {
                rest.push(node_cand(n, m.name@ + ":"@ + n.name@))
            } else {
                rest
            },
            None => rest,
        }
    }
}

/// The top-level data nodes of modules `0..k`, qualified.
pub open spec fn all_tops_cands(ms: Seq<SchemaModule>, k: nat) -> Seq<CandView>
    decreases k,
{
    if k == 0 || k > ms.len() {
        Seq::empty()
    } else {
        all_tops_cands(ms, (k - 1) as nat) + tops_cands(ms[k - 1], ms[k - 1].top_nodes@)
    }
}

/// The qualified name of a candidate view.
pub open spec fn cand_name(c: CandView) -> Seq<char> {
    c.0
}

/// Every module's top-level data node, qualified, sorted by name.
pub open spec fn top_cands(ms: Seq<SchemaModule>) -> Seq<CandView> {
    sorted_by(all_tops_cands(ms, ms.len()), |c: CandView| cand_name(c))
}

/// How a child `n` is written inside an object of module `def`: bare in
/// that module, else qualified with its own.
pub open spec fn member_name(n: SchemaNode, def: Seq<char>) -> Seq<char> {
    if n.instance_module@ == def {
        n.name@
    } else {
        n.instance_module@ + ":"@ + n.name@
    }
}

/// The children with ids `ids` of module `m` that exist, as members of an
/// object of module `def`.
pub open spec fn kid_cands(m: SchemaModule, ids: Seq<usize>, def: Seq<char>) -> Seq<CandView>
    decreases ids.len(),
{
    if ids.len() == 0 {
        Seq::empty()
    } else {
        let rest = kid_cands(m, ids.drop_last(), def);
        match node_of(m, ids.last() as int) {
            Some(n) => rest.push(node_cand(n, member_name(n, def))),
            None => rest,
        }
    }
}

/// The data children of a mapped container or list `id` of `module`, as
/// members of an object of module `def`, sorted by name.
pub open spec fn child_cands(ms: Seq<SchemaModule>, module: Seq<char>, id: int, def: Seq<char>) -> Seq<CandView> {
    match module_idx(ms, module) {
        Some(k) => match node_of(ms[k], id) {
            Some(node) => if node.kind == NodeKind::Container || node.kind == NodeKind::List {
                sorted_by(kid_cands(ms[k], node.data_children@, def), |c: CandView| cand_name(c))
            } else {
                Seq::empty()
            },
            None => Seq::empty(),
        },
        None => Seq::empty(),
    }
}

/// The candidate for node `n` written as `qname` ([`node_cand`]).
fn make_cand(n: &SchemaNode, qname: String) -> (r: Candidate)
    ensures
        cand_view(r) == node_cand(*n, qname@),
{
    let (default, quoted_placeholder) = match n.kind {
        NodeKind::Leaf => match &n.value_type {
            Some(vt) => if vt.is_checked() {
                match default_value(vt) {
                    Some(d) => (Some(d), false),
                    None => (None, true),
                }
            } else {
                (None, false)
            },
            None => (None, false),
        },
        _ => (None, false),
    };
    let mut keys: Vec<String> = Vec::new();
    let mut k: usize = 0;
    while k < n.keys.len()
        invariant
            k <= n.keys@.len(),
            views(keys@) == views(n.keys@).take(k as int),
        decreases n.keys@.len() - k,
    {
        let key = n.keys[k].clone();
        proof {
            assert(views(n.keys@).take(k + 1) =~= views(n.keys@).take(k as int).push(key@));
            assert(views(keys@.push(key)) =~= views(keys@).push(key@));
        }
        keys.push(key);
        k = k + 1;
    }
    proof {
        assert(views(n.keys@).take(n.keys@.len() as int) =~= views(n.keys@));
    }
    Candidate { qname, kind: n.kind, keys, mandatory: n.mandatory, default, quoted_placeholder }
}

/// `a`, `:` and `b`.
fn qualified(a: &str, b: &str) -> (r: String)
    ensures
        r@ == a@ + ":"@ + b@,
{
    let mut out: Vec<char> = Vec::new();
    push_str(&mut out, a);
    push_str(&mut out, ":");
    push_str(&mut out, b);
    proof {
        assert(out@ =~= a@ + ":"@ + b@);
    }
    string_of(out.as_slice())
}

/// Sort named candidates by name, and drop the names.
#[verifier::loop_isolation(false)]
fn sorted_cands(pairs: Vec<(String, Candidate)>) -> (r: Vec<Candidate>)
    requires
        forall|i: int| 0 <= i < pairs@.len() ==> #[trigger] pairs@[i].0@ == pairs@[i].1.qname@,
    ensures
        cand_views(r@) == sorted_by(pairs@.map_values(|p: (String, Candidate)| cand_view(p.1)), |c: CandView| cand_name(c)),
{
    let ghost before = pairs@;
    let sorted = sort_named(pairs);
    proof {
        assert forall|a: (String, Candidate)| before.contains(a) implies #[trigger] cand_name(cand_view(a.1)) == pair_name(a) by {
            let j = choose|j: int| 0 <= j < before.len() && before[j] == a;
        }
        lemma_sorted_map(before, |p: (String, Candidate)| cand_view(p.1), |p: (String, Candidate)| pair_name(p), |c: CandView| cand_name(c));
    }
    let mut out: Vec<Candidate> = Vec::new();
    let mut s = sorted;
    let _slen = s.len();
    let ghost sv = s@;
    let ghost f = |p: (String, Candidate)| cand_view(p.1);
    let mut i: usize = 0;
    proof {
        assert(cand_views(out@) =~= sv.map_values(f).take(0));
    }
    while s.len() > 0
        invariant
            i + s@.len() == sv.len(),
            s@ == sv.skip(i as int),
            cand_views(out@) == sv.map_values(f).take(i as int),
            sv.len() <= usize::MAX,
        decreases s@.len(),
    {
        let p = s.remove(0);
        proof {
            assert(sv.skip(i as int)[0] == p);
            assert(sv.map_values(f).take(i + 1) =~= sv.map_values(f).take(i as int).push(cand_view(p.1)));
            assert(cand_views(out@.push(p.1)) =~= cand_views(out@).push(cand_view(p.1)));
            assert(sv.skip(i as int).drop_first() =~= sv.skip(i + 1));
        }
        out.push(p.1);
        i = i + 1;
    }
    proof {
        assert(sv.map_values(f).take(i as int) =~= sv.map_values(f));
    }
    out
}

/// Every module's top-level data node, qualified and sorted ([`top_cands`]).
#[verifier::loop_isolation(false)]
pub fn top_candidates(schema: &Schema) -> (r: Vec<Candidate>)
    ensures
        cand_views(r@) == top_cands(schema.modules@),
{
    let ghost ms = schema.modules@;
    let ghost f = |p: (String, Candidate)| cand_view(p.1);
    let mut pairs: Vec<(String, Candidate)> = Vec::new();
    proof {
        assert(pairs@.map_values(f) =~= Seq::<CandView>::empty());
    }
    let mut k: usize = 0;
    while k < schema.modules.len()
        invariant
            k <= ms.len(),
            pairs@.map_values(f) == all_tops_cands(ms, k as nat),
            forall|i: int| 0 <= i < pairs@.len() ==> #[trigger] pairs@[i].0@ == pairs@[i].1.qname@,
        decreases ms.len() - k,
    {
        let m = &schema.modules[k];
        let tops = &m.top_nodes;
        let ghost base = pairs@.map_values(f);
        let mut t: usize = 0;
        proof {
            assert(tops@.take(0) =~= Seq::<usize>::empty());
            assert(base + tops_cands(*m, tops@.take(0)) =~= base);
        }
        while t < tops.len()
            invariant
                t <= tops@.len(),
                pairs@.map_values(f) == base + tops_cands(*m, tops@.take(t as int)),
                forall|i: int| 0 <= i < pairs@.len() ==> #[trigger] pairs@[i].0@ == pairs@[i].1.qname@,
            decreases tops@.len() - t,
        {
            proof {
                assert(tops@.take(t + 1).drop_last() =~= tops@.take(t as int));
                assert(tops@.take(t + 1).last() == tops@[t as int]);
            }
            match m.node(tops[t]) {
                Some(n) => {
                    if n.kind.is_data() {
                        let q = qualified(m.name.as_str(), n.name.as_str());
                        let c = make_cand(n, q);
                        let nm = c.qname.clone();
                        let ghost pre = pairs@;
                        pairs.push((nm, c));
                        proof {
                            assert(pairs@.map_values(f) =~= pre.map_values(f).push(cand_view(c)));
                        }
                    }
                },
                None => {},
            }
            t = t + 1;
        }
        proof {
            assert(tops@.take(tops@.len() as int) =~= tops@);
        }
        k = k + 1;
    }
    sorted_cands(pairs)
}

/// The children of mapped node `id` of `module` as members of an object of
/// module `def`, sorted ([`child_cands`]).
#[verifier::loop_isolation(false)]
pub fn child_candidates(schema: &Schema, module: &str, id: usize, def: &str) -> (r: Vec<Candidate>)
    ensures
        cand_views(r@) == child_cands(schema.modules@, module@, id as int, def@),
{
    let k = match schema.module(module) {
        Some(k) => k,
        None => {
            return Vec::new();
        },
    };
    let rec = &schema.modules[k];
    let node = match rec.node(id) {
        Some(n) => n,
        None => {
            return Vec::new();
        },
    };
    match node.kind {
        NodeKind::Container | NodeKind::List => {},
        _ => {
            return Vec::new();
        },
    }
    let ids = &node.data_children;
    let ghost f = |p: (String, Candidate)| cand_view(p.1);
    let mut pairs: Vec<(String, Candidate)> = Vec::new();
    proof {
        assert(ids@.take(0) =~= Seq::<usize>::empty());
        assert(pairs@.map_values(f) =~= Seq::<CandView>::empty());
    }
    let mut j: usize = 0;
    while j < ids.len()
        invariant
            j <= ids@.len(),
            pairs@.map_values(f) == kid_cands(*rec, ids@.take(j as int), def@),
            forall|i: int| 0 <= i < pairs@.len() ==> #[trigger] pairs@[i].0@ == pairs@[i].1.qname@,
        decreases ids@.len() - j,
    {
        proof {
            assert(ids@.take(j + 1).drop_last() =~= ids@.take(j as int));
            assert(ids@.take(j + 1).last() == ids@[j as int]);
        }
        match rec.node(ids[j]) {
            Some(n) => {
                let q = if crate::text::str_eq(n.instance_module.as_str(), def) {
                    n.name.clone()
                } else {
                    qualified(n.instance_module.as_str(), n.name.as_str())
                };
                let c = make_cand(n, q);
                let nm = c.qname.clone();
                let ghost pre = pairs@;
                pairs.push((nm, c));
                proof {
                    assert(pairs@.map_values(f) =~= pre.map_values(f).push(cand_view(c)));
                }
            },
            None => {},
        }
        j = j + 1;
    }
    proof {
        assert(ids@.take(ids@.len() as int) =~= ids@);
    }
    sorted_cands(pairs)
}

/// The stub of key member `k`, the `i`-th of a list entry; the first holds
/// the caret.
pub open spec fn key_member(k: Seq<char>, i: int) -> Seq<char> {
    (if i > 0 {
        ",\n"@
    } else {
        Seq::empty()
    }) + "    \""@ + k + (if i == 0 {
        "\": $0"@
    } else {
        "\": "@
    })
}

/// The key member stubs of a list entry.
pub open spec fn key_members(keys: Seq<Seq<char>>) -> Seq<char>
    decreases keys.len(),
{
    if keys.len() == 0 {
        Seq::empty()
    } else {
        key_members(keys.drop_last()) + key_member(keys.last(), keys.len() - 1)
    }
}

/// The value a `leaf` member starts with: its encoded default, a quoted
/// placeholder, or nothing.
pub open spec fn json_body(d: Option<DefaultView>, quoted: bool) -> Seq<char> {
    match d {
        Some(DefaultView::Empty) => "[null]"@,
        Some(DefaultView::Bare(b)) => b,
        Some(DefaultView::Quoted(q)) => "\""@ + q + "\""@,
        None => if quoted {
            "\"$0\""@
        } else {
            Seq::empty()
        },
    }
}

/// The member snippet of a candidate (`"qname": ...`).
pub open spec fn json_snippet(c: CandView) -> Seq<char> {
    let head = "\""@ + c.0;
    if c.1 == NodeKind::Container {
        head + "\": {\n  $0\n}"@
    } else if c.1 == NodeKind::List {
        if c.2.len() == 0 {
            head + "\": [\n  {\n    $0\n  }\n]"@
        } else {
            head + "\": [\n  {\n"@ + key_members(c.2) + "\n  }\n]"@
        }
    } else if c.1 == NodeKind::LeafList {
        head + "\": [\n  $0\n]"@
    } else if c.1 == NodeKind::Leaf {
        let body = json_body(c.4, c.5);
        if body.len() == 0 {
            head + "\": "@
        } else {
            head + "\": "@ + body
        }
    } else {
        head + "\": "@
    }
}

/// The completion entry offered for a candidate.
pub open spec fn json_item(c: CandView) -> (Seq<char>, bool, Seq<char>, Seq<char>) {
    (c.0, leafy(c.1), detail_text(c.1, c.3), json_snippet(c))
}

/// Append the key member stubs of a list entry ([`key_members`]).
fn push_key_members(out: &mut Vec<char>, keys: &Vec<String>)
    ensures
        final(out)@ == old(out)@ + key_members(views(keys@)),
{
    let ghost kv = views(keys@);
    let mut k: usize = 0;
    proof {
        assert(kv.take(0) =~= Seq::<Seq<char>>::empty());
        assert(out@ =~= old(out)@ + key_members(kv.take(0)));
    }
    while k < keys.len()
        invariant
            k <= keys@.len(),
            kv == views(keys@),
            out@ == old(out)@ + key_members(kv.take(k as int)),
        decreases keys@.len() - k,
    {
        let ghost pre = out@;
        if k > 0 {
            push_str(out, ",\n");
        }
        push_str(out, "    \"");
        push_str(out, keys[k].as_str());
        if k == 0 {
            push_str(out, "\": $0");
        } else {
            push_str(out, "\": ");
        }
        proof {
            assert(kv.take(k + 1).drop_last() =~= kv.take(k as int));
            assert(kv.take(k + 1).last() == keys@[k as int]@);
            assert(kv.take(k + 1).len() == k + 1);
            let st = key_member(keys@[k as int]@, k as int);
            assert(out@ =~= pre + st);
            assert(key_members(kv.take(k + 1)) == key_members(kv.take(k as int)) + st);
            assert(out@ =~= old(out)@ + key_members(kv.take(k + 1)));
        }
        k = k + 1;
    }
    proof {
        assert(kv.take(keys@.len() as int) =~= kv);
    }
}

/// The member snippet of a candidate ([`json_snippet`]).
pub fn insert_for(c: &Candidate) -> (r: String)
    ensures
        r@ == json_snippet(cand_view(*c)),
{
    let ghost cv = cand_view(*c);
    let mut out: Vec<char> = Vec::new();
    push_str(&mut out, "\"");
    push_str(&mut out, c.qname.as_str());
    let ghost head = out@;
    proof {
        assert(head =~= "\""@ + cv.0);
    }
    match c.kind {
        NodeKind::Container => {
            push_str(&mut out, "\": {\n  $0\n}");
        },
        NodeKind::List => {
            if c.keys.len() == 0 {
                push_str(&mut out, "\": [\n  {\n    $0\n  }\n]");
                proof {
                    assert(views(c.keys@).len() == 0);
                }
            } else {
                push_str(&mut out, "\": [\n  {\n");
                push_key_members(&mut out, &c.keys);
                push_str(&mut out, "\n  }\n]");
                proof {
                    assert(out@ =~= head + "\": [\n  {\n"@ + key_members(cv.2) + "\n  }\n]"@);
                }
            }
        },
        NodeKind::LeafList => {
            push_str(&mut out, "\": [\n  $0\n]");
        },
        NodeKind::Leaf => {
            push_str(&mut out, "\": ");
            match &c.default {
                Some(DefaultValue::Empty) => push_str(&mut out, "[null]"),
                Some(DefaultValue::Bare(b)) => push_str(&mut out, b),
                Some(DefaultValue::Quoted(q)) => {
                    push_str(&mut out, "\"");
                    push_str(&mut out, q.as_str());
                    push_str(&mut out, "\"");
                },
                None => if c.quoted_placeholder {
                    push_str(&mut out, "\"$0\"");
                },
            }
            proof {
                let body = json_body(cv.4, cv.5);
                if body.len() == 0 {
                    assert(out@ =~= head + "\": "@);
                } else {
                    assert(out@ =~= head + "\": "@ + body);
                }
            }
        },
        _ => {
            push_str(&mut out, "\": ");
        },
    }
    string_of(out.as_slice())
}

/// The completion entry for a candidate ([`json_item`]).
pub fn item(c: &Candidate) -> (r: CompletionEntry)
    ensures
        entry_view(r) == json_item(cand_view(*c)),
{
    CompletionEntry {
        label: c.qname.clone(),
        field: match c.kind {
            NodeKind::Leaf | NodeKind::LeafList => true,
            _ => false,
        },
        detail: detail_for(c.kind, c.mandatory),
        insert_text: insert_for(c),
    }
}

/// The caret at `p` moved back over ASCII whitespace.
pub open spec fn ws_back(b: Seq<u8>, p: int) -> int
    decreases p,
{
    if p > 0 && p - 1 < b.len() && is_ascii_ws_byte(b[p - 1]) {
        ws_back(b, p - 1)
    } else {
        p
    }
}

/// The caret at `byte` is at a fresh member slot: past whitespace, a `{`
/// or a `,` precedes it.
pub open spec fn fresh_slot(b: Seq<u8>, byte: int) -> bool {
    let p = ws_back(b, byte);
    p > 0 && (b[p - 1] == 123u8 || b[p - 1] == 44u8)
}

/// Object `o`'s braces enclose byte `b` (both ends included).
pub open spec fn obj_holds(o: JsonObject, b: int) -> bool {
    o.range.start <= b <= o.range.end
}

/// Object `i` is the deepest enclosing byte `b`: of those that enclose it,
/// the one that starts last, the last in the arena on a tie.
pub open spec fn deepest_obj(objs: Seq<JsonObject>, b: int, i: int) -> bool {
    &&& 0 <= i < objs.len()
    &&& obj_holds(objs[i], b)
    &&& forall|j: int| 0 <= j < objs.len() && obj_holds(#[trigger] objs[j], b) ==> objs[j].range.start <= objs[i].range.start
    &&& forall|j: int| i < j < objs.len() && obj_holds(#[trigger] objs[j], b) ==> objs[j].range.start < objs[i].range.start
}

/// At most one object is the deepest at a byte.
pub proof fn lemma_deepest_obj_unique(objs: Seq<JsonObject>, b: int, i: int, k: int)
    requires
        deepest_obj(objs, b, i),
        deepest_obj(objs, b, k),
    ensures
        i == k,
{
    assert(obj_holds(objs[k], b));
    assert(obj_holds(objs[i], b));
}

/// Member `m`'s value is object `obj`, or an array holding it.
pub open spec fn owns(m: JsonMember, obj: int) -> bool {
    match m.val {
        JsonVal::Object(c) => c == obj,
        JsonVal::Array(list) => exists|q: int| 0 <= q < list@.len() && #[trigger] list@[q] == obj,
        JsonVal::Leaf => false,
    }
}

/// The first member from `k` on whose value holds object `obj`.
pub open spec fn first_owner(mems: Seq<JsonMember>, obj: int, k: int) -> Option<int>
    decreases mems.len() - k,
{
    if k < 0 || k >= mems.len() {
        None
    } else if owns(mems[k], obj) {
        Some(k)
    } else {
        first_owner(mems, obj, k + 1)
    }
}

/// An owner found is a member of the arena.
proof fn lemma_first_owner_range(mems: Seq<JsonMember>, obj: int, k: int)
    ensures
        first_owner(mems, obj, k) matches Some(m) ==> 0 <= m < mems.len(),
    decreases mems.len() - k,
{
    if 0 <= k < mems.len() && !owns(mems[k], obj) {
        lemma_first_owner_range(mems, obj, k + 1);
    }
}

/// The object whose braces enclose `byte`, deepest first ([`deepest_obj`]).
pub fn enclosing_object(doc: &JsonDoc, byte: usize) -> (r: Option<usize>)
    ensures
        match r {
            Some(i) => deepest_obj(doc.objects@, byte as int, i as int),
            None => forall|j: int| 0 <= j < doc.objects@.len() ==> !obj_holds(#[trigger] doc.objects@[j], byte as int),
        },
{
    let objs = &doc.objects;
    let mut best: Option<usize> = None;
    let mut i: usize = 0;
    while i < objs.len()
        invariant
            i <= objs@.len(),
            match best {
                Some(b) => {
                    &&& b < i
                    &&& obj_holds(objs@[b as int], byte as int)
                    &&& forall|j: int| 0 <= j < i && obj_holds(#[trigger] objs@[j], byte as int) ==> objs@[j].range.start <= objs@[b as int].range.start
                    &&& forall|j: int| b < j < i && obj_holds(#[trigger] objs@[j], byte as int) ==> objs@[j].range.start < objs@[b as int].range.start
                },
                None => forall|j: int| 0 <= j < i ==> !obj_holds(#[trigger] objs@[j], byte as int),
            },
        decreases objs@.len() - i,
    {
        let o = &objs[i];
        if o.range.start <= byte && byte <= o.range.end {
            best = match best {
                None => Some(i),
                Some(b) => if o.range.start >= objs[b].range.start {
                    Some(i)
                } else {
                    Some(b)
                },
            };
        }
        i = i + 1;
    }
    best
}

/// Whether member `m`'s value holds object `obj` ([`owns`]).
#[verifier::loop_isolation(false)]
fn member_owns(m: &JsonMember, obj: usize) -> (r: bool)
    ensures
        r == owns(*m, obj as int),
{
    match &m.val {
        JsonVal::Object(c) => *c == obj,
        JsonVal::Array(list) => {
            let mut q: usize = 0;
            while q < list.len()
                invariant
                    q <= list@.len(),
                    forall|j: int| 0 <= j < q ==> list@[j] != obj,
                decreases list@.len() - q,
            {
                if list[q] == obj {
                    proof {
                        assert(list@[q as int] == obj);
                    }
                    return true;
                }
                q = q + 1;
            }
            false
        },
        JsonVal::Leaf => false,
    }
}

/// The member whose value holds object `obj` ([`first_owner`]); the root
/// object has none.
pub fn containing_member(doc: &JsonDoc, obj: usize) -> (r: Option<usize>)
    ensures
        match r {
            Some(m) => first_owner(doc.members@, obj as int, 0) == Some(m as int),
            None => first_owner(doc.members@, obj as int, 0) is None,
        },
{
    let mems = &doc.members;
    let mut k: usize = mems.len();
    let mut found: Option<usize> = None;
    while k > 0
        invariant
            k <= mems@.len(),
            match found {
                Some(m) => first_owner(mems@, obj as int, k as int) == Some(m as int),
                None => first_owner(mems@, obj as int, k as int) is None,
            },
        decreases k,
    {
        k = k - 1;
        if member_owns(&mems[k], obj) {
            found = Some(k);
        }
    }
    found
}

/// The completion entries at `byte` of a document `doc` with bytes `b`.
pub open spec fn json_items(ms: Seq<SchemaModule>, doc: JsonDoc, b: Seq<u8>, byte: int) -> Seq<(Seq<char>, bool, Seq<char>, Seq<char>)> {
    if !fresh_slot(b, byte) || !(exists|i: int| deepest_obj(doc.objects@, byte, i)) || !doc_wf(doc) {
        Seq::empty()
    } else {
        let obj = choose|i: int| deepest_obj(doc.objects@, byte, i);
        let res = jmap_result(ms, doc).0;
        if obj == doc.root {
            let rm = doc.objects@[obj].members@;
            if rm.len() == 0 || exists|k: int| 0 <= k < rm.len() && (#[trigger] res[rm[k] as int]) is Some {
                top_cands(ms).map_values(|c: CandView| json_item(c))
            } else {
                Seq::empty()
            }
        } else {
            match first_owner(doc.members@, obj, 0) {
                Some(m) => match res[m] {
                    Some((module, id)) => match module_idx(ms, module) {
                        Some(k) => match node_of(ms[k], id) {
                            Some(node) => child_cands(ms, module, id, node.instance_module@).map_values(
                                |c: CandView| json_item(c),
                            ),
                            None => Seq::empty(),
                        },
                        None => Seq::empty(),
                    },
                    None => Seq::empty(),
                },
                None => Seq::empty(),
            }
        }
    }
}

/// The entries for candidates `cs` ([`json_item`]).
#[verifier::loop_isolation(false)]
fn items_of(cs: &Vec<Candidate>) -> (r: Vec<CompletionEntry>)
    ensures
        entry_views(r@) == cand_views(cs@).map_values(|c: CandView| json_item(c)),
{
    let ghost f = |c: CandView| json_item(c);
    let mut out: Vec<CompletionEntry> = Vec::new();
    let mut k: usize = 0;
    proof {
        assert(entry_views(out@) =~= cand_views(cs@).map_values(f).take(0));
    }
    while k < cs.len()
        invariant
            k <= cs@.len(),
            entry_views(out@) == cand_views(cs@).map_values(f).take(k as int),
        decreases cs@.len() - k,
    {
        let it = item(&cs[k]);
        proof {
            assert(cand_views(cs@)[k as int] == cand_view(cs@[k as int]));
            assert(cand_views(cs@).map_values(f)[k as int] == json_item(cand_view(cs@[k as int])));
            assert(cand_views(cs@).map_values(f).take(k + 1) =~= cand_views(cs@).map_values(f).take(k as int).push(entry_view(it)));
            assert(entry_views(out@.push(it)) =~= entry_views(out@).push(entry_view(it)));
        }
        out.push(it);
        k = k + 1;
    }
    proof {
        assert(cand_views(cs@).map_values(f).take(k as int) =~= cand_views(cs@).map_values(f));
    }
    out
}

/// The completion entries at byte offset `byte` of `text` ([`json_items`]);
/// none where the text is no JSON document with a root object.
#[verifier::loop_isolation(false)]
pub fn handle(text: &str, byte: usize, schema: &Schema) -> (r: Vec<CompletionEntry>)
    requires
        byte <= text.spec_bytes().len(),
    ensures
        !json_parses(text) ==> r@.len() == 0,
        json_parses(text) ==> exists|doc: JsonDoc|
            #[trigger] json_tree_of(
                json_syntax(text@).unwrap(),
                text.spec_bytes(),
                json_root_obj(json_syntax(text@).unwrap()).unwrap(),
                doc,
            ) && entry_views(r@) == json_items(schema.modules@, doc, text.spec_bytes(), byte as int),
{
    let empty: Vec<CompletionEntry> = Vec::new();
    proof {
        assert(entry_views(empty@) =~= Seq::<(Seq<char>, bool, Seq<char>, Seq<char>)>::empty());
    }
    let doc = match parse(text) {
        Some(d) => d,
        None => {
            return empty;
        },
    };
    let bytes = text.as_bytes();
    let ghost b = text.spec_bytes();
    let mut p = byte;
    while p > 0 && (bytes[p - 1] == 32u8 || bytes[p - 1] == 9u8 || bytes[p - 1] == 10u8 || bytes[p - 1] == 12u8
        || bytes[p - 1] == 13u8)
        invariant
            p <= byte,
            ws_back(b, p as int) == ws_back(b, byte as int),
        decreases p,
    {
        p = p - 1;
    }
    if p == 0 || (bytes[p - 1] != 123u8 && bytes[p - 1] != 44u8) {
        return empty;
    }
    assert(fresh_slot(b, byte as int));
    let obj = match enclosing_object(&doc, byte) {
        Some(o) => o,
        None => {
            return empty;
        },
    };
    proof {
        let q = choose|i: int| deepest_obj(doc.objects@, byte as int, i);
        lemma_deepest_obj_unique(doc.objects@, byte as int, obj as int, q);
    }
    if !doc_wf_check(&doc) {
        return empty;
    }
    let ghost ms = schema.modules@;
    let ghost res = jmap_result(ms, doc).0;
    if obj == doc.root {
        let m = crate::jmap::map(&doc, schema);
        let root_members = &doc.objects[doc.root].members;
        let mut recognized = root_members.len() == 0;
        let mut k: usize = 0;
        while k < root_members.len() && !recognized
            invariant
                k <= root_members@.len(),
                recognized == (root_members@.len() == 0 || exists|j: int| 0 <= j < k && (#[trigger] res[root_members@[j] as int]) is Some),
            decreases root_members@.len() - k,
        {
            let found = m.resolved(root_members[k]).is_some();
            proof {
                let x = root_members@[k as int] as int;
                assert(doc.objects@[doc.root as int].members@[k as int] < doc.members@.len());
                assert(res_views(m.res@)[x] == res_view(m.res@[x]));
            }
            if found {
                recognized = true;
            }
            k = k + 1;
        }
        if !recognized {
            return empty;
        }
        let cs = top_candidates(schema);
        return items_of(&cs);
    }
    let owner = match containing_member(&doc, obj) {
        Some(o) => o,
        None => {
            return empty;
        },
    };
    let m = crate::jmap::map(&doc, schema);
    proof {
        lemma_first_owner_range(doc.members@, obj as int, 0);
        if owner < doc.members@.len() {
            assert(res_views(m.res@)[owner as int] == res_view(m.res@[owner as int]));
        }
    }
    let r = match m.resolved(owner) {
        Some(r) => r,
        None => {
            return empty;
        },
    };
    let k = match schema.module(r.module.as_str()) {
        Some(k) => k,
        None => {
            return empty;
        },
    };
    let node = match schema.modules[k].node(r.id) {
        Some(n) => n,
        None => {
            return empty;
        },
    };
    let cs = child_candidates(schema, r.module.as_str(), r.id, node.instance_module.as_str());
    items_of(&cs)
}


proof fn lemma_tops_cands_qualified(m: SchemaModule, tops: Seq<usize>)
    ensures
        forall|i: int| 0 <= i < tops_cands(m, tops).len() ==> (#[trigger] tops_cands(m, tops)[i]).0.contains(':'),
    decreases tops.len(),
{
    if tops.len() > 0 {
        lemma_tops_cands_qualified(m, tops.drop_last());
        match node_of(m, tops.last() as int) {
            Some(n) => {
                let q = m.name@ + ":"@ + n.name@;
                reveal_strlit(":");
                assert(q[m.name@.len() as int] == ':');
                assert(q.contains(':'));
                let rest = tops_cands(m, tops.drop_last());
                if is_data_kind(n.kind) {
                    let r = rest.push(node_cand(n, q));
                    assert(tops_cands(m, tops) == r);
                    assert forall|i: int| 0 <= i < r.len() implies (#[trigger] r[i]).0.contains(':') by {
                        if i < rest.len() {
                            assert(r[i] == rest[i]);
                        }
                    }
                }
            },
            None => {},
        }
    }
}

proof fn lemma_all_tops_qualified(ms: Seq<SchemaModule>, k: nat)
    ensures
        forall|i: int| 0 <= i < all_tops_cands(ms, k).len() ==> (#[trigger] all_tops_cands(ms, k)[i]).0.contains(':'),
    decreases k,
{
    if k > 0 && k <= ms.len() {
        lemma_all_tops_qualified(ms, (k - 1) as nat);
        lemma_tops_cands_qualified(ms[k - 1], ms[k - 1].top_nodes@);
        let a = all_tops_cands(ms, (k - 1) as nat);
        let b = tops_cands(ms[k - 1], ms[k - 1].top_nodes@);
        assert forall|i: int| 0 <= i < (a + b).len() implies (#[trigger] (a + b)[i]).0.contains(':') by {
            if i < a.len() {
                assert((a + b)[i] == a[i]);
            } else {
                assert((a + b)[i] == b[i - a.len()]);
            }
        }
    }
}

/// Members offered at the root object are always module-qualified
/// (`module:name`).
pub proof fn law_root_members_are_qualified(ms: Seq<SchemaModule>)
    ensures
        forall|i: int| 0 <= i < top_cands(ms).len() ==> (#[trigger] top_cands(ms)[i]).0.contains(':'),
{
    let all = all_tops_cands(ms, ms.len());
    lemma_all_tops_qualified(ms, ms.len());
    assert forall|i: int| 0 <= i < top_cands(ms).len() implies (#[trigger] top_cands(ms)[i]).0.contains(':') by {
        let c = top_cands(ms)[i];
        assert(top_cands(ms).contains(c));
        crate::completion::lemma_sorted_contains(all, |c: CandView| cand_name(c), c);
        let j = choose|j: int| 0 <= j < all.len() && all[j] == c;
        assert(all[j].0.contains(':'));
    }
}

/// The members offered at the root object, and those offered inside a
/// mapped object, come sorted by name.
pub proof fn law_member_offers_are_sorted(ms: Seq<SchemaModule>, module: Seq<char>, id: int, def: Seq<char>)
    ensures
        crate::completion::in_order(top_cands(ms), |c: CandView| cand_name(c)),
        crate::completion::in_order(child_cands(ms, module, id, def), |c: CandView| cand_name(c)),
{
    crate::completion::law_sorted_by_orders_and_keeps(all_tops_cands(ms, ms.len()), |c: CandView| cand_name(c));
    match module_idx(ms, module) {
        Some(k) => match node_of(ms[k], id) {
            Some(node) => {
                crate::completion::law_sorted_by_orders_and_keeps(
                    kid_cands(ms[k], node.data_children@, def),
                    |c: CandView| cand_name(c),
                );
            },
            None => {},
        },
        None => {},
    }
}


/// A member snippet opens with the member's name and `": `, and its value
/// has the shape RFC 7951 gives the node: a container an object `{ .. }`, a
/// list an array `[ .. ]` of entry objects, a leaf-list an array `[ .. ]`.
pub proof fn law_json_snippet_has_the_node_shape(c: CandView)
    ensures
        ({
            let h = "\""@ + c.0 + "\": "@;
            let snip = json_snippet(c);
            &&& snip.len() > h.len()
                || (c.1 != NodeKind::Container && c.1 != NodeKind::List && c.1 != NodeKind::LeafList)
            &&& snip.take(h.len() as int) == h
            &&& c.1 == NodeKind::Container ==> snip[h.len() as int] == '{' && snip.last() == '}'
            &&& c.1 == NodeKind::List ==> snip[h.len() as int] == '[' && snip.last() == ']'
                && snip.skip(h.len() as int).take(5) == "[\n  {"@
            &&& c.1 == NodeKind::LeafList ==> snip[h.len() as int] == '[' && snip.last() == ']'
        }),
{
    let h = "\""@ + c.0 + "\": "@;
    let q = "\""@ + c.0;
    reveal_strlit("\"");
    reveal_strlit("\": ");
    reveal_strlit("\": {\n  $0\n}");
    reveal_strlit("\": [\n  {\n    $0\n  }\n]");
    reveal_strlit("\": [\n  {\n");
    reveal_strlit("\n  }\n]");
    reveal_strlit("\": [\n  $0\n]");
    reveal_strlit("[\n  {");
    reveal_strlit("{\n  $0\n}");
    reveal_strlit("[\n  {\n    $0\n  }\n]");
    reveal_strlit("[\n  {\n");
    reveal_strlit("[\n  $0\n]");
    let snip = json_snippet(c);
    if c.1 == NodeKind::Container {
        assert(snip =~= h + "{\n  $0\n}"@);
    } else if c.1 == NodeKind::List {
        if c.2.len() == 0 {
            assert(snip =~= h + "[\n  {\n    $0\n  }\n]"@);
        } else {
            assert(snip =~= h + "[\n  {\n"@ + key_members(c.2) + "\n  }\n]"@);
        }
    } else if c.1 == NodeKind::LeafList {
        assert(snip =~= h + "[\n  $0\n]"@);
    } else if c.1 == NodeKind::Leaf {
        let body = json_body(c.4, c.5);
        assert(snip.take(h.len() as int) =~= h);
    } else {
        assert(snip =~= h);
    }
}
} // verus!
