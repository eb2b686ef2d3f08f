//! XML writing: completion.
//!
//! Offers the data nodes that may validly appear at the caret as snippets,
//! resolved through the instance-to-schema mapping:
//!
//! - inside the content of a mapped container or list (or a `<config>`
//!   payload wrapper): its child data nodes (through `choice`/`case`);
//! - after typing `<` inside a parent: the same children, as start tags;
//! - under `<rpc>`: the modules' RPCs and notifications and the built-in
//!   NETCONF operations;
//! - a list entry brings its `key` leaves as placeholders;
//! - a child in another namespace than the parent's brings an `xmlns`
//!   declaration, so the fragment is self-contained.

use vstd::prelude::*;
use vstd::string::StringSliceAdditionalSpecFns;
use crate::completion::{
    detail_for, detail_text, entry_view, entry_views, kind_name, leafy, lemma_sorted_map, pair_name, sort_named,
    sorted_by, CompletionEntry,
};
use crate::inst::NETCONF_BASE_NS;
use crate::inst_map::{
    cand_ids, first_pass, map_doc, payload_wrapper, Resolved, SlotView,
};
use crate::schema::{instance_ns, is_data_kind, module_idx, node_of, NodeKind, Schema, SchemaModule, SchemaNode};
use crate::text::{chars_eq, chars_of, opt_view, push_all, push_str, string_of, sub_string, views};
use crate::valcheck::{default_of, default_value, default_view, DefaultValue, DefaultView};
use crate::xml::{elem_contains, lemma_tree_parents, parse, xml_parses, xml_root_elem, xml_tree_of, XmlDoc, XmlNode};
use crate::syntax::xml_syntax;

verus! {

broadcast use vstd::slice::group_slice_axioms;

/// One completable child data node.
pub struct Child {
    pub name: String,
    pub kind: NodeKind,
    /// The namespace the child lives in (its instance module's).
    pub ns: Option<String>,
    pub keys: Vec<String>,
    pub mandatory: bool,
    /// A value default for a `leaf` child.
    pub default: Option<DefaultValue>,
}

/// The mathematical form of a [`Child`].
pub type ChildView = (Seq<char>, NodeKind, Option<Seq<char>>, Seq<Seq<char>>, bool, Option<DefaultView>);

/// The view of a child.
pub open spec fn child_view(c: Child) -> ChildView {
    (c.name@, c.kind, opt_view(c.ns), views(c.keys@), c.mandatory, default_view(c.default))
}

/// The views of a sequence of children.
pub open spec fn child_views(cs: Seq<Child>) -> Seq<ChildView> {
    cs.map_values(|c: Child| child_view(c))
}

/// The value default a `leaf` node offers.
pub open spec fn leaf_default(n: SchemaNode) -> Option<DefaultView> {
    if n.kind == NodeKind::Leaf {
        match n.value_type {
            Some(vt) => default_of(vt),
            None => None,
        }
    } else {
        None
    }
}

/// The view of the child for node `n` in namespace `ns`.
pub open spec fn node_child(n: SchemaNode, ns: Option<Seq<char>>) -> ChildView {
    (n.name@, n.kind, ns, views(n.keys@), n.mandatory, leaf_default(n))
}

/// The children for the ids `ids` of module `k` that exist, each in its
/// instance namespace.
pub open spec fn children_list(ms: Seq<SchemaModule>, k: int, ids: Seq<usize>) -> Seq<ChildView>
    decreases ids.len(),
{
    if ids.len() == 0 {
        Seq::empty()
    } else {
        let rest = children_list(ms, k, ids.drop_last());
        match node_of(ms[k], ids.last() as int) {
            Some(n) => rest.push(node_child(n, instance_ns(ms, n))),
            None => rest,
        }
    }
}

/// The children of a mapped node: its data children, for an `rpc` or
/// `action` those of its `input`.
pub open spec fn mapped_children(ms: Seq<SchemaModule>, module: Seq<char>, id: int) -> Seq<ChildView> {
    match module_idx(ms, module) {
        Some(k) => children_list(ms, k, cand_ids(ms, module, id)),
        None => Seq::empty(),
    }
}

/// The top-level nodes among `tops` of module `m` that pass `want`, as
/// children in the module's namespace.
pub open spec fn tops_of(m: SchemaModule, tops: Seq<usize>, op: bool) -> Seq<ChildView>
    decreases tops.len(),
{
    if tops.len() == 0 {
        Seq::empty()
    } else {
        let rest = tops_of(m, tops.drop_last(), op);
        match node_of(m, tops.last() as int) {
            Some(n) => if (op && (n.kind == NodeKind::Rpc || n.kind == NodeKind::Notification)) || (!op && is_data_kind(
                n.kind,
            )) {
                rest.push(
                    if op {
                        (n.name@, n.kind, opt_view(m.namespace), Seq::empty(), false, None)
                    } else {
                        node_child(n, opt_view(m.namespace))
                    },
                )
            } else {
                rest
            },
            None => rest,
        }
    }
}

/// The top-level nodes of modules `0..k`.
pub open spec fn all_tops(ms: Seq<SchemaModule>, k: nat, op: bool) -> Seq<ChildView>
    decreases k,
{
    if k == 0 || k > ms.len() {
        Seq::empty()
    } else {
        all_tops(ms, (k - 1) as nat, op) + tops_of(ms[k - 1], ms[k - 1].top_nodes@, op)
    }
}

/// The built-in NETCONF operations offered under `<rpc>`.
pub open spec fn netconf_ops() -> Seq<Seq<char>> {
    seq![
        "get"@,
        "get-config"@,
        "edit-config"@,
        "copy-config"@,
        "delete-config"@,
        "lock"@,
        "unlock"@,
        "close-session"@,
        "kill-session"@
    ]
}

/// The name of a child view.
pub open spec fn view_name(c: ChildView) -> Seq<char> {
    c.0
}

/// The operations offered under `<rpc>`: the built-in ones and the modules'
/// RPCs and notifications, sorted by name.
pub open spec fn ops_children(ms: Seq<SchemaModule>) -> Seq<ChildView> {
    let base = netconf_ops().map_values(
        |o: Seq<char>| (o, NodeKind::Rpc, Some(NETCONF_BASE_NS@), Seq::<Seq<char>>::empty(), false, None::<DefaultView>),
    );
    sorted_by(base + all_tops(ms, ms.len(), true), |c: ChildView| view_name(c))
}

/// The child for node `n` ([`node_child`]).
fn make_child(n: &SchemaNode, ns: Option<String>) -> (r: Child)
    ensures
        child_view(r) == node_child(*n, opt_view(ns)),
{
    let default = match n.kind {
        NodeKind::Leaf => match &n.value_type {
            Some(vt) => default_value(vt),
            None => None,
        },
        _ => None,
    };
    let mut keys: Vec<String> = Vec::new();
    let mut k: usize = 0;
    while k < n.keys.len()
        invariant
            k <= n.keys@.len(),
            views(keys@) == views(n.keys@).take(k as int),
        decreases n.keys@.len() - k,
    {
        let key = n.keys[k].clone();
        proof {
            assert(views(n.keys@).take(k + 1) =~= views(n.keys@).take(k as int).push(key@));
            assert(views(keys@.push(key)) =~= views(keys@).push(key@));
        }
        keys.push(key);
        k = k + 1;
    }
    proof {
        assert(views(n.keys@).take(n.keys@.len() as int) =~= views(n.keys@));
    }
    Child { name: n.name.clone(), kind: n.kind, ns, keys, mandatory: n.mandatory, default }
}

/// The children of a mapped node ([`mapped_children`]).
#[verifier::loop_isolation(false)]
pub fn children_of_mapped(schema: &Schema, res: &Resolved) -> (r: Vec<Child>)
    ensures
        child_views(r@) == mapped_children(schema.modules@, res.module@, res.id as int),
{
    let mut out: Vec<Child> = Vec::new();
    proof {
        assert(child_views(out@) =~= Seq::<ChildView>::empty());
    }
    let k = match schema.module(res.module.as_str()) {
        Some(k) => k,
        None => {
            return out;
        },
    };
    let rec = &schema.modules[k];
    let empty: Vec<usize> = Vec::new();
    let ids: &Vec<usize> = match rec.node(res.id) {
        Some(node) => match node.kind {
            NodeKind::Rpc | NodeKind::Action => match node.rpc_input {
                Some(i) => match rec.node(i) {
                    Some(inp) => &inp.data_children,
                    None => &empty,
                },
                None => &empty,
            },
            _ => &node.data_children,
        },
        None => &empty,
    };
    proof {
        assert(empty@ =~= Seq::<usize>::empty());
        assert(ids@ == cand_ids(schema.modules@, res.module@, res.id as int));
        assert(ids@.take(0) =~= Seq::<usize>::empty());
    }
    let mut j: usize = 0;
    while j < ids.len()
        invariant
            j <= ids@.len(),
            child_views(out@) == children_list(schema.modules@, k as int, ids@.take(j as int)),
        decreases ids@.len() - j,
    {
        proof {
            assert(ids@.take(j + 1).drop_last() =~= ids@.take(j as int));
            assert(ids@.take(j + 1).last() == ids@[j as int]);
        }
        match rec.node(ids[j]) {
            Some(n) => {
                let c = make_child(n, schema.instance_ns(n));
                proof {
                    assert(child_views(out@.push(c)) =~= child_views(out@).push(child_view(c)));
                }
                out.push(c);
            },
            None => {},
        }
        j = j + 1;
    }
    proof {
        assert(ids@.take(ids@.len() as int) =~= ids@);
    }
    out
}

/// The top-level nodes of every module, data nodes (or, when `op`, RPCs
/// and notifications) ([`all_tops`]).
#[verifier::loop_isolation(false)]
fn tops_children(schema: &Schema, op: bool) -> (r: Vec<Child>)
    ensures
        child_views(r@) == all_tops(schema.modules@, schema.modules@.len(), op),
{
    let ghost ms = schema.modules@;
    let mut out: Vec<Child> = Vec::new();
    proof {
        assert(child_views(out@) =~= Seq::<ChildView>::empty());
    }
    let mut k: usize = 0;
    while k < schema.modules.len()
        invariant
            k <= ms.len(),
            child_views(out@) == all_tops(ms, k as nat, op),
        decreases ms.len() - k,
    {
        let m = &schema.modules[k];
        let tops = &m.top_nodes;
        let ghost base = child_views(out@);
        let mut t: usize = 0;
        proof {
            assert(tops@.take(0) =~= Seq::<usize>::empty());
            assert(base + tops_of(*m, tops@.take(0), op) =~= base);
        }
        while t < tops.len()
            invariant
                t <= tops@.len(),
                child_views(out@) == base + tops_of(*m, tops@.take(t as int), op),
            decreases tops@.len() - t,
        {
            proof {
                assert(tops@.take(t + 1).drop_last() =~= tops@.take(t as int));
                assert(tops@.take(t + 1).last() == tops@[t as int]);
            }
            match m.node(tops[t]) {
                Some(n) => {
                    let wanted = if op {
                        match n.kind {
                            NodeKind::Rpc | NodeKind::Notification => true,
                            _ => false,
                        }
                    } else {
                        n.kind.is_data()
                    };
                    if wanted {
                        let ns = match &m.namespace {
                            Some(s) => Some(s.clone()),
                            None => None,
                        };
                        let c = if op {
                            Child { name: n.name.clone(), kind: n.kind, ns, keys: Vec::new(), mandatory: false, default: None }
                        } else {
                            make_child(n, ns)
                        };
                        proof {
                            assert(views(Seq::<String>::empty()) =~= Seq::<Seq<char>>::empty());
                            assert(child_views(out@.push(c)) =~= child_views(out@).push(child_view(c)));
                        }
                        out.push(c);
                    }
                },
                None => {},
            }
            t = t + 1;
        }
        proof {
            assert(tops@.take(tops@.len() as int) =~= tops@);
        }
        k = k + 1;
    }
    out
}

/// Top-level data nodes of every module (a payload wrapper's content).
pub fn children_all_modules(schema: &Schema) -> (r: Vec<Child>)
    ensures
        child_views(r@) == all_tops(schema.modules@, schema.modules@.len(), false),
{
    tops_children(schema, false)
}

/// The operations offered under `<rpc>` ([`ops_children`]).
#[verifier::loop_isolation(false)]
pub fn children_ops(schema: &Schema) -> (r: Vec<Child>)
    ensures
        child_views(r@) == ops_children(schema.modules@),
{
    let names: Vec<&'static str> = vec![
        "get",
        "get-config",
        "edit-config",
        "copy-config",
        "delete-config",
        "lock",
        "unlock",
        "close-session",
        "kill-session",
    ];
    let ghost base = netconf_ops().map_values(
        |o: Seq<char>| (o, NodeKind::Rpc, Some(NETCONF_BASE_NS@), Seq::<Seq<char>>::empty(), false, None::<DefaultView>),
    );
    let mut pairs: Vec<(String, Child)> = Vec::new();
    let mut k: usize = 0;
    proof {
        let nv = names@.map_values(|s: &'static str| s@);
        assert(nv =~= netconf_ops()) by {
            reveal_strlit("get");
        }
        assert(base.len() == 9);
    }
    while k < names.len()
        invariant
            k <= names@.len(),
            names@.len() == 9,
            base.len() == 9,
            names@.map_values(|s: &'static str| s@) == netconf_ops(),
            pairs@.map_values(|p: (String, Child)| child_view(p.1)) == base.take(k as int),
            forall|i: int| 0 <= i < pairs@.len() ==> #[trigger] pairs@[i].0@ == pairs@[i].1.name@,
        decreases names@.len() - k,
    {
        let nm = string_of(chars_of(names[k]).as_slice());
        let c = Child {
            name: string_of(chars_of(names[k]).as_slice()),
            kind: NodeKind::Rpc,
            ns: Some(string_of(chars_of(NETCONF_BASE_NS).as_slice())),
            keys: Vec::new(),
            mandatory: false,
            default: None,
        };
        proof {
            assert(names@.map_values(|s: &'static str| s@)[k as int] == names@[k as int]@);
            assert(c.name@ == netconf_ops()[k as int]);
            assert(views(c.keys@) =~= Seq::<Seq<char>>::empty());
            assert(opt_view(c.ns) == Some(NETCONF_BASE_NS@));
            assert(base[k as int] == (netconf_ops()[k as int], NodeKind::Rpc, Some(NETCONF_BASE_NS@), Seq::<Seq<char>>::empty(), false, None::<DefaultView>));
            assert(default_view(c.default) == None::<DefaultView>);
            assert(child_view(c) == base[k as int]);
            assert(base.take(k + 1) =~= base.take(k as int).push(child_view(c)));
        }
        pairs.push((nm, c));
        proof {
            assert(pairs@.map_values(|p: (String, Child)| child_view(p.1)) =~= base.take(k + 1));
        }
        k = k + 1;
    }
    let mods = tops_children(schema, true);
    let _mlen = mods.len();
    let mut j: usize = 0;
    let ghost mv = child_views(mods@);
    proof {
        assert(mv.len() == mods@.len());
        assert(base.take(9) =~= base);
        assert(mv.take(0) =~= Seq::<ChildView>::empty());
        assert(pairs@.map_values(|p: (String, Child)| child_view(p.1)) =~= base + mv.take(0));
    }
    let mut mods = mods;
    while mods.len() > 0
        invariant
            j + mods@.len() == mv.len(),
            child_views(mods@) == mv.skip(j as int),
            pairs@.map_values(|p: (String, Child)| child_view(p.1)) == base + mv.take(j as int),
            forall|i: int| 0 <= i < pairs@.len() ==> #[trigger] pairs@[i].0@ == pairs@[i].1.name@,
            mv.len() <= usize::MAX,
        decreases mods@.len(),
    {
        let c = mods.remove(0);
        proof {
            assert(mv.skip(j as int)[0] == child_view(c));
            assert(mv.take(j + 1) =~= mv.take(j as int).push(child_view(c)));
            assert(mv.skip(j as int).drop_first() =~= mv.skip(j + 1));
            assert(child_views(mods@) =~= mv.skip(j as int).drop_first());
        }
        let nm = c.name.clone();
        let ghost pre = pairs@;
        pairs.push((nm, c));
        proof {
            assert(pairs@.map_values(|p: (String, Child)| child_view(p.1)) =~= pre.map_values(|p: (String, Child)| child_view(p.1)).push(child_view(c)));
            assert(base + mv.take(j + 1) =~= (base + mv.take(j as int)).push(child_view(c)));
            assert(pairs@.map_values(|p: (String, Child)| child_view(p.1)) =~= base + mv.take(j + 1));
        }
        j = j + 1;
    }
    proof {
        assert(mv.take(j as int) =~= mv);
    }
    let ghost before = pairs@;
    let sorted = sort_named(pairs);
    proof {
        assert forall|a: (String, Child)| before.contains(a) implies #[trigger] view_name(child_view(a.1)) == pair_name(a) by {
            let j = choose|j: int| 0 <= j < before.len() && before[j] == a;
        }
        lemma_sorted_map(before, |p: (String, Child)| child_view(p.1), |p: (String, Child)| pair_name(p), |c: ChildView| view_name(c));
    }
    let mut out: Vec<Child> = Vec::new();
    let mut s = sorted;
    let _slen = s.len();
    let ghost sv = s@;
    let mut i: usize = 0;
    proof {
        assert(child_views(out@) =~= sv.map_values(|p: (String, Child)| child_view(p.1)).take(0));
    }
    while s.len() > 0
        invariant
            i + s@.len() == sv.len(),
            s@ == sv.skip(i as int),
            child_views(out@) == sv.map_values(|p: (String, Child)| child_view(p.1)).take(i as int),
            sv.len() <= usize::MAX,
        decreases s@.len(),
    {
        let p = s.remove(0);
        proof {
            assert(sv.skip(i as int)[0] == p);
            assert(sv.map_values(|p: (String, Child)| child_view(p.1)).take(i + 1) =~= sv.map_values(
                |p: (String, Child)| child_view(p.1),
            ).take(i as int).push(child_view(p.1)));
            assert(child_views(out@.push(p.1)) =~= child_views(out@).push(child_view(p.1)));
            assert(sv.skip(i as int).drop_first() =~= sv.skip(i + 1));
        }
        out.push(p.1);
        i = i + 1;
    }
    proof {
        assert(sv.map_values(|p: (String, Child)| child_view(p.1)).take(i as int) =~= sv.map_values(|p: (String, Child)| child_view(p.1)));
    }
    out
}

/// The view of an optional string slice.
pub open spec fn opt_str_view(o: Option<&str>) -> Option<Seq<char>> {
    match o {
        Some(s) => Some(s@),
        None => None,
    }
}

/// A child in namespace `ns` under a parent in `parent` needs its own
/// `xmlns` declaration.
pub open spec fn need_xmlns(ns: Option<Seq<char>>, parent: Option<Seq<char>>) -> bool {
    match ns {
        Some(n) => match parent {
            Some(p) => n != p,
            None => true,
        },
        None => false,
    }
}

/// The start of the start tag: `<name`, with `xmlns="ns"` when needed.
pub open spec fn open_text(c: ChildView, parent: Option<Seq<char>>) -> Seq<char> {
    if need_xmlns(c.2, parent) {
        "<"@ + c.0 + " xmlns=\""@ + c.2.unwrap() + "\""@
    } else {
        "<"@ + c.0
    }
}

/// The content a `leaf` child starts with: its value default, else a
/// placeholder.
pub open spec fn leaf_body(d: Option<DefaultView>) -> Seq<char> {
    match d {
        Some(DefaultView::Empty) => Seq::empty(),
        Some(DefaultView::Bare(b)) => b,
        Some(DefaultView::Quoted(q)) => q,
        None => "$0"@,
    }
}

/// The stub of one key leaf of a list entry; the first holds the caret.
pub open spec fn key_stub(k: Seq<char>, first: bool) -> Seq<char> {
    "\n  <"@ + k + ">"@ + (if first {
        "$0"@
    } else {
        Seq::empty()
    }) + "</"@ + k + ">"@
}

/// The stubs of the key leaves `keys` of a list entry.
pub open spec fn key_stubs(keys: Seq<Seq<char>>) -> Seq<char>
    decreases keys.len(),
{
    if keys.len() == 0 {
        Seq::empty()
    } else {
        key_stubs(keys.drop_last()) + key_stub(keys.last(), keys.len() == 1)
    }
}

/// What follows the start of the start tag, up to the end tag.
pub open spec fn middle_text(c: ChildView) -> Seq<char> {
    if c.1 == NodeKind::Leaf {
        let body = leaf_body(c.5);
        if body.len() == 0 {
            ">"@
        } else {
            ">"@ + body
        }
    } else if c.1 == NodeKind::LeafList {
        ">$0"@
    } else if c.1 == NodeKind::List {
        let ks = key_stubs(c.3);
        if ks.len() == 0 {
            ">\n  $0\n"@
        } else {
            ">\n  "@ + ks + "\n"@
        }
    } else {
        ">\n  $0\n"@
    }
}

/// The whole element snippet of a child.
pub open spec fn full_snippet(c: ChildView, parent: Option<Seq<char>>) -> Seq<char> {
    open_text(c, parent) + middle_text(c) + "</"@ + c.0 + ">"@
}

/// `s` without its leading `<` characters.
pub open spec fn strip_lt(s: Seq<char>) -> Seq<char>
    decreases s.len(),
{
    if s.len() > 0 && s[0] == '<' {
        strip_lt(s.drop_first())
    } else {
        s
    }
}

/// The snippet inserted for a child; after a typed `<`, without it.
pub open spec fn snippet(c: ChildView, parent: Option<Seq<char>>, after_open: bool) -> Seq<char> {
    if after_open {
        strip_lt(full_snippet(c, parent))
    } else {
        full_snippet(c, parent)
    }
}

/// The completion entry offered for a child.
pub open spec fn item_view(c: ChildView, parent: Option<Seq<char>>, after_open: bool) -> (Seq<char>, bool, Seq<char>, Seq<char>) {
    (c.0, leafy(c.1), detail_text(c.1, c.4), snippet(c, parent, after_open))
}

/// The number of leading `<` in `cs`.
fn lead_lt(cs: &[char]) -> (r: usize)
    ensures
        r <= cs@.len(),
        strip_lt(cs@) == cs@.skip(r as int),
{
    let mut i: usize = 0;
    proof {
        assert(cs@.skip(0) =~= cs@);
    }
    while i < cs.len() && cs[i] == '<'
        invariant
            i <= cs@.len(),
            strip_lt(cs@) == strip_lt(cs@.skip(i as int)),
        decreases cs@.len() - i,
    {
        proof {
            assert(cs@.skip(i as int).drop_first() =~= cs@.skip(i + 1));
        }
        i = i + 1;
    }
    i
}

/// Append the stubs of the key leaves of a list entry ([`key_stubs`]).
fn push_key_stubs(out: &mut Vec<char>, keys: &Vec<String>)
    ensures
        final(out)@ == old(out)@ + key_stubs(views(keys@)),
{
    let ghost kv = views(keys@);
    let mut k: usize = 0;
    proof {
        assert(kv.take(0) =~= Seq::<Seq<char>>::empty());
        assert(out@ =~= old(out)@ + key_stubs(kv.take(0)));
    }
    while k < keys.len()
        invariant
            k <= keys@.len(),
            kv == views(keys@),
            out@ == old(out)@ + key_stubs(kv.take(k as int)),
        decreases keys@.len() - k,
    {
        let ghost pre = out@;
        push_str(out, "\n  <");
        push_str(out, keys[k].as_str());
        push_str(out, ">");
        if k == 0 {
            push_str(out, "$0");
        }
        push_str(out, "</");
        push_str(out, keys[k].as_str());
        push_str(out, ">");
        proof {
            assert(kv.take(k + 1).drop_last() =~= kv.take(k as int));
            assert(kv.take(k + 1).last() == keys@[k as int]@);
            assert(kv.take(k + 1).len() == k + 1);
            let st = key_stub(keys@[k as int]@, k == 0);
            if k == 0 {
                assert(out@ =~= pre + st);
            } else {
                assert(out@ =~= pre + st);
            }
            assert(key_stubs(kv.take(k + 1)) == key_stubs(kv.take(k as int)) + st);
            assert(out@ =~= old(out)@ + key_stubs(kv.take(k + 1)));
        }
        k = k + 1;
    }
    proof {
        assert(kv.take(keys@.len() as int) =~= kv);
    }
}

/// The completion entry for a child ([`item_view`]).
pub fn item(child: &Child, parent_ns: Option<&str>, after_open: bool) -> (r: CompletionEntry)
    ensures
        entry_view(r) == item_view(child_view(*child), opt_str_view(parent_ns), after_open),
{
    let ghost c = child_view(*child);
    let need = match (&child.ns, parent_ns) {
        (Some(ns), Some(par)) => !crate::text::str_eq(ns.as_str(), par),
        (Some(_), None) => true,
        _ => false,
    };
    assert(need == need_xmlns(c.2, opt_str_view(parent_ns)));
    let mut out: Vec<char> = Vec::new();
    push_str(&mut out, "<");
    push_str(&mut out, child.name.as_str());
    if need {
        push_str(&mut out, " xmlns=\"");
        match &child.ns {
            Some(ns) => push_str(&mut out, ns.as_str()),
            None => {},
        }
        push_str(&mut out, "\"");
    }
    proof {
        assert(out@ =~= open_text(c, opt_str_view(parent_ns)));
    }
    let ghost open = out@;
    match child.kind {
        NodeKind::Leaf => {
            push_str(&mut out, ">");
            match &child.default {
                Some(DefaultValue::Empty) => {},
                Some(DefaultValue::Bare(b)) => push_str(&mut out, b),
                Some(DefaultValue::Quoted(q)) => push_str(&mut out, q.as_str()),
                None => push_str(&mut out, "$0"),
            }
            proof {
                let body = leaf_body(c.5);
                if body.len() == 0 {
                    assert(out@ =~= open + ">"@);
                } else {
                    assert(out@ =~= open + (">"@ + body));
                }
            }
        },
        NodeKind::LeafList => {
            push_str(&mut out, ">$0");
        },
        NodeKind::List => {
            if child.keys.len() == 0 {
                push_str(&mut out, ">\n  $0\n");
                proof {
                    assert(views(child.keys@) =~= Seq::<Seq<char>>::empty());
                }
            } else {
                push_str(&mut out, ">\n  ");
                let ghost pre = out@;
                push_key_stubs(&mut out, &child.keys);
                push_str(&mut out, "\n");
                proof {
                    let kv = views(child.keys@);
                    assert(kv.len() > 0);
                    assert(key_stubs(kv).len() >= key_stub(kv.last(), kv.len() == 1).len());
                    reveal_strlit("\n  <");
                    assert(key_stub(kv.last(), kv.len() == 1).len() > 0);
                    assert(out@ =~= open + (">\n  "@ + key_stubs(kv) + "\n"@));
                }
            }
        },
        _ => {
            push_str(&mut out, ">\n  $0\n");
        },
    }
    proof {
        assert(out@ =~= open + middle_text(c));
    }
    push_str(&mut out, "</");
    push_str(&mut out, child.name.as_str());
    push_str(&mut out, ">");
    proof {
        assert(out@ =~= full_snippet(c, opt_str_view(parent_ns)));
    }
    let insert = if after_open {
        let skip = lead_lt(out.as_slice());
        sub_string(out.as_slice(), skip, out.len())
    } else {
        string_of(out.as_slice())
    };
    proof {
        if after_open {
            assert(out@.subrange(0, out@.len() as int).skip(0) =~= out@);
        }
    }
    CompletionEntry {
        label: child.name.clone(),
        field: match child.kind {
            NodeKind::Leaf | NodeKind::LeafList => true,
            _ => false,
        },
        detail: detail_for(child.kind, child.mandatory),
        insert_text: insert,
    }
}

/// The caret at `byte` follows a typed `<`.
pub open spec fn after_open_at(b: Seq<u8>, byte: int) -> bool {
    byte > 0 && byte - 1 < b.len() && b[byte - 1] == 60u8
}

/// Where the caret's parent element is looked for: one byte before a typed
/// `<`, so the start tag being typed is not taken for the parent.
pub open spec fn probe_at(b: Seq<u8>, byte: int) -> int {
    if after_open_at(b, byte) {
        if byte >= 2 {
            byte - 2
        } else {
            0
        }
    } else {
        byte
    }
}

/// Element `i` is the deepest element holding byte `b`: of those that hold
/// it, the one that starts last, the last in document order on a tie.
pub open spec fn deepest_at(nodes: Seq<XmlNode>, b: int, i: int) -> bool {
    &&& 0 <= i < nodes.len()
    &&& elem_contains(nodes[i], b)
    &&& forall|j: int|
        0 <= j < nodes.len() && elem_contains(#[trigger] nodes[j], b) ==> nodes[j].elem_range.start
            <= nodes[i].elem_range.start
    &&& forall|j: int|
        i < j < nodes.len() && elem_contains(#[trigger] nodes[j], b) ==> nodes[j].elem_range.start
            < nodes[i].elem_range.start
}

/// At most one element is the deepest at a byte.
pub proof fn lemma_deepest_unique(nodes: Seq<XmlNode>, b: int, i: int, k: int)
    requires
        deepest_at(nodes, b, i),
        deepest_at(nodes, b, k),
    ensures
        i == k,
{
    assert(elem_contains(nodes[k], b));
    assert(elem_contains(nodes[i], b));
}

/// The children offered inside element `p`: a mapped node's, a payload
/// wrapper's (every module's top-level data nodes), an `<rpc>`'s
/// operations; `None` elsewhere.
pub open spec fn offered_children(ms: Seq<SchemaModule>, nodes: Seq<XmlNode>, slots: Seq<SlotView>, p: int) -> Option<Seq<ChildView>> {
    let base = opt_view(nodes[p].ns) == Some(NETCONF_BASE_NS@);
    match slots[p] {
        SlotView::Mapped(m, id) => Some(mapped_children(ms, m, id)),
        _ => if base && payload_wrapper(nodes[p].local@) {
            Some(all_tops(ms, ms.len(), false))
        } else if base && nodes[p].local@ == "rpc"@ {
            Some(ops_children(ms))
        } else {
            None
        },
    }
}

/// The completion entries at `byte` of a document with elements `nodes`
/// and bytes `b`.
pub open spec fn xml_items(ms: Seq<SchemaModule>, nodes: Seq<XmlNode>, b: Seq<u8>, byte: int) -> Seq<(Seq<char>, bool, Seq<char>, Seq<char>)> {
    let ao = after_open_at(b, byte);
    let pr = probe_at(b, byte);
    if exists|i: int| deepest_at(nodes, pr, i) {
        let p = choose|i: int| deepest_at(nodes, pr, i);
        match offered_children(ms, nodes, first_pass(ms, nodes, nodes.len()).0, p) {
            Some(cs) => cs.map_values(|c: ChildView| item_view(c, opt_view(nodes[p].ns), ao)),
            None => Seq::empty(),
        }
    } else {
        Seq::empty()
    }
}

/// The completion entries at byte offset `byte` of `text` ([`xml_items`]);
/// none where the text is no XML document.
#[verifier::loop_isolation(false)]
pub fn handle(text: &str, byte: usize, schema: &Schema) -> (r: Vec<CompletionEntry>)
    ensures
        !xml_parses(text) ==> r@.len() == 0,
        xml_parses(text) ==> exists|nodes: Seq<XmlNode>|
            #[trigger] xml_tree_of(
                xml_syntax(text@).unwrap(),
                text.spec_bytes(),
                xml_root_elem(xml_syntax(text@).unwrap()).unwrap(),
                nodes,
            ) && entry_views(r@) == xml_items(schema.modules@, nodes, text.spec_bytes(), byte as int),
{
    let mut out: Vec<CompletionEntry> = Vec::new();
    let doc = match parse(text) {
        Some(d) => d,
        None => {
            return out;
        },
    };
    let ghost nodes = doc.nodes@;
    let ghost t = xml_syntax(text@).unwrap();
    let ghost e = xml_root_elem(t).unwrap();
    proof {
        lemma_tree_parents(t, text.spec_bytes(), e, nodes);
        assert(entry_views(out@) =~= Seq::<(Seq<char>, bool, Seq<char>, Seq<char>)>::empty());
    }
    let bytes = text.as_bytes();
    let after_open = byte > 0 && byte - 1 < bytes.len() && bytes[byte - 1] == 60u8;
    let probe = if after_open {
        if byte >= 2 {
            byte - 2
        } else {
            0
        }
    } else {
        byte
    };
    assert(after_open == after_open_at(text.spec_bytes(), byte as int));
    assert(probe == probe_at(text.spec_bytes(), byte as int));
    let parent = match doc.element_at(probe) {
        Some(p) => p,
        None => {
            proof {
                assert(!exists|i: int| deepest_at(nodes, probe as int, i));
            }
            return out;
        },
    };
    proof {
        assert(deepest_at(nodes, probe as int, parent as int));
        let q = choose|i: int| deepest_at(nodes, probe as int, i);
        lemma_deepest_unique(nodes, probe as int, parent as int, q);
    }
    let p = &doc.nodes[parent];
    let map = map_doc(&doc, schema);
    let ghost slots = first_pass(schema.modules@, nodes, nodes.len()).0;
    proof {
        crate::inst_map::lemma_first_pass_len(schema.modules@, nodes, nodes.len());
        assert(map.slots_view() == slots);
        assert(*p == nodes[parent as int]);
    }
    let base = match &p.ns {
        Some(s) => crate::text::str_eq(s.as_str(), NETCONF_BASE_NS),
        None => false,
    };
    assert(base == (opt_view(p.ns) == Some(NETCONF_BASE_NS@)));
    let children = match map.resolved(parent) {
        Some(r) => children_of_mapped(schema, r),
        None => if base && crate::inst_map::is_payload_wrapper(p.local.as_str()) {
            children_all_modules(schema)
        } else if base && crate::text::str_eq(p.local.as_str(), "rpc") {
            children_ops(schema)
        } else {
            proof {
                assert(offered_children(schema.modules@, nodes, slots, parent as int) is None);
            }
            return out;
        },
    };
    let ghost cv = child_views(children@);
    let ghost pns = opt_view(p.ns);
    proof {
        assert(offered_children(schema.modules@, nodes, slots, parent as int) == Some(cv));
    }
    let parent_ns: Option<&str> = match &p.ns {
        Some(s) => Some(s.as_str()),
        None => None,
    };
    assert(opt_str_view(parent_ns) == pns);
    let mut k: usize = 0;
    while k < children.len()
        invariant
            k <= children@.len(),
            entry_views(out@) == cv.map_values(|c: ChildView| item_view(c, pns, after_open)).take(k as int),
        decreases children@.len() - k,
    {
        let it = item(&children[k], parent_ns, after_open);
        proof {
            let f = |c: ChildView| item_view(c, pns, after_open);
            assert(cv.map_values(f).take(k + 1) =~= cv.map_values(f).take(k as int).push(entry_view(it)));
            assert(entry_views(out@.push(it)) =~= entry_views(out@).push(entry_view(it)));
        }
        out.push(it);
        k = k + 1;
    }
    proof {
        let f = |c: ChildView| item_view(c, pns, after_open);
        assert(cv.map_values(f).take(k as int) =~= cv.map_values(f));
    }
    out
}


proof fn lemma_strip_lt_head(s: Seq<char>)
    ensures
        strip_lt(s).len() == 0 || strip_lt(s)[0] != '<',
    decreases s.len(),
{
    if s.len() > 0 && s[0] == '<' {
        lemma_strip_lt_head(s.drop_first());
    }
}

/// After a typed `<`, the inserted snippet does not start with another
/// `<`.
pub proof fn law_after_open_snippet_drops_the_angle(c: ChildView, parent: Option<Seq<char>>)
    ensures
        snippet(c, parent, true).len() == 0 || snippet(c, parent, true)[0] != '<',
{
    lemma_strip_lt_head(full_snippet(c, parent));
}

/// The operations offered under `<rpc>` come sorted by name.
pub proof fn law_operations_are_sorted(ms: Seq<SchemaModule>)
    ensures
        crate::completion::in_order(ops_children(ms), |c: ChildView| view_name(c)),
{
    let base = netconf_ops().map_values(
        |o: Seq<char>| (o, NodeKind::Rpc, Some(NETCONF_BASE_NS@), Seq::<Seq<char>>::empty(), false, None::<DefaultView>),
    );
    crate::completion::law_sorted_by_orders_and_keeps(base + all_tops(ms, ms.len(), true), |c: ChildView| view_name(c));
}

} // verus!
