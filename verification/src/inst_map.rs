//! Instance-to-schema mapping for XML documents.
//!
//! Walks an [`XmlDoc`] and maps each element to the schema node it
//! instantiates (module and node id), through `choice`/`case`, into the
//! `input` of RPC operations, and by each node's instance namespace.
//!
//! Inside payload contexts it also reports unknown elements and elements in
//! the wrong namespace, then the diagnostics depth (missing required
//! children, choices with no case). Documents that are not NETCONF (no root
//! module match, or envelope internals without a schema) stay dormant:
//! nothing is mapped and nothing is reported.

use std::ops::Range;
use vstd::prelude::*;
use vstd::string::StringSliceAdditionalSpecFns;
use crate::depth::{analyze, depth_report, gap_views, ChoiceGap};
use crate::inst::{classify_xml, xml_root_intent, DocKind, Intent, ModuleInfo, NETCONF_BASE_NS, NETCONF_NOTIFICATION_NS};
use crate::syntax::xml_syntax;
use crate::schema::{instance_ns, is_data_kind, module_idx, node_of, NodeKind, Schema, SchemaModule, SchemaNode};
use crate::text::{chars_eq, chars_of, opt_view, push_all, push_str, string_of, views};
use crate::valcheck::{check_defined, check_defined_for, check_result, check_value, join, push_joined, value_result};
use crate::xml::{leaf_text_of, xml_parses, xml_root_elem, xml_tree_of, XmlDoc, XmlNode};

verus! {

broadcast use vstd::slice::group_slice_axioms;

/// A schema node an element maps to: module and node id.
#[derive(Debug)]
pub struct Resolved {
    /// Module whose node arena holds `id` (nodes of `uses` and augments too).
    pub module: String,
    /// Node id inside that module.
    pub id: usize,
}

/// A diagnostic over a byte range.
#[derive(Debug)]
pub struct InstDiag {
    pub range: Range<usize>,
    pub message: String,
    /// Stable code, such as `netconf_unknown_node`.
    pub code: &'static str,
}

/// The view of a diagnostic: range start, range end, message, code.
pub open spec fn diag_view(d: InstDiag) -> (int, int, Seq<char>, Seq<char>) {
    (d.range.start as int, d.range.end as int, d.message@, d.code@)
}

/// The views of a sequence of diagnostics.
pub open spec fn diag_views(ds: Seq<InstDiag>) -> Seq<(int, int, Seq<char>, Seq<char>)> {
    ds.map_values(|d: InstDiag| diag_view(d))
}

/// What an element maps to.
pub enum Slot {
    /// The element instantiates a schema node.
    Mapped(Resolved),
    /// A payload wrapper (`<config>`, `<data>`, `<filter>`): its children are
    /// top-level module nodes, and are diagnosed.
    Top,
    /// The `<rpc>` envelope: its children are operations; a compiled
    /// module's rpc or notification maps, anything else is silent.
    RpcOp,
    /// Envelope or message internals without a schema: the subtree is silent.
    Silent,
    /// Unknown or dormant: the subtree is skipped silently.
    Dead,
    /// `anyxml`/`anydata` content: the subtree is silent.
    Opaque,
}

/// The mathematical form of a [`Slot`].
pub enum SlotView {
    Mapped(Seq<char>, int),
    Top,
    RpcOp,
    Silent,
    Dead,
    Opaque,
}

/// The view of a slot.
pub open spec fn slot_view(s: Slot) -> SlotView {
    match s {
        Slot::Mapped(r) => SlotView::Mapped(r.module@, r.id as int),
        Slot::Top => SlotView::Top,
        Slot::RpcOp => SlotView::RpcOp,
        Slot::Silent => SlotView::Silent,
        Slot::Dead => SlotView::Dead,
        Slot::Opaque => SlotView::Opaque,
    }
}

/// The views of a sequence of slots.
pub open spec fn slot_views(ss: Seq<Slot>) -> Seq<SlotView> {
    ss.map_values(|s: Slot| slot_view(s))
}

/// The result of mapping a whole document.
pub struct InstMap {
    /// What each element maps to, by element index.
    pub slots: Vec<Slot>,
    pub diags: Vec<InstDiag>,
}

impl InstMap {
    /// What each element maps to.
    pub open spec fn slots_view(&self) -> Seq<SlotView> {
        slot_views(self.slots@)
    }

    /// The schema node an element maps to, if it is a mapped data node.
    pub fn resolved(&self, elem: usize) -> (r: Option<&Resolved>)
        ensures
            match r {
                Some(res) => elem < self.slots_view().len() && self.slots_view()[elem as int]
                    == SlotView::Mapped(res.module@, res.id as int),
                None => !(elem < self.slots_view().len() && self.slots_view()[elem as int] is Mapped),
            },
    {
        if elem < self.slots.len() {
            match &self.slots[elem] {
                Slot::Mapped(r) => Some(r),
                _ => None,
            }
        } else {
            None
        }
    }
}

/// Whether an element named `local` is a NETCONF payload wrapper.
pub open spec fn payload_wrapper(local: Seq<char>) -> bool {
    local == "config"@ || local == "data"@ || local == "filter"@
}

/// Whether an element is a NETCONF payload wrapper ([`payload_wrapper`]).
pub fn is_payload_wrapper(local: &str) -> (r: bool)
    ensures
        r == payload_wrapper(local@),
{
    let l = chars_of(local);
    chars_eq(l.as_slice(), chars_of("config").as_slice()) || chars_eq(l.as_slice(), chars_of("data").as_slice())
        || chars_eq(l.as_slice(), chars_of("filter").as_slice())
}

/// Whether an element is a message envelope root without a schema: a base
/// `rpc`, `rpc-reply` or `hello`, or anything in the notification namespace.
pub open spec fn message_envelope(ns: Option<Seq<char>>, local: Seq<char>) -> bool {
    if ns == Some(NETCONF_BASE_NS@) {
        local == "rpc"@ || local == "rpc-reply"@ || local == "hello"@
    } else {
        ns == Some(NETCONF_NOTIFICATION_NS@)
    }
}

/// Whether `a` holds the text `b`.
fn opt_is(a: &Option<String>, b: &str) -> (r: bool)
    ensures
        r == (opt_view(*a) == Some(b@)),
{
    match a {
        Some(s) => chars_eq(chars_of(s.as_str()).as_slice(), chars_of(b).as_slice()),
        None => false,
    }
}

/// Whether `a` is the text `b`.
fn text_is(a: &str, b: &str) -> (r: bool)
    ensures
        r == (a@ == b@),
{
    chars_eq(chars_of(a).as_slice(), chars_of(b).as_slice())
}

/// Whether an element is a message envelope root ([`message_envelope`]).
pub fn is_message_envelope(ns: &Option<String>, local: &str) -> (r: bool)
    ensures
        r == message_envelope(opt_view(*ns), local@),
{
    if opt_is(ns, NETCONF_BASE_NS) {
        text_is(local, "rpc") || text_is(local, "rpc-reply") || text_is(local, "hello")
    } else {
        opt_is(ns, NETCONF_NOTIFICATION_NS)
    }
}

/// Nodes of kind `k` are what is looked for at the top level: data nodes,
/// or for an operation element (`op`) an `rpc` or `notification`.
pub open spec fn kind_fits(k: NodeKind, op: bool) -> bool {
    if op {
        k == NodeKind::Rpc || k == NodeKind::Notification
    } else {
        is_data_kind(k)
    }
}

/// The first of the top-level ids `tops` of `m` naming a fitting node
/// `local`.
pub open spec fn first_top(m: SchemaModule, tops: Seq<usize>, local: Seq<char>, op: bool) -> Option<int>
    decreases tops.len(),
{
    if tops.len() == 0 {
        None
    } else if (node_of(m, tops[0] as int) matches Some(n) && kind_fits(n.kind, op) && n.name@ == local) {
        Some(tops[0] as int)
    } else {
        first_top(m, tops.drop_first(), local, op)
    }
}

/// The first module from `k` on in namespace `ns` with a fitting top-level
/// node `local`: the module's name and the node id.
pub open spec fn top_match_from(ms: Seq<SchemaModule>, k: int, ns: Seq<char>, local: Seq<char>, op: bool) -> Option<(Seq<char>, int)>
    decreases ms.len() - k,
{
    if k < 0 || k >= ms.len() {
        None
    } else if opt_view(ms[k].namespace) == Some(ns) && first_top(ms[k], ms[k].top_nodes@, local, op) is Some {
        Some((ms[k].name@, first_top(ms[k], ms[k].top_nodes@, local, op).unwrap()))
    } else {
        top_match_from(ms, k + 1, ns, local, op)
    }
}

/// The top-level node an element (namespace `ns`, local name `local`)
/// instantiates, across all modules in order.
pub open spec fn top_match(ms: Seq<SchemaModule>, ns: Option<Seq<char>>, local: Seq<char>, op: bool) -> Option<(Seq<char>, int)> {
    match ns {
        Some(n) => top_match_from(ms, 0, n, local, op),
        None => None,
    }
}

/// The schema ids a child element of node `id` of `module` may match: the
/// data children, for an `rpc` or `action` those of its `input`.
pub open spec fn cand_ids(ms: Seq<SchemaModule>, module: Seq<char>, id: int) -> Seq<usize> {
    match module_idx(ms, module) {
        Some(k) => match node_of(ms[k], id) {
            Some(n) => if n.kind == NodeKind::Rpc || n.kind == NodeKind::Action {
                match n.rpc_input {
                    Some(i) => match node_of(ms[k], i as int) {
                        Some(inp) => inp.data_children@,
                        None => Seq::empty(),
                    },
                    None => Seq::empty(),
                }
            } else {
                n.data_children@
            },
            None => Seq::empty(),
        },
        None => Seq::empty(),
    }
}

/// The candidates among `ids` of module `k` that exist: id, name and
/// instance namespace.
pub open spec fn cand_list(ms: Seq<SchemaModule>, k: int, ids: Seq<usize>) -> Seq<(int, Seq<char>, Option<Seq<char>>)>
    decreases ids.len(),
{
    if ids.len() == 0 {
        Seq::empty()
    } else {
        let rest = cand_list(ms, k, ids.drop_last());
        match node_of(ms[k], ids.last() as int) {
            Some(n) => rest.push((ids.last() as int, n.name@, instance_ns(ms, n))),
            None => rest,
        }
    }
}

/// The candidates a child element of node `id` of `module` may match.
pub open spec fn cands(ms: Seq<SchemaModule>, module: Seq<char>, id: int) -> Seq<(int, Seq<char>, Option<Seq<char>>)> {
    match module_idx(ms, module) {
        Some(k) => cand_list(ms, k, cand_ids(ms, module, id)),
        None => Seq::empty(),
    }
}

/// The candidates of `cs` named `local`.
pub open spec fn named(cs: Seq<(int, Seq<char>, Option<Seq<char>>)>, local: Seq<char>) -> Seq<(int, Seq<char>, Option<Seq<char>>)>
    decreases cs.len(),
{
    if cs.len() == 0 {
        Seq::empty()
    } else {
        (if cs[0].1 == local {
            seq![cs[0]]
        } else {
            Seq::empty()
        }) + named(cs.drop_first(), local)
    }
}

proof fn lemma_named_append(a: Seq<(int, Seq<char>, Option<Seq<char>>)>, b: Seq<(int, Seq<char>, Option<Seq<char>>)>, local: Seq<char>)
    ensures
        named(a + b, local) == named(a, local) + named(b, local),
    decreases a.len(),
{
    if a.len() == 0 {
        assert(a + b =~= b);
        assert(named(a, local) + named(b, local) =~= named(b, local));
    } else {
        assert((a + b).drop_first() =~= a.drop_first() + b);
        assert((a + b)[0] == a[0]);
        lemma_named_append(a.drop_first(), b, local);
        let h: Seq<(int, Seq<char>, Option<Seq<char>>)> = if a[0].1 == local {
            seq![a[0]]
        } else {
            Seq::empty()
        };
        assert(h + (named(a.drop_first(), local) + named(b, local)) =~= (h + named(a.drop_first(), local)) + named(b, local));
    }
}

/// The first candidate of `cs` in namespace `ns`.
pub open spec fn first_in_ns(cs: Seq<(int, Seq<char>, Option<Seq<char>>)>, ns: Option<Seq<char>>) -> Option<int>
    decreases cs.len(),
{
    if cs.len() == 0 {
        None
    } else if cs[0].2 == ns {
        Some(cs[0].0)
    } else {
        first_in_ns(cs.drop_first(), ns)
    }
}

/// A namespace as written in messages.
pub open spec fn ns_text(ns: Option<Seq<char>>, none: Seq<char>) -> Seq<char> {
    match ns {
        Some(n) => n,
        None => none,
    }
}

/// The slot and the diagnostics of element `e` whose parent maps to node
/// `id` of `module`.
pub open spec fn child_outcome(ms: Seq<SchemaModule>, module: Seq<char>, id: int, e: XmlNode) -> (SlotView, Seq<(int, int, Seq<char>, Seq<char>)>) {
    let by_name = named(cands(ms, module, id), e.local@);
    let rg_s = e.name_range.start as int;
    let rg_e = e.name_range.end as int;
    match first_in_ns(by_name, opt_view(e.ns)) {
        Some(cid) => (SlotView::Mapped(module, cid), Seq::empty()),
        None => if by_name.len() > 0 {
            (
                SlotView::Dead,
                seq![
                    (
                        rg_s,
                        rg_e,
                        "element `"@ + e.local@ + "` is in namespace `"@ + ns_text(opt_view(e.ns), "<no namespace>"@)
                            + "`; expected `"@ + ns_text(by_name[0].2, "<no namespace>"@) + "` here"@,
                        "netconf_wrong_ns"@,
                    ),
                ],
            )
        } else {
            (
                SlotView::Dead,
                seq![
                    (
                        rg_s,
                        rg_e,
                        "unknown element `<"@ + e.local@ + ">` (not a child of this schema node)"@,
                        "netconf_unknown_node"@,
                    ),
                ],
            )
        },
    }
}

/// The slot of a root element.
pub open spec fn root_outcome(ms: Seq<SchemaModule>, e: XmlNode) -> SlotView {
    let ns = opt_view(e.ns);
    if ns == Some(NETCONF_BASE_NS@) && payload_wrapper(e.local@) {
        SlotView::Top
    } else if ns == Some(NETCONF_BASE_NS@) && e.local@ == "rpc"@ {
        SlotView::RpcOp
    } else if message_envelope(ns, e.local@) {
        SlotView::Silent
    } else {
        match top_match(ms, ns, e.local@, false) {
            Some((m, id)) => SlotView::Mapped(m, id),
            None => SlotView::Dead,
        }
    }
}

/// The slot and the diagnostics of element `e` whose parent has slot `ps`.
pub open spec fn under_outcome(ms: Seq<SchemaModule>, ps: SlotView, e: XmlNode) -> (SlotView, Seq<(int, int, Seq<char>, Seq<char>)>) {
    match ps {
        SlotView::Mapped(m, id) => {
            let opaque = match module_idx(ms, m) {
                Some(k) => match node_of(ms[k], id) {
                    Some(n) => n.kind == NodeKind::Anyxml || n.kind == NodeKind::Anydata,
                    None => false,
                },
                None => false,
            };
            if opaque {
                (SlotView::Opaque, Seq::empty())
            } else {
                child_outcome(ms, m, id, e)
            }
        },
        SlotView::Top => match top_match(ms, opt_view(e.ns), e.local@, false) {
            Some((m, id)) => (SlotView::Mapped(m, id), Seq::empty()),
            None => (
                SlotView::Dead,
                seq![
                    (
                        e.name_range.start as int,
                        e.name_range.end as int,
                        "unknown element `<"@ + e.local@ + ">` (no compiled module has this top-level data node in namespace `"@
                            + ns_text(opt_view(e.ns), "<none>"@) + "`)"@,
                        "netconf_unknown_node"@,
                    ),
                ],
            ),
        },
        SlotView::RpcOp => match top_match(ms, opt_view(e.ns), e.local@, true) {
            Some((m, id)) => (SlotView::Mapped(m, id), Seq::empty()),
            None => (SlotView::Silent, Seq::empty()),
        },
        SlotView::Silent => (SlotView::Silent, Seq::empty()),
        SlotView::Dead => (SlotView::Dead, Seq::empty()),
        SlotView::Opaque => (SlotView::Opaque, Seq::empty()),
    }
}

/// The slots and the mapping diagnostics of the first `k` elements.
pub open spec fn first_pass(ms: Seq<SchemaModule>, nodes: Seq<XmlNode>, k: nat) -> (Seq<SlotView>, Seq<(int, int, Seq<char>, Seq<char>)>)
    decreases k,
{
    if k == 0 {
        (Seq::empty(), Seq::empty())
    } else {
        let (sl, dg) = first_pass(ms, nodes, (k - 1) as nat);
        let e = nodes[k - 1];
        let (o, d) = match e.parent {
            None => (root_outcome(ms, e), Seq::empty()),
            Some(p) => under_outcome(
                ms,
                if p < k - 1 {
                    sl[p as int]
                } else {
                    SlotView::Dead
                },
                e,
            ),
        };
        (sl.push(o), dg + d)
    }
}

/// Which of the first `k` elements sit inside a `<filter>` subtree: a
/// NETCONF base `<filter>` at any depth and everything under it.
pub open spec fn filter_marks(nodes: Seq<XmlNode>, k: nat) -> Seq<bool>
    decreases k,
{
    if k == 0 {
        Seq::empty()
    } else {
        let prev = filter_marks(nodes, (k - 1) as nat);
        let e = nodes[k - 1];
        let own = opt_view(e.ns) == Some(NETCONF_BASE_NS@) && e.local@ == "filter"@;
        let inherited = match e.parent {
            Some(p) => p < k - 1 && prev[p as int],
            None => false,
        };
        prev.push(own || inherited)
    }
}

proof fn lemma_filter_marks_len(nodes: Seq<XmlNode>, k: nat)
    ensures
        filter_marks(nodes, k).len() == k,
    decreases k,
{
    if k > 0 {
        lemma_filter_marks_len(nodes, (k - 1) as nat);
    }
}

/// Every parent index names an element of the document.
pub open spec fn parents_in_range(nodes: Seq<XmlNode>) -> bool {
    forall|i: int| 0 <= i < nodes.len() ==> (#[trigger] nodes[i].parent matches Some(p) ==> p < nodes.len())
}

/// The schema ids of the children (among the elements from `j` on) of
/// element `i` that map into module `m`, in document order.
pub open spec fn present_from(nodes: Seq<XmlNode>, slots: Seq<SlotView>, i: int, m: Seq<char>, j: int) -> Seq<usize>
    decreases nodes.len() - j,
{
    if j < 0 || j >= nodes.len() {
        Seq::empty()
    } else {
        let rest = present_from(nodes, slots, i, m, j + 1);
        match slots[j] {
            SlotView::Mapped(cm, cid) => if nodes[j].parent == Some(i as usize) && cm == m {
                seq![cid as usize] + rest
            } else {
                rest
            },
            _ => rest,
        }
    }
}

/// The message listing missing required elements.
pub open spec fn missing_message(names: Seq<Seq<char>>, word: Seq<char>, words: Seq<char>) -> Seq<char> {
    "missing required "@ + (if names.len() == 1 {
        word
    } else {
        words
    }) + ": "@ + join(names, ", "@)
}

/// The message for a choice with no case.
pub open spec fn choice_message(g: (Seq<char>, Seq<Seq<char>>)) -> Seq<char> {
    "no case of choice `"@ + g.0 + "` is present (expected one of: "@ + join(g.1, ", "@) + ")"@
}

/// The diagnostics for the gaps `gs` at a name range.
pub open spec fn choice_diags(gs: Seq<(Seq<char>, Seq<Seq<char>>)>, s: int, e: int, code: Seq<char>) -> Seq<(int, int, Seq<char>, Seq<char>)> {
    gs.map_values(|g: (Seq<char>, Seq<Seq<char>>)| (s, e, choice_message(g), code))
}

/// The depth diagnostics of element `i`.
pub open spec fn depth_diags(ms: Seq<SchemaModule>, nodes: Seq<XmlNode>, slots: Seq<SlotView>, marks: Seq<bool>, i: int) -> Seq<(int, int, Seq<char>, Seq<char>)> {
    if marks[i] {
        Seq::empty()
    } else {
        match slots[i] {
            SlotView::Mapped(m, id) => match module_idx(ms, m) {
                Some(k) => match node_of(ms[k], id) {
                    Some(n) => if n.kind == NodeKind::Container || n.kind == NodeKind::List {
                        let rep = depth_report(ms, m, id, present_from(nodes, slots, i, m, 0));
                        let s = nodes[i].name_range.start as int;
                        let e = nodes[i].name_range.end as int;
                        (if rep.0.len() > 0 {
                            seq![(s, e, missing_message(rep.0, "element"@, "elements"@), "netconf_missing_node"@)]
                        } else {
                            Seq::empty()
                        }) + choice_diags(rep.1, s, e, "netconf_missing_choice"@)
                    } else {
                        Seq::empty()
                    },
                    None => Seq::empty(),
                },
                None => Seq::empty(),
            },
            _ => Seq::empty(),
        }
    }
}

/// The depth diagnostics of the first `k` elements.
pub open spec fn second_pass(ms: Seq<SchemaModule>, nodes: Seq<XmlNode>, slots: Seq<SlotView>, marks: Seq<bool>, k: nat) -> Seq<(int, int, Seq<char>, Seq<char>)>
    decreases k,
{
    if k == 0 {
        Seq::empty()
    } else {
        second_pass(ms, nodes, slots, marks, (k - 1) as nat) + depth_diags(ms, nodes, slots, marks, k - 1)
    }
}

/// The first module in namespace `ns` with a fitting top-level node
/// `local` ([`top_match`]).
fn find_top(schema: &Schema, ns: &Option<String>, local: &str, op: bool) -> (r: Option<Resolved>)
    ensures
        match r {
            Some(res) => top_match(schema.modules@, opt_view(*ns), local@, op) == Some((res.module@, res.id as int)),
            None => top_match(schema.modules@, opt_view(*ns), local@, op) is None,
        },
{
    if ns.is_none() {
        return None;
    }
    let nsv: &String = ns.as_ref().unwrap();
    proof {
        assert(opt_view(*ns) == Some(nsv@));
    }
    let ghost ms = schema.modules@;
    let lc = chars_of(local);
    let mut k: usize = 0;
    while k < schema.modules.len()
        invariant
            ms == schema.modules@,
            lc@ == local@,
            opt_view(*ns) == Some(nsv@),
            k <= ms.len(),
            top_match_from(ms, 0, nsv@, local@, op) == top_match_from(ms, k as int, nsv@, local@, op),
        decreases ms.len() - k,
    {
        let m = &schema.modules[k];
        if opt_is(&m.namespace, nsv.as_str()) {
            let tops = &m.top_nodes;
            let mut t: usize = 0;
            proof {
                assert(tops@.skip(0) =~= tops@);
            }
            while t < tops.len()
                invariant
                    t <= tops@.len(),
                    lc@ == local@,
                    ms == schema.modules@,
                    k < ms.len(),
                    *m == ms[k as int],
                    *tops == m.top_nodes,
                    opt_view(m.namespace) == Some(nsv@),
                    opt_view(*ns) == Some(nsv@),
                    top_match_from(ms, 0, nsv@, local@, op) == top_match_from(ms, k as int, nsv@, local@, op),
                    first_top(*m, tops@, local@, op) == first_top(*m, tops@.skip(t as int), local@, op),
                decreases tops@.len() - t,
            {
                proof {
                    assert(tops@.skip(t as int)[0] == tops@[t as int]);
                    assert(tops@.skip(t as int).drop_first() =~= tops@.skip(t + 1));
                }
                let id = tops[t];
                match m.node(id) {
                    Some(n) => {
                        let fits = if op {
                            match n.kind {
                                NodeKind::Rpc | NodeKind::Notification => true,
                                _ => false,
                            }
                        } else {
                            n.kind.is_data()
                        };
                        if fits && chars_eq(chars_of(n.name.as_str()).as_slice(), lc.as_slice()) {
                            proof {
                                let sk = tops@.skip(t as int);
                                assert(sk[0] == id);
                                assert(kind_fits(n.kind, op));
                                assert(first_top(*m, sk, local@, op) == Some(id as int));
                            }
                            let r = Resolved { module: m.name.clone(), id };
                            proof {
                                assert(first_top(ms[k as int], ms[k as int].top_nodes@, local@, op) == Some(id as int));
                                assert(top_match_from(ms, k as int, nsv@, local@, op) == Some((m.name@, id as int)));
                                assert(r.module@ == m.name@);
                            }
                            return Some(r);
                        }
                    },
                    None => {},
                }
                t = t + 1;
            }
            proof {
                assert(tops@.skip(t as int).len() == 0);
            }
        }
        k = k + 1;
    }
    None
}

/// The top-level data node element `e` instantiates, across all modules
/// (a payload context).
pub fn match_top(schema: &Schema, doc: &XmlDoc, e: usize) -> (r: Option<Resolved>)
    requires
        e < doc.nodes@.len(),
    ensures
        match r {
            Some(res) => top_match(schema.modules@, opt_view(doc.nodes@[e as int].ns), doc.nodes@[e as int].local@, false)
                == Some((res.module@, res.id as int)),
            None => top_match(schema.modules@, opt_view(doc.nodes@[e as int].ns), doc.nodes@[e as int].local@, false) is None,
        },
{
    let node = &doc.nodes[e];
    find_top(schema, &node.ns, node.local.as_str(), false)
}

/// The top-level `rpc` or `notification` element `e` instantiates (an
/// operation element directly under `<rpc>`).
pub fn match_top_op(schema: &Schema, doc: &XmlDoc, e: usize) -> (r: Option<Resolved>)
    requires
        e < doc.nodes@.len(),
    ensures
        match r {
            Some(res) => top_match(schema.modules@, opt_view(doc.nodes@[e as int].ns), doc.nodes@[e as int].local@, true)
                == Some((res.module@, res.id as int)),
            None => top_match(schema.modules@, opt_view(doc.nodes@[e as int].ns), doc.nodes@[e as int].local@, true) is None,
        },
{
    let node = &doc.nodes[e];
    find_top(schema, &node.ns, node.local.as_str(), true)
}

/// The view of a candidate.
pub open spec fn cand_view(c: (usize, String, Option<String>)) -> (int, Seq<char>, Option<Seq<char>>) {
    (c.0 as int, c.1@, opt_view(c.2))
}

/// The views of a sequence of candidates.
pub open spec fn cand_views(cs: Seq<(usize, String, Option<String>)>) -> Seq<(int, Seq<char>, Option<Seq<char>>)> {
    cs.map_values(|c: (usize, String, Option<String>)| cand_view(c))
}

/// The schema children a child element of node `id` of `module` may match:
/// id, name and instance namespace ([`cands`]).
pub fn candidates(schema: &Schema, module: &str, id: usize) -> (r: Vec<(usize, String, Option<String>)>)
    ensures
        cand_views(r@) == cands(schema.modules@, module@, id as int),
{
    let mut out: Vec<(usize, String, Option<String>)> = Vec::new();
    proof {
        assert(cand_views(out@) =~= Seq::<(int, Seq<char>, Option<Seq<char>>)>::empty());
    }
    let k = match schema.module(module) {
        Some(k) => k,
        None => {
            return out;
        },
    };
    let rec = &schema.modules[k];
    let node = match rec.node(id) {
        Some(n) => n,
        None => {
            return out;
        },
    };
    let empty: Vec<usize> = Vec::new();
    let ids: &Vec<usize> = match node.kind {
        NodeKind::Rpc | NodeKind::Action => match node.rpc_input {
            Some(i) => match rec.node(i) {
                Some(inp) => &inp.data_children,
                None => &empty,
            },
            None => &empty,
        },
        _ => &node.data_children,
    };
    proof {
        assert(empty@ =~= Seq::<usize>::empty());
        assert(ids@ == cand_ids(schema.modules@, module@, id as int));
        assert(ids@.take(0) =~= Seq::<usize>::empty());
    }
    let mut j: usize = 0;
    while j < ids.len()
        invariant
            j <= ids@.len(),
            k < schema.modules@.len(),
            rec == schema.modules@[k as int],
            cand_views(out@) == cand_list(schema.modules@, k as int, ids@.take(j as int)),
        decreases ids@.len() - j,
    {
        proof {
            assert(ids@.take(j + 1).drop_last() =~= ids@.take(j as int));
            assert(ids@.take(j + 1).last() == ids@[j as int]);
        }
        let cid = ids[j];
        match rec.node(cid) {
            Some(n) => {
                let c = (cid, n.name.clone(), schema.instance_ns(n));
                proof {
                    assert(cand_views(out@.push(c)) =~= cand_views(out@).push(cand_view(c)));
                }
                out.push(c);
            },
            None => {},
        }
        j = j + 1;
    }
    proof {
        assert(ids@.take(ids@.len() as int) =~= ids@);
    }
    out
}

/// A namespace as written in messages ([`ns_text`]).
fn push_ns(out: &mut Vec<char>, ns: &Option<String>, none: &str)
    ensures
        final(out)@ == old(out)@ + ns_text(opt_view(*ns), none@),
{
    match ns {
        Some(n) => push_str(out, n.as_str()),
        None => push_str(out, none),
    }
}

/// Map a child element against the schema children of its parent's node
/// `id` of `module` ([`child_outcome`]); reports an element that is
/// unknown here or in the wrong namespace.
pub fn match_child(schema: &Schema, doc: &XmlDoc, e: usize, module: &str, id: usize, diags: &mut Vec<InstDiag>) -> (r: Slot)
    requires
        e < doc.nodes@.len(),
    ensures
        slot_view(r) == child_outcome(schema.modules@, module@, id as int, doc.nodes@[e as int]).0,
        diag_views(final(diags)@) == diag_views(old(diags)@) + child_outcome(schema.modules@, module@, id as int, doc.nodes@[e as int]).1,
{
    let elem = &doc.nodes[e];
    let all = candidates(schema, module, id);
    let lc = chars_of(elem.local.as_str());
    let ghost cv = cand_views(all@);
    let ghost local = elem.local@;
    let ghost ns = opt_view(elem.ns);
    let ghost by_name = named(cv, local);
    let mut first: Option<usize> = None;
    let mut j: usize = 0;
    proof {
        assert(cv.take(0) =~= Seq::<(int, Seq<char>, Option<Seq<char>>)>::empty());
    }
    while j < all.len()
        invariant
            j <= all@.len(),
            e < doc.nodes@.len(),
            *elem == doc.nodes@[e as int],
            diags@ == old(diags)@,
            cv == cand_views(all@),
            cv == cands(schema.modules@, module@, id as int),
            local == elem.local@,
            ns == opt_view(elem.ns),
            by_name == named(cv, local),
            lc@ == local,
            first_in_ns(named(cv.take(j as int), local), ns) is None,
            first is None <==> named(cv.take(j as int), local).len() == 0,
            first matches Some(f) ==> f < j && named(cv.take(j as int), local).len() > 0
                && named(cv.take(j as int), local)[0] == cv[f as int],
        decreases all@.len() - j,
    {
        let c = &all[j];
        let ghost cj = cv[j as int];
        let ghost pre = named(cv.take(j as int), local);
        proof {
            assert(cv.take(j + 1) =~= cv.take(j as int) + seq![cj]);
            lemma_named_append(cv.take(j as int), seq![cj], local);
            lemma_named_one(cj, local);
            assert(cj == cand_view(all@[j as int]));
        }
        if chars_eq(chars_of(c.1.as_str()).as_slice(), lc.as_slice()) {
            let same_ns = match (&c.2, &elem.ns) {
                (Some(a), Some(b)) => chars_eq(chars_of(a.as_str()).as_slice(), chars_of(b.as_str()).as_slice()),
                (None, None) => true,
                _ => false,
            };
            if same_ns {
                proof {
                    assert(cv =~= cv.take(j as int) + cv.skip(j as int));
                    lemma_named_append(cv.take(j as int), cv.skip(j as int), local);
                    assert(cv.skip(j as int) =~= seq![cj] + cv.skip(j + 1));
                    lemma_named_append(seq![cj], cv.skip(j + 1), local);
                    lemma_first_in_ns_append(pre, named(cv.skip(j as int), local), ns);
                    assert(named(cv.skip(j as int), local)[0] == cj);
                }
                return Slot::Mapped(Resolved { module: string_of(chars_of(module).as_slice()), id: c.0 });
            }
            if first.is_none() {
                first = Some(j);
            }
            proof {
                lemma_first_in_ns_append(pre, seq![cj], ns);
                assert(seq![cj].drop_first() =~= Seq::<(int, Seq<char>, Option<Seq<char>>)>::empty());
                assert(first_in_ns(Seq::<(int, Seq<char>, Option<Seq<char>>)>::empty(), ns) is None);
                assert(cj.2 != ns);
                assert(first_in_ns(seq![cj], ns) is None);
            }
        } else {
            proof {
                assert(pre + Seq::<(int, Seq<char>, Option<Seq<char>>)>::empty() =~= pre);
            }
        }
        j = j + 1;
    }
    proof {
        assert(cv.take(j as int) =~= cv);
    }
    let mut out: Vec<char> = Vec::new();
    let code: &'static str;
    match first {
        Some(f) => {
            push_str(&mut out, "element `");
            push_str(&mut out, elem.local.as_str());
            push_str(&mut out, "` is in namespace `");
            push_ns(&mut out, &elem.ns, "<no namespace>");
            push_str(&mut out, "`; expected `");
            push_ns(&mut out, &all[f].2, "<no namespace>");
            push_str(&mut out, "` here");
            code = "netconf_wrong_ns";
            proof {
                assert(out@ =~= "element `"@ + elem.local@ + "` is in namespace `"@ + ns_text(opt_view(elem.ns), "<no namespace>"@)
                    + "`; expected `"@ + ns_text(by_name[0].2, "<no namespace>"@) + "` here"@);
            }
        },
        None => {
            push_str(&mut out, "unknown element `<");
            push_str(&mut out, elem.local.as_str());
            push_str(&mut out, ">` (not a child of this schema node)");
            code = "netconf_unknown_node";
            proof {
                assert(out@ =~= "unknown element `<"@ + elem.local@ + ">` (not a child of this schema node)"@);
            }
        },
    }
    let d = InstDiag { range: Range { start: elem.name_range.start, end: elem.name_range.end }, message: string_of(out.as_slice()), code };
    proof {
        assert(diag_views(diags@.push(d)) =~= diag_views(diags@) + seq![diag_view(d)]);
    }
    diags.push(d);
    Slot::Dead
}

proof fn lemma_named_one(c: (int, Seq<char>, Option<Seq<char>>), local: Seq<char>)
    ensures
        named(seq![c], local) == if c.1 == local {
            seq![c]
        } else {
            Seq::empty()
        },
{
    assert(seq![c].drop_first() =~= Seq::<(int, Seq<char>, Option<Seq<char>>)>::empty());
    assert(named(Seq::<(int, Seq<char>, Option<Seq<char>>)>::empty(), local) =~= Seq::<(int, Seq<char>, Option<Seq<char>>)>::empty());
    assert(seq![c][0] == c);
    let h: Seq<(int, Seq<char>, Option<Seq<char>>)> = if c.1 == local {
        seq![c]
    } else {
        Seq::empty()
    };
    assert(h + Seq::<(int, Seq<char>, Option<Seq<char>>)>::empty() =~= h);
}

proof fn lemma_first_in_ns_append(a: Seq<(int, Seq<char>, Option<Seq<char>>)>, b: Seq<(int, Seq<char>, Option<Seq<char>>)>, ns: Option<Seq<char>>)
    requires
        first_in_ns(a, ns) is None,
    ensures
        first_in_ns(a + b, ns) == first_in_ns(b, ns),
    decreases a.len(),
{
    if a.len() > 0 {
        assert((a + b).drop_first() =~= a.drop_first() + b);
        lemma_first_in_ns_append(a.drop_first(), b, ns);
    } else {
        assert(a + b =~= b);
    }
}

/// Which elements sit inside a `<filter>` subtree ([`filter_marks`]):
/// partial content is legal there, so the depth and value checks are
/// suppressed.
pub fn filter_mask(doc: &XmlDoc) -> (r: Vec<bool>)
    requires
        parents_in_range(doc.nodes@),
    ensures
        r@ == filter_marks(doc.nodes@, doc.nodes@.len()),
{
    let n = doc.nodes.len();
    let mut in_filter: Vec<bool> = Vec::new();
    let mut i: usize = 0;
    while i < n
        invariant
            n == doc.nodes@.len(),
            i <= n,
            parents_in_range(doc.nodes@),
            in_filter@ == filter_marks(doc.nodes@, i as nat),
        decreases n - i,
    {
        proof {
            lemma_filter_marks_len(doc.nodes@, i as nat);
        }
        let elem = &doc.nodes[i];
        let own = opt_is(&elem.ns, NETCONF_BASE_NS) && text_is(elem.local.as_str(), "filter");
        let inherited = match elem.parent {
            Some(p) => p < i && in_filter[p],
            None => false,
        };
        in_filter.push(own || inherited);
        i = i + 1;
    }
    in_filter
}

/// The slot of a root element ([`root_outcome`]).
fn root_slot(schema: &Schema, doc: &XmlDoc, i: usize) -> (r: Slot)
    requires
        i < doc.nodes@.len(),
    ensures
        slot_view(r) == root_outcome(schema.modules@, doc.nodes@[i as int]),
{
    let elem = &doc.nodes[i];
    let base = opt_is(&elem.ns, NETCONF_BASE_NS);
    if base && is_payload_wrapper(elem.local.as_str()) {
        Slot::Top
    } else if base && text_is(elem.local.as_str(), "rpc") {
        Slot::RpcOp
    } else if is_message_envelope(&elem.ns, elem.local.as_str()) {
        Slot::Silent
    } else {
        match match_top(schema, doc, i) {
            Some(r) => Slot::Mapped(r),
            None => Slot::Dead,
        }
    }
}

/// The slot of element `i` whose parent has slot `ps`, with its
/// diagnostics ([`under_outcome`]).
fn under_slot(schema: &Schema, doc: &XmlDoc, i: usize, ps: &Slot, diags: &mut Vec<InstDiag>) -> (r: Slot)
    requires
        i < doc.nodes@.len(),
    ensures
        slot_view(r) == under_outcome(schema.modules@, slot_view(*ps), doc.nodes@[i as int]).0,
        diag_views(final(diags)@) == diag_views(old(diags)@) + under_outcome(schema.modules@, slot_view(*ps), doc.nodes@[i as int]).1,
{
    let elem = &doc.nodes[i];
    proof {
        assert(diag_views(diags@) + Seq::<(int, int, Seq<char>, Seq<char>)>::empty() =~= diag_views(diags@));
    }
    match ps {
        Slot::Mapped(r) => {
            let opaque = match schema.module(r.module.as_str()) {
                Some(k) => match schema.modules[k].node(r.id) {
                    Some(n) => match n.kind {
                        NodeKind::Anyxml | NodeKind::Anydata => true,
                        _ => false,
                    },
                    None => false,
                },
                None => false,
            };
            if opaque {
                Slot::Opaque
            } else {
                match_child(schema, doc, i, r.module.as_str(), r.id, diags)
            }
        },
        Slot::Top => match match_top(schema, doc, i) {
            Some(r) => Slot::Mapped(r),
            None => {
                let mut out: Vec<char> = Vec::new();
                push_str(&mut out, "unknown element `<");
                push_str(&mut out, elem.local.as_str());
                push_str(&mut out, ">` (no compiled module has this top-level data node in namespace `");
                push_ns(&mut out, &elem.ns, "<none>");
                push_str(&mut out, "`)");
                proof {
                    assert(out@ =~= "unknown element `<"@ + elem.local@
                        + ">` (no compiled module has this top-level data node in namespace `"@ + ns_text(opt_view(elem.ns), "<none>"@)
                        + "`)"@);
                }
                let d = InstDiag {
                    range: Range { start: elem.name_range.start, end: elem.name_range.end },
                    message: string_of(out.as_slice()),
                    code: "netconf_unknown_node",
                };
                proof {
                    assert(diag_views(diags@.push(d)) =~= diag_views(diags@) + seq![diag_view(d)]);
                }
                diags.push(d);
                Slot::Dead
            },
        },
        Slot::RpcOp => match match_top_op(schema, doc, i) {
            Some(r) => Slot::Mapped(r),
            None => Slot::Silent,
        },
        Slot::Silent => Slot::Silent,
        Slot::Dead => Slot::Dead,
        Slot::Opaque => Slot::Opaque,
    }
}

/// The schema ids of the children of element `i` that map into `module`
/// ([`present_from`]).
fn present_children(doc: &XmlDoc, slots: &Vec<Slot>, i: usize, module: &str) -> (r: Vec<usize>)
    requires
        slots@.len() == doc.nodes@.len(),
    ensures
        r@ == present_from(doc.nodes@, slot_views(slots@), i as int, module@, 0),
{
    let n = doc.nodes.len();
    let mc = chars_of(module);
    let mut out: Vec<usize> = Vec::new();
    let ghost sv = slot_views(slots@);
    let mut j: usize = 0;
    proof {
        assert(out@ + present_from(doc.nodes@, sv, i as int, module@, 0) =~= present_from(doc.nodes@, sv, i as int, module@, 0));
    }
    while j < n
        invariant
            n == doc.nodes@.len(),
            slots@.len() == n,
            sv == slot_views(slots@),
            mc@ == module@,
            j <= n,
            out@ + present_from(doc.nodes@, sv, i as int, module@, j as int) == present_from(doc.nodes@, sv, i as int, module@, 0),
        decreases n - j,
    {
        let ghost before = out@;
        let ghost rest = present_from(doc.nodes@, sv, i as int, module@, j + 1);
        let is_child = match doc.nodes[j].parent {
            Some(p) => p == i,
            None => false,
        };
        if is_child {
            match &slots[j] {
                Slot::Mapped(c) => {
                    if chars_eq(chars_of(c.module.as_str()).as_slice(), mc.as_slice()) {
                        out.push(c.id);
                        proof {
                            assert(before.push(c.id) + rest =~= before + (seq![c.id] + rest));
                        }
                    }
                },
                _ => {},
            }
        }
        j = j + 1;
    }
    proof {
        assert(out@ + Seq::<usize>::empty() =~= out@);
    }
    out
}

/// Append the depth diagnostics of element `i` that maps to node `id` of
/// `module` (a container or list), at its name range.
fn push_depth_diags(
    schema: &Schema,
    doc: &XmlDoc,
    slots: &Vec<Slot>,
    i: usize,
    module: &str,
    id: usize,
    diags: &mut Vec<InstDiag>,
)
    requires
        i < doc.nodes@.len(),
        slots@.len() == doc.nodes@.len(),
    ensures
        ({
            let rep = depth_report(schema.modules@, module@, id as int, present_from(doc.nodes@, slot_views(slots@), i as int, module@, 0));
            let s = doc.nodes@[i as int].name_range.start as int;
            let e = doc.nodes@[i as int].name_range.end as int;
            diag_views(final(diags)@) == diag_views(old(diags)@) + ((if rep.0.len() > 0 {
                seq![(s, e, missing_message(rep.0, "element"@, "elements"@), "netconf_missing_node"@)]
            } else {
                Seq::empty()
            }) + choice_diags(rep.1, s, e, "netconf_missing_choice"@))
        }),
{
    let present = present_children(doc, slots, i, module);
    let report = analyze(schema, module, id, &present);
    let elem = &doc.nodes[i];
    let ghost rep = depth_report(schema.modules@, module@, id as int, present@);
    let ghost s = elem.name_range.start as int;
    let ghost e = elem.name_range.end as int;
    let ghost base = diag_views(diags@);
    let ghost head: Seq<(int, int, Seq<char>, Seq<char>)> = if rep.0.len() > 0 {
        seq![(s, e, missing_message(rep.0, "element"@, "elements"@), "netconf_missing_node"@)]
    } else {
        Seq::empty()
    };
    if report.missing.len() > 0 {
        let mut out: Vec<char> = Vec::new();
        push_str(&mut out, "missing required ");
        if report.missing.len() == 1 {
            push_str(&mut out, "element");
        } else {
            push_str(&mut out, "elements");
        }
        push_str(&mut out, ": ");
        push_joined(&mut out, &report.missing);
        proof {
            assert(views(report.missing@).len() == report.missing@.len());
            assert(out@ =~= missing_message(rep.0, "element"@, "elements"@));
        }
        let d = InstDiag {
            range: Range { start: elem.name_range.start, end: elem.name_range.end },
            message: string_of(out.as_slice()),
            code: "netconf_missing_node",
        };
        proof {
            assert(diag_views(diags@.push(d)) =~= diag_views(diags@) + seq![diag_view(d)]);
        }
        diags.push(d);
    } else {
        proof {
            assert(views(report.missing@).len() == report.missing@.len());
            assert(diag_views(diags@) =~= base + head);
        }
    }
    let gs = &report.choices;
    let mut k: usize = 0;
    proof {
        assert(choice_diags(gap_views(gs@).take(0), s, e, "netconf_missing_choice"@) =~= Seq::<(int, int, Seq<char>, Seq<char>)>::empty());
        assert(diag_views(diags@) =~= base + head + choice_diags(gap_views(gs@).take(0), s, e, "netconf_missing_choice"@));
    }
    while k < gs.len()
        invariant
            k <= gs@.len(),
            gap_views(gs@) == rep.1,
            s == elem.name_range.start as int,
            e == elem.name_range.end as int,
            diag_views(diags@) == base + head + choice_diags(gap_views(gs@).take(k as int), s, e, "netconf_missing_choice"@),
        decreases gs@.len() - k,
    {
        let g = &gs[k];
        let mut out: Vec<char> = Vec::new();
        push_str(&mut out, "no case of choice `");
        push_str(&mut out, g.name.as_str());
        push_str(&mut out, "` is present (expected one of: ");
        push_joined(&mut out, &g.options);
        push_str(&mut out, ")");
        proof {
            assert(out@ =~= choice_message(crate::depth::gap_view(*g)));
        }
        let d = InstDiag {
            range: Range { start: elem.name_range.start, end: elem.name_range.end },
            message: string_of(out.as_slice()),
            code: "netconf_missing_choice",
        };
        proof {
            assert(gap_views(gs@).take(k + 1) =~= gap_views(gs@).take(k as int).push(crate::depth::gap_view(*g)));
            assert(choice_diags(gap_views(gs@).take(k + 1), s, e, "netconf_missing_choice"@) =~= choice_diags(gap_views(gs@).take(k as int), s, e, "netconf_missing_choice"@).push(diag_view(d)));
            assert(diag_views(diags@.push(d)) =~= diag_views(diags@).push(diag_view(d)));
        }
        diags.push(d);
        k = k + 1;
    }
    proof {
        assert(gap_views(gs@).take(gs@.len() as int) =~= gap_views(gs@));
        assert(base + head + choice_diags(rep.1, s, e, "netconf_missing_choice"@) =~= base + (head + choice_diags(rep.1, s, e, "netconf_missing_choice"@)));
    }
}

/// Map every element of `doc` to a schema node (best effort) and collect
/// the payload-context diagnostics, then the depth diagnostics outside
/// `<filter>` subtrees.
pub fn map_doc(doc: &XmlDoc, schema: &Schema) -> (r: InstMap)
    requires
        parents_in_range(doc.nodes@),
    ensures
        r.slots_view() == first_pass(schema.modules@, doc.nodes@, doc.nodes@.len()).0,
        diag_views(r.diags@) == first_pass(schema.modules@, doc.nodes@, doc.nodes@.len()).1 + second_pass(
            schema.modules@,
            doc.nodes@,
            first_pass(schema.modules@, doc.nodes@, doc.nodes@.len()).0,
            filter_marks(doc.nodes@, doc.nodes@.len()),
            doc.nodes@.len(),
        ),
{
    let n = doc.nodes.len();
    let ghost ms = schema.modules@;
    let ghost nodes = doc.nodes@;
    let mut slots: Vec<Slot> = Vec::new();
    let mut diags: Vec<InstDiag> = Vec::new();
    let mut i: usize = 0;
    proof {
        assert(slot_views(slots@) =~= Seq::<SlotView>::empty());
        assert(diag_views(diags@) =~= Seq::<(int, int, Seq<char>, Seq<char>)>::empty());
    }
    while i < n
        invariant
            n == nodes.len(),
            nodes == doc.nodes@,
            ms == schema.modules@,
            i <= n,
            slots@.len() == i,
            slot_views(slots@) == first_pass(ms, nodes, i as nat).0,
            diag_views(diags@) == first_pass(ms, nodes, i as nat).1,
        decreases n - i,
    {
        let outcome = match doc.nodes[i].parent {
            None => root_slot(schema, doc, i),
            Some(p) => {
                if p < i {
                    under_slot(schema, doc, i, &slots[p], &mut diags)
                } else {
                    under_slot(schema, doc, i, &Slot::Dead, &mut diags)
                }
            },
        };
        proof {
            assert(slot_views(slots@.push(outcome)) =~= slot_views(slots@).push(slot_view(outcome)));
            if doc.nodes@[i as int].parent is None {
                assert(diag_views(diags@) =~= diag_views(diags@) + Seq::<(int, int, Seq<char>, Seq<char>)>::empty());
            }
        }
        slots.push(outcome);
        i = i + 1;
    }
    let in_filter = filter_mask(doc);
    proof {
        lemma_filter_marks_len(doc.nodes@, n as nat);
    }
    let ghost sv = slot_views(slots@);
    let ghost marks = in_filter@;
    let ghost first = diag_views(diags@);
    let mut i: usize = 0;
    proof {
        assert(first + Seq::<(int, int, Seq<char>, Seq<char>)>::empty() =~= first);
    }
    while i < n
        invariant
            n == nodes.len(),
            nodes == doc.nodes@,
            ms == schema.modules@,
            slots@.len() == n,
            sv == slot_views(slots@),
            marks == in_filter@,
            marks.len() == n,
            i <= n,
            diag_views(diags@) == first + second_pass(ms, nodes, sv, marks, i as nat),
        decreases n - i,
    {
        let ghost before = diag_views(diags@);
        if !in_filter[i] {
            match &slots[i] {
                Slot::Mapped(r) => {
                    match schema.module(r.module.as_str()) {
                        Some(k) => match schema.modules[k].node(r.id) {
                            Some(node) => {
                                let cl = match node.kind {
                                    NodeKind::Container | NodeKind::List => true,
                                    _ => false,
                                };
                                if cl {
                                    push_depth_diags(schema, doc, &slots, i, r.module.as_str(), r.id, &mut diags);
                                }
                            },
                            None => {},
                        },
                        None => {},
                    }
                },
                _ => {},
            }
        }
        proof {
            assert(diag_views(diags@) =~= before + depth_diags(ms, nodes, sv, marks, i as int));
            assert(first + second_pass(ms, nodes, sv, marks, (i + 1) as nat) =~= first + second_pass(ms, nodes, sv, marks, i as nat) + depth_diags(ms, nodes, sv, marks, i as int));
        }
        i = i + 1;
    }
    InstMap { slots, diags }
}

/// The leaf value element `i` carries for checking: its value type and the
/// range and text of its trimmed content, when it is outside `<filter>`,
/// maps to a `leaf` or `leaf-list` with a resolved value type, and has text.
pub open spec fn leaf_check(ms: Seq<SchemaModule>, nodes: Seq<XmlNode>, slots: Seq<SlotView>, marks: Seq<bool>, b: Seq<u8>, i: int) -> Option<(crate::valcheck::ValueType, int, int, Seq<char>, Seq<char>)> {
    if marks[i] {
        None
    } else {
        match slots[i] {
            SlotView::Mapped(m, id) => match module_idx(ms, m) {
                Some(k) => match node_of(ms[k], id) {
                    Some(n) => if n.kind == NodeKind::Leaf || n.kind == NodeKind::LeafList {
                        match n.value_type {
                            Some(vt) => match leaf_text_of(nodes[i], b) {
                                Some((s, e, v)) => Some((vt, s, e, v, m)),
                                None => None,
                            },
                            None => None,
                        }
                    } else {
                        None
                    },
                    None => None,
                },
                None => None,
            },
            _ => None,
        }
    }
}

/// Element `i` would have its leaf text read: a mapped `leaf` or
/// `leaf-list` with a value type, outside `<filter>`.
pub open spec fn leaf_candidate(ms: Seq<SchemaModule>, slots: Seq<SlotView>, marks: Seq<bool>, i: int) -> bool {
    &&& !marks[i]
    &&& slots[i] matches SlotView::Mapped(m, id)
    &&& module_idx(ms, m) matches Some(k)
    &&& node_of(ms[k], id) matches Some(n)
    &&& (n.kind == NodeKind::Leaf || n.kind == NodeKind::LeafList)
    &&& n.value_type is Some
}

/// The value check of every element of `doc` stays within what the
/// checks and the leaf text reader are defined on.
pub open spec fn values_defined(ms: Seq<SchemaModule>, nodes: Seq<XmlNode>, b: Seq<u8>) -> bool {
    let slots = first_pass(ms, nodes, nodes.len()).0;
    let marks = filter_marks(nodes, nodes.len());
    &&& parents_in_range(nodes)
    &&& forall|i: int|
        0 <= i < nodes.len() && #[trigger] leaf_candidate(ms, slots, marks, i) ==> {
            &&& (nodes[i].children@.len() == 0 && nodes[i].name_range.start < nodes[i].elem_range.end
                ==> nodes[i].elem_range.end <= b.len())
            &&& (leaf_check(ms, nodes, slots, marks, b, i) matches Some((vt, s, e, v, m)) ==> check_defined(vt, v))
        }
}

/// `o` is what the value check reports for the leaf `lc` of module `lc.4`
/// ([`value_result`]).
pub open spec fn value_outcome_ok(lib: yrepo::Library, lc: (crate::valcheck::ValueType, int, int, Seq<char>, Seq<char>), o: Option<Seq<char>>) -> bool {
    let (vt, s, e, v, m) = lc;
    o == value_result(lib, m, vt, v)
}

/// The diagnostics for the checked leaves of elements `0..k`, given the
/// outcome `outs[i]` of each element's check.
pub open spec fn value_diag_list(ms: Seq<SchemaModule>, nodes: Seq<XmlNode>, slots: Seq<SlotView>, marks: Seq<bool>, b: Seq<u8>, outs: Seq<Option<Seq<char>>>, k: nat) -> Seq<(int, int, Seq<char>, Seq<char>)>
    decreases k,
{
    if k == 0 {
        Seq::empty()
    } else {
        let rest = value_diag_list(ms, nodes, slots, marks, b, outs, (k - 1) as nat);
        match leaf_check(ms, nodes, slots, marks, b, k - 1) {
            Some((vt, s, e, v, m)) => match outs[k - 1] {
                Some(msg) => rest.push((s, e, "invalid value: "@ + msg, "netconf_bad_value"@)),
                None => rest,
            },
            None => rest,
        }
    }
}

/// Leaf value validation over a whole document: every mapped `leaf` or
/// `leaf-list` element outside `<filter>` whose type is known has its text
/// checked, scalar check first, then the reference check.
pub fn value_diags(doc: &XmlDoc, text: &str, schema: &Schema, lib: &yrepo::Library) -> (r: Vec<InstDiag>)
    requires
        values_defined(schema.modules@, doc.nodes@, text.spec_bytes()),
    ensures
        ({
            let ms = schema.modules@;
            let nodes = doc.nodes@;
            let slots = first_pass(ms, nodes, nodes.len()).0;
            let marks = filter_marks(nodes, nodes.len());
            exists|outs: Seq<Option<Seq<char>>>|
                {
                    &&& outs.len() == nodes.len()
                    &&& forall|i: int|
                        0 <= i < nodes.len() ==> (#[trigger] leaf_check(ms, nodes, slots, marks, text.spec_bytes(), i) matches Some(lc)
                            ==> value_outcome_ok(*lib, lc, outs[i]))
                    &&& diag_views(r@) == value_diag_list(ms, nodes, slots, marks, text.spec_bytes(), outs, nodes.len())
                }
        }),
{
    let ghost ms = schema.modules@;
    let ghost nodes = doc.nodes@;
    let ghost b = text.spec_bytes();
    let map = map_doc(doc, schema);
    let in_filter = filter_mask(doc);
    proof {
        lemma_filter_marks_len(nodes, nodes.len());
        lemma_first_pass_len(ms, nodes, nodes.len());
        assert(slot_views(map.slots@).len() == map.slots@.len());
    }
    let ghost slots = slot_views(map.slots@);
    let ghost marks = in_filter@;
    let n = doc.nodes.len();
    let mut out: Vec<InstDiag> = Vec::new();
    let ghost mut outs: Seq<Option<Seq<char>>> = Seq::new(n as nat, |i: int| None);
    let mut i: usize = 0;
    proof {
        assert(diag_views(out@) =~= Seq::<(int, int, Seq<char>, Seq<char>)>::empty());
    }
    while i < n
        invariant
            n == nodes.len(),
            nodes == doc.nodes@,
            ms == schema.modules@,
            b == text.spec_bytes(),
            slots == slot_views(map.slots@),
            slots == first_pass(ms, nodes, nodes.len()).0,
            marks == in_filter@,
            marks == filter_marks(nodes, nodes.len()),
            slots.len() == n,
            marks.len() == n,
            values_defined(ms, nodes, b),
            i <= n,
            outs.len() == n,
            forall|j: int| 0 <= j < i ==> (#[trigger] leaf_check(ms, nodes, slots, marks, b, j) matches Some(lc)
                ==> value_outcome_ok(*lib, lc, outs[j])),
            diag_views(out@) == value_diag_list(ms, nodes, slots, marks, b, outs, i as nat),
        decreases n - i,
    {
        let ghost before = diag_views(out@);
        proof {
            lemma_value_diag_list_frame(ms, nodes, slots, marks, b, outs, outs, i as nat);
        }
        if !in_filter[i] {
            match map.resolved(i) {
                Some(res) => {
                    match schema.module(res.module.as_str()) {
                        Some(k) => match schema.modules[k].node(res.id) {
                            Some(node) => {
                                let leafy = match node.kind {
                                    NodeKind::Leaf | NodeKind::LeafList => true,
                                    _ => false,
                                };
                                if leafy {
                                    match &node.value_type {
                                        Some(vt) => {
                                            proof {
                                                assert(leaf_candidate(ms, slots, marks, i as int));
                                            }
                                            match doc.leaf_text(text, i) {
                                                Some((range, value)) => {
                                                    proof {
                                                        assert(leaf_check(ms, nodes, slots, marks, b, i as int) == Some((*vt, range.start as int, range.end as int, value@, res.module@)));
                                                    }
                                                    let o = check_value(lib, res.module.as_str(), vt, value.as_str());
                                                    let ghost old_outs = outs;
                                                    proof {
                                                        outs = outs.update(i as int, opt_view(o));
                                                        lemma_value_diag_list_frame(ms, nodes, slots, marks, b, old_outs, outs, i as nat);
                                                    }
                                                    match o {
                                                        Some(msg) => {
                                                            let mut t: Vec<char> = Vec::new();
                                                            push_str(&mut t, "invalid value: ");
                                                            push_str(&mut t, msg.as_str());
                                                            let d = InstDiag {
                                                                range: Range { start: range.start, end: range.end },
                                                                message: string_of(t.as_slice()),
                                                                code: "netconf_bad_value",
                                                            };
                                                            proof {
                                                                assert(diag_views(out@.push(d)) =~= diag_views(out@).push(diag_view(d)));
                                                            }
                                                            out.push(d);
                                                        },
                                                        None => {},
                                                    }
                                                },
                                                None => {},
                                            }
                                        },
                                        None => {},
                                    }
                                }
                            },
                            None => {},
                        },
                        None => {},
                    }
                },
                None => {},
            }
        }
        i = i + 1;
    }
    out
}

/// The first pass gives one slot per element.
pub proof fn lemma_first_pass_len(ms: Seq<SchemaModule>, nodes: Seq<XmlNode>, k: nat)
    ensures
        first_pass(ms, nodes, k).0.len() == k,
    decreases k,
{
    if k > 0 {
        lemma_first_pass_len(ms, nodes, (k - 1) as nat);
    }
}

proof fn lemma_value_diag_list_frame(
    ms: Seq<SchemaModule>,
    nodes: Seq<XmlNode>,
    slots: Seq<SlotView>,
    marks: Seq<bool>,
    b: Seq<u8>,
    o1: Seq<Option<Seq<char>>>,
    o2: Seq<Option<Seq<char>>>,
    k: nat,
)
    requires
        forall|j: int| 0 <= j < k ==> o1[j] == o2[j],
    ensures
        value_diag_list(ms, nodes, slots, marks, b, o1, k) == value_diag_list(ms, nodes, slots, marks, b, o2, k),
    decreases k,
{
    if k > 0 {
        lemma_value_diag_list_frame(ms, nodes, slots, marks, b, o1, o2, (k - 1) as nat);
    }
}

/// Whether every parent index names an element ([`parents_in_range`]).
pub fn parents_ok(doc: &XmlDoc) -> (r: bool)
    ensures
        r == parents_in_range(doc.nodes@),
{
    let n = doc.nodes.len();
    let mut i: usize = 0;
    while i < n
        invariant
            n == doc.nodes@.len(),
            i <= n,
            forall|j: int| 0 <= j < i ==> (#[trigger] doc.nodes@[j].parent matches Some(p) ==> p < n),
        decreases n - i,
    {
        match doc.nodes[i].parent {
            Some(p) => {
                if p >= n {
                    return false;
                }
            },
            None => {},
        }
        i = i + 1;
    }
    true
}

/// Whether [`value_diags`] is defined on `doc` and `text`
/// ([`values_defined`]): where this is false, a leaf's text lies outside
/// `text` or a check would leave its fixed-width counters.
pub fn value_diags_defined(doc: &XmlDoc, text: &str, schema: &Schema) -> (r: bool)
    ensures
        r == values_defined(schema.modules@, doc.nodes@, text.spec_bytes()),
{
    if !parents_ok(doc) {
        return false;
    }
    let ghost ms = schema.modules@;
    let ghost nodes = doc.nodes@;
    let ghost b = text.spec_bytes();
    let blen = text.as_bytes().len();
    let map = map_doc(doc, schema);
    let in_filter = filter_mask(doc);
    proof {
        lemma_filter_marks_len(nodes, nodes.len());
        lemma_first_pass_len(ms, nodes, nodes.len());
        assert(slot_views(map.slots@).len() == map.slots@.len());
    }
    let ghost slots = slot_views(map.slots@);
    let ghost marks = in_filter@;
    let n = doc.nodes.len();
    let mut i: usize = 0;
    while i < n
        invariant
            n == nodes.len(),
            nodes == doc.nodes@,
            ms == schema.modules@,
            b == text.spec_bytes(),
            blen == b.len(),
            parents_in_range(nodes),
            slots == slot_views(map.slots@),
            slots == first_pass(ms, nodes, nodes.len()).0,
            marks == in_filter@,
            marks == filter_marks(nodes, nodes.len()),
            slots.len() == n,
            marks.len() == n,
            i <= n,
            forall|j: int| 0 <= j < i && #[trigger] leaf_candidate(ms, slots, marks, j) ==> {
                &&& (nodes[j].children@.len() == 0 && nodes[j].name_range.start < nodes[j].elem_range.end
                    ==> nodes[j].elem_range.end <= b.len())
                &&& (leaf_check(ms, nodes, slots, marks, b, j) matches Some((vt, s, e, v, m)) ==> check_defined(vt, v))
            },
        decreases n - i,
    {
        if !in_filter[i] {
            match map.resolved(i) {
                Some(res) => {
                    match schema.module(res.module.as_str()) {
                        Some(k) => match schema.modules[k].node(res.id) {
                            Some(node) => {
                                let leafy = match node.kind {
                                    NodeKind::Leaf | NodeKind::LeafList => true,
                                    _ => false,
                                };
                                if leafy {
                                    match &node.value_type {
                                        Some(vt) => {
                                            let e = &doc.nodes[i];
                                            proof {
                                                assert(leaf_candidate(ms, slots, marks, i as int));
                                            }
                                            if e.children.len() == 0 && e.name_range.start < e.elem_range.end
                                                && e.elem_range.end > blen {
                                                return false;
                                            }
                                            match doc.leaf_text(text, i) {
                                                Some((range, value)) => {
                                                    proof {
                                                        assert(leaf_check(ms, nodes, slots, marks, b, i as int) == Some((*vt, range.start as int, range.end as int, value@, res.module@)));
                                                    }
                                                    if !check_defined_for(vt, value.as_str()) {
                                                        return false;
                                                    }
                                                },
                                                None => {},
                                            }
                                        },
                                        None => {},
                                    }
                                }
                            },
                            None => {},
                        },
                        None => {},
                    }
                },
                None => {},
            }
        }
        i = i + 1;
    }
    true
}

/// Where the schema node `res` refers to is defined: its file and the
/// byte span of its definition; nothing when the schema has no such module
/// or node.
pub fn defining_of(schema: &Schema, res: &Resolved) -> (r: Option<(String, Range<usize>)>)
    ensures
        match module_idx(schema.modules@, res.module@) {
            None => r is None,
            Some(k) => match node_of(schema.modules@[k], res.id as int) {
                None => r is None,
                Some(n) => r matches Some((u, g)) && u@ == n.defining_url@ && g.start == n.defining_start && g.end == n.defining_end,
            },
        },
{
    let k = match schema.module(res.module.as_str()) {
        Some(k) => k,
        None => {
            return None;
        },
    };
    match schema.modules[k].node(res.id) {
        Some(n) => Some((
            string_of(chars_of(n.defining_url.as_str()).as_slice()),
            Range { start: n.defining_start, end: n.defining_end },
        )),
        None => None,
    }
}


/// Move the diagnostics `more` to the end of `out`.
pub fn push_diags(out: &mut Vec<InstDiag>, more: Vec<InstDiag>)
    ensures
        diag_views(final(out)@) == diag_views(old(out)@) + diag_views(more@),
{
    let ghost start = diag_views(out@);
    let ghost all = diag_views(more@);
    let mut rest = more;
    let n = rest.len();
    let mut k: usize = 0;
    proof {
        assert(all.take(0) =~= Seq::<(int, int, Seq<char>, Seq<char>)>::empty());
        assert(start + all.take(0) =~= start);
        assert(diag_views(rest@) =~= all.skip(0));
    }
    while rest.len() > 0
        invariant
            k + rest@.len() == all.len(),
            all.len() == n,
            diag_views(rest@) == all.skip(k as int),
            diag_views(out@) == start + all.take(k as int),
        decreases rest@.len(),
    {
        let ghost before = rest@;
        let d = rest.remove(0);
        proof {
            assert(diag_view(d) == diag_views(before)[0]);
            assert(diag_views(rest@) =~= diag_views(before).drop_first());
            assert(all.skip(k as int).drop_first() =~= all.skip(k + 1));
            assert(all.take(k + 1) =~= all.take(k as int).push(all[k as int]));
        }
        let ghost prev = out@;
        out.push(d);
        proof {
            assert(diag_views(out@) =~= diag_views(prev).push(diag_view(d)));
        }
        k = k + 1;
    }
    proof {
        assert(all.take(k as int) =~= all);
    }
}

/// `ds` is what [`doc_diagnostics`] reports for the element tree `nodes`
/// over the bytes `b`: the mapping diagnostics, then one per leaf value that
/// fails its check, `outs` holding each leaf's check result.
pub open spec fn xml_doc_diags(lib: yrepo::Library, ms: Seq<SchemaModule>, nodes: Seq<XmlNode>, b: Seq<u8>, ds: Seq<(int, int, Seq<char>, Seq<char>)>) -> bool {
    let slots = first_pass(ms, nodes, nodes.len()).0;
    let marks = filter_marks(nodes, nodes.len());
    exists|outs: Seq<Option<Seq<char>>>|
        {
            &&& outs.len() == nodes.len()
            &&& forall|i: int|
                0 <= i < nodes.len() ==> (#[trigger] leaf_check(ms, nodes, slots, marks, b, i) matches Some(lc)
                    ==> value_outcome_ok(lib, lc, outs[i]))
            &&& ds == first_pass(ms, nodes, nodes.len()).1 + second_pass(ms, nodes, slots, marks, nodes.len())
                + value_diag_list(ms, nodes, slots, marks, b, outs, nodes.len())
        }
}

/// The diagnostics of an XML instance document: those of mapping its
/// elements onto the schema ([`map_doc`]), then those of checking its leaf
/// values ([`value_diags`]).
pub fn doc_diagnostics(doc: &XmlDoc, text: &str, schema: &Schema, lib: &yrepo::Library) -> (r: Vec<InstDiag>)
    requires
        values_defined(schema.modules@, doc.nodes@, text.spec_bytes()),
    ensures
        xml_doc_diags(*lib, schema.modules@, doc.nodes@, text.spec_bytes(), diag_views(r@)),
{
    let m = map_doc(doc, schema);
    let v = value_diags(doc, text, schema, lib);
    let mut out = m.diags;
    push_diags(&mut out, v);
    out
}

/// The diagnostics of the XML document `text`: none for a document that does
/// not parse or that is no NETCONF instance document (it stays dormant), and
/// none where its values cannot all be read; else those of
/// [`doc_diagnostics`] on its element tree.
pub fn xml_instance_diagnostics(text: &str, schema: &Schema, modules: &[ModuleInfo], lib: &yrepo::Library) -> (r: Vec<InstDiag>)
    ensures
        !xml_parses(text) ==> r@.len() == 0,
        xml_parses(text) && xml_root_intent(text, modules@) == Intent::NotNetconf ==> r@.len() == 0,
        xml_parses(text) && xml_root_intent(text, modules@) != Intent::NotNetconf ==> ({
            let t = xml_syntax(text@).unwrap();
            let b = text.spec_bytes();
            exists|nodes: Seq<XmlNode>| {
                &&& #[trigger] xml_tree_of(t, b, xml_root_elem(t).unwrap(), nodes)
                &&& values_defined(schema.modules@, nodes, b) ==> xml_doc_diags(*lib, schema.modules@, nodes, b, diag_views(r@))
                &&& !values_defined(schema.modules@, nodes, b) ==> r@.len() == 0
            }
        }),
{
    let root = match crate::xml::parse_root(text) {
        Some(root) => root,
        None => {
            return Vec::new();
        },
    };
    match classify_xml(&root, modules) {
        DocKind::NotNetconf => {
            return Vec::new();
        },
        _ => {},
    }
    let doc = match crate::xml::parse(text) {
        Some(doc) => doc,
        None => {
            return Vec::new();
        },
    };
    if !value_diags_defined(&doc, text, schema) {
        return Vec::new();
    }
    doc_diagnostics(&doc, text, schema, lib)
}
} // verus!
