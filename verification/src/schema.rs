//! The compiled schema, as plain values: what instance mapping and the
//! diagnostics depth read of each module and of each node of its effective
//! schema tree.
//!
//! Node ids are arena indices inside their module. The lookups follow the
//! schema library's: a module is found by name among the latest revisions,
//! a node id out of range is absent.

use vstd::prelude::*;
use crate::text::{chars_eq, chars_of, opt_view};
use crate::valcheck::ValueType;
use crate::completion::{lex_less, lex_lt};
use crate::text::str_eq;

verus! {

broadcast use vstd::slice::group_slice_axioms;

/// The kind of a schema node.
#[derive(Debug, Clone, Copy, PartialEq, Eq, Structural)]
pub enum NodeKind {
    Container,
    Leaf,
    LeafList,
    List,
    Choice,
    Case,
    Anyxml,
    Anydata,
    Rpc,
    Action,
    Notification,
    Input,
    Output,
}

/// Whether nodes of kind `k` appear directly in instance data: the six
/// data-definition kinds.
pub open spec fn is_data_kind(k: NodeKind) -> bool {
    match k {
        NodeKind::Container | NodeKind::Leaf | NodeKind::LeafList | NodeKind::List
        | NodeKind::Anyxml | NodeKind::Anydata => true,
        _ => false,
    }
}

impl NodeKind {
    /// [`is_data_kind`] computed.
    pub fn is_data(&self) -> (r: bool)
        ensures
            r == is_data_kind(*self),
    {
        match self {
            NodeKind::Container | NodeKind::Leaf | NodeKind::LeafList | NodeKind::List
            | NodeKind::Anyxml | NodeKind::Anydata => true,
            _ => false,
        }
    }
}

/// One node of a module's effective schema tree.
pub struct SchemaNode {
    pub kind: NodeKind,
    pub name: String,
    /// Direct children (ids in the same module).
    pub children: Vec<usize>,
    /// The instance-visible children: data nodes, also those reached
    /// through `choice` and `case`.
    pub data_children: Vec<usize>,
    /// The `input` child of an `rpc` or `action`.
    pub rpc_input: Option<usize>,
    /// The module whose namespace owns the node in instance data.
    pub instance_module: String,
    pub mandatory: bool,
    /// The `key` leaf names of a list.
    pub keys: Vec<String>,
    /// A `key` leaf of its list.
    pub is_key: bool,
    /// A `default` is declared (for a `choice`: a default case).
    pub has_default: bool,
    /// The resolved value type of a `leaf` or `leaf-list`.
    pub value_type: Option<ValueType>,
    /// The argument of the node's `type` statement, as written.
    pub type_arg: Option<String>,
    /// The file that defines the node.
    pub defining_url: String,
    /// Where the definition starts in that file (a byte offset).
    pub defining_start: usize,
    /// Where the definition ends in that file (a byte offset).
    pub defining_end: usize,
}

/// One compiled module.
pub struct SchemaModule {
    pub name: String,
    pub namespace: Option<String>,
    /// This record is the one a lookup by name finds (its latest revision).
    pub latest: bool,
    pub nodes: Vec<SchemaNode>,
    /// Top-level node ids, in source order.
    pub top_nodes: Vec<usize>,
}

/// The compiled modules of a workspace.
pub struct Schema {
    pub modules: Vec<SchemaModule>,
}

/// `k` is the first module named `name` that is a latest revision.
pub open spec fn is_module_idx(ms: Seq<SchemaModule>, name: Seq<char>, k: int) -> bool {
    &&& 0 <= k < ms.len()
    &&& ms[k].name@ == name && ms[k].latest
    &&& forall|j: int| 0 <= j < k ==> !(#[trigger] ms[j].name@ == name && ms[j].latest)
}

/// The module a lookup by `name` finds.
pub open spec fn module_idx(ms: Seq<SchemaModule>, name: Seq<char>) -> Option<int> {
    if exists|k: int| is_module_idx(ms, name, k) {
        Some(choose|k: int| is_module_idx(ms, name, k))
    } else {
        None
    }
}

pub proof fn lemma_module_idx(ms: Seq<SchemaModule>, name: Seq<char>, k: int)
    requires
        is_module_idx(ms, name, k),
    ensures
        module_idx(ms, name) == Some(k),
{
    let j = choose|j: int| is_module_idx(ms, name, j);
    assert(is_module_idx(ms, name, j));
    if j < k {
        assert(ms[j].name@ == name && ms[j].latest);
    }
    if k < j {
        assert(ms[k].name@ == name && ms[k].latest);
    }
}

/// Node `id` of module `m`, when in range.
pub open spec fn node_of(m: SchemaModule, id: int) -> Option<SchemaNode> {
    if 0 <= id < m.nodes@.len() {
        Some(m.nodes@[id])
    } else {
        None
    }
}

/// The namespace that owns `n` in instance data: its instance module's.
pub open spec fn instance_ns(ms: Seq<SchemaModule>, n: SchemaNode) -> Option<Seq<char>> {
    match module_idx(ms, n.instance_module@) {
        Some(k) => opt_view(ms[k].namespace),
        None => None,
    }
}

impl Schema {
    /// The module a lookup by `name` finds ([`module_idx`]).
    pub fn module(&self, name: &str) -> (r: Option<usize>)
        ensures
            match r {
                Some(k) => module_idx(self.modules@, name@) == Some(k as int),
                None => module_idx(self.modules@, name@) is None,
            },
    {
        let nc = chars_of(name);
        let mut k: usize = 0;
        while k < self.modules.len()
            invariant
                k <= self.modules@.len(),
                nc@ == name@,
                forall|j: int| 0 <= j < k ==> !(#[trigger] self.modules@[j].name@ == name@ && self.modules@[j].latest),
            decreases self.modules@.len() - k,
        {
            let m = &self.modules[k];
            let mc = chars_of(m.name.as_str());
            if m.latest && chars_eq(mc.as_slice(), nc.as_slice()) {
                proof {
                    lemma_module_idx(self.modules@, name@, k as int);
                }
                return Some(k);
            }
            k = k + 1;
        }
        None
    }

    /// The namespace of `n`'s instance module ([`instance_ns`]).
    pub fn instance_ns(&self, n: &SchemaNode) -> (r: Option<String>)
        ensures
            opt_view(r) == instance_ns(self.modules@, *n),
    {
        match self.module(n.instance_module.as_str()) {
            Some(k) => match &self.modules[k].namespace {
                Some(ns) => Some(ns.clone()),
                None => None,
            },
            None => None,
        }
    }
}

impl SchemaModule {
    /// Node `id`, when in range ([`node_of`]).
    pub fn node(&self, id: usize) -> (r: Option<&SchemaNode>)
        ensures
            match r {
                Some(n) => node_of(*self, id as int) == Some(*n),
                None => node_of(*self, id as int) is None,
            },
    {
        if id < self.nodes.len() {
            Some(&self.nodes[id])
        } else {
            None
        }
    }
}


/// A module record's revision as the latest-revision rule compares it: a
/// record without a revision counts as the empty one.
pub open spec fn rev_text(r: Option<Seq<char>>) -> Seq<char> {
    match r {
        Some(t) => t,
        None => Seq::empty(),
    }
}

/// Record `i` of the (name, revision) records `rs` is the one a lookup of
/// its name finds: of the records with that name, the first with the
/// greatest revision (revisions compared as strings).
pub open spec fn is_latest_record(rs: Seq<(Seq<char>, Option<Seq<char>>)>, i: int) -> bool {
    forall|j: int| 0 <= j < rs.len() && j != i && #[trigger] rs[j].0 == rs[i].0 ==> if j < i {
        lex_lt(rev_text(rs[j].1), rev_text(rs[i].1))
    } else {
        !lex_lt(rev_text(rs[i].1), rev_text(rs[j].1))
    }
}

/// The view of (name, revision) records.
pub open spec fn record_views(rs: Seq<(String, Option<String>)>) -> Seq<(Seq<char>, Option<Seq<char>>)> {
    rs.map_values(|r: (String, Option<String>)| (r.0@, opt_view(r.1)))
}

/// Which of the module records `records` (name and revision, in the
/// library's order) a lookup by name finds ([`is_latest_record`]).
pub fn latest_flags(records: &Vec<(String, Option<String>)>) -> (r: Vec<bool>)
    ensures
        r@.len() == records@.len(),
        forall|i: int| 0 <= i < r@.len() ==> r@[i] == is_latest_record(record_views(records@), i),
{
    let ghost rs = record_views(records@);
    let n = records.len();
    let mut out: Vec<bool> = Vec::new();
    let mut i: usize = 0;
    while i < n
        invariant
            n == records@.len(),
            rs == record_views(records@),
            i <= n,
            out@.len() == i,
            forall|a: int| 0 <= a < i ==> out@[a] == is_latest_record(rs, a),
        decreases n - i,
    {
        let ri = match &records[i].1 {
            Some(t) => t.as_str(),
            None => "",
        };
        proof {
            assert(rs[i as int] == (records@[i as int].0@, opt_view(records@[i as int].1)));
            reveal_strlit("");
            assert(ri@ == rev_text(rs[i as int].1));
        }
        let mut ok = true;
        let mut j: usize = 0;
        while j < n && ok
            invariant
                n == records@.len(),
                rs == record_views(records@),
                i < n,
                j <= n,
                ri@ == rev_text(rs[i as int].1),
                ok ==> forall|c: int| 0 <= c < j && c != i && #[trigger] rs[c].0 == rs[i as int].0 ==> if c < i {
                    lex_lt(rev_text(rs[c].1), rev_text(rs[i as int].1))
                } else {
                    !lex_lt(rev_text(rs[i as int].1), rev_text(rs[c].1))
                },
                !ok ==> !is_latest_record(rs, i as int),
            decreases n - j,
        {
            if j != i && str_eq(records[j].0.as_str(), records[i].0.as_str()) {
                let rj = match &records[j].1 {
                    Some(t) => t.as_str(),
                    None => "",
                };
                proof {
                    assert(rs[j as int] == (records@[j as int].0@, opt_view(records@[j as int].1)));
                    reveal_strlit("");
                    assert(rj@ == rev_text(rs[j as int].1));
                }
                proof {
                    assert(rs[j as int].0 == rs[i as int].0);
                }
                if j < i {
                    if !lex_less(rj, ri) {
                        ok = false;
                    }
                } else {
                    if lex_less(ri, rj) {
                        ok = false;
                    }
                }
            } else {
                proof {
                    if j != i {
                        assert(rs[j as int] == (records@[j as int].0@, opt_view(records@[j as int].1)));
                    }
                }
            }
            j = j + 1;
        }
        out.push(ok);
        i = i + 1;
    }
    out
}
} // verus!
