//! The diagnostics depth shared by the XML and JSON mappers.
//!
//! Given an instantiated schema data node, compare which of its direct data
//! children are present in the instance document and report:
//!
//! - a missing required child: a `mandatory true` data node, or one of a
//!   list entry's `key` leaves;
//! - a `choice` with no instantiated case and no `default` case (which would
//!   make absence legal, RFC 7950 §7.9.3).
//!
//! Only direct children are required of the present node: a mandatory leaf
//! inside a `case` is a property of that case, so `choice`s are analysed as
//! their own groups and what lies under them is not counted twice.

use vstd::prelude::*;
use crate::schema::{is_data_kind, module_idx, node_of, NodeKind, Schema, SchemaModule};
use crate::text::views;

verus! {

broadcast use vstd::slice::group_slice_axioms;

/// A `choice` with no instantiated case.
pub struct ChoiceGap {
    /// The choice's schema name.
    pub name: String,
    /// Names of the case content that would satisfy it.
    pub options: Vec<String>,
}

/// The depth findings for one present data node.
pub struct DepthReport {
    /// Names of required direct data children that are absent.
    pub missing: Vec<String>,
    /// `choice`s with no instantiated case and no default.
    pub choices: Vec<ChoiceGap>,
}

/// The view of a choice gap: its name and its options.
pub open spec fn gap_view(g: ChoiceGap) -> (Seq<char>, Seq<Seq<char>>) {
    (g.name@, views(g.options@))
}

/// The views of a sequence of choice gaps.
pub open spec fn gap_views(gs: Seq<ChoiceGap>) -> Seq<(Seq<char>, Seq<Seq<char>>)> {
    gs.map_values(|g: ChoiceGap| gap_view(g))
}

/// The names of the nodes `ids` of `m` that exist, in order.
pub open spec fn option_names(m: SchemaModule, ids: Seq<usize>) -> Seq<Seq<char>>
    decreases ids.len(),
{
    if ids.len() == 0 {
        Seq::empty()
    } else {
        let rest = option_names(m, ids.drop_last());
        match node_of(m, ids.last() as int) {
            Some(n) => rest.push(n.name@),
            None => rest,
        }
    }
}

/// Child `c` of a container (or, when `is_list`, a list entry) must be
/// present: a mandatory data node or a list key.
pub open spec fn required_child(m: SchemaModule, is_list: bool, c: usize) -> bool {
    &&& node_of(m, c as int) matches Some(n)
    &&& is_data_kind(n.kind)
    &&& (n.mandatory || (is_list && n.is_key))
}

/// The names of the required children among `cs` that are not present.
pub open spec fn missing_names(m: SchemaModule, is_list: bool, cs: Seq<usize>, present: Seq<usize>) -> Seq<Seq<char>>
    decreases cs.len(),
{
    if cs.len() == 0 {
        Seq::empty()
    } else {
        let rest = missing_names(m, is_list, cs.drop_last(), present);
        let c = cs.last();
        if required_child(m, is_list, c) && !present.contains(c) {
            rest.push(node_of(m, c as int).unwrap().name@)
        } else {
            rest
        }
    }
}

/// Child `c` is a `choice` without a default case of which nothing
/// selectable is present.
pub open spec fn open_choice(m: SchemaModule, c: usize, present: Seq<usize>) -> bool {
    &&& node_of(m, c as int) matches Some(n)
    &&& n.kind == NodeKind::Choice
    &&& !n.has_default
    &&& !exists|j: int| 0 <= j < n.data_children@.len() && present.contains(#[trigger] n.data_children@[j])
}

/// The open choices among `cs`, with their options.
pub open spec fn choice_gaps(m: SchemaModule, cs: Seq<usize>, present: Seq<usize>) -> Seq<(Seq<char>, Seq<Seq<char>>)>
    decreases cs.len(),
{
    if cs.len() == 0 {
        Seq::empty()
    } else {
        let rest = choice_gaps(m, cs.drop_last(), present);
        let c = cs.last();
        if open_choice(m, c, present) {
            let n = node_of(m, c as int).unwrap();
            rest.push((n.name@, option_names(m, n.data_children@)))
        } else {
            rest
        }
    }
}

/// The missing required children and the open choices of node `id` of
/// module `module`, when it is a container or list; nothing otherwise.
pub open spec fn depth_report(ms: Seq<SchemaModule>, module: Seq<char>, id: int, present: Seq<usize>) -> (Seq<Seq<char>>, Seq<(Seq<char>, Seq<Seq<char>>)>) {
    match module_idx(ms, module) {
        Some(k) => match node_of(ms[k], id) {
            Some(n) => if n.kind == NodeKind::Container || n.kind == NodeKind::List {
                (
                    missing_names(ms[k], n.kind == NodeKind::List, n.children@, present),
                    choice_gaps(ms[k], n.children@, present),
                )
            } else {
                (Seq::empty(), Seq::empty())
            },
            None => (Seq::empty(), Seq::empty()),
        },
        None => (Seq::empty(), Seq::empty()),
    }
}

/// Whether `present` holds `c`.
fn holds(present: &Vec<usize>, c: usize) -> (r: bool)
    ensures
        r == present@.contains(c),
{
    let mut k: usize = 0;
    while k < present.len()
        invariant
            k <= present@.len(),
            forall|j: int| 0 <= j < k ==> present@[j] != c,
        decreases present@.len() - k,
    {
        if present[k] == c {
            proof {
                assert(present@[k as int] == c);
            }
            return true;
        }
        k = k + 1;
    }
    false
}

/// The names of the nodes `ids` of `m` that exist ([`option_names`]).
fn names_of(m: &SchemaModule, ids: &Vec<usize>) -> (r: Vec<String>)
    ensures
        views(r@) == option_names(*m, ids@),
{
    let mut out: Vec<String> = Vec::new();
    let mut k: usize = 0;
    proof {
        assert(ids@.take(0) =~= Seq::<usize>::empty());
        assert(views(out@) =~= Seq::<Seq<char>>::empty());
    }
    while k < ids.len()
        invariant
            k <= ids@.len(),
            views(out@) == option_names(*m, ids@.take(k as int)),
        decreases ids@.len() - k,
    {
        proof {
            assert(ids@.take(k + 1).drop_last() =~= ids@.take(k as int));
            assert(ids@.take(k + 1).last() == ids@[k as int]);
        }
        match m.node(ids[k]) {
            Some(n) => {
                let name = n.name.clone();
                proof {
                    assert(views(out@.push(name)) =~= views(out@).push(name@));
                }
                out.push(name);
            },
            None => {},
        }
        k = k + 1;
    }
    proof {
        assert(ids@.take(ids@.len() as int) =~= ids@);
    }
    out
}

/// Analyse the required direct children of schema node `id` of `module`
/// ([`depth_report`]); `present` lists the schema ids of the direct data
/// children (and choice content) instantiated in the document.
pub fn analyze(schema: &Schema, module: &str, id: usize, present: &Vec<usize>) -> (r: DepthReport)
    ensures
        views(r.missing@) == depth_report(schema.modules@, module@, id as int, present@).0,
        gap_views(r.choices@) == depth_report(schema.modules@, module@, id as int, present@).1,
{
    let mut missing: Vec<String> = Vec::new();
    let mut choices: Vec<ChoiceGap> = Vec::new();
    proof {
        assert(views(missing@) =~= Seq::<Seq<char>>::empty());
        assert(gap_views(choices@) =~= Seq::<(Seq<char>, Seq<Seq<char>>)>::empty());
    }
    let k = match schema.module(module) {
        Some(k) => k,
        None => {
            return DepthReport { missing, choices };
        },
    };
    let rec = &schema.modules[k];
    let node = match rec.node(id) {
        Some(n) => n,
        None => {
            return DepthReport { missing, choices };
        },
    };
    let is_list = match node.kind {
        NodeKind::List => true,
        _ => false,
    };
    let is_container = match node.kind {
        NodeKind::Container => true,
        _ => false,
    };
    if !is_list && !is_container {
        return DepthReport { missing, choices };
    }
    let cs = &node.children;
    let mut i: usize = 0;
    proof {
        assert(cs@.take(0) =~= Seq::<usize>::empty());
    }
    while i < cs.len()
        invariant
            i <= cs@.len(),
            is_list == (node.kind == NodeKind::List),
            views(missing@) == missing_names(*rec, is_list, cs@.take(i as int), present@),
            gap_views(choices@) == choice_gaps(*rec, cs@.take(i as int), present@),
        decreases cs@.len() - i,
    {
        let c = cs[i];
        proof {
            assert(cs@.take(i + 1).drop_last() =~= cs@.take(i as int));
            assert(cs@.take(i + 1).last() == c);
        }
        match rec.node(c) {
            Some(child) => {
                if child.kind.is_data() {
                    let required = child.mandatory || (is_list && child.is_key);
                    if required && !holds(present, c) {
                        let name = child.name.clone();
                        proof {
                            assert(views(missing@.push(name)) =~= views(missing@).push(name@));
                        }
                        missing.push(name);
                    }
                } else {
                    match child.kind {
                        NodeKind::Choice => {
                            if !child.has_default {
                                let sel = &child.data_children;
                                let mut j: usize = 0;
                                let mut any = false;
                                while j < sel.len() && !any
                                    invariant
                                        j <= sel@.len(),
                                        any ==> (0 < j && present@.contains(sel@[j - 1])),
                                        !any ==> forall|q: int| 0 <= q < j ==> !present@.contains(#[trigger] sel@[q]),
                                    decreases sel@.len() - j,
                                {
                                    if holds(present, sel[j]) {
                                        any = true;
                                    }
                                    j = j + 1;
                                }
                                if !any {
                                    let gap = ChoiceGap { name: child.name.clone(), options: names_of(rec, sel) };
                                    proof {
                                        assert(gap_views(choices@.push(gap)) =~= gap_views(choices@).push(gap_view(gap)));
                                    }
                                    choices.push(gap);
                                } else {
                                    proof {
                                        assert(present@.contains(sel@[j - 1]));
                                    }
                                }
                            }
                        },
                        _ => {},
                    }
                }
            },
            None => {},
        }
        i = i + 1;
    }
    proof {
        assert(cs@.take(cs@.len() as int) =~= cs@);
    }
    DepthReport { missing, choices }
}

} // verus!
