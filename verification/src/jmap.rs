//! Instance-to-schema mapping for JSON (RFC 7951) documents.
//!
//! RFC 7951 §4: member names are `module:name` where the qualifier is the
//! name of the module that owns the node's instance namespace. Top-level
//! members are always qualified; nested members are qualified exactly when
//! their namespace differs from the parent's (a bare member lives in the
//! parent member's module).

use std::ops::Range;
use vstd::prelude::*;
use crate::depth::{analyze, depth_report, gap_view, gap_views};
use crate::inst_map::{choice_diags, diag_view, diag_views, first_top, missing_message, push_diags, InstDiag, Resolved};
use crate::json::{json_parses, json_root_obj, json_tree_of, JsonDoc, JsonMember, JsonObject, JsonVal};
use crate::inst::{classify_json, json_root_intent, Intent, ModuleInfo};
use crate::syntax::json_syntax;
use crate::schema::{module_idx, node_of, NodeKind, Schema, SchemaModule, SchemaNode};
use crate::text::{chars_eq, chars_of, opt_view, push_all, push_str, slice_chars, str_get, string_of, views};
use crate::valcheck::{check_defined, check_defined_for, check_value, push_joined, ValueType};
use crate::inst_map::value_outcome_ok;
use crate::json::ranges_view;
use crate::text::{trim, trimmed};
use vstd::string::StringSliceAdditionalSpecFns;
use vstd::utf8::{decode_utf8, is_char_boundary};

verus! {

broadcast use vstd::slice::group_slice_axioms;

/// Where a member is resolved.
pub enum Ctx {
    /// The root object: members select top-level data nodes of modules.
    Top,
    /// Inside node `id` of `module`: members are its data children; `def` is
    /// the module a bare member belongs to (the parent member's instance
    /// module).
    Node { module: String, id: usize, def: String },
}

/// The mathematical form of a [`Ctx`].
pub enum CtxView {
    Top,
    Node(Seq<char>, int, Seq<char>),
}

/// The view of a context.
pub open spec fn ctx_view(c: Ctx) -> CtxView {
    match c {
        Ctx::Top => CtxView::Top,
        Ctx::Node { module, id, def } => CtxView::Node(module@, id as int, def@),
    }
}

/// The view of an optional resolution.
pub open spec fn res_view(r: Option<Resolved>) -> Option<(Seq<char>, int)> {
    match r {
        Some(x) => Some((x.module@, x.id as int)),
        None => None,
    }
}

/// The views of the resolutions of all members.
pub open spec fn res_views(rs: Seq<Option<Resolved>>) -> Seq<Option<(Seq<char>, int)>> {
    rs.map_values(|r: Option<Resolved>| res_view(r))
}

/// The result of mapping all members of a JSON document.
pub struct JMap {
    /// What each member maps to, by member index.
    pub res: Vec<Option<Resolved>>,
    pub diags: Vec<InstDiag>,
}

impl JMap {
    /// The schema node a member maps to, if it is mapped.
    pub fn resolved(&self, member: usize) -> (r: Option<&Resolved>)
        ensures
            match r {
                Some(x) => member < self.res@.len() && res_view(self.res@[member as int]) == Some((x.module@, x.id as int)),
                None => !(member < self.res@.len() && self.res@[member as int] is Some),
            },
    {
        if member < self.res.len() {
            match &self.res[member] {
                Some(x) => Some(x),
                None => None,
            }
        } else {
            None
        }
    }
}

/// The instance-visible children of node `id` of `m` (none when absent).
pub open spec fn data_children_of(m: SchemaModule, id: int) -> Seq<usize> {
    match node_of(m, id) {
        Some(n) => n.data_children@,
        None => Seq::empty(),
    }
}

/// Among `ids`, the first child named `local` in instance module `q`;
/// `None` as soon as an id names no node.
pub open spec fn first_child(m: SchemaModule, ids: Seq<usize>, local: Seq<char>, q: Seq<char>) -> Option<int>
    decreases ids.len(),
{
    if ids.len() == 0 {
        None
    } else {
        match node_of(m, ids[0] as int) {
            None => None,
            Some(n) => if n.name@ == local && n.instance_module@ == q {
                Some(ids[0] as int)
            } else {
                first_child(m, ids.drop_first(), local, q)
            },
        }
    }
}

/// The schema child of node `id` of `module` named `local` whose instance
/// module is `q`.
pub open spec fn child_in(ms: Seq<SchemaModule>, module: Seq<char>, id: int, local: Seq<char>, q: Seq<char>) -> Option<int> {
    match module_idx(ms, module) {
        Some(k) => first_child(ms[k], data_children_of(ms[k], id), local, q),
        None => None,
    }
}

/// Some data child of node `id` of `module` is named `local`.
pub open spec fn name_in(ms: Seq<SchemaModule>, module: Seq<char>, id: int, local: Seq<char>) -> bool {
    match module_idx(ms, module) {
        Some(k) => exists|j: int|
            0 <= j < data_children_of(ms[k], id).len() && (node_of(ms[k], #[trigger] data_children_of(ms[k], id)[j] as int) matches Some(
                n,
            ) && n.name@ == local),
        None => false,
    }
}

/// What resolving a member (local name `local`, qualifier `q`, key range
/// `s..e`) in context `ctx` gives: the schema node and the diagnostics.
pub open spec fn member_outcome(ms: Seq<SchemaModule>, local: Seq<char>, q: Option<Seq<char>>, ctx: CtxView, s: int, e: int) -> (Option<(Seq<char>, int)>, Seq<(int, int, Seq<char>, Seq<char>)>) {
    match ctx {
        CtxView::Top => match q {
            None => (
                None,
                seq![(s, e, "top-level member must be module-qualified (RFC 7951 §4)"@, "json_unknown_member"@)],
            ),
            Some(module) => match module_idx(ms, module) {
                None => (None, Seq::empty()),
                Some(k) => match first_top(ms[k], ms[k].top_nodes@, local, false) {
                    Some(id) => (Some((module, id)), Seq::empty()),
                    None => (
                        None,
                        seq![
                            (
                                s,
                                e,
                                "unknown member `"@ + local + "` (module `"@ + module + "` has no top-level data node)"@,
                                "json_unknown_member"@,
                            ),
                        ],
                    ),
                },
            },
        },
        CtxView::Node(module, id, def) => {
            let expected = match q {
                Some(x) => x,
                None => def,
            };
            match child_in(ms, module, id, local, expected) {
                Some(c) => (Some((module, c)), Seq::empty()),
                None => if name_in(ms, module, id, local) {
                    (
                        None,
                        seq![
                            (
                                s,
                                e,
                                "member `"@ + local + "` is not in module `"@ + expected
                                    + "` here (it belongs to another module's namespace)"@,
                                "json_wrong_module"@,
                            ),
                        ],
                    )
                } else {
                    (
                        None,
                        seq![(s, e, "unknown member `"@ + local + "` (not a child of this node)"@, "json_unknown_member"@)],
                    )
                },
            }
        },
    }
}

/// The member and object indices of `doc` are in range, and every object
/// a member's value names comes after the object holding the member.
pub open spec fn doc_wf(doc: JsonDoc) -> bool {
    &&& forall|o: int, k: int|
        0 <= o < doc.objects@.len() && 0 <= k < doc.objects@[o].members@.len() ==> #[trigger] doc.objects@[o].members@[k]
            < doc.members@.len()
    &&& forall|o: int, k: int|
        0 <= o < doc.objects@.len() && 0 <= k < doc.objects@[o].members@.len() ==> match #[trigger] doc.members@[doc.objects@[o].members@[k] as int].val {
            JsonVal::Object(c) => o < c,
            JsonVal::Array(list) => forall|j: int| 0 <= j < list@.len() ==> o < #[trigger] list@[j],
            JsonVal::Leaf => true,
        }
}

/// The context for the value of a member resolved to node `id` of
/// `module`: bare members below it belong to its instance module.
pub open spec fn child_ctx(ms: Seq<SchemaModule>, module: Seq<char>, id: int) -> CtxView {
    CtxView::Node(
        module,
        id,
        match module_idx(ms, module) {
            Some(k) => match node_of(ms[k], id) {
                Some(n) => n.instance_module@,
                None => module,
            },
            None => module,
        },
    )
}

/// The resolutions and diagnostics of a walk.
pub type WalkState = (Seq<Option<(Seq<char>, int)>>, Seq<(int, int, Seq<char>, Seq<char>)>);

/// Walk object `obj` in context `ctx`.
pub open spec fn walk_obj(ms: Seq<SchemaModule>, doc: JsonDoc, obj: int, ctx: CtxView, st: WalkState) -> WalkState
    decreases doc.objects@.len() - obj, 2int, 0int,
{
    if 0 <= obj < doc.objects@.len() {
        walk_members(ms, doc, obj, 0, ctx, st)
    } else {
        st
    }
}

/// Walk the members of object `obj` from the `k`-th on.
pub open spec fn walk_members(ms: Seq<SchemaModule>, doc: JsonDoc, obj: int, k: int, ctx: CtxView, st: WalkState) -> WalkState
    decreases doc.objects@.len() - obj, 1int, doc.objects@[obj].members@.len() - k,
{
    if !(0 <= obj < doc.objects@.len()) || k < 0 || k >= doc.objects@[obj].members@.len() {
        st
    } else {
        let m = doc.objects@[obj].members@[k] as int;
        if m >= doc.members@.len() {
            walk_members(ms, doc, obj, k + 1, ctx, st)
        } else {
            let mb = doc.members@[m];
            let (r, d) = member_outcome(ms, mb.local@, opt_view(mb.module), ctx, mb.key_range.start as int, mb.key_range.end as int);
            let st1 = (st.0.update(m, r), st.1 + d);
            let st2 = match r {
                None => st1,
                Some((module, id)) => match mb.val {
                    JsonVal::Object(c) => if obj < c < doc.objects@.len() {
                        walk_obj(ms, doc, c as int, child_ctx(ms, module, id), st1)
                    } else {
                        st1
                    },
                    JsonVal::Array(list) => walk_list(ms, doc, obj, list@, 0, child_ctx(ms, module, id), st1),
                    JsonVal::Leaf => st1,
                },
            };
            walk_members(ms, doc, obj, k + 1, ctx, st2)
        }
    }
}

/// Walk the list entries `list[j..]` of a member of object `obj`.
pub open spec fn walk_list(ms: Seq<SchemaModule>, doc: JsonDoc, obj: int, list: Seq<usize>, j: int, ctx: CtxView, st: WalkState) -> WalkState
    decreases doc.objects@.len() - obj, 0int, list.len() - j,
{
    if j < 0 || j >= list.len() {
        st
    } else {
        let c = list[j] as int;
        let st1 = if obj < c < doc.objects@.len() {
            walk_obj(ms, doc, c, ctx, st)
        } else {
            st
        };
        walk_list(ms, doc, obj, list, j + 1, ctx, st1)
    }
}

/// The children of node `id` of `module` named `local` in instance module
/// `qualifier` ([`child_in`]).
#[verifier::loop_isolation(false)]
fn find_child(schema: &Schema, module: &str, id: usize, local: &str, qualifier: &str) -> (r: Option<usize>)
    ensures
        match r {
            Some(c) => child_in(schema.modules@, module@, id as int, local@, qualifier@) == Some(c as int),
            None => child_in(schema.modules@, module@, id as int, local@, qualifier@) is None,
        },
{
    let k = match schema.module(module) {
        Some(k) => k,
        None => {
            return None;
        },
    };
    let rec = &schema.modules[k];
    let empty: Vec<usize> = Vec::new();
    let ids: &Vec<usize> = match rec.node(id) {
        Some(n) => &n.data_children,
        None => &empty,
    };
    proof {
        assert(empty@ =~= Seq::<usize>::empty());
        assert(ids@ == data_children_of(*rec, id as int));
        assert(ids@.skip(0) =~= ids@);
    }
    let lc = chars_of(local);
    let qc = chars_of(qualifier);
    let mut j: usize = 0;
    while j < ids.len()
        invariant
            j <= ids@.len(),
            lc@ == local@,
            qc@ == qualifier@,
            first_child(*rec, ids@, local@, qualifier@) == first_child(*rec, ids@.skip(j as int), local@, qualifier@),
        decreases ids@.len() - j,
    {
        proof {
            assert(ids@.skip(j as int)[0] == ids@[j as int]);
            assert(ids@.skip(j as int).drop_first() =~= ids@.skip(j + 1));
        }
        let c = ids[j];
        match rec.node(c) {
            None => {
                return None;
            },
            Some(n) => {
                if chars_eq(chars_of(n.name.as_str()).as_slice(), lc.as_slice()) && chars_eq(
                    chars_of(n.instance_module.as_str()).as_slice(),
                    qc.as_slice(),
                ) {
                    return Some(c);
                }
            },
        }
        j = j + 1;
    }
    None
}

/// Whether some data child of node `id` of `module` is named `local`
/// ([`name_in`]): to tell a member in the wrong module from an unknown one.
#[verifier::loop_isolation(false)]
fn name_exists(schema: &Schema, module: &str, id: usize, local: &str) -> (r: bool)
    ensures
        r == name_in(schema.modules@, module@, id as int, local@),
{
    let k = match schema.module(module) {
        Some(k) => k,
        None => {
            return false;
        },
    };
    let rec = &schema.modules[k];
    let empty: Vec<usize> = Vec::new();
    let ids: &Vec<usize> = match rec.node(id) {
        Some(n) => &n.data_children,
        None => &empty,
    };
    proof {
        assert(empty@ =~= Seq::<usize>::empty());
        assert(ids@ == data_children_of(*rec, id as int));
    }
    let lc = chars_of(local);
    let mut j: usize = 0;
    while j < ids.len()
        invariant
            j <= ids@.len(),
            lc@ == local@,
            forall|q: int| 0 <= q < j ==> !(node_of(*rec, #[trigger] ids@[q] as int) matches Some(n) && n.name@ == local@),
        decreases ids@.len() - j,
    {
        match rec.node(ids[j]) {
            Some(n) => {
                if chars_eq(chars_of(n.name.as_str()).as_slice(), lc.as_slice()) {
                    proof {
                        assert(node_of(*rec, ids@[j as int] as int) matches Some(n) && n.name@ == local@);
                    }
                    return true;
                }
            },
            None => {},
        }
        j = j + 1;
    }
    false
}

/// One diagnostic at `range`.
fn diag_at(range: &Range<usize>, message: Vec<char>, code: &'static str) -> (r: InstDiag)
    ensures
        diag_view(r) == (range.start as int, range.end as int, message@, code@),
{
    InstDiag { range: Range { start: range.start, end: range.end }, message: string_of(message.as_slice()), code }
}

/// Resolve a member in context `ctx` ([`member_outcome`]), reporting one
/// that is unqualified at the top level, unknown, or in the wrong module.
#[verifier::loop_isolation(false)]
pub fn resolve_member(
    schema: &Schema,
    local: &str,
    qualifier: &Option<String>,
    ctx: &Ctx,
    range: &Range<usize>,
    diags: &mut Vec<InstDiag>,
) -> (r: Option<Resolved>)
    ensures
        res_view(r) == member_outcome(schema.modules@, local@, opt_view(*qualifier), ctx_view(*ctx), range.start as int, range.end as int).0,
        diag_views(final(diags)@) == diag_views(old(diags)@) + member_outcome(schema.modules@, local@, opt_view(*qualifier), ctx_view(*ctx), range.start as int, range.end as int).1,
{
    let ghost d0 = diag_views(diags@);
    proof {
        assert(d0 + Seq::<(int, int, Seq<char>, Seq<char>)>::empty() =~= d0);
    }
    match ctx {
        Ctx::Top => {
            let module = match qualifier {
                Some(m) => m,
                None => {
                    let mut t: Vec<char> = Vec::new();
                    push_str(&mut t, "top-level member must be module-qualified (RFC 7951 §4)");
                    let d = diag_at(range, t, "json_unknown_member");
                    proof {
                        assert(diag_views(diags@.push(d)) =~= d0 + seq![diag_view(d)]);
                    }
                    diags.push(d);
                    return None;
                },
            };
            let k = match schema.module(module.as_str()) {
                Some(k) => k,
                None => {
                    return None;
                },
            };
            let rec = &schema.modules[k];
            let tops = &rec.top_nodes;
            let lc = chars_of(local);
            let mut t: usize = 0;
            proof {
                assert(tops@.skip(0) =~= tops@);
            }
            while t < tops.len()
                invariant
                    t <= tops@.len(),
                    lc@ == local@,
                    *tops == rec.top_nodes,
                    first_top(*rec, tops@, local@, false) == first_top(*rec, tops@.skip(t as int), local@, false),
                decreases tops@.len() - t,
            {
                proof {
                    assert(tops@.skip(t as int)[0] == tops@[t as int]);
                    assert(tops@.skip(t as int).drop_first() =~= tops@.skip(t + 1));
                }
                let id = tops[t];
                match rec.node(id) {
                    Some(n) => {
                        if n.kind.is_data() && chars_eq(chars_of(n.name.as_str()).as_slice(), lc.as_slice()) {
                            return Some(Resolved { module: module.clone(), id });
                        }
                    },
                    None => {},
                }
                t = t + 1;
            }
            let mut msg: Vec<char> = Vec::new();
            push_str(&mut msg, "unknown member `");
            push_str(&mut msg, local);
            push_str(&mut msg, "` (module `");
            push_str(&mut msg, module.as_str());
            push_str(&mut msg, "` has no top-level data node)");
            proof {
                assert(msg@ =~= "unknown member `"@ + local@ + "` (module `"@ + module@ + "` has no top-level data node)"@);
            }
            let d = diag_at(range, msg, "json_unknown_member");
            proof {
                assert(diag_views(diags@.push(d)) =~= d0 + seq![diag_view(d)]);
            }
            diags.push(d);
            None
        },
        Ctx::Node { module, id, def } => {
            let expected: &str = match qualifier {
                Some(q) => q.as_str(),
                None => def.as_str(),
            };
            match find_child(schema, module.as_str(), *id, local, expected) {
                Some(c) => {
                    return Some(Resolved { module: module.clone(), id: c });
                },
                None => {},
            }
            let mut msg: Vec<char> = Vec::new();
            let code: &'static str;
            if name_exists(schema, module.as_str(), *id, local) {
                push_str(&mut msg, "member `");
                push_str(&mut msg, local);
                push_str(&mut msg, "` is not in module `");
                push_str(&mut msg, expected);
                push_str(&mut msg, "` here (it belongs to another module's namespace)");
                code = "json_wrong_module";
                proof {
                    assert(msg@ =~= "member `"@ + local@ + "` is not in module `"@ + expected@
                        + "` here (it belongs to another module's namespace)"@);
                }
            } else {
                push_str(&mut msg, "unknown member `");
                push_str(&mut msg, local);
                push_str(&mut msg, "` (not a child of this node)");
                code = "json_unknown_member";
                proof {
                    assert(msg@ =~= "unknown member `"@ + local@ + "` (not a child of this node)"@);
                }
            }
            let d = diag_at(range, msg, code);
            proof {
                assert(diag_views(diags@.push(d)) =~= d0 + seq![diag_view(d)]);
            }
            diags.push(d);
            None
        },
    }
}

/// A copy of a resolution.
fn copy_res(r: &Option<Resolved>) -> (c: Option<Resolved>)
    ensures
        res_view(c) == res_view(*r),
{
    match r {
        Some(x) => Some(Resolved { module: x.module.clone(), id: x.id }),
        None => None,
    }
}

/// The context for the value of a member resolved to node `id` of
/// `module` ([`child_ctx`]).
fn value_ctx(schema: &Schema, module: &String, id: usize) -> (r: Ctx)
    ensures
        ctx_view(r) == child_ctx(schema.modules@, module@, id as int),
{
    let def = match schema.module(module.as_str()) {
        Some(k) => match schema.modules[k].node(id) {
            Some(n) => n.instance_module.clone(),
            None => module.clone(),
        },
        None => module.clone(),
    };
    Ctx::Node { module: module.clone(), id, def }
}

/// Walk object `obj` in context `ctx` ([`walk_obj`]): resolve each member,
/// then the members of its value when it resolved.
#[verifier::loop_isolation(false)]
fn walk(schema: &Schema, doc: &JsonDoc, obj: usize, ctx: &Ctx, res: &mut Vec<Option<Resolved>>, diags: &mut Vec<InstDiag>)
    requires
        doc_wf(*doc),
        old(res)@.len() == doc.members@.len(),
    ensures
        final(res)@.len() == doc.members@.len(),
        (res_views(final(res)@), diag_views(final(diags)@)) == walk_obj(
            schema.modules@,
            *doc,
            obj as int,
            ctx_view(*ctx),
            (res_views(old(res)@), diag_views(old(diags)@)),
        ),
    decreases doc.objects@.len() - obj,
{
    let ghost ms = schema.modules@;
    let ghost cv = ctx_view(*ctx);
    let ghost st0 = (res_views(res@), diag_views(diags@));
    if obj >= doc.objects.len() {
        return;
    }
    let object = &doc.objects[obj];
    let mut k: usize = 0;
    while k < object.members.len()
        invariant
            k <= object.members@.len(),
            res@.len() == doc.members@.len(),
            walk_members(ms, *doc, obj as int, k as int, cv, (res_views(res@), diag_views(diags@)))
                == walk_members(ms, *doc, obj as int, 0, cv, st0),
        decreases object.members@.len() - k,
    {
        let m = object.members[k];
        let ghost stk = (res_views(res@), diag_views(diags@));
        if m < doc.members.len() {
            let member = &doc.members[m];
            let mapped = resolve_member(schema, member.local.as_str(), &member.module, ctx, &member.key_range, diags);
            let ghost r = res_view(mapped);
            let keep = copy_res(&mapped);
            let ghost pre_res = res@;
            res.set(m, keep);
            proof {
                assert(res_views(res@) =~= res_views(pre_res).update(m as int, r));
            }
            let ghost st1 = (res_views(res@), diag_views(diags@));
            proof {
                let mb = doc.members@[m as int];
                let (r2, d2) = member_outcome(ms, mb.local@, opt_view(mb.module), cv, mb.key_range.start as int, mb.key_range.end as int);
                assert(r2 == r);
                assert(st1 == (stk.0.update(m as int, r2), stk.1 + d2));
            }
            match mapped {
                None => {},
                Some(resolved) => {
                    let cctx = value_ctx(schema, &resolved.module, resolved.id);
                    match &member.val {
                        JsonVal::Object(c) => {
                            if obj < *c && *c < doc.objects.len() {
                                walk(schema, doc, *c, &cctx, res, diags);
                            }
                        },
                        JsonVal::Array(list) => {
                            let mut j: usize = 0;
                            while j < list.len()
                                invariant
                                    j <= list@.len(),
                                    res@.len() == doc.members@.len(),
                                    walk_list(ms, *doc, obj as int, list@, j as int, ctx_view(cctx), (res_views(res@), diag_views(diags@)))
                                        == walk_list(ms, *doc, obj as int, list@, 0, ctx_view(cctx), st1),
                                decreases list@.len() - j,
                            {
                                let c = list[j];
                                if obj < c && c < doc.objects.len() {
                                    walk(schema, doc, c, &cctx, res, diags);
                                }
                                j = j + 1;
                            }
                        },
                        JsonVal::Leaf => {},
                    }
                },
            }
        }
        proof {
            assert(walk_members(ms, *doc, obj as int, k as int, cv, stk) == walk_members(ms, *doc, obj as int, k + 1, cv, (res_views(res@), diag_views(diags@))));
        }
        k = k + 1;
    }
}

/// The state of the depth pass: the `(anchor start, message)` pairs already
/// reported, and the diagnostics.
pub type DepthState = (Seq<(int, Seq<char>)>, Seq<(int, int, Seq<char>, Seq<char>)>);

/// Report `msg` at `s..e` unless the same message was already reported at
/// the same anchor start.
pub open spec fn push_once(st: DepthState, s: int, e: int, msg: Seq<char>, code: Seq<char>) -> DepthState {
    if st.0.contains((s, msg)) {
        st
    } else {
        (st.0.push((s, msg)), st.1.push((s, e, msg, code)))
    }
}

/// Report the gaps `gs[..k]`.
pub open spec fn push_gaps(st: DepthState, gs: Seq<(Seq<char>, Seq<Seq<char>>)>, s: int, e: int, k: nat) -> DepthState
    decreases k,
{
    if k == 0 || k > gs.len() {
        st
    } else {
        push_once(push_gaps(st, gs, s, e, (k - 1) as nat), s, e, crate::inst_map::choice_message(gs[k - 1]), "json_missing_choice"@)
    }
}

/// The schema ids of the members `ks` that map into `module`.
pub open spec fn present_members(ks: Seq<usize>, res: Seq<Option<(Seq<char>, int)>>, module: Seq<char>) -> Seq<usize>
    decreases ks.len(),
{
    if ks.len() == 0 {
        Seq::empty()
    } else {
        let rest = present_members(ks.drop_last(), res, module);
        let k = ks.last() as int;
        if k < res.len() {
            match res[k] {
                Some((m, id)) => if m == module {
                    rest.push(id as usize)
                } else {
                    rest
                },
                None => rest,
            }
        } else {
            rest
        }
    }
}

/// The depth findings for object `obj` (a container's value or a list
/// entry) against node `id` of `module`, anchored at `s..e`.
pub open spec fn depth_obj(ms: Seq<SchemaModule>, doc: JsonDoc, res: Seq<Option<(Seq<char>, int)>>, module: Seq<char>, id: int, obj: int, s: int, e: int, st: DepthState) -> DepthState {
    if 0 <= obj < doc.objects@.len() {
        let rep = depth_report(ms, module, id, present_members(doc.objects@[obj].members@, res, module));
        let st1 = if rep.0.len() > 0 {
            push_once(st, s, e, missing_message(rep.0, "member"@, "members"@), "json_missing_member"@)
        } else {
            st
        };
        push_gaps(st1, rep.1, s, e, rep.1.len())
    } else {
        st
    }
}

/// The key range a list entry's findings are anchored at: its first
/// member's key, else the list member's key.
pub open spec fn entry_anchor(doc: JsonDoc, en: int, mb: JsonMember) -> (int, int) {
    if 0 <= en < doc.objects@.len() && doc.objects@[en].members@.len() > 0
        && doc.objects@[en].members@[0] < doc.members@.len() {
        let k = doc.members@[doc.objects@[en].members@[0] as int].key_range;
        (k.start as int, k.end as int)
    } else {
        (mb.key_range.start as int, mb.key_range.end as int)
    }
}

/// The depth findings for the entries `entries[..j]` of list member `mb`.
pub open spec fn depth_entries(ms: Seq<SchemaModule>, doc: JsonDoc, res: Seq<Option<(Seq<char>, int)>>, module: Seq<char>, id: int, mb: JsonMember, entries: Seq<usize>, j: nat, st: DepthState) -> DepthState
    decreases j,
{
    if j == 0 || j > entries.len() {
        st
    } else {
        let prev = depth_entries(ms, doc, res, module, id, mb, entries, (j - 1) as nat, st);
        let a = entry_anchor(doc, entries[j - 1] as int, mb);
        depth_obj(ms, doc, res, module, id, entries[j - 1] as int, a.0, a.1, prev)
    }
}

/// The depth findings for member `m`.
pub open spec fn depth_member(ms: Seq<SchemaModule>, doc: JsonDoc, res: Seq<Option<(Seq<char>, int)>>, m: int, st: DepthState) -> DepthState {
    let mb = doc.members@[m];
    match res[m] {
        Some((module, id)) => match module_idx(ms, module) {
            Some(k) => match node_of(ms[k], id) {
                Some(n) => match mb.val {
                    JsonVal::Object(o) => if n.kind == NodeKind::Container {
                        depth_obj(ms, doc, res, module, id, o as int, mb.key_range.start as int, mb.key_range.end as int, st)
                    } else {
                        st
                    },
                    JsonVal::Array(entries) => if n.kind == NodeKind::List {
                        depth_entries(ms, doc, res, module, id, mb, entries@, entries@.len(), st)
                    } else {
                        st
                    },
                    JsonVal::Leaf => st,
                },
                None => st,
            },
            None => st,
        },
        None => st,
    }
}

/// The depth findings for members `0..k`.
pub open spec fn depth_all(ms: Seq<SchemaModule>, doc: JsonDoc, res: Seq<Option<(Seq<char>, int)>>, k: nat, st: DepthState) -> DepthState
    decreases k,
{
    if k == 0 {
        st
    } else {
        depth_member(ms, doc, res, k - 1, depth_all(ms, doc, res, (k - 1) as nat, st))
    }
}

/// The resolutions of all members and the diagnostics of a document: the
/// walk from the root object, then the depth findings; no diagnostics at
/// all when no member of the root object resolved (a dormant document).
pub open spec fn jmap_result(ms: Seq<SchemaModule>, doc: JsonDoc) -> (Seq<Option<(Seq<char>, int)>>, Seq<(int, int, Seq<char>, Seq<char>)>) {
    let n = doc.members@.len();
    let (res, d1) = walk_obj(ms, doc, doc.root as int, CtxView::Top, (Seq::new(n, |i: int| None), Seq::empty()));
    let d2 = depth_all(ms, doc, res, n, (Seq::empty(), d1)).1;
    let recognized = doc.root < doc.objects@.len() && exists|k: int|
        0 <= k < doc.objects@[doc.root as int].members@.len() && (#[trigger] res[doc.objects@[doc.root as int].members@[k] as int]) is Some;
    (res, if recognized {
        d2
    } else {
        Seq::empty()
    })
}

/// The view of the dedup state.
pub open spec fn seen_view(v: Seq<(usize, String)>) -> Seq<(int, Seq<char>)> {
    v.map_values(|p: (usize, String)| (p.0 as int, p.1@))
}

/// Report `msg` at `range` unless already reported there ([`push_once`]).
fn push_dedup(range: &Range<usize>, msg: Vec<char>, code: &'static str, seen: &mut Vec<(usize, String)>, diags: &mut Vec<InstDiag>)
    ensures
        (seen_view(final(seen)@), diag_views(final(diags)@)) == push_once(
            (seen_view(old(seen)@), diag_views(old(diags)@)),
            range.start as int,
            range.end as int,
            msg@,
            code@,
        ),
{
    let mut k: usize = 0;
    while k < seen.len()
        invariant
            k <= seen@.len(),
            forall|j: int| 0 <= j < k ==> seen_view(seen@)[j] != (range.start as int, msg@),
        decreases seen@.len() - k,
    {
        if seen[k].0 == range.start && chars_eq(chars_of(seen[k].1.as_str()).as_slice(), msg.as_slice()) {
            proof {
                assert(seen_view(seen@)[k as int] == (range.start as int, msg@));
            }
            return;
        }
        k = k + 1;
    }
    let text = string_of(msg.as_slice());
    let d = InstDiag { range: Range { start: range.start, end: range.end }, message: string_of(msg.as_slice()), code };
    proof {
        assert(seen_view(seen@.push((range.start, text))) =~= seen_view(seen@).push((range.start as int, msg@)));
        assert(diag_views(diags@.push(d)) =~= diag_views(diags@).push(diag_view(d)));
    }
    seen.push((range.start, text));
    diags.push(d);
}

/// The schema ids of the members of `object` that map into `module`
/// ([`present_members`]).
fn present_of(object: &JsonObject, res: &Vec<Option<Resolved>>, module: &str) -> (r: Vec<usize>)
    ensures
        r@ == present_members(object.members@, res_views(res@), module@),
{
    let ks = &object.members;
    let mc = chars_of(module);
    let mut out: Vec<usize> = Vec::new();
    let mut j: usize = 0;
    proof {
        assert(ks@.take(0) =~= Seq::<usize>::empty());
    }
    while j < ks.len()
        invariant
            j <= ks@.len(),
            mc@ == module@,
            out@ == present_members(ks@.take(j as int), res_views(res@), module@),
        decreases ks@.len() - j,
    {
        proof {
            assert(ks@.take(j + 1).drop_last() =~= ks@.take(j as int));
            assert(ks@.take(j + 1).last() == ks@[j as int]);
        }
        let k = ks[j];
        if k < res.len() {
            match &res[k] {
                Some(r) => {
                    if chars_eq(chars_of(r.module.as_str()).as_slice(), mc.as_slice()) {
                        out.push(r.id);
                    }
                },
                None => {},
            }
        }
        j = j + 1;
    }
    proof {
        assert(ks@.take(ks@.len() as int) =~= ks@);
    }
    out
}

/// Report the depth findings for object `obj` against node `id` of
/// `module`, anchored at `anchor` ([`depth_obj`]).
#[verifier::loop_isolation(false)]
fn push_depth(
    schema: &Schema,
    doc: &JsonDoc,
    res: &Vec<Option<Resolved>>,
    module: &str,
    id: usize,
    obj: usize,
    anchor: &Range<usize>,
    diags: &mut Vec<InstDiag>,
    seen: &mut Vec<(usize, String)>,
)
    ensures
        (seen_view(final(seen)@), diag_views(final(diags)@)) == depth_obj(
            schema.modules@,
            *doc,
            res_views(res@),
            module@,
            id as int,
            obj as int,
            anchor.start as int,
            anchor.end as int,
            (seen_view(old(seen)@), diag_views(old(diags)@)),
        ),
{
    if obj >= doc.objects.len() {
        return;
    }
    let object = &doc.objects[obj];
    let present = present_of(object, res, module);
    let report = analyze(schema, module, id, &present);
    let ghost rep = depth_report(schema.modules@, module@, id as int, present@);
    if report.missing.len() > 0 {
        let mut msg: Vec<char> = Vec::new();
        push_str(&mut msg, "missing required ");
        if report.missing.len() == 1 {
            push_str(&mut msg, "member");
        } else {
            push_str(&mut msg, "members");
        }
        push_str(&mut msg, ": ");
        push_joined(&mut msg, &report.missing);
        proof {
            assert(views(report.missing@).len() == report.missing@.len());
            assert(msg@ =~= missing_message(rep.0, "member"@, "members"@));
        }
        push_dedup(anchor, msg, "json_missing_member", seen, diags);
    } else {
        proof {
            assert(views(report.missing@).len() == report.missing@.len());
        }
    }
    let ghost st1 = (seen_view(seen@), diag_views(diags@));
    let gs = &report.choices;
    let mut k: usize = 0;
    while k < gs.len()
        invariant
            k <= gs@.len(),
            gap_views(gs@) == rep.1,
            (seen_view(seen@), diag_views(diags@)) == push_gaps(st1, rep.1, anchor.start as int, anchor.end as int, k as nat),
        decreases gs@.len() - k,
    {
        let g = &gs[k];
        let mut msg: Vec<char> = Vec::new();
        push_str(&mut msg, "no case of choice `");
        push_str(&mut msg, g.name.as_str());
        push_str(&mut msg, "` is present (expected one of: ");
        push_joined(&mut msg, &g.options);
        push_str(&mut msg, ")");
        proof {
            assert(rep.1[k as int] == gap_view(*g));
            assert(msg@ =~= crate::inst_map::choice_message(gap_view(*g)));
        }
        push_dedup(anchor, msg, "json_missing_choice", seen, diags);
        k = k + 1;
    }
}

/// The depth pass: for every present container member, the required
/// members missing from its value object; for a list member, from each
/// entry ([`depth_all`]).
#[verifier::loop_isolation(false)]
fn depth_pass(schema: &Schema, doc: &JsonDoc, res: &Vec<Option<Resolved>>, diags: &mut Vec<InstDiag>)
    requires
        res@.len() == doc.members@.len(),
    ensures
        diag_views(final(diags)@) == depth_all(schema.modules@, *doc, res_views(res@), doc.members@.len(), (Seq::empty(), diag_views(old(diags)@))).1,
{
    let ghost ms = schema.modules@;
    let ghost rv = res_views(res@);
    let ghost d0 = diag_views(diags@);
    let mut seen: Vec<(usize, String)> = Vec::new();
    proof {
        assert(seen_view(seen@) =~= Seq::<(int, Seq<char>)>::empty());
    }
    let mut m: usize = 0;
    while m < doc.members.len()
        invariant
            m <= doc.members@.len(),
            (seen_view(seen@), diag_views(diags@)) == depth_all(ms, *doc, rv, m as nat, (Seq::empty(), d0)),
        decreases doc.members@.len() - m,
    {
        let member = &doc.members[m];
        let ghost stm = (seen_view(seen@), diag_views(diags@));
        match &res[m] {
            Some(resolved) => match schema.module(resolved.module.as_str()) {
                Some(k) => match schema.modules[k].node(resolved.id) {
                    Some(node) => match &member.val {
                        JsonVal::Object(o) => {
                            match node.kind {
                                NodeKind::Container => {
                                    push_depth(schema, doc, res, resolved.module.as_str(), resolved.id, *o, &member.key_range, diags, &mut seen);
                                },
                                _ => {},
                            }
                        },
                        JsonVal::Array(entries) => {
                            match node.kind {
                                NodeKind::List => {
                                    let mut j: usize = 0;
                                    while j < entries.len()
                                        invariant
                                            j <= entries@.len(),
                                            (seen_view(seen@), diag_views(diags@)) == depth_entries(ms, *doc, rv, resolved.module@, resolved.id as int, *member, entries@, j as nat, stm),
                                        decreases entries@.len() - j,
                                    {
                                        let en = entries[j];
                                        let mut anchor = Range { start: member.key_range.start, end: member.key_range.end };
                                        if en < doc.objects.len() && doc.objects[en].members.len() > 0 {
                                            let f = doc.objects[en].members[0];
                                            if f < doc.members.len() {
                                                anchor = Range { start: doc.members[f].key_range.start, end: doc.members[f].key_range.end };
                                            }
                                        }
                                        push_depth(schema, doc, res, resolved.module.as_str(), resolved.id, en, &anchor, diags, &mut seen);
                                        j = j + 1;
                                    }
                                },
                                _ => {},
                            }
                        },
                        JsonVal::Leaf => {},
                    },
                    None => {},
                },
                None => {},
            },
            None => {},
        }
        proof {
            assert(depth_all(ms, *doc, rv, (m + 1) as nat, (Seq::empty(), d0)) == depth_member(ms, *doc, rv, m as int, stm));
        }
        m = m + 1;
    }
}

/// Map every member of `doc` to a schema node (best effort) and collect
/// the diagnostics ([`jmap_result`]). Documents that match no compiled
/// module stay dormant (no diagnostics).
pub fn map(doc: &JsonDoc, schema: &Schema) -> (r: JMap)
    requires
        doc_wf(*doc),
    ensures
        r.res@.len() == doc.members@.len(),
        res_views(r.res@) == jmap_result(schema.modules@, *doc).0,
        diag_views(r.diags@) == jmap_result(schema.modules@, *doc).1,
{
    let n = doc.members.len();
    let mut res: Vec<Option<Resolved>> = Vec::new();
    let mut i: usize = 0;
    while i < n
        invariant
            i <= n,
            n == doc.members@.len(),
            res@.len() == i,
            forall|j: int| 0 <= j < i ==> res@[j] is None,
        decreases n - i,
    {
        res.push(None);
        i = i + 1;
    }
    proof {
        assert(res_views(res@) =~= Seq::new(n as nat, |i: int| None::<(Seq<char>, int)>));
    }
    let mut diags: Vec<InstDiag> = Vec::new();
    proof {
        assert(diag_views(diags@) =~= Seq::<(int, int, Seq<char>, Seq<char>)>::empty());
    }
    let top = Ctx::Top;
    walk(schema, doc, doc.root, &top, &mut res, &mut diags);
    depth_pass(schema, doc, &res, &mut diags);
    let mut recognized = false;
    if doc.root < doc.objects.len() {
        let ms = &doc.objects[doc.root].members;
        let mut k: usize = 0;
        while k < ms.len() && !recognized
            invariant
                k <= ms@.len(),
                res@.len() == n,
                n == doc.members@.len(),
                doc.root < doc.objects@.len(),
                *ms == doc.objects@[doc.root as int].members,
                doc_wf(*doc),
                recognized ==> exists|q: int| 0 <= q < ms@.len() && (#[trigger] res_views(res@)[ms@[q] as int]) is Some,
                !recognized ==> forall|q: int| 0 <= q < k ==> (#[trigger] res_views(res@)[ms@[q] as int]) is None,
            decreases ms@.len() - k,
        {
            let m = ms[k];
            proof {
                assert(doc.objects@[doc.root as int].members@[k as int] < doc.members@.len());
                assert(m < res@.len());
            }
            if res[m].is_some() {
                recognized = true;
                proof {
                    assert(res_views(res@)[ms@[k as int] as int] is Some);
                }
            }
            k = k + 1;
        }
    }
    if !recognized {
        diags.clear();
        proof {
            assert(diag_views(diags@) =~= Seq::<(int, int, Seq<char>, Seq<char>)>::empty());
        }
    }
    JMap { res, diags }
}

/// The name for what `serde_json::from_str::<String>` gives for a JSON
/// text: the decoded string, or `None` when the text is not one JSON
/// string.
pub uninterp spec fn json_string_value(text: Seq<char>) -> Option<Seq<char>>;

/// `serde_json::from_str::<String>` on `text`, its error dropped: the
/// result is named [`json_string_value`] of the text. Nothing more is
/// claimed of it.
#[verifier::external_body]
fn decode_json_string(text: &str) -> (r: Option<String>)
    ensures
        opt_view(r) == json_string_value(text@),
{
    serde_json::from_str::<String>(text).ok()
}

/// The canonical text of an RFC 7951 member value that the value check
/// reads: `[null]` is the empty text of an `empty` leaf, a quoted value is
/// JSON-unescaped (kept as written when that fails), anything else stays
/// literal; surrounding whitespace is trimmed.
pub open spec fn json_value_of(vt: ValueType, raw: Seq<char>) -> Seq<char> {
    let r = trim(raw);
    if vt is Empty {
        if r == "[null]"@ {
            Seq::empty()
        } else {
            r
        }
    } else if r.len() > 0 && r[0] == '"' {
        match json_string_value(r) {
            Some(d) => d,
            None => r,
        }
    } else {
        r
    }
}

/// Decode a member value into the canonical text ([`json_value_of`]).
pub fn json_value(vt: &ValueType, raw: &str) -> (r: String)
    ensures
        r@ == json_value_of(*vt, raw@),
{
    let rc = chars_of(raw);
    let r = trimmed(rc.as_slice());
    match vt {
        ValueType::Empty => {
            if chars_eq(r.as_slice(), chars_of("[null]").as_slice()) {
                string_of(Vec::<char>::new().as_slice())
            } else {
                string_of(r.as_slice())
            }
        },
        _ => {
            let rs = string_of(r.as_slice());
            if r.len() > 0 && r[0] == '"' {
                match decode_json_string(rs.as_str()) {
                    Some(d) => d,
                    None => rs,
                }
            } else {
                rs
            }
        },
    }
}

/// One value to check: its type, the byte range, the canonical text, and
/// the module of the leaf.
pub type Check = (ValueType, int, int, Seq<char>, Seq<char>);

/// The value ranges of a member: its value for a `leaf`, each scalar
/// element for a `leaf-list` (its whole value when it has none).
pub open spec fn value_ranges(n: SchemaNode, mb: JsonMember) -> Seq<(int, int)> {
    let whole = seq![(mb.value_range.start as int, mb.value_range.end as int)];
    if n.kind == NodeKind::Leaf {
        whole
    } else {
        match mb.scalar_items {
            Some(items) => ranges_view(items@),
            None => whole,
        }
    }
}

/// The checks of the ranges `rs[..j]` that are slices of the text `b`.
pub open spec fn range_checks(vt: ValueType, module: Seq<char>, rs: Seq<(int, int)>, b: Seq<u8>, j: nat) -> Seq<Check>
    decreases j,
{
    if j == 0 || j > rs.len() {
        Seq::empty()
    } else {
        let prev = range_checks(vt, module, rs, b, (j - 1) as nat);
        let (s, e) = rs[j - 1];
        match slice_chars(b, s, e) {
            Some(raw) => prev.push((vt, s, e, json_value_of(vt, raw), module)),
            None => prev,
        }
    }
}

/// The checks of member `m`: a mapped `leaf` or `leaf-list` with a value
/// type.
pub open spec fn member_checks(ms: Seq<SchemaModule>, doc: JsonDoc, res: Seq<Option<(Seq<char>, int)>>, b: Seq<u8>, m: int) -> Seq<Check> {
    match res[m] {
        Some((module, id)) => match module_idx(ms, module) {
            Some(k) => match node_of(ms[k], id) {
                Some(n) => if n.kind == NodeKind::Leaf || n.kind == NodeKind::LeafList {
                    match n.value_type {
                        Some(vt) => {
                            let rs = value_ranges(n, doc.members@[m]);
                            range_checks(vt, module, rs, b, rs.len())
                        },
                        None => Seq::empty(),
                    }
                } else {
                    Seq::empty()
                },
                None => Seq::empty(),
            },
            None => Seq::empty(),
        },
        None => Seq::empty(),
    }
}

/// The checks of members `0..k`, in order.
pub open spec fn all_checks(ms: Seq<SchemaModule>, doc: JsonDoc, res: Seq<Option<(Seq<char>, int)>>, b: Seq<u8>, k: nat) -> Seq<Check>
    decreases k,
{
    if k == 0 {
        Seq::empty()
    } else {
        all_checks(ms, doc, res, b, (k - 1) as nat) + member_checks(ms, doc, res, b, k - 1)
    }
}

/// The diagnostics for the checks `cs` with outcomes `outs`.
pub open spec fn check_diags(cs: Seq<Check>, outs: Seq<Option<Seq<char>>>) -> Seq<(int, int, Seq<char>, Seq<char>)>
    decreases cs.len(),
{
    if cs.len() == 0 {
        Seq::empty()
    } else {
        let prev = check_diags(cs.drop_last(), outs);
        match outs[cs.len() - 1] {
            Some(msg) => prev.push((cs.last().1, cs.last().2, "invalid value: "@ + msg, "json_bad_value"@)),
            None => prev,
        }
    }
}

/// Every check of every member stays within what the value check is
/// defined on.
pub open spec fn checks_defined(ms: Seq<SchemaModule>, doc: JsonDoc, b: Seq<u8>) -> bool {
    forall|m: int, k: int|
        0 <= m < doc.members@.len() && 0 <= k < member_checks(ms, doc, jmap_result(ms, doc).0, b, m).len()
            ==> check_defined(
            #[trigger] member_checks(ms, doc, jmap_result(ms, doc).0, b, m)[k].0,
            member_checks(ms, doc, jmap_result(ms, doc).0, b, m)[k].3,
        )
}

/// The checks of `doc` over the text bytes `b`.
pub open spec fn doc_checks(ms: Seq<SchemaModule>, doc: JsonDoc, b: Seq<u8>) -> Seq<Check> {
    all_checks(ms, doc, jmap_result(ms, doc).0, b, doc.members@.len())
}

proof fn lemma_check_diags_frame(cs: Seq<Check>, o1: Seq<Option<Seq<char>>>, o2: Seq<Option<Seq<char>>>)
    requires
        forall|j: int| 0 <= j < cs.len() ==> o1[j] == o2[j],
    ensures
        check_diags(cs, o1) == check_diags(cs, o2),
    decreases cs.len(),
{
    if cs.len() > 0 {
        lemma_check_diags_frame(cs.drop_last(), o1, o2);
    }
}

/// Leaf value validation: every mapped `leaf` (its value) and `leaf-list`
/// (each scalar element) whose type is known has its canonical text
/// checked, scalar check first, then the reference check.
#[verifier::loop_isolation(false)]
pub fn value_diags(doc: &JsonDoc, text: &str, schema: &Schema, lib: &yrepo::Library) -> (r: Vec<InstDiag>)
    requires
        doc_wf(*doc),
        checks_defined(schema.modules@, *doc, text.spec_bytes()),
    ensures
        ({
            let cs = doc_checks(schema.modules@, *doc, text.spec_bytes());
            exists|outs: Seq<Option<Seq<char>>>|
                {
                    &&& outs.len() == cs.len()
                    &&& forall|k: int| 0 <= k < cs.len() ==> value_outcome_ok(*lib, #[trigger] cs[k], outs[k])
                    &&& diag_views(r@) == check_diags(cs, outs)
                }
        }),
{
    let ghost ms = schema.modules@;
    let ghost b = text.spec_bytes();
    let map = map(doc, schema);
    let ghost rv = res_views(map.res@);
    let ghost cs = doc_checks(ms, *doc, b);
    proof {
        assert(rv == jmap_result(ms, *doc).0);
    }
    let mut out: Vec<InstDiag> = Vec::new();
    let ghost mut done: Seq<Check> = Seq::empty();
    let ghost mut outs: Seq<Option<Seq<char>>> = Seq::empty();
    proof {
        assert(diag_views(out@) =~= Seq::<(int, int, Seq<char>, Seq<char>)>::empty());
    }
    let mut m: usize = 0;
    while m < doc.members.len()
        invariant
            m <= doc.members@.len(),
            map.res@.len() == doc.members@.len(),
            done == all_checks(ms, *doc, rv, b, m as nat),
            outs.len() == done.len(),
            forall|k: int| 0 <= k < done.len() ==> value_outcome_ok(*lib, #[trigger] done[k], outs[k]),
            diag_views(out@) == check_diags(done, outs),
        decreases doc.members@.len() - m,
    {
        let member = &doc.members[m];
        match map.resolved(m) {
            Some(res) => match schema.module(res.module.as_str()) {
                Some(k) => match schema.modules[k].node(res.id) {
                    Some(node) => {
                        let leaf = match node.kind {
                            NodeKind::Leaf => true,
                            _ => false,
                        };
                        let leaf_list = match node.kind {
                            NodeKind::LeafList => true,
                            _ => false,
                        };
                        if leaf || leaf_list {
                            match &node.value_type {
                                Some(vt) => {
                                    let mut ranges: Vec<Range<usize>> = Vec::new();
                                    let whole = Range { start: member.value_range.start, end: member.value_range.end };
                                    if leaf {
                                        ranges.push(whole);
                                    } else {
                                        match &member.scalar_items {
                                            Some(items) => {
                                                let mut q: usize = 0;
                                                while q < items.len()
                                                    invariant
                                                        q <= items@.len(),
                                                        ranges_view(ranges@) == ranges_view(items@).take(q as int),
                                                    decreases items@.len() - q,
                                                {
                                                    let it = Range { start: items[q].start, end: items[q].end };
                                                    proof {
                                                        assert(ranges_view(items@).take(q + 1) =~= ranges_view(items@).take(q as int).push((it.start as int, it.end as int)));
                                                        assert(ranges_view(ranges@.push(it)) =~= ranges_view(ranges@).push((it.start as int, it.end as int)));
                                                    }
                                                    ranges.push(it);
                                                    q = q + 1;
                                                }
                                                proof {
                                                    assert(ranges_view(items@).take(items@.len() as int) =~= ranges_view(items@));
                                                }
                                            },
                                            None => {
                                                ranges.push(whole);
                                            },
                                        }
                                    }
                                    let ghost rs = value_ranges(*node, *member);
                                    proof {
                                        assert(ranges_view(ranges@) =~= rs);
                                    }
                                    let ghost base = done;
                                    let mut j: usize = 0;
                                    while j < ranges.len()
                                        invariant
                                            j <= ranges@.len(),
                                            ranges_view(ranges@) == rs,
                                            done == base + range_checks(*vt, res.module@, rs, b, j as nat),
                                            outs.len() == done.len(),
                                            forall|k: int| 0 <= k < done.len() ==> value_outcome_ok(*lib, #[trigger] done[k], outs[k]),
                                            diag_views(out@) == check_diags(done, outs),
                                        decreases ranges@.len() - j,
                                    {
                                        let rg = &ranges[j];
                                        proof {
                                            assert(rs[j as int] == (rg.start as int, rg.end as int));
                                        }
                                        match str_get(text, rg.start, rg.end) {
                                            Some(raw) => {
                                                proof {
                                                    vstd::utf8::encode_utf8_decode_utf8(raw@);
                                                    assert(slice_chars(b, rg.start as int, rg.end as int) == Some(raw@));
                                                }
                                                let value = json_value(vt, raw);
                                                proof {
                                                    let rc = range_checks(*vt, res.module@, rs, b, (j + 1) as nat);
                                                    assert(done.push((*vt, rg.start as int, rg.end as int, value@, res.module@)) =~= base + rc);
                                                    lemma_range_checks_prefix(*vt, res.module@, rs, b, (j + 1) as nat, rs.len());
                                                    let full = range_checks(*vt, res.module@, rs, b, rs.len());
                                                    assert(member_checks(ms, *doc, rv, b, m as int) == full);
                                                    assert(full[rc.len() - 1] == rc[rc.len() - 1]);
                                                    assert(check_defined(full[rc.len() - 1].0, full[rc.len() - 1].3));
                                                }
                                                let o = check_value(lib, res.module.as_str(), vt, value.as_str());
                                                let ghost c = (*vt, rg.start as int, rg.end as int, value@, res.module@);
                                                proof {
                                                    let d2 = done.push(c);
                                                    let o2 = outs.push(opt_view(o));
                                                    lemma_check_diags_frame(done, outs, o2);
                                                    assert(d2.drop_last() =~= done);
                                                    done = d2;
                                                    outs = o2;
                                                }
                                                match o {
                                                    Some(msg) => {
                                                        let mut t: Vec<char> = Vec::new();
                                                        push_str(&mut t, "invalid value: ");
                                                        push_str(&mut t, msg.as_str());
                                                        let d = InstDiag {
                                                            range: Range { start: rg.start, end: rg.end },
                                                            message: string_of(t.as_slice()),
                                                            code: "json_bad_value",
                                                        };
                                                        proof {
                                                            assert(diag_views(out@.push(d)) =~= diag_views(out@).push(diag_view(d)));
                                                        }
                                                        out.push(d);
                                                    },
                                                    None => {},
                                                }
                                            },
                                            None => {
                                                proof {
                                                    assert(slice_chars(b, rg.start as int, rg.end as int) is None);
                                                    assert(base + range_checks(*vt, res.module@, rs, b, (j + 1) as nat) =~= done);
                                                }
                                            },
                                        }
                                        j = j + 1;
                                    }
                                    proof {
                                        assert(member_checks(ms, *doc, rv, b, m as int) == range_checks(*vt, res.module@, rs, b, rs.len()));
                                    }
                                },
                                None => {},
                            }
                        }
                    },
                    None => {},
                },
                None => {},
            },
            None => {},
        }
        proof {
            assert(all_checks(ms, *doc, rv, b, (m + 1) as nat) =~= done);
        }
        m = m + 1;
    }
    out
}

proof fn lemma_range_checks_prefix(vt: ValueType, module: Seq<char>, rs: Seq<(int, int)>, b: Seq<u8>, j: nat, big: nat)
    requires
        j <= big <= rs.len(),
    ensures
        range_checks(vt, module, rs, b, j).len() <= range_checks(vt, module, rs, b, big).len(),
        range_checks(vt, module, rs, b, big).take(range_checks(vt, module, rs, b, j).len() as int) == range_checks(vt, module, rs, b, j),
    decreases big,
{
    if big > j {
        lemma_range_checks_prefix(vt, module, rs, b, j, (big - 1) as nat);
        let p = range_checks(vt, module, rs, b, (big - 1) as nat);
        let q = range_checks(vt, module, rs, b, j);
        assert(range_checks(vt, module, rs, b, big).take(q.len() as int) =~= p.take(q.len() as int));
    } else {
        let q = range_checks(vt, module, rs, b, j);
        assert(q.take(q.len() as int) =~= q);
    }
}

/// Whether the indices of `doc` are in range and every value names a later
/// object ([`doc_wf`]).
#[verifier::loop_isolation(false)]
pub fn doc_wf_check(doc: &JsonDoc) -> (r: bool)
    ensures
        r == doc_wf(*doc),
{
    let no = doc.objects.len();
    let nm = doc.members.len();
    let mut o: usize = 0;
    while o < no
        invariant
            no == doc.objects@.len(),
            nm == doc.members@.len(),
            o <= no,
            forall|p: int, k: int|
                0 <= p < o && 0 <= k < doc.objects@[p].members@.len() ==> #[trigger] doc.objects@[p].members@[k] < nm,
            forall|p: int, k: int|
                0 <= p < o && 0 <= k < doc.objects@[p].members@.len() ==> match #[trigger] doc.members@[doc.objects@[p].members@[k] as int].val {
                    JsonVal::Object(c) => p < c,
                    JsonVal::Array(list) => forall|j: int| 0 <= j < list@.len() ==> p < #[trigger] list@[j],
                    JsonVal::Leaf => true,
                },
        decreases no - o,
    {
        let ks = &doc.objects[o].members;
        let mut k: usize = 0;
        while k < ks.len()
            invariant
                no == doc.objects@.len(),
                nm == doc.members@.len(),
                o < no,
                *ks == doc.objects@[o as int].members,
                k <= ks@.len(),
                forall|p: int, q: int|
                    0 <= p < o && 0 <= q < doc.objects@[p].members@.len() ==> #[trigger] doc.objects@[p].members@[q] < nm,
                forall|p: int, q: int|
                    0 <= p < o && 0 <= q < doc.objects@[p].members@.len() ==> match #[trigger] doc.members@[doc.objects@[p].members@[q] as int].val {
                        JsonVal::Object(c) => p < c,
                        JsonVal::Array(list) => forall|j: int| 0 <= j < list@.len() ==> p < #[trigger] list@[j],
                        JsonVal::Leaf => true,
                    },
                forall|q: int| 0 <= q < k ==> #[trigger] ks@[q] < nm,
                forall|q: int| 0 <= q < k ==> match #[trigger] doc.members@[ks@[q] as int].val {
                    JsonVal::Object(c) => o < c,
                    JsonVal::Array(list) => forall|j: int| 0 <= j < list@.len() ==> o < #[trigger] list@[j],
                    JsonVal::Leaf => true,
                },
            decreases ks@.len() - k,
        {
            let m = ks[k];
            if m >= nm {
                proof {
                    assert(doc.objects@[o as int].members@[k as int] >= nm);
                }
                return false;
            }
            match &doc.members[m].val {
                JsonVal::Object(c) => {
                    if *c <= o {
                        proof {
                            assert(doc.objects@[o as int].members@[k as int] == m);
                        }
                        return false;
                    }
                },
                JsonVal::Array(list) => {
                    let mut j: usize = 0;
                    while j < list.len()
                        invariant
                            j <= list@.len(),
                            forall|t: int| 0 <= t < j ==> o < #[trigger] list@[t],
                        decreases list@.len() - j,
                    {
                        if list[j] <= o {
                            proof {
                                assert(doc.objects@[o as int].members@[k as int] == m);
                                assert(!(o < list@[j as int]));
                            }
                            return false;
                        }
                        j = j + 1;
                    }
                },
                JsonVal::Leaf => {},
            }
            k = k + 1;
        }
        o = o + 1;
    }
    true
}

/// Whether [`value_diags`] is defined on `doc` and `text`: the document is
/// well formed and no check leaves the value check's fixed-width counters.
#[verifier::loop_isolation(false)]
pub fn value_diags_defined(doc: &JsonDoc, text: &str, schema: &Schema) -> (r: bool)
    ensures
        r == (doc_wf(*doc) && checks_defined(schema.modules@, *doc, text.spec_bytes())),
{
    if !doc_wf_check(doc) {
        return false;
    }
    let ghost ms = schema.modules@;
    let ghost b = text.spec_bytes();
    let map = map(doc, schema);
    let ghost rv = res_views(map.res@);
    let mut m: usize = 0;
    while m < doc.members.len()
        invariant
            m <= doc.members@.len(),
            map.res@.len() == doc.members@.len(),
            rv == res_views(map.res@),
            rv == jmap_result(ms, *doc).0,
            forall|p: int, k: int|
                0 <= p < m && 0 <= k < member_checks(ms, *doc, rv, b, p).len() ==> check_defined(
                    #[trigger] member_checks(ms, *doc, rv, b, p)[k].0,
                    member_checks(ms, *doc, rv, b, p)[k].3,
                ),
        decreases doc.members@.len() - m,
    {
        let member = &doc.members[m];
        match map.resolved(m) {
            Some(res) => match schema.module(res.module.as_str()) {
                Some(k) => match schema.modules[k].node(res.id) {
                    Some(node) => {
                        let leaf = match node.kind {
                            NodeKind::Leaf => true,
                            _ => false,
                        };
                        let leaf_list = match node.kind {
                            NodeKind::LeafList => true,
                            _ => false,
                        };
                        if leaf || leaf_list {
                            match &node.value_type {
                                Some(vt) => {
                                    let mut ranges: Vec<Range<usize>> = Vec::new();
                                    let whole = Range { start: member.value_range.start, end: member.value_range.end };
                                    if leaf {
                                        ranges.push(whole);
                                    } else {
                                        match &member.scalar_items {
                                            Some(items) => {
                                                let mut q: usize = 0;
                                                while q < items.len()
                                                    invariant
                                                        q <= items@.len(),
                                                        ranges_view(ranges@) == ranges_view(items@).take(q as int),
                                                    decreases items@.len() - q,
                                                {
                                                    let it = Range { start: items[q].start, end: items[q].end };
                                                    proof {
                                                        assert(ranges_view(items@).take(q + 1) =~= ranges_view(items@).take(q as int).push((it.start as int, it.end as int)));
                                                        assert(ranges_view(ranges@.push(it)) =~= ranges_view(ranges@).push((it.start as int, it.end as int)));
                                                    }
                                                    ranges.push(it);
                                                    q = q + 1;
                                                }
                                                proof {
                                                    assert(ranges_view(items@).take(items@.len() as int) =~= ranges_view(items@));
                                                }
                                            },
                                            None => {
                                                ranges.push(whole);
                                            },
                                        }
                                    }
                                    let ghost rs = value_ranges(*node, *member);
                                    proof {
                                        assert(ranges_view(ranges@) =~= rs);
                                    }
                                    let mut j: usize = 0;
                                    while j < ranges.len()
                                        invariant
                                            j <= ranges@.len(),
                                            ranges_view(ranges@) == rs,
                                            member_checks(ms, *doc, rv, b, m as int) == range_checks(*vt, res.module@, rs, b, rs.len()),
                                            forall|t: int| 0 <= t < range_checks(*vt, res.module@, rs, b, j as nat).len() ==> check_defined(
                                                #[trigger] range_checks(*vt, res.module@, rs, b, j as nat)[t].0,
                                                range_checks(*vt, res.module@, rs, b, j as nat)[t].3,
                                            ),
                                        decreases ranges@.len() - j,
                                    {
                                        let rg = &ranges[j];
                                        proof {
                                            assert(rs[j as int] == (rg.start as int, rg.end as int));
                                        }
                                        match str_get(text, rg.start, rg.end) {
                                            Some(raw) => {
                                                proof {
                                                    vstd::utf8::encode_utf8_decode_utf8(raw@);
                                                    assert(slice_chars(b, rg.start as int, rg.end as int) == Some(raw@));
                                                }
                                                let value = json_value(vt, raw);
                                                let ghost c = (*vt, rg.start as int, rg.end as int, value@, res.module@);
                                                proof {
                                                    assert(range_checks(*vt, res.module@, rs, b, (j + 1) as nat) == range_checks(*vt, res.module@, rs, b, j as nat).push(c));
                                                }
                                                if !check_defined_for(vt, value.as_str()) {
                                                    proof {
                                                        lemma_range_checks_prefix(*vt, res.module@, rs, b, (j + 1) as nat, rs.len());
                                                        let rc = range_checks(*vt, res.module@, rs, b, (j + 1) as nat);
                                                        let full = range_checks(*vt, res.module@, rs, b, rs.len());
                                                        let idx = rc.len() - 1;
                                                        assert(rc[idx] == c);
                                                        assert(full.take(rc.len() as int)[idx] == rc[idx]);
                                                        assert(full[idx] == c);
                                                        assert(member_checks(ms, *doc, rv, b, m as int)[idx] == c);
                                                        assert(!check_defined(member_checks(ms, *doc, rv, b, m as int)[idx].0, member_checks(ms, *doc, rv, b, m as int)[idx].3));
                                                    }
                                                    return false;
                                                }
                                            },
                                            None => {
                                                proof {
                                                    assert(slice_chars(b, rg.start as int, rg.end as int) is None);
                                                    assert(range_checks(*vt, res.module@, rs, b, (j + 1) as nat) == range_checks(*vt, res.module@, rs, b, j as nat));
                                                }
                                            },
                                        }
                                        j = j + 1;
                                    }
                                },
                                None => {},
                            }
                        }
                    },
                    None => {},
                },
                None => {},
            },
            None => {},
        }
        m = m + 1;
    }
    true
}


/// A JSON document none of whose root members maps to the schema is
/// dormant: it gets no diagnostics.
pub proof fn law_unrecognized_json_is_dormant(ms: Seq<SchemaModule>, doc: JsonDoc)
    requires
        forall|k: int|
            0 <= k < doc.objects@[doc.root as int].members@.len() ==> (#[trigger] jmap_result(ms, doc).0[doc.objects@[doc.root as int].members@[k] as int]) is None,
    ensures
        jmap_result(ms, doc).1.len() == 0,
{
    let n = doc.members@.len();
    let res = walk_obj(ms, doc, doc.root as int, CtxView::Top, (Seq::new(n, |i: int| None), Seq::empty())).0;
    assert(res == jmap_result(ms, doc).0);
    if doc.root < doc.objects@.len() && exists|k: int|
        0 <= k < doc.objects@[doc.root as int].members@.len() && (#[trigger] res[doc.objects@[doc.root as int].members@[k] as int]) is Some {
        let k = choose|k: int|
            0 <= k < doc.objects@[doc.root as int].members@.len() && (#[trigger] res[doc.objects@[doc.root as int].members@[k] as int]) is Some;
        assert(jmap_result(ms, doc).0[doc.objects@[doc.root as int].members@[k] as int] is None);
    }
}


/// `ds` is what [`doc_diagnostics`] reports for `doc` over the bytes `b`:
/// the mapping diagnostics, then one per leaf value that fails its check,
/// `outs` holding each leaf's check result.
pub open spec fn json_doc_diags(lib: yrepo::Library, ms: Seq<SchemaModule>, doc: JsonDoc, b: Seq<u8>, ds: Seq<(int, int, Seq<char>, Seq<char>)>) -> bool {
    let cs = doc_checks(ms, doc, b);
    exists|outs: Seq<Option<Seq<char>>>|
        {
            &&& outs.len() == cs.len()
            &&& forall|k: int| 0 <= k < cs.len() ==> value_outcome_ok(lib, #[trigger] cs[k], outs[k])
            &&& ds == jmap_result(ms, doc).1 + check_diags(cs, outs)
        }
}

/// The diagnostics of a JSON instance document: those of mapping its
/// members onto the schema ([`map`]), then those of checking its leaf values
/// ([`value_diags`]).
pub fn doc_diagnostics(doc: &JsonDoc, text: &str, schema: &Schema, lib: &yrepo::Library) -> (r: Vec<InstDiag>)
    requires
        doc_wf(*doc),
        checks_defined(schema.modules@, *doc, text.spec_bytes()),
    ensures
        json_doc_diags(*lib, schema.modules@, *doc, text.spec_bytes(), diag_views(r@)),
{
    let m = map(doc, schema);
    let v = value_diags(doc, text, schema, lib);
    let mut out = m.diags;
    push_diags(&mut out, v);
    out
}

/// The diagnostics of the JSON document `text`: none for a document that
/// does not parse or that is no NETCONF instance document (it stays
/// dormant), and none where its values cannot all be read; else those of
/// [`doc_diagnostics`] on its member tree.
pub fn json_instance_diagnostics(text: &str, schema: &Schema, modules: &[ModuleInfo], lib: &yrepo::Library) -> (r: Vec<InstDiag>)
    ensures
        !json_parses(text) ==> r@.len() == 0,
        json_parses(text) && json_root_intent(text, modules@) == Intent::NotNetconf ==> r@.len() == 0,
        json_parses(text) && json_root_intent(text, modules@) != Intent::NotNetconf ==> ({
            let t = json_syntax(text@).unwrap();
            let b = text.spec_bytes();
            exists|doc: JsonDoc| {
                &&& #[trigger] json_tree_of(t, b, json_root_obj(t).unwrap(), doc)
                &&& (doc_wf(doc) && checks_defined(schema.modules@, doc, b)) ==> json_doc_diags(*lib, schema.modules@, doc, b, diag_views(r@))
                &&& !(doc_wf(doc) && checks_defined(schema.modules@, doc, b)) ==> r@.len() == 0
            }
        }),
{
    let root = match crate::json::parse_root(text) {
        Some(root) => root,
        None => {
            return Vec::new();
        },
    };
    match classify_json(&root, modules) {
        crate::inst::DocKind::NotNetconf => {
            return Vec::new();
        },
        _ => {},
    }
    let doc = match crate::json::parse(text) {
        Some(doc) => doc,
        None => {
            return Vec::new();
        },
    };
    if !value_diags_defined(&doc, text, schema) {
        return Vec::new();
    }
    doc_diagnostics(&doc, text, schema, lib)
}
} // verus!
