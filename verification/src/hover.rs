//! Hover: markdown for the reference-bearing arguments of a YANG module.
//!
//! Two stages, as for go-to-definition: the caret's statement decides what
//! is described ([`hover_plan`]); the compiled library's answers fill the
//! description in ([`hover_text`]): import modules, the module a prefix
//! binds, typedef chains, identity ancestry, features, enum defaults,
//! groupings and augment targets.

use std::ops::Range;
use vstd::prelude::*;
use vstd::string::StringSliceAdditionalSpecFns;
use crate::goto::{
    builtin_types, def_lookup, SearchKind, is_builtin_type, library_extensions, library_modules, library_nodes, library_prefixes, lookup,
    module_answer, module_for, module_record, ostr, prefix_to_module, schema_node_at, search_extension, search_feature,
    search_grouping, search_identity,
};
use crate::inst_map::Resolved;
use crate::json::{name_parts, split_name};
use crate::schema::{module_idx, node_of, NodeKind, Schema, SchemaNode};
use crate::valcheck::{join, push_joined};
use crate::text::views;
use crate::stmt::{enum_member, holds, holds_byte, last_owner, narrowest, Stmt, StmtKind, StmtTree};
use crate::text::{chars_of, push_str, slice_chars, str_eq, str_get, string_of};

verus! {

/// `text` as a fenced YANG code block.
pub open spec fn code_fence_text(text: Seq<char>) -> Seq<char> {
    "```yang\n"@ + text + "\n```"@
}

/// `text` as a fenced YANG code block ([`code_fence_text`]).
pub fn code_fence(text: &str) -> (r: String)
    ensures
        r@ == code_fence_text(text@),
{
    let mut out: Vec<char> = Vec::new();
    push_str(&mut out, "```yang\n");
    push_str(&mut out, text);
    push_str(&mut out, "\n```");
    proof {
        assert(out@ =~= code_fence_text(text@));
    }
    string_of(out.as_slice())
}

/// How an import binds a prefix, as far as the file shows.
pub enum Binding {
    /// An import binds it; the text of that import statement.
    Text(String),
    /// No snippet: the binding import cannot be read, or an earlier import
    /// declares no prefix.
    Stop,
    /// No import of the file binds it.
    Unbound,
}

/// The mathematical form of a [`Binding`].
pub enum BindingView {
    Text(Seq<char>),
    Stop,
    Unbound,
}

/// The view of a binding.
pub open spec fn binding_view(b: Binding) -> BindingView {
    match b {
        Binding::Text(t) => BindingView::Text(t@),
        Binding::Stop => BindingView::Stop,
        Binding::Unbound => BindingView::Unbound,
    }
}

/// The `prefix` statement's argument of import `i`, when it has one.
pub open spec fn import_prefix(nodes: Seq<Stmt>, i: int) -> Option<Seq<char>> {
    match first_kind_kid(nodes, nodes[i].children@) {
        Some(p) => match nodes[p].arg {
            Some(a) => Some(a.name@),
            None => None,
        },
        None => None,
    }
}

/// The first of `kids` (in range) that is a `prefix` statement.
pub open spec fn first_kind_kid(nodes: Seq<Stmt>, kids: Seq<usize>) -> Option<int>
    decreases kids.len(),
{
    if kids.len() == 0 {
        None
    } else if kids[0] < nodes.len() && nodes[kids[0] as int].kind is Prefix {
        Some(kids[0] as int)
    } else {
        first_kind_kid(nodes, kids.drop_first())
    }
}

/// Scanning the root's children `kids` for the import binding `prefix`.
pub open spec fn binding_of(nodes: Seq<Stmt>, b: Seq<u8>, kids: Seq<usize>, prefix: Seq<char>) -> BindingView
    decreases kids.len(),
{
    if kids.len() == 0 {
        BindingView::Unbound
    } else if kids[0] < nodes.len() && nodes[kids[0] as int].kind is Import {
        let i = kids[0] as int;
        match import_prefix(nodes, i) {
            None => BindingView::Stop,
            Some(p) => if p == prefix {
                match slice_chars(b, nodes[i].span.start as int, nodes[i].span.end as int) {
                    Some(t) => BindingView::Text(t),
                    None => BindingView::Stop,
                }
            } else {
                binding_of(nodes, b, kids.drop_first(), prefix)
            },
        }
    } else {
        binding_of(nodes, b, kids.drop_first(), prefix)
    }
}

/// What hovering the caret describes, before the library is asked.
pub enum HoverPlanView {
    Nothing,
    /// An extension statement's head `[prefix:]local`.
    Extension { prefix: Option<Seq<char>>, local: Seq<char> },
    /// An imported module.
    Module { name: Seq<char> },
    /// A prefixed reference: the module the prefix binds; under `uses`,
    /// introduced as the grouping `local`.
    Prefixed { prefix: Seq<char>, binding: BindingView, grouping: Option<Seq<char>> },
    /// A built-in type.
    Builtin { name: Seq<char> },
    /// A typedef chain.
    TypeChain { name: Seq<char> },
    /// An identity's ancestry.
    Identity { name: Seq<char> },
    /// A feature `[prefix:]local`.
    Feature { prefix: Option<Seq<char>>, local: Seq<char> },
    /// A `default`: an identity `[prefix:]local`, else (unprefixed) a member
    /// of the owning leaf's enumeration when it has one.
    Default { prefix: Option<Seq<char>>, local: Seq<char>, member: bool },
    /// A grouping of this module.
    Grouping { name: Seq<char> },
    /// An augment's target node.
    Node { path: Seq<char> },
}

/// What hovering at `byte` of a file with statements `nodes` and bytes `b`
/// describes.
pub open spec fn hover_plan(nodes: Seq<Stmt>, b: Seq<u8>, byte: int) -> HoverPlanView {
    match narrowest(nodes, byte) {
        None => HoverPlanView::Nothing,
        Some(i) => {
            let s = nodes[i];
            if s.kind is Unknown {
                match s.keyword {
                    None => HoverPlanView::Nothing,
                    Some(kw) => if !holds(kw, byte) {
                        HoverPlanView::Nothing
                    } else {
                        match slice_chars(b, kw.start as int, kw.end as int) {
                            None => HoverPlanView::Nothing,
                            Some(t) => HoverPlanView::Extension { prefix: name_parts(t).0, local: name_parts(t).1 },
                        }
                    },
                }
            } else {
                match s.arg {
                    None => HoverPlanView::Nothing,
                    Some(a) => if !holds(a.range, byte) {
                        HoverPlanView::Nothing
                    } else {
                        let name = a.name@;
                        let (p, l) = name_parts(name);
                        let bind = |q: Seq<char>| binding_of(nodes, b, nodes[0].children@, q);
                        match s.kind {
                            StmtKind::Import => HoverPlanView::Module { name },
                            StmtKind::Type => match p {
                                Some(q) => HoverPlanView::Prefixed { prefix: q, binding: bind(q), grouping: None },
                                None => if builtin_types().contains(name) {
                                    HoverPlanView::Builtin { name }
                                } else {
                                    HoverPlanView::TypeChain { name }
                                },
                            },
                            StmtKind::Base => match p {
                                Some(q) => HoverPlanView::Prefixed { prefix: q, binding: bind(q), grouping: None },
                                None => HoverPlanView::Identity { name },
                            },
                            StmtKind::IfFeature => HoverPlanView::Feature { prefix: p, local: l },
                            StmtKind::Default => HoverPlanView::Default {
                                prefix: p,
                                local: l,
                                member: match last_owner(nodes, byte, nodes.len() as int) {
                                    Some(o) => enum_member(nodes, o, name) is Some,
                                    None => false,
                                },
                            },
                            StmtKind::Uses => match p {
                                Some(q) => HoverPlanView::Prefixed { prefix: q, binding: bind(q), grouping: Some(l) },
                                None => HoverPlanView::Grouping { name },
                            },
                            StmtKind::Augment => if a.path@.len() > 0 && a.path@[0] == '/' {
                                HoverPlanView::Node { path: a.path@ }
                            } else {
                                HoverPlanView::Nothing
                            },
                            _ => HoverPlanView::Nothing,
                        }
                    },
                }
            }
        },
    }
}

/// What the library answered for a hover (only what the plan asks is
/// read): the module a prefix names (this module without one), an
/// extension and its argument, an imported module's namespace and prefix,
/// this module's own prefix, a typedef chain (steps, built-in, complete),
/// an identity and its bases, whether a feature or identity exists, a
/// grouping's file, a schema node's name and kind.
pub struct HoverAnswers {
    pub module: Option<Seq<char>>,
    pub ext: Option<Option<Seq<char>>>,
    pub info: Option<(Option<Seq<char>>, Option<Seq<char>>)>,
    pub own_prefix: Option<Seq<char>>,
    pub chain: Option<(Seq<(Seq<char>, Seq<char>)>, Option<Seq<char>>, bool)>,
    pub identity: Option<((Seq<char>, Seq<char>), Seq<(Seq<char>, Seq<char>)>)>,
    pub found: bool,
    pub grouping_url: Option<Seq<char>>,
    pub node: Option<(Seq<char>, Seq<char>)>,
}

/// `pre`, `v` and `post` when there is a `v`, else nothing.
pub open spec fn opt_line(pre: Seq<char>, v: Option<Seq<char>>, post: Seq<char>) -> Seq<char> {
    match v {
        Some(x) => pre + x + post,
        None => Seq::empty(),
    }
}

/// The typedef lines of a chain.
pub open spec fn step_lines(steps: Seq<(Seq<char>, Seq<char>)>) -> Seq<char>
    decreases steps.len(),
{
    if steps.len() == 0 {
        Seq::empty()
    } else {
        step_lines(steps.drop_last()) + "\n- typedef `"@ + steps.last().0 + "` (in module `"@ + steps.last().1 + "`)"@
    }
}

/// The base lines of an identity's ancestry.
pub open spec fn base_lines(bases: Seq<(Seq<char>, Seq<char>)>) -> Seq<char>
    decreases bases.len(),
{
    if bases.len() == 0 {
        Seq::empty()
    } else {
        base_lines(bases.drop_last()) + "\n- base: `"@ + bases.last().0 + "` (module `"@ + bases.last().1 + "`)"@
    }
}

/// What a prefixed reference shows.
pub open spec fn prefixed_text(prefix: Seq<char>, binding: BindingView, a: HoverAnswers) -> Seq<char> {
    "prefix **`"@ + prefix + "`**"@ + opt_line(" \u{2192} module **`"@, a.module, "`**"@) + match binding {
        BindingView::Text(t) => "\n"@ + code_fence_text(t),
        BindingView::Stop => Seq::empty(),
        BindingView::Unbound => if a.own_prefix == Some(prefix) {
            "\n"@ + "this module's own prefix"@
        } else {
            Seq::empty()
        },
    }
}

/// The hover text of a plan, given the library's answers.
pub open spec fn hover_text(p: HoverPlanView, a: HoverAnswers) -> Option<Seq<char>> {
    match p {
        HoverPlanView::Nothing => None,
        HoverPlanView::Extension { local, .. } => match a.module {
            None => None,
            Some(m) => match a.ext {
                None => None,
                Some(arg) => Some(
                    "extension **`"@ + local + "`** (module `"@ + m + "`)"@ + opt_line("\n- argument: `"@, arg, "`"@),
                ),
            },
        },
        HoverPlanView::Module { name } => match a.info {
            None => None,
            Some((ns, pf)) => Some(
                "**module** `"@ + name + "`"@ + opt_line("\n- namespace: `"@, ns, "`"@) + opt_line("\n- prefix: `"@, pf, "`"@),
            ),
        },
        HoverPlanView::Prefixed { prefix, binding, grouping } => Some(
            match grouping {
                Some(l) => "grouping **`"@ + l + "`** via prefix\n"@ + prefixed_text(prefix, binding, a),
                None => prefixed_text(prefix, binding, a),
            },
        ),
        HoverPlanView::Builtin { name } => Some("built-in type **`"@ + name + "`**"@),
        HoverPlanView::TypeChain { name } => match a.chain {
            None => None,
            Some((steps, builtin, complete)) => Some(
                "**type** `"@ + name + "`"@ + step_lines(steps) + opt_line("\n\u{2192} built-in **`"@, builtin, "`**"@) + if complete {
                    Seq::empty()
                } else {
                    "\n*typedef chain is incomplete*"@
                },
            ),
        },
        HoverPlanView::Identity { .. } => match a.identity {
            None => None,
            Some((root, bases)) => Some(
                "**identity** `"@ + root.0 + "` (module `"@ + root.1 + "`)"@ + base_lines(bases),
            ),
        },
        HoverPlanView::Feature { local, .. } => match a.module {
            None => None,
            Some(m) => if a.found {
                Some("feature **`"@ + local + "`** (module `"@ + m + "`)"@)
            } else {
                None
            },
        },
        HoverPlanView::Default { prefix, local, member } => match a.module {
            None => None,
            Some(m) => if a.found {
                Some("identity value **`"@ + local + "`** (module `"@ + m + "`)"@)
            } else if prefix is Some || !member {
                None
            } else {
                Some("enum value **`"@ + local + "`**"@)
            },
        },
        HoverPlanView::Grouping { name } => match a.grouping_url {
            None => None,
            Some(u) => Some("grouping **`"@ + name + "`** (defined in module `"@ + u + "`)"@),
        },
        HoverPlanView::Node { .. } => match a.node {
            None => None,
            Some((n, k)) => Some("target node **`"@ + n + "`** (kind: "@ + k + ")"@),
        },
    }
}

/// What hovering the caret describes ([`HoverPlanView`]).
pub enum HoverPlan {
    Nothing,
    Extension { prefix: Option<String>, local: String },
    Module { name: String },
    Prefixed { prefix: String, binding: Binding, grouping: Option<String> },
    Builtin { name: String },
    TypeChain { name: String },
    Identity { name: String },
    Feature { prefix: Option<String>, local: String },
    Default { prefix: Option<String>, local: String, member: bool },
    Grouping { name: String },
    Node { path: String },
}

/// The view of a hover plan.
pub open spec fn hover_plan_view(p: HoverPlan) -> HoverPlanView {
    match p {
        HoverPlan::Nothing => HoverPlanView::Nothing,
        HoverPlan::Extension { prefix, local } => HoverPlanView::Extension { prefix: ostr(prefix), local: local@ },
        HoverPlan::Module { name } => HoverPlanView::Module { name: name@ },
        HoverPlan::Prefixed { prefix, binding, grouping } => HoverPlanView::Prefixed {
            prefix: prefix@,
            binding: binding_view(binding),
            grouping: ostr(grouping),
        },
        HoverPlan::Builtin { name } => HoverPlanView::Builtin { name: name@ },
        HoverPlan::TypeChain { name } => HoverPlanView::TypeChain { name: name@ },
        HoverPlan::Identity { name } => HoverPlanView::Identity { name: name@ },
        HoverPlan::Feature { prefix, local } => HoverPlanView::Feature { prefix: ostr(prefix), local: local@ },
        HoverPlan::Default { prefix, local, member } => HoverPlanView::Default { prefix: ostr(prefix), local: local@, member },
        HoverPlan::Grouping { name } => HoverPlanView::Grouping { name: name@ },
        HoverPlan::Node { path } => HoverPlanView::Node { path: path@ },
    }
}

/// The first of `kids` that is a `prefix` statement ([`first_kind_kid`]).
pub(crate) fn prefix_kid(tree: &StmtTree, kids: &Vec<usize>) -> (r: Option<usize>)
    ensures
        match r {
            Some(c) => first_kind_kid(tree.nodes@, kids@) == Some(c as int) && c < tree.nodes@.len(),
            None => first_kind_kid(tree.nodes@, kids@) is None,
        },
{
    let mut k: usize = 0;
    proof {
        assert(kids@.skip(0) =~= kids@);
    }
    while k < kids.len()
        invariant
            k <= kids@.len(),
            first_kind_kid(tree.nodes@, kids@) == first_kind_kid(tree.nodes@, kids@.skip(k as int)),
        decreases kids@.len() - k,
    {
        let c = kids[k];
        proof {
            assert(kids@.skip(k as int)[0] == c);
            assert(kids@.skip(k as int).drop_first() =~= kids@.skip(k + 1));
        }
        if c < tree.nodes.len() {
            if let StmtKind::Prefix = tree.nodes[c].kind {
                return Some(c);
            }
        }
        k = k + 1;
    }
    None
}

/// How the file's imports bind `prefix` ([`binding_of`]).
pub fn binding_for(tree: &StmtTree, text: &str, prefix: &str) -> (r: Binding)
    requires
        tree.nodes@.len() > 0,
    ensures
        binding_view(r) == binding_of(tree.nodes@, text.spec_bytes(), tree.nodes@[0].children@, prefix@),
{
    let kids = &tree.nodes[0].children;
    let ghost nodes = tree.nodes@;
    let ghost b = text.spec_bytes();
    let mut k: usize = 0;
    proof {
        assert(kids@.skip(0) =~= kids@);
    }
    while k < kids.len()
        invariant
            k <= kids@.len(),
            nodes == tree.nodes@,
            b == text.spec_bytes(),
            kids@ == nodes[0].children@,
            binding_of(nodes, b, kids@, prefix@) == binding_of(nodes, b, kids@.skip(k as int), prefix@),
        decreases kids@.len() - k,
    {
        let c = kids[k];
        proof {
            assert(kids@.skip(k as int)[0] == c);
            assert(kids@.skip(k as int).drop_first() =~= kids@.skip(k + 1));
        }
        if c < tree.nodes.len() {
            let imp = &tree.nodes[c];
            if let StmtKind::Import = imp.kind {
                let p = match prefix_kid(tree, &imp.children) {
                    Some(pk) => match &tree.nodes[pk].arg {
                        Some(a) => a.name.as_str(),
                        None => {
                            return Binding::Stop;
                        },
                    },
                    None => {
                        return Binding::Stop;
                    },
                };
                if str_eq(p, prefix) {
                    return match str_get(text, imp.span.start, imp.span.end) {
                        Some(t) => {
                            proof {
                                vstd::utf8::encode_utf8_decode_utf8(t@);
                                assert(slice_chars(b, imp.span.start as int, imp.span.end as int) == Some(t@));
                            }
                            Binding::Text(string_of(chars_of(t).as_slice()))
                        },
                        None => Binding::Stop,
                    };
                }
            }
        }
        k = k + 1;
    }
    Binding::Unbound
}

/// What hovering at `byte` of `text`, whose statements are `tree`,
/// describes ([`hover_plan`]).
pub fn plan(tree: &StmtTree, text: &str, byte: usize) -> (r: HoverPlan)
    ensures
        hover_plan_view(r) == hover_plan(tree.nodes@, text.spec_bytes(), byte as int),
{
    let ghost nodes = tree.nodes@;
    let i = match tree.narrowest_at(byte) {
        Some(i) => i,
        None => {
            return HoverPlan::Nothing;
        },
    };
    proof {
        crate::stmt::lemma_narrowest_range(nodes, byte as int);
    }
    let s = &tree.nodes[i];
    if let StmtKind::Unknown(_) = &s.kind {
        let kw = match &s.keyword {
            Some(kw) => kw,
            None => {
                return HoverPlan::Nothing;
            },
        };
        if !holds_byte(kw, byte) {
            return HoverPlan::Nothing;
        }
        let t = match str_get(text, kw.start, kw.end) {
            Some(t) => t,
            None => {
                return HoverPlan::Nothing;
            },
        };
        proof {
            vstd::utf8::encode_utf8_decode_utf8(t@);
            assert(slice_chars(text.spec_bytes(), kw.start as int, kw.end as int) == Some(t@));
        }
        let (prefix, local) = split_name(t);
        return HoverPlan::Extension { prefix, local };
    }
    let a = match &s.arg {
        Some(a) => a,
        None => {
            return HoverPlan::Nothing;
        },
    };
    if !holds_byte(&a.range, byte) {
        return HoverPlan::Nothing;
    }
    let name = a.name.as_str();
    let (prefix, local) = split_name(name);
    match s.kind {
        StmtKind::Import => HoverPlan::Module { name: a.name.clone() },
        StmtKind::Type => match prefix {
            Some(q) => {
                let binding = binding_for(tree, text, q.as_str());
                HoverPlan::Prefixed { prefix: q, binding, grouping: None }
            },
            None => if is_builtin_type(name) {
                HoverPlan::Builtin { name: a.name.clone() }
            } else {
                HoverPlan::TypeChain { name: a.name.clone() }
            },
        },
        StmtKind::Base => match prefix {
            Some(q) => {
                let binding = binding_for(tree, text, q.as_str());
                HoverPlan::Prefixed { prefix: q, binding, grouping: None }
            },
            None => HoverPlan::Identity { name: a.name.clone() },
        },
        StmtKind::IfFeature => HoverPlan::Feature { prefix, local },
        StmtKind::Default => {
            let member = match tree.owner_data_node(byte) {
                Some(o) => {
                    proof {
                        crate::stmt::lemma_last_owner_range(nodes, byte as int, nodes.len() as int);
                    }
                    tree.enum_member_arg(o, name).is_some()
                },
                None => false,
            };
            HoverPlan::Default { prefix, local, member }
        },
        StmtKind::Uses => match prefix {
            Some(q) => {
                let binding = binding_for(tree, text, q.as_str());
                HoverPlan::Prefixed { prefix: q, binding, grouping: Some(local) }
            },
            None => HoverPlan::Grouping { name: a.name.clone() },
        },
        StmtKind::Augment => {
            let pc = chars_of(a.path.as_str());
            if pc.len() > 0 && pc[0] == '/' {
                HoverPlan::Node { path: a.path.clone() }
            } else {
                HoverPlan::Nothing
            }
        },
        _ => HoverPlan::Nothing,
    }
}

/// What the library answered for a hover ([`HoverAnswers`]).
pub struct Answers {
    pub module: Option<String>,
    pub ext: Option<Option<String>>,
    pub info: Option<(Option<String>, Option<String>)>,
    pub own_prefix: Option<String>,
    pub chain: Option<(Vec<(String, String)>, Option<String>, bool)>,
    pub identity: Option<((String, String), Vec<(String, String)>)>,
    pub found: bool,
    pub grouping_url: Option<String>,
    pub node: Option<(String, String)>,
}

/// The views of pairs of strings.
pub open spec fn pair_views(ps: Seq<(String, String)>) -> Seq<(Seq<char>, Seq<char>)> {
    ps.map_values(|p: (String, String)| (p.0@, p.1@))
}

/// The view of the answers.
pub open spec fn answers_view(a: Answers) -> HoverAnswers {
    HoverAnswers {
        module: ostr(a.module),
        ext: match a.ext {
            Some(x) => Some(ostr(x)),
            None => None,
        },
        info: match a.info {
            Some((ns, pf)) => Some((ostr(ns), ostr(pf))),
            None => None,
        },
        own_prefix: ostr(a.own_prefix),
        chain: match a.chain {
            Some((steps, b, c)) => Some((pair_views(steps@), ostr(b), c)),
            None => None,
        },
        identity: match a.identity {
            Some((root, bases)) => Some(((root.0@, root.1@), pair_views(bases@))),
            None => None,
        },
        found: a.found,
        grouping_url: ostr(a.grouping_url),
        node: match a.node {
            Some((n, k)) => Some((n@, k@)),
            None => None,
        },
    }
}

/// Append `pre`, `v` and `post` when there is a `v` ([`opt_line`]).
fn push_opt_line(out: &mut Vec<char>, pre: &str, v: &Option<String>, post: &str)
    ensures
        final(out)@ == old(out)@ + opt_line(pre@, ostr(*v), post@),
{
    match v {
        Some(x) => {
            push_str(out, pre);
            push_str(out, x.as_str());
            push_str(out, post);
            proof {
                assert(final(out)@ =~= old(out)@ + (pre@ + x@ + post@));
            }
        },
        None => {
            proof {
                assert(out@ =~= old(out)@ + Seq::<char>::empty());
            }
        },
    }
}

/// Append the lines `pre0 a pre1 b post` of each pair.
fn push_pair_lines(out: &mut Vec<char>, ps: &Vec<(String, String)>, typedefs: bool)
    ensures
        final(out)@ == old(out)@ + if typedefs {
            step_lines(pair_views(ps@))
        } else {
            base_lines(pair_views(ps@))
        },
{
    let ghost pv = pair_views(ps@);
    let mut k: usize = 0;
    proof {
        assert(pv.take(0) =~= Seq::<(Seq<char>, Seq<char>)>::empty());
        assert(out@ =~= old(out)@ + Seq::<char>::empty());
    }
    while k < ps.len()
        invariant
            k <= ps@.len(),
            pv == pair_views(ps@),
            out@ == old(out)@ + if typedefs {
                step_lines(pv.take(k as int))
            } else {
                base_lines(pv.take(k as int))
            },
        decreases ps@.len() - k,
    {
        let ghost pre = out@;
        let p = &ps[k];
        if typedefs {
            push_str(out, "\n- typedef `");
            push_str(out, p.0.as_str());
            push_str(out, "` (in module `");
            push_str(out, p.1.as_str());
            push_str(out, "`)");
        } else {
            push_str(out, "\n- base: `");
            push_str(out, p.0.as_str());
            push_str(out, "` (module `");
            push_str(out, p.1.as_str());
            push_str(out, "`)");
        }
        proof {
            assert(pv.take(k + 1).drop_last() =~= pv.take(k as int));
            assert(pv.take(k + 1).last() == (p.0@, p.1@));
            if typedefs {
                assert(out@ =~= pre + ("\n- typedef `"@ + p.0@ + "` (in module `"@ + p.1@ + "`)"@));
            } else {
                assert(out@ =~= pre + ("\n- base: `"@ + p.0@ + "` (module `"@ + p.1@ + "`)"@));
            }
        }
        k = k + 1;
    }
    proof {
        assert(pv.take(k as int) =~= pv);
    }
}

/// What a prefixed reference shows ([`prefixed_text`]).
fn push_prefixed(out: &mut Vec<char>, prefix: &String, binding: &Binding, a: &Answers)
    ensures
        final(out)@ == old(out)@ + prefixed_text(prefix@, binding_view(*binding), answers_view(*a)),
{
    push_str(out, "prefix **`");
    push_str(out, prefix.as_str());
    push_str(out, "`**");
    push_opt_line(out, " \u{2192} module **`", &a.module, "`**");
    let ghost mid = out@;
    match binding {
        Binding::Text(t) => {
            push_str(out, "\n");
            push_str(out, "```yang\n");
            push_str(out, t.as_str());
            push_str(out, "\n```");
            proof {
                assert(out@ =~= mid + ("\n"@ + code_fence_text(t@)));
            }
        },
        Binding::Stop => {
            proof {
                assert(out@ =~= mid + Seq::<char>::empty());
            }
        },
        Binding::Unbound => {
            let own = match &a.own_prefix {
                Some(p) => str_eq(p.as_str(), prefix.as_str()),
                None => false,
            };
            if own {
                push_str(out, "\n");
                push_str(out, "this module's own prefix");
                proof {
                    assert(out@ =~= mid + ("\n"@ + "this module's own prefix"@));
                }
            } else {
                proof {
                    assert(out@ =~= mid + Seq::<char>::empty());
                }
            }
        },
    }
    proof {
        assert(out@ =~= old(out)@ + prefixed_text(prefix@, binding_view(*binding), answers_view(*a)));
    }
}

/// The hover text of a plan, given the library's answers ([`hover_text`]).
pub fn hover_finish(p: &HoverPlan, a: &Answers) -> (r: Option<String>)
    ensures
        ostr(r) == hover_text(hover_plan_view(*p), answers_view(*a)),
{
    let ghost av = answers_view(*a);
    let mut out: Vec<char> = Vec::new();
    match p {
        HoverPlan::Nothing => {
            return None;
        },
        HoverPlan::Extension { local, .. } => {
            let m = match &a.module {
                Some(m) => m,
                None => {
                    return None;
                },
            };
            let arg = match &a.ext {
                Some(arg) => arg,
                None => {
                    return None;
                },
            };
            push_str(&mut out, "extension **`");
            push_str(&mut out, local.as_str());
            push_str(&mut out, "`** (module `");
            push_str(&mut out, m.as_str());
            push_str(&mut out, "`)");
            push_opt_line(&mut out, "\n- argument: `", arg, "`");
        },
        HoverPlan::Module { name } => {
            let (ns, pf) = match &a.info {
                Some((ns, pf)) => (ns, pf),
                None => {
                    return None;
                },
            };
            push_str(&mut out, "**module** `");
            push_str(&mut out, name.as_str());
            push_str(&mut out, "`");
            push_opt_line(&mut out, "\n- namespace: `", ns, "`");
            push_opt_line(&mut out, "\n- prefix: `", pf, "`");
        },
        HoverPlan::Prefixed { prefix, binding, grouping } => {
            match grouping {
                Some(l) => {
                    push_str(&mut out, "grouping **`");
                    push_str(&mut out, l.as_str());
                    push_str(&mut out, "`** via prefix\n");
                },
                None => {},
            }
            push_prefixed(&mut out, prefix, binding, a);
        },
        HoverPlan::Builtin { name } => {
            push_str(&mut out, "built-in type **`");
            push_str(&mut out, name.as_str());
            push_str(&mut out, "`**");
        },
        HoverPlan::TypeChain { name } => {
            let (steps, builtin, complete) = match &a.chain {
                Some((s, b, c)) => (s, b, *c),
                None => {
                    return None;
                },
            };
            push_str(&mut out, "**type** `");
            push_str(&mut out, name.as_str());
            push_str(&mut out, "`");
            push_pair_lines(&mut out, steps, true);
            push_opt_line(&mut out, "\n\u{2192} built-in **`", builtin, "`**");
            if !complete {
                push_str(&mut out, "\n*typedef chain is incomplete*");
            }
        },
        HoverPlan::Identity { .. } => {
            let (root, bases) = match &a.identity {
                Some((r, b)) => (r, b),
                None => {
                    return None;
                },
            };
            push_str(&mut out, "**identity** `");
            push_str(&mut out, root.0.as_str());
            push_str(&mut out, "` (module `");
            push_str(&mut out, root.1.as_str());
            push_str(&mut out, "`)");
            push_pair_lines(&mut out, bases, false);
        },
        HoverPlan::Feature { local, .. } => {
            let m = match &a.module {
                Some(m) => m,
                None => {
                    return None;
                },
            };
            if !a.found {
                return None;
            }
            push_str(&mut out, "feature **`");
            push_str(&mut out, local.as_str());
            push_str(&mut out, "`** (module `");
            push_str(&mut out, m.as_str());
            push_str(&mut out, "`)");
        },
        HoverPlan::Default { prefix, local, member } => {
            let m = match &a.module {
                Some(m) => m,
                None => {
                    return None;
                },
            };
            if a.found {
                push_str(&mut out, "identity value **`");
                push_str(&mut out, local.as_str());
                push_str(&mut out, "`** (module `");
                push_str(&mut out, m.as_str());
                push_str(&mut out, "`)");
            } else if prefix.is_some() || !*member {
                return None;
            } else {
                push_str(&mut out, "enum value **`");
                push_str(&mut out, local.as_str());
                push_str(&mut out, "`**");
            }
        },
        HoverPlan::Grouping { name } => {
            let u = match &a.grouping_url {
                Some(u) => u,
                None => {
                    return None;
                },
            };
            push_str(&mut out, "grouping **`");
            push_str(&mut out, name.as_str());
            push_str(&mut out, "`** (defined in module `");
            push_str(&mut out, u.as_str());
            push_str(&mut out, "`)");
        },
        HoverPlan::Node { .. } => {
            let (n, k) = match &a.node {
                Some((n, k)) => (n, k),
                None => {
                    return None;
                },
            };
            push_str(&mut out, "target node **`");
            push_str(&mut out, n.as_str());
            push_str(&mut out, "`** (kind: ");
            push_str(&mut out, k.as_str());
            push_str(&mut out, ")");
        },
    }
    proof {
        assert(Some(out@) == hover_text(hover_plan_view(*p), av));
    }
    Some(string_of(out.as_slice()))
}

/// The name for the typedef chains a compiled library resolves: for a
/// module and a type name in its scope, each step as (typedef, defining
/// module), the built-in the chain ends at and whether it was followed to
/// the end.
pub uninterp spec fn library_type_chains(lib: yrepo::Library) -> Map<(Seq<char>, Seq<char>), (Seq<(Seq<char>, Seq<char>)>, Option<Seq<char>>, bool)>;

/// The name for the identity ancestries a compiled library resolves: for
/// a module and an identity name in its scope, the identity as (name,
/// module) and its bases, innermost first.
pub uninterp spec fn library_identity_chains(lib: yrepo::Library) -> Map<(Seq<char>, Seq<char>), ((Seq<char>, Seq<char>), Seq<(Seq<char>, Seq<char>)>)>;

/// yrepo's `Library::resolve_type`: the typedef chain of type `name` in
/// module `module` ([`library_type_chains`]). As its source shows, the
/// chain is complete exactly when it reaches a built-in, and the first step
/// is the typedef the name itself names: the local part of `name`, in
/// `module` when `name` has no prefix.
#[verifier::external_body]
fn resolve_type_chain(lib: &yrepo::Library, module: &str, name: &str) -> (r: Option<(Vec<(String, String)>, Option<String>, bool)>)
    ensures
        match r {
            Some((steps, b, c)) => lookup(library_type_chains(*lib), (module@, name@)) == Some((pair_views(steps@), ostr(b), c)),
            None => lookup(library_type_chains(*lib), (module@, name@)) is None,
        },
        r matches Some((steps, b, c)) ==> {
            &&& (c <==> b is Some)
            &&& !builtin_types().contains(name@) ==> {
                &&& steps@.len() > 0
                &&& steps@[0].0@ == name_parts(name@).1
                &&& name_parts(name@).0 is None ==> steps@[0].1@ == module@
            }
        },
{
    lib.resolve_type(module, name).map(|t| (
        t.typedefs.iter().map(|s| (s.name.clone(), s.module.to_string())).collect(),
        t.builtin,
        t.complete,
    ))
}

/// yrepo's `Library::resolve_identity`: identity `name` of module `module`
/// as (identity, defining module), with its bases, innermost first
/// ([`library_identity_chains`]). As its source shows, the identity found
/// is the local part of `name`, in `module` when `name` has no prefix.
#[verifier::external_body]
fn resolve_identity_chain(lib: &yrepo::Library, module: &str, name: &str) -> (r: Option<((String, String), Vec<(String, String)>)>)
    ensures
        match r {
            Some((root, bases)) => lookup(library_identity_chains(*lib), (module@, name@)) == Some(
                ((root.0@, root.1@), pair_views(bases@)),
            ),
            None => lookup(library_identity_chains(*lib), (module@, name@)) is None,
        },
        r matches Some((root, _)) ==> {
            &&& root.0@ == name_parts(name@).1
            &&& name_parts(name@).0 is None ==> root.1@ == module@
        },
{
    lib.resolve_identity(module, name).map(|i| (
        (i.root.name, i.root.module.to_string()),
        i.bases.iter().map(|b| (b.name.clone(), b.module.to_string())).collect(),
    ))
}

/// Nothing answered yet.
pub open spec fn no_answers() -> HoverAnswers {
    HoverAnswers {
        module: None,
        ext: None,
        info: None,
        own_prefix: None,
        chain: None,
        identity: None,
        found: false,
        grouping_url: None,
        node: None,
    }
}

/// What the library answers for a hover plan in module `scope`: only what
/// the plan asks.
pub open spec fn hover_answers(lib: yrepo::Library, p: HoverPlanView, scope: Seq<char>) -> HoverAnswers {
    match p {
        HoverPlanView::Extension { prefix, local } => {
            let m = module_answer(lib, scope, prefix);
            HoverAnswers {
                module: m,
                ext: match m {
                    Some(mm) => match lookup(library_extensions(lib), (mm, local)) {
                        Some((_, _, arg)) => Some(arg),
                        None => None,
                    },
                    None => None,
                },
                ..no_answers()
            }
        },
        HoverPlanView::Module { name } => HoverAnswers {
            info: match lookup(library_modules(lib), name) {
                Some((_, ns, pf)) => Some((ns, pf)),
                None => None,
            },
            ..no_answers()
        },
        HoverPlanView::Prefixed { prefix, binding, .. } => HoverAnswers {
            module: lookup(library_prefixes(lib), (scope, prefix)),
            own_prefix: if binding is Unbound {
                match lookup(library_modules(lib), scope) {
                    Some((_, _, pf)) => pf,
                    None => None,
                }
            } else {
                None
            },
            ..no_answers()
        },
        HoverPlanView::TypeChain { name } => HoverAnswers { chain: lookup(library_type_chains(lib), (scope, name)), ..no_answers() },
        HoverPlanView::Identity { name } => HoverAnswers {
            identity: lookup(library_identity_chains(lib), (scope, name)),
            ..no_answers()
        },
        HoverPlanView::Feature { prefix, local } => {
            let m = module_answer(lib, scope, prefix);
            HoverAnswers {
                module: m,
                found: match m {
                    Some(mm) => def_lookup(lib, SearchKind::Feature, mm, local) is Some,
                    None => false,
                },
                ..no_answers()
            }
        },
        HoverPlanView::Default { prefix, local, .. } => {
            let m = module_answer(lib, scope, prefix);
            HoverAnswers {
                module: m,
                found: match m {
                    Some(mm) => def_lookup(lib, SearchKind::Identity, mm, local) is Some,
                    None => false,
                },
                ..no_answers()
            }
        },
        HoverPlanView::Grouping { name } => HoverAnswers {
            grouping_url: match def_lookup(lib, SearchKind::Grouping, scope, name) {
                Some((u, _)) => Some(u),
                None => None,
            },
            ..no_answers()
        },
        HoverPlanView::Node { path } => HoverAnswers {
            node: match lookup(library_nodes(lib), (scope, path)) {
                Some((_, _, n, k)) => Some((n, k)),
                None => None,
            },
            ..no_answers()
        },
        _ => no_answers(),
    }
}

/// The hover text for the caret at `byte` of `text` (statements `tree`) in
/// module `scope`: the text [`hover_text`] gives for the plan of the caret
/// ([`hover_plan`]) with the library's answers to it ([`hover_answers`]).
pub fn handle(tree: &StmtTree, text: &str, byte: usize, scope: &str, lib: &yrepo::Library) -> (r: Option<String>)
    ensures
        ostr(r) == hover_text(
            hover_plan(tree.nodes@, text.spec_bytes(), byte as int),
            hover_answers(*lib, hover_plan(tree.nodes@, text.spec_bytes(), byte as int), scope@),
        ),
{
    let p = plan(tree, text, byte);
    let mut a = Answers {
        module: None,
        ext: None,
        info: None,
        own_prefix: None,
        chain: None,
        identity: None,
        found: false,
        grouping_url: None,
        node: None,
    };
    match &p {
        HoverPlan::Nothing => {},
        HoverPlan::Extension { prefix, local } => {
            let pre = match prefix {
                Some(s) => Some(s.as_str()),
                None => None,
            };
            a.module = module_for(scope, pre, lib);
            a.ext = match &a.module {
                Some(m) => match search_extension(lib, m.as_str(), local.as_str()) {
                    Some((_, _, arg)) => Some(arg),
                    None => None,
                },
                None => None,
            };
        },
        HoverPlan::Module { name } => {
            a.info = match module_record(lib, name.as_str()) {
                Some((_, ns, pf)) => Some((ns, pf)),
                None => None,
            };
        },
        HoverPlan::Prefixed { prefix, binding, .. } => {
            a.module = prefix_to_module(lib, scope, prefix.as_str());
            if let Binding::Unbound = binding {
                a.own_prefix = match module_record(lib, scope) {
                    Some((_, _, pf)) => pf,
                    None => None,
                };
            }
        },
        HoverPlan::Builtin { .. } => {},
        HoverPlan::TypeChain { name } => {
            a.chain = resolve_type_chain(lib, scope, name.as_str());
        },
        HoverPlan::Identity { name } => {
            a.identity = resolve_identity_chain(lib, scope, name.as_str());
        },
        HoverPlan::Feature { prefix, local } => {
            let pre = match prefix {
                Some(s) => Some(s.as_str()),
                None => None,
            };
            a.module = module_for(scope, pre, lib);
            a.found = match &a.module {
                Some(m) => search_feature(lib, m.as_str(), local.as_str()).is_some(),
                None => false,
            };
        },
        HoverPlan::Default { prefix, local, .. } => {
            let pre = match prefix {
                Some(s) => Some(s.as_str()),
                None => None,
            };
            a.module = module_for(scope, pre, lib);
            a.found = match &a.module {
                Some(m) => search_identity(lib, m.as_str(), local.as_str()).is_some(),
                None => false,
            };
        },
        HoverPlan::Grouping { name } => {
            a.grouping_url = match search_grouping(lib, scope, name.as_str()) {
                Some((u, _)) => Some(u),
                None => None,
            };
        },
        HoverPlan::Node { path } => {
            a.node = match schema_node_at(lib, scope, path.as_str()) {
                Some((_, _, n, k)) => Some((n, k)),
                None => None,
            };
        },
    }
    let r = hover_finish(&p, &a);
    proof {
        assert(answers_view(a) == hover_answers(*lib, hover_plan_view(p), scope@));
    }
    r
}

/// The YANG keyword of a schema node kind.
pub open spec fn kind_name(k: NodeKind) -> Seq<char> {
    match k {
        NodeKind::Container => "container"@,
        NodeKind::Leaf => "leaf"@,
        NodeKind::LeafList => "leaf-list"@,
        NodeKind::List => "list"@,
        NodeKind::Choice => "choice"@,
        NodeKind::Case => "case"@,
        NodeKind::Anyxml => "anyxml"@,
        NodeKind::Anydata => "anydata"@,
        NodeKind::Rpc => "rpc"@,
        NodeKind::Action => "action"@,
        NodeKind::Notification => "notification"@,
        NodeKind::Input => "input"@,
        NodeKind::Output => "output"@,
    }
}

/// The YANG keyword of a schema node kind ([`kind_name`]).
pub fn kind_str(k: NodeKind) -> (r: &'static str)
    ensures
        r@ == kind_name(k),
{
    match k {
        NodeKind::Container => "container",
        NodeKind::Leaf => "leaf",
        NodeKind::LeafList => "leaf-list",
        NodeKind::List => "list",
        NodeKind::Choice => "choice",
        NodeKind::Case => "case",
        NodeKind::Anyxml => "anyxml",
        NodeKind::Anydata => "anydata",
        NodeKind::Rpc => "rpc",
        NodeKind::Action => "action",
        NodeKind::Notification => "notification",
        NodeKind::Input => "input",
        NodeKind::Output => "output",
    }
}

/// What hovering an instance element or member shows of the schema node
/// `n` of module `module`: the node's definition `snippet` as YANG, its
/// kind, name and module, then its type, its keys and (when asked) that
/// it is mandatory.
pub open spec fn node_hover_text(snippet: Seq<char>, n: SchemaNode, module: Seq<char>, show_mandatory: bool) -> Seq<char> {
    "```yang\n"@ + snippet + "\n```\n\n`"@ + kind_name(n.kind) + "` **`"@ + n.name@ + "`** (module `"@ + module + "`)"@
        + opt_line("\n- type: `"@, ostr(n.type_arg), "`"@) + (if n.keys@.len() > 0 {
        "\n- keys: "@ + join(views(n.keys@), ", "@)
    } else {
        Seq::empty()
    }) + (if show_mandatory && n.mandatory {
        "\n- mandatory"@
    } else {
        Seq::empty()
    })
}

/// The hover text for an instance element or member that maps to `res`,
/// whose definition's source is `snippet` ([`node_hover_text`]); nothing
/// when the schema has no such module or node.
pub fn node_hover(schema: &Schema, res: &Resolved, snippet: &str, show_mandatory: bool) -> (r: Option<String>)
    ensures
        match module_idx(schema.modules@, res.module@) {
            None => r is None,
            Some(k) => match node_of(schema.modules@[k], res.id as int) {
                None => r is None,
                Some(n) => r matches Some(t) && t@ == node_hover_text(snippet@, n, res.module@, show_mandatory),
            },
        },
{
    let k = match schema.module(res.module.as_str()) {
        Some(k) => k,
        None => {
            return None;
        },
    };
    let n = match schema.modules[k].node(res.id) {
        Some(n) => n,
        None => {
            return None;
        },
    };
    let mut out: Vec<char> = Vec::new();
    push_str(&mut out, "```yang\n");
    push_str(&mut out, snippet);
    push_str(&mut out, "\n```\n\n`");
    push_str(&mut out, kind_str(n.kind));
    push_str(&mut out, "` **`");
    push_str(&mut out, n.name.as_str());
    push_str(&mut out, "`** (module `");
    push_str(&mut out, res.module.as_str());
    push_str(&mut out, "`)");
    push_opt_line(&mut out, "\n- type: `", &n.type_arg, "`");
    let ghost mid = out@;
    if n.keys.len() > 0 {
        push_str(&mut out, "\n- keys: ");
        push_joined(&mut out, &n.keys);
    } else {
        proof {
            assert(out@ =~= mid + Seq::<char>::empty());
        }
    }
    let ghost mid2 = out@;
    if show_mandatory && n.mandatory {
        push_str(&mut out, "\n- mandatory");
    } else {
        proof {
            assert(out@ =~= mid2 + Seq::<char>::empty());
        }
    }
    proof {
        assert(out@ =~= node_hover_text(snippet@, *n, res.module@, show_mandatory));
    }
    Some(string_of(out.as_slice()))
}


/// The kind word holds letters and `-` only, never a backtick.
proof fn lemma_kind_word_plain(k: NodeKind)
    ensures
        forall|j: int| 0 <= j < kind_name(k).len() ==> #[trigger] kind_name(k)[j] != '`',
        kind_name(k).len() > 0,
{
    reveal_strlit("container");
    reveal_strlit("leaf");
    reveal_strlit("leaf-list");
    reveal_strlit("list");
    reveal_strlit("choice");
    reveal_strlit("case");
    reveal_strlit("anyxml");
    reveal_strlit("anydata");
    reveal_strlit("rpc");
    reveal_strlit("action");
    reveal_strlit("notification");
    reveal_strlit("input");
    reveal_strlit("output");
}

/// Each node kind has its own word, and it is the word completion shows
/// for that kind: no two kinds (a `leaf` and a `leaf-list`, say) are named
/// alike.
pub proof fn law_kind_words_are_distinct(k1: NodeKind, k2: NodeKind)
    ensures
        kind_name(k1) == kind_name(k2) ==> k1 == k2,
        kind_name(k1) == crate::completion::kind_name(k1),
{
    reveal_strlit("container");
    reveal_strlit("leaf");
    reveal_strlit("leaf-list");
    reveal_strlit("list");
    reveal_strlit("choice");
    reveal_strlit("case");
    reveal_strlit("anyxml");
    reveal_strlit("anydata");
    reveal_strlit("rpc");
    reveal_strlit("action");
    reveal_strlit("notification");
    reveal_strlit("input");
    reveal_strlit("output");
    if kind_name(k1) == kind_name(k2) {
        assert(kind_name(k1).len() == kind_name(k2).len());
        if kind_name(k1).len() > 0 {
            assert(kind_name(k1)[0] == kind_name(k2)[0]);
        }
        if kind_name(k1).len() > 1 {
            assert(kind_name(k1)[1] == kind_name(k2)[1]);
        }
        if kind_name(k1).len() > 4 {
            assert(kind_name(k1)[4] == kind_name(k2)[4]);
        }
    }
}

/// The hover text of a schema node names its kind: right after the code
/// block stands the kind's word, closed by a backtick; so the hovers of two
/// nodes of different kinds differ, whatever else they share.
pub proof fn law_hover_names_the_node_kind(
    snippet: Seq<char>,
    n1: SchemaNode,
    n2: SchemaNode,
    module: Seq<char>,
    show_mandatory: bool,
)
    ensures
        ({
            let p = ("```yang\n"@ + snippet + "\n```\n\n`"@).len() as int;
            let t = node_hover_text(snippet, n1, module, show_mandatory);
            let w = kind_name(n1.kind);
            &&& t.subrange(p, p + w.len()) == w
            &&& t[p + w.len()] == '`'
        }),
        n1.kind != n2.kind ==> node_hover_text(snippet, n1, module, show_mandatory) != node_hover_text(
            snippet,
            n2,
            module,
            show_mandatory,
        ),
{
    let a = "```yang\n"@ + snippet + "\n```\n\n`"@;
    let p = a.len() as int;
    let w1 = kind_name(n1.kind);
    let w2 = kind_name(n2.kind);
    let t1 = node_hover_text(snippet, n1, module, show_mandatory);
    let t2 = node_hover_text(snippet, n2, module, show_mandatory);
    reveal_strlit("` **`");
    let r1 = t1.skip(p + w1.len());
    let r2 = t2.skip(p + w2.len());
    assert(t1 =~= a + w1 + r1);
    assert(t2 =~= a + w2 + r2);
    assert(r1[0] == '`');
    assert(r2[0] == '`');
    assert(t1.subrange(p, p + w1.len()) =~= w1);
    assert(t1[p + w1.len()] == r1[0]);
    lemma_kind_word_plain(n1.kind);
    lemma_kind_word_plain(n2.kind);
    if n1.kind != n2.kind && t1 == t2 {
        law_kind_words_are_distinct(n1.kind, n2.kind);
        if w1.len() < w2.len() {
            assert(t1[p + w1.len()] == '`');
            assert(t2[p + w1.len()] == w2[w1.len() as int]);
        } else if w2.len() < w1.len() {
            assert(t2[p + w2.len()] == '`');
            assert(t1[p + w2.len()] == w1[w2.len() as int]);
        } else {
            assert(t2.subrange(p, p + w2.len()) =~= w2);
            assert(w1 =~= w2);
        }
    }
}
} // verus!
