//! Go-to-definition.
//!
//! Two stages: the caret's context in the statement tree decides what is
//! looked up ([`goto_plan`]), then the compiled library answers the lookup
//! and the jump target is built from the answer ([`goto_finish`]).

use std::ops::Range;
use vstd::prelude::*;
use vstd::string::StringSliceAdditionalSpecFns;
use crate::json::{name_parts, split_name};
use crate::stmt::{enum_member, holds, holds_byte, last_owner, narrowest, refine_target, Stmt, StmtKind, StmtTree};
use crate::text::{chars_of, slice_chars, str_eq, str_get, string_of, views};

verus! {

broadcast use vstd::slice::group_slice_axioms;

/// The built-in type names of YANG (a `type` naming one has no target).
pub open spec fn builtin_types() -> Seq<Seq<char>> {
    seq![
        "binary"@,
        "bits"@,
        "boolean"@,
        "decimal64"@,
        "empty"@,
        "enumeration"@,
        "identityref"@,
        "instance-identifier"@,
        "int8"@,
        "int16"@,
        "int32"@,
        "int64"@,
        "leafref"@,
        "string"@,
        "uint8"@,
        "uint16"@,
        "uint32"@,
        "uint64"@,
        "union"@
    ]
}

/// Whether `name` is a built-in type name ([`builtin_types`]).
pub fn is_builtin_type(name: &str) -> (r: bool)
    ensures
        r == builtin_types().contains(name@),
{
    let names: Vec<&'static str> = vec![
        "binary",
        "bits",
        "boolean",
        "decimal64",
        "empty",
        "enumeration",
        "identityref",
        "instance-identifier",
        "int8",
        "int16",
        "int32",
        "int64",
        "leafref",
        "string",
        "uint8",
        "uint16",
        "uint32",
        "uint64",
        "union",
    ];
    proof {
        let nv = names@.map_values(|s: &'static str| s@);
        assert(nv =~= builtin_types()) by {
            reveal_strlit("binary");
        }
    }
    let mut k: usize = 0;
    while k < names.len()
        invariant
            k <= names@.len(),
            names@.map_values(|s: &'static str| s@) == builtin_types(),
            forall|j: int| 0 <= j < k ==> builtin_types()[j] != name@,
        decreases names@.len() - k,
    {
        proof {
            assert(names@.map_values(|s: &'static str| s@)[k as int] == names@[k as int]@);
        }
        if str_eq(names[k], name) {
            proof {
                assert(builtin_types()[k as int] == name@);
            }
            return true;
        }
        k = k + 1;
    }
    false
}

/// What a go-to-definition jump looks up in the library.
#[derive(Clone, Copy, PartialEq, Eq, Structural)]
pub enum SearchKind {
    Extension,
    Grouping,
    Typedef,
    Identity,
    Feature,
}

/// What the caret's statement asks of the library.
pub enum GotoPlan {
    /// Nothing to jump to.
    Nothing,
    /// A definition `local` of the module the `prefix` names (this module
    /// without one); the jump starts from `origin`.
    Search { what: SearchKind, prefix: Option<String>, local: String, origin: Range<usize> },
    /// The top of the first source file of module `name` (`import`,
    /// `belongs-to`).
    ModuleFile { name: String },
    /// The top of the file of submodule `name` (`include`).
    SubmoduleFile { name: String },
    /// The schema node of an absolute path (`augment`, leafref `path`,
    /// `deviation`).
    SchemaNode { path: String, origin: Range<usize> },
    /// A `default`: an identity `local` of the module `prefix` names, else
    /// the enum member `member` of the owning leaf's enumeration.
    Default { prefix: Option<String>, local: String, origin: Range<usize>, member: Option<Range<usize>> },
    /// A `refine` or `uses`-`augment`: the node `target` in this file, when
    /// the `uses`'s grouping (of module `prefix`) is this module's.
    InFile { prefix: Option<String>, target: Option<Range<usize>>, origin: Range<usize> },
}

/// The mathematical form of a [`GotoPlan`].
pub enum PlanView {
    Nothing,
    Search { what: SearchKind, prefix: Option<Seq<char>>, local: Seq<char>, origin: Range<usize> },
    ModuleFile { name: Seq<char> },
    SubmoduleFile { name: Seq<char> },
    SchemaNode { path: Seq<char>, origin: Range<usize> },
    Default { prefix: Option<Seq<char>>, local: Seq<char>, origin: Range<usize>, member: Option<Range<usize>> },
    InFile { prefix: Option<Seq<char>>, target: Option<Range<usize>>, origin: Range<usize> },
}

/// The view of an optional string.
pub open spec fn ostr(o: Option<String>) -> Option<Seq<char>> {
    match o {
        Some(s) => Some(s@),
        None => None,
    }
}

/// The view of a plan.
pub open spec fn plan_view(p: GotoPlan) -> PlanView {
    match p {
        GotoPlan::Nothing => PlanView::Nothing,
        GotoPlan::Search { what, prefix, local, origin } => PlanView::Search {
            what,
            prefix: ostr(prefix),
            local: local@,
            origin,
        },
        GotoPlan::ModuleFile { name } => PlanView::ModuleFile { name: name@ },
        GotoPlan::SubmoduleFile { name } => PlanView::SubmoduleFile { name: name@ },
        GotoPlan::SchemaNode { path, origin } => PlanView::SchemaNode { path: path@, origin },
        GotoPlan::Default { prefix, local, origin, member } => PlanView::Default {
            prefix: ostr(prefix),
            local: local@,
            origin,
            member,
        },
        GotoPlan::InFile { prefix, target, origin } => PlanView::InFile { prefix: ostr(prefix), target, origin },
    }
}

/// A search plan for argument `name` at `origin`.
pub open spec fn search_plan(what: SearchKind, name: Seq<char>, origin: Range<usize>) -> PlanView {
    PlanView::Search { what, prefix: name_parts(name).0, local: name_parts(name).1, origin }
}

/// A path plan: only an absolute path names a schema node.
pub open spec fn path_plan(path: Seq<char>, origin: Range<usize>) -> PlanView {
    if path.len() > 0 && path[0] == '/' {
        PlanView::SchemaNode { path, origin }
    } else {
        PlanView::Nothing
    }
}

/// What go-to-definition at `byte` of a file with statements `nodes` and
/// bytes `b` looks up.
pub open spec fn goto_plan(nodes: Seq<Stmt>, b: Seq<u8>, byte: int) -> PlanView {
    match narrowest(nodes, byte) {
        None => PlanView::Nothing,
        Some(i) => {
            let s = nodes[i];
            if s.kind is Unknown {
                match s.keyword {
                    None => PlanView::Nothing,
                    Some(kw) => if !holds(kw, byte) {
                        PlanView::Nothing
                    } else {
                        match slice_chars(b, kw.start as int, kw.end as int) {
                            None => PlanView::Nothing,
                            Some(t) => search_plan(SearchKind::Extension, t, kw),
                        }
                    },
                }
            } else {
                match s.arg {
                    None => PlanView::Nothing,
                    Some(a) => if !holds(a.range, byte) {
                        PlanView::Nothing
                    } else {
                        let name = a.name@;
                        match s.kind {
                            StmtKind::Import | StmtKind::BelongsTo => PlanView::ModuleFile { name },
                            StmtKind::Include => PlanView::SubmoduleFile { name },
                            StmtKind::Uses => search_plan(SearchKind::Grouping, name, a.range),
                            StmtKind::Type => if builtin_types().contains(name_parts(name).1) {
                                PlanView::Nothing
                            } else {
                                search_plan(SearchKind::Typedef, name, a.range)
                            },
                            StmtKind::Base => search_plan(SearchKind::Identity, name, a.range),
                            StmtKind::IfFeature => search_plan(SearchKind::Feature, name, a.range),
                            StmtKind::Default => PlanView::Default {
                                prefix: name_parts(name).0,
                                local: name_parts(name).1,
                                origin: a.range,
                                member: match last_owner(nodes, byte, nodes.len() as int) {
                                    Some(o) => enum_member(nodes, o, name),
                                    None => None,
                                },
                            },
                            StmtKind::Augment | StmtKind::Path | StmtKind::Deviation => path_plan(a.path@, a.range),
                            StmtKind::UsesAugment | StmtKind::Refine => match refine_target(nodes, i) {
                                None => PlanView::Nothing,
                                Some((p, t)) => PlanView::InFile { prefix: p, target: t, origin: a.range },
                            },
                            _ => PlanView::Nothing,
                        }
                    },
                }
            }
        },
    }
}

/// A copy of a span.
fn span(r: &Range<usize>) -> (c: Range<usize>)
    ensures
        c == *r,
{
    Range { start: r.start, end: r.end }
}

/// The search plan for argument `name` at `origin` ([`search_plan`]).
fn search(what: SearchKind, name: &str, origin: &Range<usize>) -> (r: GotoPlan)
    ensures
        plan_view(r) == search_plan(what, name@, *origin),
{
    let (prefix, local) = split_name(name);
    GotoPlan::Search { what, prefix, local, origin: span(origin) }
}

/// What go-to-definition at `byte` of `text`, whose statements are `tree`,
/// looks up ([`goto_plan`]).
pub fn plan(tree: &StmtTree, text: &str, byte: usize) -> (r: GotoPlan)
    ensures
        plan_view(r) == goto_plan(tree.nodes@, text.spec_bytes(), byte as int),
{
    let ghost nodes = tree.nodes@;
    let i = match tree.narrowest_at(byte) {
        Some(i) => i,
        None => {
            return GotoPlan::Nothing;
        },
    };
    proof {
        crate::stmt::lemma_narrowest_range(nodes, byte as int);
    }
    let s = &tree.nodes[i];
    if let StmtKind::Unknown(_) = &s.kind {
        let kw = match &s.keyword {
            Some(kw) => kw,
            None => {
                return GotoPlan::Nothing;
            },
        };
        if !holds_byte(kw, byte) {
            return GotoPlan::Nothing;
        }
        let t = match str_get(text, kw.start, kw.end) {
            Some(t) => t,
            None => {
                return GotoPlan::Nothing;
            },
        };
        proof {
            vstd::utf8::encode_utf8_decode_utf8(t@);
            assert(slice_chars(text.spec_bytes(), kw.start as int, kw.end as int) == Some(t@));
        }
        return search(SearchKind::Extension, t, kw);
    }
    let a = match &s.arg {
        Some(a) => a,
        None => {
            return GotoPlan::Nothing;
        },
    };
    if !holds_byte(&a.range, byte) {
        return GotoPlan::Nothing;
    }
    let name = a.name.as_str();
    match s.kind {
        StmtKind::Import | StmtKind::BelongsTo => GotoPlan::ModuleFile { name: a.name.clone() },
        StmtKind::Include => GotoPlan::SubmoduleFile { name: a.name.clone() },
        StmtKind::Uses => search(SearchKind::Grouping, name, &a.range),
        StmtKind::Type => {
            let (_, local) = split_name(name);
            if is_builtin_type(local.as_str()) {
                GotoPlan::Nothing
            } else {
                search(SearchKind::Typedef, name, &a.range)
            }
        },
        StmtKind::Base => search(SearchKind::Identity, name, &a.range),
        StmtKind::IfFeature => search(SearchKind::Feature, name, &a.range),
        StmtKind::Default => {
            let (prefix, local) = split_name(name);
            let member = match tree.owner_data_node(byte) {
                Some(o) => {
                    proof {
                        crate::stmt::lemma_last_owner_range(nodes, byte as int, nodes.len() as int);
                    }
                    tree.enum_member_arg(o, name)
                },
                None => None,
            };
            GotoPlan::Default { prefix, local, origin: span(&a.range), member }
        },
        StmtKind::Augment | StmtKind::Path | StmtKind::Deviation => {
            let p = chars_of(a.path.as_str());
            if p.len() > 0 && p[0] == '/' {
                GotoPlan::SchemaNode { path: a.path.clone(), origin: span(&a.range) }
            } else {
                GotoPlan::Nothing
            }
        },
        StmtKind::UsesAugment | StmtKind::Refine => match tree.refine_target_in_file(i) {
            None => GotoPlan::Nothing,
            Some((prefix, target)) => GotoPlan::InFile { prefix, target, origin: span(&a.range) },
        },
        _ => GotoPlan::Nothing,
    }
}

/// A resolved jump target: a file and byte spans in it.
pub struct Target {
    pub url: String,
    pub target_range: Range<usize>,
    pub origin_range: Range<usize>,
}

/// The view of a target.
pub open spec fn target_view(t: Target) -> (Seq<char>, Range<usize>, Range<usize>) {
    (t.url@, t.target_range, t.origin_range)
}

/// The empty span at the start of a file.
pub open spec fn top_span() -> Range<usize> {
    Range { start: 0, end: 0 }
}

/// The jump a plan makes in file `url` of module `scope`, given what the
/// library answered: `module`, the module the plan's prefix names (this
/// module without one), and `found`, the file and span of what was looked
/// up (for a file plan, only its file counts).
pub open spec fn goto_finish(
    p: PlanView,
    url: Seq<char>,
    scope: Seq<char>,
    module: Option<Seq<char>>,
    found: Option<(Seq<char>, Range<usize>)>,
) -> Option<(Seq<char>, Range<usize>, Range<usize>)> {
    match p {
        PlanView::Nothing => None,
        PlanView::Search { origin, .. } => match module {
            None => None,
            Some(_) => match found {
                Some((u, r)) => Some((u, r, origin)),
                None => None,
            },
        },
        PlanView::ModuleFile { .. } | PlanView::SubmoduleFile { .. } => match found {
            Some((u, _)) => Some((u, top_span(), top_span())),
            None => None,
        },
        PlanView::SchemaNode { origin, .. } => match found {
            Some((u, r)) => Some((u, r, origin)),
            None => None,
        },
        PlanView::Default { origin, member, .. } => match module {
            None => None,
            Some(_) => match found {
                Some((u, r)) => Some((u, r, origin)),
                None => match member {
                    Some(r) => Some((url, r, origin)),
                    None => None,
                },
            },
        },
        PlanView::InFile { target, origin, .. } => if module == Some(scope) {
            match target {
                Some(t) => Some((url, t, origin)),
                None => None,
            }
        } else {
            None
        },
    }
}

/// The jump a plan makes, given the library's answers ([`goto_finish`]).
pub fn finish(
    p: &GotoPlan,
    url: &str,
    scope: &str,
    module: Option<&str>,
    found: Option<(String, Range<usize>)>,
) -> (r: Option<Target>)
    ensures
        match r {
            Some(t) => goto_finish(
                plan_view(*p),
                url@,
                scope@,
                match module {
                    Some(m) => Some(m@),
                    None => None,
                },
                match found {
                    Some((u, rg)) => Some((u@, rg)),
                    None => None,
                },
            ) == Some(target_view(t)),
            None => goto_finish(
                plan_view(*p),
                url@,
                scope@,
                match module {
                    Some(m) => Some(m@),
                    None => None,
                },
                match found {
                    Some((u, rg)) => Some((u@, rg)),
                    None => None,
                },
            ) is None,
        },
{
    let url_s = string_of(chars_of(url).as_slice());
    match p {
        GotoPlan::Nothing => None,
        GotoPlan::Search { origin, .. } => match module {
            None => None,
            Some(_) => match found {
                Some((u, rg)) => Some(Target { url: u, target_range: rg, origin_range: span(origin) }),
                None => None,
            },
        },
        GotoPlan::ModuleFile { .. } | GotoPlan::SubmoduleFile { .. } => match found {
            Some((u, _)) => Some(Target { url: u, target_range: Range { start: 0, end: 0 }, origin_range: Range { start: 0, end: 0 } }),
            None => None,
        },
        GotoPlan::SchemaNode { origin, .. } => match found {
            Some((u, rg)) => Some(Target { url: u, target_range: rg, origin_range: span(origin) }),
            None => None,
        },
        GotoPlan::Default { origin, member, .. } => match module {
            None => None,
            Some(_) => match found {
                Some((u, rg)) => Some(Target { url: u, target_range: rg, origin_range: span(origin) }),
                None => match member {
                    Some(rg) => Some(Target { url: url_s, target_range: span(rg), origin_range: span(origin) }),
                    None => None,
                },
            },
        },
        GotoPlan::InFile { target, origin, .. } => {
            let same = match module {
                Some(m) => str_eq(m, scope),
                None => false,
            };
            if same {
                match target {
                    Some(t) => Some(Target { url: url_s, target_range: span(t), origin_range: span(origin) }),
                    None => None,
                }
            } else {
                None
            }
        },
    }
}

/// `k` looked up in `m`.
pub open spec fn lookup<K, V>(m: Map<K, V>, k: K) -> Option<V> {
    if m.dom().contains(k) {
        Some(m[k])
    } else {
        None
    }
}

/// The name for the extensions a compiled library holds: for a module (its
/// latest revision) and a name, the file and span of the definition and the
/// name its `argument` statement declares.
pub uninterp spec fn library_extensions(lib: yrepo::Library) -> Map<(Seq<char>, Seq<char>), (Seq<char>, Range<usize>, Option<Seq<char>>)>;

/// The name for the groupings a compiled library holds: for a module and a
/// name, the file and span of the definition.
pub uninterp spec fn library_groupings(lib: yrepo::Library) -> Map<(Seq<char>, Seq<char>), (Seq<char>, Range<usize>)>;

/// The name for the typedefs a compiled library holds: for a module and a
/// name, the file and span of the definition.
pub uninterp spec fn library_typedefs(lib: yrepo::Library) -> Map<(Seq<char>, Seq<char>), (Seq<char>, Range<usize>)>;

/// The name for the identities a compiled library holds: for a module and
/// a name, the file and span of the definition.
pub uninterp spec fn library_identities(lib: yrepo::Library) -> Map<(Seq<char>, Seq<char>), (Seq<char>, Range<usize>)>;

/// The name for the features a compiled library holds: for a module and a
/// name, the file and span of the definition.
pub uninterp spec fn library_features(lib: yrepo::Library) -> Map<(Seq<char>, Seq<char>), (Seq<char>, Range<usize>)>;

/// The name for the prefixes a compiled library resolves: for a module and
/// a prefix in its scope, the module the prefix names.
pub uninterp spec fn library_prefixes(lib: yrepo::Library) -> Map<(Seq<char>, Seq<char>), Seq<char>>;

/// The name for the modules a compiled library holds: for a module name
/// (its latest revision), its source files, namespace and prefix.
pub uninterp spec fn library_modules(lib: yrepo::Library) -> Map<Seq<char>, (Seq<Seq<char>>, Option<Seq<char>>, Option<Seq<char>>)>;

/// The name for the submodules a compiled library holds: for a submodule
/// name, the file of its first record.
pub uninterp spec fn library_submodules(lib: yrepo::Library) -> Map<Seq<char>, Seq<char>>;

/// The name for the schema nodes a compiled library resolves: for a module
/// and an absolute schema-node path in its scope, the file and span where
/// the node is defined, its name and its kind (as `Debug` prints it).
pub uninterp spec fn library_nodes(lib: yrepo::Library) -> Map<(Seq<char>, Seq<char>), (Seq<char>, Range<usize>, Seq<char>, Seq<char>)>;

/// The definition of kind `kind` named `name` in module `module`: its file
/// and span.
pub open spec fn def_lookup(lib: yrepo::Library, kind: SearchKind, module: Seq<char>, name: Seq<char>) -> Option<(Seq<char>, Range<usize>)> {
    match kind {
        SearchKind::Extension => match lookup(library_extensions(lib), (module, name)) {
            Some((u, g, _)) => Some((u, g)),
            None => None,
        },
        SearchKind::Grouping => lookup(library_groupings(lib), (module, name)),
        SearchKind::Typedef => lookup(library_typedefs(lib), (module, name)),
        SearchKind::Identity => lookup(library_identities(lib), (module, name)),
        SearchKind::Feature => lookup(library_features(lib), (module, name)),
    }
}

/// yrepo's `Library::prefix_to_module`: the module that `prefix` names in
/// module `module`'s scope ([`library_prefixes`]).
#[verifier::external_body]
pub(crate) fn prefix_to_module(lib: &yrepo::Library, module: &str, prefix: &str) -> (r: Option<String>)
    ensures
        ostr(r) == lookup(library_prefixes(*lib), (module@, prefix@)),
{
    lib.prefix_to_module(module, prefix).map(|m| m.to_string())
}

/// The module a reference with `prefix` in module `scope` points into: the
/// one the prefix names, else `scope` itself.
pub open spec fn module_answer(lib: yrepo::Library, scope: Seq<char>, prefix: Option<Seq<char>>) -> Option<Seq<char>> {
    match prefix {
        Some(p) => lookup(library_prefixes(lib), (scope, p)),
        None => Some(scope),
    }
}

/// The module a reference `[prefix:]name` in module `scope` points into
/// ([`module_answer`]).
pub fn module_for(scope: &str, prefix: Option<&str>, lib: &yrepo::Library) -> (r: Option<String>)
    ensures
        ostr(r) == module_answer(*lib, scope@, match prefix {
            Some(p) => Some(p@),
            None => None,
        }),
        prefix is None ==> (r matches Some(m) && m@ == scope@),
{
    match prefix {
        Some(p) => prefix_to_module(lib, scope, p),
        None => Some(string_of(chars_of(scope).as_slice())),
    }
}

/// yrepo's `Library::search_extension`: the file and span of the
/// definition of extension `name` in module `module`, and the name its
/// `argument` statement declares ([`library_extensions`]).
#[verifier::external_body]
pub(crate) fn search_extension(lib: &yrepo::Library, module: &str, name: &str) -> (r: Option<(String, Range<usize>, Option<String>)>)
    ensures
        match r {
            Some((u, g, a)) => lookup(library_extensions(*lib), (module@, name@)) == Some((u@, g, ostr(a))),
            None => lookup(library_extensions(*lib), (module@, name@)) is None,
        },
{
    match lib.search_extension(module, name) {
        Some(d) => Some((d.defining.url.to_string(), d.defining.range.clone(), d.argument.clone())),
        None => None,
    }
}

/// yrepo's `Library::search_grouping`: the file and span of grouping
/// `name` of module `module` ([`library_groupings`]).
#[verifier::external_body]
pub(crate) fn search_grouping(lib: &yrepo::Library, module: &str, name: &str) -> (r: Option<(String, Range<usize>)>)
    ensures
        found_view(r) == lookup(library_groupings(*lib), (module@, name@)),
{
    match lib.search_grouping(module, name) {
        Some(d) => Some((d.defining.url.to_string(), d.defining.range.clone())),
        None => None,
    }
}

/// yrepo's `Library::search_type`: the file and span of typedef `name` of
/// module `module` ([`library_typedefs`]).
#[verifier::external_body]
fn search_type(lib: &yrepo::Library, module: &str, name: &str) -> (r: Option<(String, Range<usize>)>)
    ensures
        found_view(r) == lookup(library_typedefs(*lib), (module@, name@)),
{
    match lib.search_type(module, name) {
        Some(d) => Some((d.defining.url.to_string(), d.defining.range.clone())),
        None => None,
    }
}

/// yrepo's `Library::search_identity`: the file and span of identity
/// `name` of module `module` ([`library_identities`]).
#[verifier::external_body]
pub(crate) fn search_identity(lib: &yrepo::Library, module: &str, name: &str) -> (r: Option<(String, Range<usize>)>)
    ensures
        found_view(r) == lookup(library_identities(*lib), (module@, name@)),
{
    match lib.search_identity(module, name) {
        Some(d) => Some((d.defining.url.to_string(), d.defining.range.clone())),
        None => None,
    }
}

/// yrepo's `Library::search_feature`: the file and span of feature `name`
/// of module `module` ([`library_features`]).
#[verifier::external_body]
pub(crate) fn search_feature(lib: &yrepo::Library, module: &str, name: &str) -> (r: Option<(String, Range<usize>)>)
    ensures
        found_view(r) == lookup(library_features(*lib), (module@, name@)),
{
    match lib.search_feature(module, name) {
        Some(d) => Some((d.defining.url.to_string(), d.defining.range.clone())),
        None => None,
    }
}

/// yrepo's `Library::module` (the latest revision of module `name`), read
/// for its source files, its namespace and its prefix
/// ([`library_modules`]).
#[verifier::external_body]
pub(crate) fn module_record(lib: &yrepo::Library, name: &str) -> (r: Option<(Vec<String>, Option<String>, Option<String>)>)
    ensures
        match r {
            Some((urls, ns, pf)) => lookup(library_modules(*lib), name@) == Some((views(urls@), ostr(ns), ostr(pf))),
            None => lookup(library_modules(*lib), name@) is None,
        },
{
    match lib.module(name) {
        Some(m) => Some((
            m.source_urls().iter().map(|u| u.to_string()).collect(),
            m.namespace().map(|n| n.to_string()),
            m.prefix().map(|p| p.to_string()),
        )),
        None => None,
    }
}

/// yrepo's `Library::submodule`, read for the submodule's file
/// ([`library_submodules`]).
#[verifier::external_body]
fn submodule_url(lib: &yrepo::Library, name: &str) -> (r: Option<String>)
    ensures
        ostr(r) == lookup(library_submodules(*lib), name@),
{
    match lib.submodule(name) {
        Some(s) => Some(s.url().to_string()),
        None => None,
    }
}

/// yrepo's `Library::resolve_abs_schema_node_id`, read for the file and
/// span where the node is defined, its name and its kind (as `Debug`
/// prints it) ([`library_nodes`]).
#[verifier::external_body]
pub(crate) fn schema_node_at(lib: &yrepo::Library, module: &str, path: &str) -> (r: Option<(String, Range<usize>, String, String)>)
    ensures
        match r {
            Some((u, g, n, k)) => lookup(library_nodes(*lib), (module@, path@)) == Some((u@, g, n@, k@)),
            None => lookup(library_nodes(*lib), (module@, path@)) is None,
        },
{
    match lib.resolve_abs_schema_node_id(module, path) {
        Some(n) => Some((
            n.defining().url.to_string(),
            n.defining().range.clone(),
            n.name().to_string(),
            format!("{:?}", n.kind()),
        )),
        None => None,
    }
}

/// What the library answers for a plan in module `scope`: the module the
/// reference points into, and the file and span found.
pub open spec fn goto_answers(lib: yrepo::Library, p: PlanView, scope: Seq<char>) -> (Option<Seq<char>>, Option<(Seq<char>, Range<usize>)>) {
    match p {
        PlanView::Nothing => (None, None),
        PlanView::Search { what, prefix, local, .. } => {
            let m = module_answer(lib, scope, prefix);
            (m, match m {
                Some(mm) => def_lookup(lib, what, mm, local),
                None => None,
            })
        },
        PlanView::ModuleFile { name } => (None, match lookup(library_modules(lib), name) {
            Some((urls, _, _)) => if urls.len() > 0 {
                Some((urls[0], Range { start: 0, end: 0 }))
            } else {
                None
            },
            None => None,
        }),
        PlanView::SubmoduleFile { name } => (None, match lookup(library_submodules(lib), name) {
            Some(u) => Some((u, Range { start: 0, end: 0 })),
            None => None,
        }),
        PlanView::SchemaNode { path, .. } => (None, match lookup(library_nodes(lib), (scope, path)) {
            Some((u, g, _, _)) => Some((u, g)),
            None => None,
        }),
        PlanView::Default { prefix, local, .. } => {
            let m = module_answer(lib, scope, prefix);
            (m, match m {
                Some(mm) => def_lookup(lib, SearchKind::Identity, mm, local),
                None => None,
            })
        },
        PlanView::InFile { prefix, .. } => (module_answer(lib, scope, prefix), None),
    }
}

/// The view of an optional file and span.
pub open spec fn found_view(f: Option<(String, Range<usize>)>) -> Option<(Seq<char>, Range<usize>)> {
    match f {
        Some((u, r)) => Some((u@, r)),
        None => None,
    }
}

/// The jump targets for the statement under `byte` of file `url` (module
/// `scope`), whose text is `text` and statements `tree`: at most one, the
/// jump [`goto_finish`] makes for the plan of the caret ([`goto_plan`])
/// with the library's answers to it ([`goto_answers`]).
pub fn resolve(tree: &StmtTree, text: &str, url: &str, byte: usize, scope: &str, lib: &yrepo::Library) -> (r: Option<Vec<Target>>)
    ensures
        match r {
            Some(v) => v@.len() == 1 && goto_finish(
                goto_plan(tree.nodes@, text.spec_bytes(), byte as int),
                url@,
                scope@,
                goto_answers(*lib, goto_plan(tree.nodes@, text.spec_bytes(), byte as int), scope@).0,
                goto_answers(*lib, goto_plan(tree.nodes@, text.spec_bytes(), byte as int), scope@).1,
            ) == Some(target_view(v@[0])),
            None => goto_finish(
                goto_plan(tree.nodes@, text.spec_bytes(), byte as int),
                url@,
                scope@,
                goto_answers(*lib, goto_plan(tree.nodes@, text.spec_bytes(), byte as int), scope@).0,
                goto_answers(*lib, goto_plan(tree.nodes@, text.spec_bytes(), byte as int), scope@).1,
            ) is None,
        },
{
    let p = plan(tree, text, byte);
    let ghost pv = plan_view(p);
    let (module, found): (Option<String>, Option<(String, Range<usize>)>) = match &p {
        GotoPlan::Nothing => (None, None),
        GotoPlan::Search { what, prefix, local, .. } => {
            let pre = match prefix {
                Some(s) => Some(s.as_str()),
                None => None,
            };
            let m = module_for(scope, pre, lib);
            let f = match &m {
                None => None,
                Some(mm) => match what {
                    SearchKind::Extension => match search_extension(lib, mm.as_str(), local.as_str()) {
                        Some((u, r, _)) => Some((u, r)),
                        None => None,
                    },
                    SearchKind::Grouping => search_grouping(lib, mm.as_str(), local.as_str()),
                    SearchKind::Typedef => search_type(lib, mm.as_str(), local.as_str()),
                    SearchKind::Identity => search_identity(lib, mm.as_str(), local.as_str()),
                    SearchKind::Feature => search_feature(lib, mm.as_str(), local.as_str()),
                },
            };
            (m, f)
        },
        GotoPlan::ModuleFile { name } => match module_record(lib, name.as_str()) {
            Some((urls, _, _)) => if urls.len() > 0 {
                (None, Some((string_of(chars_of(urls[0].as_str()).as_slice()), Range { start: 0, end: 0 })))
            } else {
                (None, None)
            },
            None => (None, None),
        },
        GotoPlan::SubmoduleFile { name } => match submodule_url(lib, name.as_str()) {
            Some(u) => (None, Some((u, Range { start: 0, end: 0 }))),
            None => (None, None),
        },
        GotoPlan::SchemaNode { path, .. } => match schema_node_at(lib, scope, path.as_str()) {
            Some((u, r, _, _)) => (None, Some((u, r))),
            None => (None, None),
        },
        GotoPlan::Default { prefix, local, .. } => {
            let pre = match prefix {
                Some(s) => Some(s.as_str()),
                None => None,
            };
            let m = module_for(scope, pre, lib);
            let f = match &m {
                None => None,
                Some(mm) => search_identity(lib, mm.as_str(), local.as_str()),
            };
            (m, f)
        },
        GotoPlan::InFile { prefix, .. } => {
            let pre = match prefix {
                Some(s) => Some(s.as_str()),
                None => None,
            };
            (module_for(scope, pre, lib), None)
        },
    };
    let ghost mv = ostr(module);
    let ghost fv = found_view(found);
    let mref: Option<&str> = match &module {
        Some(m) => Some(m.as_str()),
        None => None,
    };
    let t = finish(&p, url, scope, mref, found);
    proof {
        assert(mv == goto_answers(*lib, pv, scope@).0);
        assert(fv == goto_answers(*lib, pv, scope@).1);
    }
    match t {
        Some(t) => {
            let v = vec![t];
            proof {
                assert(goto_finish(pv, url@, scope@, mv, fv) == Some(target_view(v@[0])));
            }
            Some(v)
        },
        None => None,
    }
}

} // verus!
