//! Instance-document intent classification.
//!
//! An `.xml`/`.json` document is classified against the compiled YANG modules
//! into one of the document intents: a NETCONF message, a config payload, a
//! data tree of a module, or not a NETCONF document at all (dormant: the
//! language server provides no features for it).

use vstd::prelude::*;
use crate::json::JsonRoot;
use crate::text::{chars_of, find_char, split_once, str_eq, sub_string};
use crate::text::{opt_view, string_of, views};
use crate::xml::{apply_attrs, elem_attrs, elem_name, empty_scope, local_part, resolve_name, xml_root_elem, XmlRoot};
use crate::json::{json_root_obj, pair_names, pairs_in};
use crate::syntax::{json_syntax, kids, xml_syntax};
use vstd::string::StringSliceAdditionalSpecFns;

verus! {

/// NETCONF base namespace (RFC 6241).
pub const NETCONF_BASE_NS: &'static str = "urn:ietf:params:xml:ns:netconf:base:1.0";

/// NETCONF notification namespace (RFC 5277).
pub const NETCONF_NOTIFICATION_NS: &'static str = "urn:ietf:params:xml:ns:netconf:notification:1.0";

/// Schema summary the classifier needs per compiled module.
pub struct ModuleInfo {
    /// Module name.
    pub name: String,
    /// Module `namespace` URI.
    pub namespace: String,
    /// Names of the module's top-level data nodes (not rpc/notification).
    pub top_data: Vec<String>,
}

/// How an instance document is interpreted.
#[derive(Debug, PartialEq, Eq)]
pub enum DocKind {
    /// NETCONF message envelope (`hello`/`rpc`/`rpc-reply`/`notification`).
    NetconfMessage,
    /// NETCONF payload wrapper root (`<config>`/`<data>`/`<filter>`).
    ConfigPayload,
    /// Data tree rooted in this module (matches one of its top data nodes).
    DataTree(String),
    /// Not a NETCONF/YANG instance document: the server stays dormant.
    NotNetconf,
}

/// The mathematical form of a [`DocKind`].
pub enum Intent {
    NetconfMessage,
    ConfigPayload,
    DataTree(Seq<char>),
    NotNetconf,
}

impl View for DocKind {
    type V = Intent;

    open spec fn view(&self) -> Intent {
        match self {
            DocKind::NetconfMessage => Intent::NetconfMessage,
            DocKind::ConfigPayload => Intent::ConfigPayload,
            DocKind::DataTree(m) => Intent::DataTree(m@),
            DocKind::NotNetconf => Intent::NotNetconf,
        }
    }
}

/// Whether `names` holds `x`.
pub open spec fn names_contain(names: Seq<String>, x: Seq<char>) -> bool {
    exists|k: int| 0 <= k < names.len() && #[trigger] names[k]@ == x
}

/// Module `i` owns namespace `ns` and has a top-level data node `local`.
pub open spec fn xml_module_match(modules: Seq<ModuleInfo>, i: int, ns: Option<Seq<char>>, local: Seq<char>) -> bool {
    &&& 0 <= i < modules.len()
    &&& ns == Some(modules[i].namespace@)
    &&& names_contain(modules[i].top_data@, local)
}

/// The intent of an XML document whose root element is `name`, under the
/// root's namespace declarations, against `modules`.
pub open spec fn xml_intent(
    name: Seq<char>,
    default: Option<Seq<char>>,
    prefixes: Map<Seq<char>, Seq<char>>,
    modules: Seq<ModuleInfo>,
) -> Intent {
    let ns = resolve_name(default, prefixes, name);
    let local = local_part(name);
    if ns == Some(NETCONF_BASE_NS@) {
        if local == "hello"@ || local == "rpc"@ || local == "rpc-reply"@ {
            Intent::NetconfMessage
        } else if local == "config"@ || local == "data"@ || local == "filter"@ {
            Intent::ConfigPayload
        } else {
            Intent::NotNetconf
        }
    } else if ns == Some(NETCONF_NOTIFICATION_NS@) {
        Intent::NetconfMessage
    } else if exists|i: int| #[trigger] xml_module_match(modules, i, ns, local) {
        let i = choose|i: int|
            #[trigger] xml_module_match(modules, i, ns, local) && forall|j: int|
                0 <= j < i ==> !xml_module_match(modules, j, ns, local);
        Intent::DataTree(modules[i].name@)
    } else {
        Intent::NotNetconf
    }
}

/// Whether `names` holds `x` (executable).
pub fn contains_name(names: &Vec<String>, x: &str) -> (r: bool)
    ensures
        r == names_contain(names@, x@),
{
    let mut k: usize = 0;
    while k < names.len()
        invariant
            k <= names@.len(),
            forall|q: int| 0 <= q < k ==> names@[q]@ != x@,
        decreases names@.len() - k,
    {
        if str_eq(names[k].as_str(), x) {
            return true;
        }
        k = k + 1;
    }
    false
}

/// Classify an XML document given the workspace's compiled modules.
pub fn classify_xml(root: &XmlRoot, modules: &[ModuleInfo]) -> (r: DocKind)
    ensures
        r@ == xml_intent(root.name@, opt_view(root.default_ns), root.ns_prefixes@, modules@),
{
    let local = root.local_name();
    let ns = root.effective_ns();
    let ghost nsv = resolve_name(opt_view(root.default_ns), root.ns_prefixes@, root.name@);
    let is_base = match ns {
        Some(s) => str_eq(s, NETCONF_BASE_NS),
        None => false,
    };
    if is_base {
        let l = local.as_str();
        if str_eq(l, "hello") || str_eq(l, "rpc") || str_eq(l, "rpc-reply") {
            return DocKind::NetconfMessage;
        } else if str_eq(l, "config") || str_eq(l, "data") || str_eq(l, "filter") {
            return DocKind::ConfigPayload;
        } else {
            return DocKind::NotNetconf;
        }
    }
    let is_notif = match ns {
        Some(s) => str_eq(s, NETCONF_NOTIFICATION_NS),
        None => false,
    };
    if is_notif {
        return DocKind::NetconfMessage;
    }
    let mut i: usize = 0;
    while i < modules.len()
        invariant
            i <= modules@.len(),
            nsv == match ns {
                Some(s) => Some(s@),
                None => None,
            },
            local@ == local_part(root.name@),
            nsv == resolve_name(opt_view(root.default_ns), root.ns_prefixes@, root.name@),
            nsv != Some(NETCONF_BASE_NS@),
            nsv != Some(NETCONF_NOTIFICATION_NS@),
            forall|j: int| 0 <= j < i ==> !xml_module_match(modules@, j, nsv, local@),
        decreases modules@.len() - i,
    {
        let m = &modules[i];
        let same_ns = match ns {
            Some(s) => str_eq(m.namespace.as_str(), s),
            None => false,
        };
        if same_ns && contains_name(&m.top_data, local.as_str()) {
            proof {
                assert(xml_module_match(modules@, i as int, nsv, local@));
                assert(forall|j: int| 0 <= j < i ==> !xml_module_match(modules@, j, nsv, local@));
                assert(nsv != Some(NETCONF_BASE_NS@));
                assert(nsv != Some(NETCONF_NOTIFICATION_NS@));
                let k = choose|k: int|
                    #[trigger] xml_module_match(modules@, k, nsv, local@) && forall|j: int|
                        0 <= j < k ==> !xml_module_match(modules@, j, nsv, local@);
                if k < i {
                } else if k > i {
                    assert(!xml_module_match(modules@, i as int, nsv, local@));
                }
                assert(k == i);
            }
            return DocKind::DataTree(m.name.clone());
        }
        i = i + 1;
    }
    DocKind::NotNetconf
}

/// Key `k` of `keys` is `module:local` where the first module named `module`
/// has a top-level data node `local`.
pub open spec fn json_key_match(keys: Seq<Seq<char>>, k: int, modules: Seq<ModuleInfo>) -> bool {
    &&& 0 <= k < keys.len()
    &&& split_once(keys[k], ':') matches Some((module, local)) && {
        &&& exists|i: int| 0 <= i < modules.len() && #[trigger] modules[i].name@ == module
        &&& {
            let i = choose|i: int|
                0 <= i < modules.len() && #[trigger] modules[i].name@ == module && forall|j: int|
                    0 <= j < i ==> modules[j].name@ != module;
            names_contain(modules[i].top_data@, local)
        }
    }
}

/// The intent of a JSON document whose root object has member keys `keys`.
pub open spec fn json_intent(keys: Seq<Seq<char>>, modules: Seq<ModuleInfo>) -> Intent {
    if exists|k: int| #[trigger] json_key_match(keys, k, modules) {
        let k = choose|k: int|
            #[trigger] json_key_match(keys, k, modules) && forall|j: int|
                0 <= j < k ==> !json_key_match(keys, j, modules);
        Intent::DataTree(split_once(keys[k], ':').unwrap().0)
    } else {
        Intent::NotNetconf
    }
}

/// The first module named `name`.
pub fn find_module(modules: &[ModuleInfo], name: &str) -> (r: Option<usize>)
    ensures
        match r {
            Some(i) => i < modules@.len() && modules@[i as int].name@ == name@ && forall|j: int|
                0 <= j < i ==> modules@[j].name@ != name@,
            None => forall|j: int| 0 <= j < modules@.len() ==> modules@[j].name@ != name@,
        },
{
    let mut i: usize = 0;
    while i < modules.len()
        invariant
            i <= modules@.len(),
            forall|j: int| 0 <= j < i ==> modules@[j].name@ != name@,
        decreases modules@.len() - i,
    {
        if str_eq(modules[i].name.as_str(), name) {
            return Some(i);
        }
        i = i + 1;
    }
    None
}

/// Classify a JSON (RFC 7951) document given the workspace's compiled modules:
/// a data tree when a top-level key is `module:name` with `module` compiled
/// and `name` one of its top-level data nodes.
pub fn classify_json(root: &JsonRoot, modules: &[ModuleInfo]) -> (r: DocKind)
    ensures
        r@ == json_intent(views(root.top_keys@), modules@),
{
    let keys = &root.top_keys;
    let mut k: usize = 0;
    while k < keys.len()
        invariant
            keys@ == root.top_keys@,
            k <= keys@.len(),
            forall|j: int| 0 <= j < k ==> !json_key_match(views(keys@), j, modules@),
        decreases keys@.len() - k,
    {
        let cs = chars_of(keys[k].as_str());
        let n = cs.len();
        match find_char(cs.as_slice(), ':') {
            None => {},
            Some(c) => {
                assert(c < n);
                let module = sub_string(cs.as_slice(), 0, c);
                let local = sub_string(cs.as_slice(), c + 1, n);
                match find_module(modules, module.as_str()) {
                    None => {
                        proof {
                            assert forall|i: int| 0 <= i < modules@.len() implies #[trigger] modules@[i].name@ != module@ by {}
                        }
                    },
                    Some(i) => {
                        let ghost mi = choose|i: int|
                            0 <= i < modules@.len() && #[trigger] modules@[i].name@ == module@ && forall|j: int|
                                0 <= j < i ==> modules@[j].name@ != module@;
                        proof {
                            assert(0 <= i < modules@.len() && modules@[i as int].name@ == module@);
                            if mi < i {
                                assert(modules@[mi].name@ != module@);
                            } else if mi > i {
                                assert(modules@[i as int].name@ != module@);
                            }
                        }
                        if contains_name(&modules[i].top_data, local.as_str()) {
                            proof {
                                assert(json_key_match(views(keys@), k as int, modules@));
                                let q = choose|q: int|
                                    #[trigger] json_key_match(views(keys@), q, modules@) && forall|j: int|
                                        0 <= j < q ==> !json_key_match(views(keys@), j, modules@);
                                if q > k {
                                    assert(!json_key_match(views(keys@), k as int, modules@));
                                }
                            }
                            return DocKind::DataTree(module);
                        }
                    },
                }
            },
        }
        k = k + 1;
    }
    DocKind::NotNetconf
}


/// The view of a module summary: name, namespace, top-level data node names.
pub open spec fn info_view(m: ModuleInfo) -> (Seq<char>, Seq<char>, Seq<Seq<char>>) {
    (m.name@, m.namespace@, crate::text::views(m.top_data@))
}

/// The names of the data nodes among `tops` of module `m`.
pub open spec fn top_data_names(m: crate::schema::SchemaModule, tops: Seq<usize>) -> Seq<Seq<char>>
    decreases tops.len(),
{
    if tops.len() == 0 {
        Seq::empty()
    } else {
        let rest = top_data_names(m, tops.drop_last());
        match crate::schema::node_of(m, tops.last() as int) {
            Some(n) => if crate::schema::is_data_kind(n.kind) {
                rest.push(n.name@)
            } else {
                rest
            },
            None => rest,
        }
    }
}

/// The summaries of the first `k` modules: each module with a namespace,
/// with the names of its top-level data nodes.
pub open spec fn summaries(ms: Seq<crate::schema::SchemaModule>, k: int) -> Seq<(Seq<char>, Seq<char>, Seq<Seq<char>>)>
    decreases k,
{
    if k <= 0 || k > ms.len() {
        Seq::empty()
    } else {
        let rest = summaries(ms, k - 1);
        match ms[k - 1].namespace {
            Some(ns) => rest.push((ms[k - 1].name@, ns@, top_data_names(ms[k - 1], ms[k - 1].top_nodes@))),
            None => rest,
        }
    }
}

/// The summaries the classifier needs of every module of `schema`
/// ([`summaries`]): a module without a namespace (a submodule) is skipped.
#[verifier::loop_isolation(false)]
pub fn module_summaries(schema: &crate::schema::Schema) -> (r: Vec<ModuleInfo>)
    ensures
        r@.map_values(|m: ModuleInfo| info_view(m)) == summaries(schema.modules@, schema.modules@.len() as int),
{
    let ghost ms = schema.modules@;
    let ghost f = |m: ModuleInfo| info_view(m);
    let mut out: Vec<ModuleInfo> = Vec::new();
    proof {
        assert(out@.map_values(f) =~= Seq::<(Seq<char>, Seq<char>, Seq<Seq<char>>)>::empty());
    }
    let mut k: usize = 0;
    while k < schema.modules.len()
        invariant
            k <= ms.len(),
            out@.map_values(f) == summaries(ms, k as int),
        decreases ms.len() - k,
    {
        let m = &schema.modules[k];
        match &m.namespace {
            Some(ns) => {
                let mut names: Vec<String> = Vec::new();
                let mut t: usize = 0;
                proof {
                    assert(m.top_nodes@.take(0) =~= Seq::<usize>::empty());
                    assert(crate::text::views(names@) =~= Seq::<Seq<char>>::empty());
                }
                while t < m.top_nodes.len()
                    invariant
                        t <= m.top_nodes@.len(),
                        crate::text::views(names@) == top_data_names(*m, m.top_nodes@.take(t as int)),
                    decreases m.top_nodes@.len() - t,
                {
                    proof {
                        assert(m.top_nodes@.take(t + 1).drop_last() =~= m.top_nodes@.take(t as int));
                        assert(m.top_nodes@.take(t + 1).last() == m.top_nodes@[t as int]);
                    }
                    match m.node(m.top_nodes[t]) {
                        Some(n) => if n.kind.is_data() {
                            let ghost pre = names@;
                            names.push(n.name.clone());
                            proof {
                                assert(crate::text::views(names@) =~= crate::text::views(pre).push(n.name@));
                            }
                        },
                        None => {},
                    }
                    t = t + 1;
                }
                proof {
                    assert(m.top_nodes@.take(t as int) =~= m.top_nodes@);
                }
                let info = ModuleInfo { name: m.name.clone(), namespace: ns.clone(), top_data: names };
                let ghost pre = out@;
                out.push(info);
                proof {
                    assert(out@.map_values(f) =~= pre.map_values(f).push(f(out@.last())));
                }
            },
            None => {},
        }
        k = k + 1;
    }
    out
}

/// What a parse-free module summary holds: the module's name, its
/// namespace when it declares one, and its top-level data node names.
pub struct ModuleSummary {
    pub name: String,
    pub namespace: Option<String>,
    pub top_data: Vec<String>,
}

/// The classifier's view of the first `k` summaries: each with a
/// non-empty namespace, in order (a submodule has none and is skipped).
pub open spec fn summary_infos(ss: Seq<ModuleSummary>, k: int) -> Seq<(Seq<char>, Seq<char>, Seq<Seq<char>>)>
    decreases k,
{
    if k <= 0 {
        Seq::empty()
    } else {
        let rest = summary_infos(ss, k - 1);
        match ss[k - 1].namespace {
            Some(ns) => if ns@.len() > 0 {
                rest.push((ss[k - 1].name@, ns@, views(ss[k - 1].top_data@)))
            } else {
                rest
            },
            None => rest,
        }
    }
}

/// A copy of a string.
fn copy_string(s: &String) -> (r: String)
    ensures
        r@ == s@,
{
    string_of(chars_of(s.as_str()).as_slice())
}

/// The classifier's summaries from parse-free module summaries
/// ([`summary_infos`]), used before any module compiled.
pub fn module_summaries_from_summary(summaries: &[ModuleSummary]) -> (r: Vec<ModuleInfo>)
    ensures
        r@.map_values(|m: ModuleInfo| info_view(m)) == summary_infos(summaries@, summaries@.len() as int),
{
    let mut out: Vec<ModuleInfo> = Vec::new();
    let mut k: usize = 0;
    while k < summaries.len()
        invariant
            k <= summaries@.len(),
            out@.map_values(|m: ModuleInfo| info_view(m)) == summary_infos(summaries@, k as int),
        decreases summaries@.len() - k,
    {
        let s = &summaries[k];
        match &s.namespace {
            Some(ns) => {
                if chars_of(ns.as_str()).len() > 0 {
                    let mut top: Vec<String> = Vec::new();
                    let mut j: usize = 0;
                    while j < s.top_data.len()
                        invariant
                            j <= s.top_data@.len(),
                            views(top@) == views(s.top_data@).take(j as int),
                        decreases s.top_data@.len() - j,
                    {
                        let ghost before = top@;
                        top.push(copy_string(&s.top_data[j]));
                        proof {
                            assert(views(top@) =~= views(before).push(s.top_data@[j as int]@));
                            assert(views(s.top_data@).take(j + 1) =~= views(s.top_data@).take(j as int).push(
                                s.top_data@[j as int]@,
                            ));
                        }
                        j = j + 1;
                    }
                    proof {
                        assert(views(s.top_data@).take(j as int) =~= views(s.top_data@));
                    }
                    let ghost before = out@;
                    out.push(ModuleInfo { name: copy_string(&s.name), namespace: copy_string(ns), top_data: top });
                    proof {
                        assert(out@.map_values(|m: ModuleInfo| info_view(m)) =~= before.map_values(
                            |m: ModuleInfo| info_view(m),
                        ).push(info_view(out@.last())));
                    }
                }
            },
            None => {},
        }
        k = k + 1;
    }
    out
}


/// The intent of the XML document `text` (one that parses), read off its
/// root element as [`classify_xml`] reads it.
pub open spec fn xml_root_intent(text: &str, modules: Seq<ModuleInfo>) -> Intent {
    let t = xml_syntax(text@).unwrap();
    let b = text.spec_bytes();
    let e = xml_root_elem(t).unwrap();
    let sc = apply_attrs(empty_scope(), elem_attrs(t, b, e).unwrap());
    xml_intent(elem_name(t, b, e), sc.0, sc.1, modules)
}

/// The intent of the JSON document `text` (one that parses), read off the
/// keys of its root object as [`classify_json`] reads them.
pub open spec fn json_root_intent(text: &str, modules: Seq<ModuleInfo>) -> Intent {
    let t = json_syntax(text@).unwrap();
    let o = json_root_obj(t).unwrap();
    json_intent(pair_names(t, text.spec_bytes(), pairs_in(t, kids(t, o))), modules)
}
} // verus!
