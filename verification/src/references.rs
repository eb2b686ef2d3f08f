//! Find references: the symbol the caret is on, and every reference to it.
//!
//! Kinds covered: typedefs (`type`), groupings (`uses`), identities
//! (`base`), features (`if-feature`) and extensions (the head
//! `prefix:name` of an extension statement). Matching is module-aware: a
//! reference's module is its file's module when unprefixed, else the one
//! its prefix names, so one local name defined in two modules is not
//! conflated.

use std::ops::Range;
use vstd::prelude::*;
use vstd::string::StringSliceAdditionalSpecFns;
use crate::server::{merge_hits, merged, site_views, unique_in_order, unique_urls};
use crate::goto::{builtin_types, def_lookup, SearchKind, is_builtin_type, module_answer, module_for, ostr};
use crate::json::{name_parts, split_name};
use crate::stmt::{holds, holds_byte, narrowest, Stmt, StmtKind, StmtTree};
use crate::text::{chars_of, slice_chars, str_eq, str_get, string_of, views};

verus! {

broadcast use vstd::slice::group_slice_axioms;

/// The symbol the caret is on: the module owning its definition and its
/// local name.
pub struct Def {
    pub module: String,
    pub local: String,
}

/// A statement kind that defines a symbol.
pub open spec fn is_def_kind(k: StmtKind) -> bool {
    k is Typedef || k is Grouping || k is Identity || k is Feature || k is Extension
}

/// A statement kind that references a symbol.
pub open spec fn is_ref_kind(k: StmtKind) -> bool {
    k is Type || k is Uses || k is Base || k is IfFeature
}

/// What the caret's statement says of the symbol, before the library is
/// asked.
pub enum DefQueryView {
    /// No symbol.
    Nothing,
    /// A definition of this file's module, named `name`.
    Local { name: Seq<char> },
    /// A reference `[prefix:]local`.
    Ref { prefix: Option<Seq<char>>, local: Seq<char> },
    /// An extension statement's head `[prefix:]local`: a symbol only when
    /// the module holds such an extension.
    Extension { prefix: Option<Seq<char>>, local: Seq<char> },
}

/// What the caret at `byte` of a file with statements `nodes` and bytes
/// `b` is on.
pub open spec fn def_query(nodes: Seq<Stmt>, b: Seq<u8>, byte: int) -> DefQueryView {
    match narrowest(nodes, byte) {
        None => DefQueryView::Nothing,
        Some(i) => {
            let s = nodes[i];
            if s.kind is Unknown {
                match s.keyword {
                    None => DefQueryView::Nothing,
                    Some(kw) => if !holds(kw, byte) {
                        DefQueryView::Nothing
                    } else {
                        match slice_chars(b, kw.start as int, kw.end as int) {
                            None => DefQueryView::Nothing,
                            Some(t) => DefQueryView::Extension { prefix: name_parts(t).0, local: name_parts(t).1 },
                        }
                    },
                }
            } else {
                match s.arg {
                    None => DefQueryView::Nothing,
                    Some(a) => {
                        let name = a.name@;
                        if is_def_kind(s.kind) {
                            if name.len() > 0 {
                                DefQueryView::Local { name }
                            } else {
                                DefQueryView::Nothing
                            }
                        } else if !holds(a.range, byte) || !is_ref_kind(s.kind) {
                            DefQueryView::Nothing
                        } else if s.kind is Type && builtin_types().contains(name_parts(name).1) {
                            DefQueryView::Nothing
                        } else {
                            DefQueryView::Ref { prefix: name_parts(name).0, local: name_parts(name).1 }
                        }
                    },
                }
            }
        },
    }
}

/// The symbol a query names in module `scope`, given the module its prefix
/// names (`scope` without one) and whether that module holds the extension.
pub open spec fn def_finish(q: DefQueryView, scope: Seq<char>, module: Option<Seq<char>>, ext: bool) -> Option<(Seq<char>, Seq<char>)> {
    match q {
        DefQueryView::Nothing => None,
        DefQueryView::Local { name } => Some((scope, name)),
        DefQueryView::Ref { local, .. } => match module {
            Some(m) => Some((m, local)),
            None => None,
        },
        DefQueryView::Extension { local, .. } => match module {
            Some(m) => if ext {
                Some((m, local))
            } else {
                None
            },
            None => None,
        },
    }
}

/// The prefix a query resolves, when it has one to resolve.
pub open spec fn query_prefix(q: DefQueryView) -> Option<Option<Seq<char>>> {
    match q {
        DefQueryView::Ref { prefix, .. } => Some(prefix),
        DefQueryView::Extension { prefix, .. } => Some(prefix),
        _ => None,
    }
}

/// The view of a symbol.
pub open spec fn def_view(d: Def) -> (Seq<char>, Seq<char>) {
    (d.module@, d.local@)
}

/// The symbol query `q` names in module `scope`, with the library's
/// answers: the module its prefix names (`scope` without one) and, for an
/// extension head, whether that module holds the extension.
pub open spec fn def_symbol(lib: yrepo::Library, q: DefQueryView, scope: Seq<char>) -> Option<(Seq<char>, Seq<char>)> {
    let m = match query_prefix(q) {
        Some(p) => module_answer(lib, scope, p),
        None => None,
    };
    let ext = match q {
        DefQueryView::Extension { local, .. } => match m {
            Some(mm) => def_lookup(lib, SearchKind::Extension, mm, local) is Some,
            None => false,
        },
        _ => false,
    };
    def_finish(q, scope, m, ext)
}

/// The symbol the caret at `byte` is on, in file `text` (statements
/// `tree`) of module `scope`: what the caret's query ([`def_query`]) names
/// with the library's answers ([`def_symbol`]).
pub fn def_at(tree: &StmtTree, text: &str, byte: usize, scope: &str, lib: &yrepo::Library) -> (r: Option<Def>)
    ensures
        match r {
            Some(d) => def_symbol(*lib, def_query(tree.nodes@, text.spec_bytes(), byte as int), scope@) == Some(def_view(d)),
            None => def_symbol(*lib, def_query(tree.nodes@, text.spec_bytes(), byte as int), scope@) is None,
        },
{
    let ghost q = def_query(tree.nodes@, text.spec_bytes(), byte as int);
    let ghost nodes = tree.nodes@;
    let i = match tree.narrowest_at(byte) {
        Some(i) => i,
        None => {
            proof {
                assert(def_finish(q, scope@, None, false) is None);
            }
            return None;
        },
    };
    proof {
        crate::stmt::lemma_narrowest_range(nodes, byte as int);
    }
    let s = &tree.nodes[i];
    if let StmtKind::Unknown(_) = &s.kind {
        let kw = match &s.keyword {
            Some(kw) => kw,
            None => {
                proof {
                    assert(def_finish(q, scope@, None, false) is None);
                }
                return None;
            },
        };
        if !holds_byte(kw, byte) {
            proof {
                assert(def_finish(q, scope@, None, false) is None);
            }
            return None;
        }
        let t = match str_get(text, kw.start, kw.end) {
            Some(t) => t,
            None => {
                proof {
                    assert(def_finish(q, scope@, None, false) is None);
                }
                return None;
            },
        };
        proof {
            vstd::utf8::encode_utf8_decode_utf8(t@);
            assert(slice_chars(text.spec_bytes(), kw.start as int, kw.end as int) == Some(t@));
        }
        let (prefix, local) = split_name(t);
        let pre = match &prefix {
            Some(p) => Some(p.as_str()),
            None => None,
        };
        let module = match module_for(scope, pre, lib) {
            Some(m) => m,
            None => {
                proof {
                    assert(def_finish(q, scope@, None, false) is None);
                }
                return None;
            },
        };
        let ext = crate::goto::search_extension(lib, module.as_str(), local.as_str()).is_some();
        proof {
            assert(query_prefix(q) == Some(ostr(prefix)));
        }
        if ext {
            let d = Def { module, local };
            proof {
                assert(def_finish(q, scope@, Some(d.module@), true) == Some(def_view(d)));
            }
            return Some(d);
        }
        proof {
            assert(def_finish(q, scope@, Some(module@), false) is None);
        }
        return None;
    }
    let a = match &s.arg {
        Some(a) => a,
        None => {
            proof {
                assert(def_finish(q, scope@, None, false) is None);
            }
            return None;
        },
    };
    let name = a.name.as_str();
    let def_kind = match s.kind {
        StmtKind::Typedef | StmtKind::Grouping | StmtKind::Identity | StmtKind::Feature | StmtKind::Extension => true,
        _ => false,
    };
    if def_kind {
        if chars_of(name).len() > 0 {
            let d = Def { module: string_of(chars_of(scope).as_slice()), local: a.name.clone() };
            proof {
                assert(def_finish(q, scope@, None, false) == Some(def_view(d)));
            }
            return Some(d);
        }
        proof {
            assert(def_finish(q, scope@, None, false) is None);
        }
        return None;
    }
    let ref_kind = match s.kind {
        StmtKind::Type | StmtKind::Uses | StmtKind::Base | StmtKind::IfFeature => true,
        _ => false,
    };
    if !holds_byte(&a.range, byte) || !ref_kind {
        proof {
            assert(def_finish(q, scope@, None, false) is None);
        }
        return None;
    }
    let (prefix, local) = split_name(name);
    let is_type = match s.kind {
        StmtKind::Type => true,
        _ => false,
    };
    if is_type && is_builtin_type(local.as_str()) {
        proof {
            assert(def_finish(q, scope@, None, false) is None);
        }
        return None;
    }
    let pre = match &prefix {
        Some(p) => Some(p.as_str()),
        None => None,
    };
    proof {
        assert(query_prefix(q) == Some(ostr(prefix)));
    }
    match module_for(scope, pre, lib) {
        Some(module) => {
            let d = Def { module, local };
            proof {
                assert(def_finish(q, scope@, Some(d.module@), false) == Some(def_view(d)));
            }
            Some(d)
        },
        None => {
            proof {
                assert(def_finish(q, scope@, None, false) is None);
            }
            None
        },
    }
}

/// What statement `s` of file `url` (module `scope`) contributes to the
/// references of symbol `def`, given the module `m` its prefix names: a
/// definition of it (when `with_def`), or a reference to it.
pub open spec fn stmt_hit(
    def: (Seq<char>, Seq<char>),
    url: Seq<char>,
    scope: Seq<char>,
    s: Stmt,
    m: Option<Seq<char>>,
    with_def: bool,
) -> Option<(Seq<char>, Range<usize>)> {
    match s.arg {
        None => None,
        Some(a) => if is_def_kind(s.kind) {
            if with_def && scope == def.0 && a.name@ == def.1 {
                Some((url, a.range))
            } else {
                None
            }
        } else if !is_ref_kind(s.kind) {
            None
        } else {
            let l = name_parts(a.name@).1;
            if l != def.1 || (s.kind is Type && builtin_types().contains(l)) {
                None
            } else {
                match m {
                    Some(mm) => if mm == def.0 {
                        Some((url, a.range))
                    } else {
                        None
                    },
                    None => None,
                }
            }
        },
    }
}

/// The hits among the first `k` statements of one file, statement `i`'s
/// prefix naming module `mods[i]`.
pub open spec fn doc_hits(
    def: (Seq<char>, Seq<char>),
    url: Seq<char>,
    scope: Seq<char>,
    nodes: Seq<Stmt>,
    mods: Seq<Option<Seq<char>>>,
    with_def: bool,
    k: int,
) -> Seq<(Seq<char>, Range<usize>)>
    decreases k,
{
    if k <= 0 || k > nodes.len() {
        Seq::empty()
    } else {
        let prev = doc_hits(def, url, scope, nodes, mods, with_def, k - 1);
        match stmt_hit(def, url, scope, nodes[k - 1], mods[k - 1], with_def) {
            Some(h) => prev.push(h),
            None => prev,
        }
    }
}

/// The hits in the first `d` files.
pub open spec fn all_hits(
    def: (Seq<char>, Seq<char>),
    docs: Seq<(String, StmtTree, String)>,
    mods: Seq<Seq<Option<Seq<char>>>>,
    with_def: bool,
    d: int,
) -> Seq<(Seq<char>, Range<usize>)>
    decreases d,
{
    if d <= 0 || d > docs.len() {
        Seq::empty()
    } else {
        all_hits(def, docs, mods, with_def, d - 1) + doc_hits(
            def,
            docs[d - 1].0@,
            docs[d - 1].2@,
            docs[d - 1].1.nodes@,
            mods[d - 1],
            with_def,
            docs[d - 1].1.nodes@.len() as int,
        )
    }
}

/// The views of file and span hits.
pub open spec fn hit_views(hs: Seq<(String, Range<usize>)>) -> Seq<(Seq<char>, Range<usize>)> {
    hs.map_values(|h: (String, Range<usize>)| (h.0@, h.1))
}

/// The module statement `s`'s argument points into, in module `scope`:
/// the one its prefix names ([`module_answer`]).
pub open spec fn stmt_module(lib: yrepo::Library, scope: Seq<char>, s: Stmt) -> Option<Seq<char>> {
    match s.arg {
        Some(a) => module_answer(lib, scope, name_parts(a.name@).0),
        None => None,
    }
}

/// The module each statement of a file of module `scope` points into.
pub open spec fn file_modules(lib: yrepo::Library, scope: Seq<char>, nodes: Seq<Stmt>) -> Seq<Option<Seq<char>>> {
    Seq::new(nodes.len(), |i: int| stmt_module(lib, scope, nodes[i]))
}

/// The modules the statements of each of `docs` point into.
pub open spec fn docs_modules(lib: yrepo::Library, docs: Seq<(String, StmtTree, String)>) -> Seq<Seq<Option<Seq<char>>>> {
    Seq::new(docs.len(), |d: int| file_modules(lib, docs[d].2@, docs[d].1.nodes@))
}

/// Every occurrence of `def` in the files `docs` (file, statements, module):
/// references to it, and with `include_declaration` its definition too,
/// in file order and then statement order ([`all_hits`]), each reference's
/// prefix resolved by the library ([`docs_modules`]).
pub fn find_references(
    def: &Def,
    docs: &Vec<(String, StmtTree, String)>,
    lib: &yrepo::Library,
    include_declaration: bool,
) -> (r: Vec<(String, Range<usize>)>)
    ensures
        hit_views(r@) == all_hits(def_view(*def), docs@, docs_modules(*lib, docs@), include_declaration, docs@.len() as int),
{
    let ghost dv = def_view(*def);
    let mut hits: Vec<(String, Range<usize>)> = Vec::new();
    let ghost mut mods: Seq<Seq<Option<Seq<char>>>> = Seq::empty();
    proof {
        assert(hit_views(hits@) =~= Seq::<(Seq<char>, Range<usize>)>::empty());
    }
    let mut d: usize = 0;
    while d < docs.len()
        invariant
            d <= docs@.len(),
            dv == def_view(*def),
            mods.len() == d,
            forall|e: int| 0 <= e < d ==> #[trigger] mods[e] == file_modules(*lib, docs@[e].2@, docs@[e].1.nodes@),
            hit_views(hits@) == all_hits(dv, docs@, mods, include_declaration, d as int),
        decreases docs@.len() - d,
    {
        let (url, tree, scope) = (&docs[d].0, &docs[d].1, &docs[d].2);
        let ghost nodes = tree.nodes@;
        let ghost base = hit_views(hits@);
        let ghost mut dm: Seq<Option<Seq<char>>> = Seq::empty();
        let mut i: usize = 0;
        proof {
            assert(base + doc_hits(dv, url@, scope@, nodes, dm, include_declaration, 0) =~= base);
        }
        while i < tree.nodes.len()
            invariant
                i <= nodes.len(),
                nodes == tree.nodes@,
                dv == def_view(*def),
                dm.len() == i,
                forall|j: int| 0 <= j < i ==> #[trigger] dm[j] == stmt_module(*lib, scope@, nodes[j]),
                hit_views(hits@) == base + doc_hits(dv, url@, scope@, nodes, dm, include_declaration, i as int),
            decreases nodes.len() - i,
        {
            let s = &tree.nodes[i];
            let ghost pre = hits@;
            let ghost mi: Option<Seq<char>> = stmt_module(*lib, scope@, nodes[i as int]);
            let ghost mut hv: Option<(Seq<char>, Range<usize>)> = None;
            match &s.arg {
                None => {},
                Some(a) => {
                    let (prefix, local) = split_name(a.name.as_str());
                    let def_kind = match s.kind {
                        StmtKind::Typedef | StmtKind::Grouping | StmtKind::Identity | StmtKind::Feature
                        | StmtKind::Extension => true,
                        _ => false,
                    };
                    let ref_kind = match s.kind {
                        StmtKind::Type | StmtKind::Uses | StmtKind::Base | StmtKind::IfFeature => true,
                        _ => false,
                    };
                    let is_type = match s.kind {
                        StmtKind::Type => true,
                        _ => false,
                    };
                    if def_kind {
                        if include_declaration && str_eq(scope.as_str(), def.module.as_str()) && str_eq(
                            a.name.as_str(),
                            def.local.as_str(),
                        ) {
                            hits.push((url.clone(), Range { start: a.range.start, end: a.range.end }));
                            proof {
                                hv = Some((url@, a.range));
                            }
                        }
                    } else if ref_kind && str_eq(local.as_str(), def.local.as_str()) && !(is_type && is_builtin_type(
                        local.as_str(),
                    )) {
                        let pre_s = match &prefix {
                            Some(p) => Some(p.as_str()),
                            None => None,
                        };
                        let m = module_for(scope.as_str(), pre_s, lib);
                        match m {
                            Some(mm) => if str_eq(mm.as_str(), def.module.as_str()) {
                                hits.push((url.clone(), Range { start: a.range.start, end: a.range.end }));
                                proof {
                                    hv = Some((url@, a.range));
                                }
                            },
                            None => {},
                        }
                    }
                },
            }
            proof {
                let dm2 = dm.push(mi);
                assert(doc_hits(dv, url@, scope@, nodes, dm2, include_declaration, i as int) == doc_hits(
                    dv,
                    url@,
                    scope@,
                    nodes,
                    dm,
                    include_declaration,
                    i as int,
                )) by {
                    lemma_doc_hits_frame(dv, url@, scope@, nodes, dm, dm2, include_declaration, i as int);
                }
                assert(dm2[i as int] == mi);
                assert(hv == stmt_hit(dv, url@, scope@, nodes[i as int], mi, include_declaration));
                match hv {
                    Some(x) => {
                        assert(hit_views(hits@) =~= hit_views(pre).push(x));
                    },
                    None => {
                        assert(hits@ == pre);
                    },
                }
                assert(hit_views(hits@) =~= base + doc_hits(dv, url@, scope@, nodes, dm2, include_declaration, i + 1));
                dm = dm2;
            }
            i = i + 1;
        }
        proof {
            let mods2 = mods.push(dm);
            lemma_all_hits_frame(dv, docs@, mods, mods2, include_declaration, d as int);
            assert(hit_views(hits@) == all_hits(dv, docs@, mods2, include_declaration, d + 1));
            mods = mods2;
        }
        d = d + 1;
    }
    proof {
        assert(mods =~= docs_modules(*lib, docs@));
    }
    hits
}

/// [`doc_hits`] reads only the modules of the statements it covers.
proof fn lemma_doc_hits_frame(
    def: (Seq<char>, Seq<char>),
    url: Seq<char>,
    scope: Seq<char>,
    nodes: Seq<Stmt>,
    m1: Seq<Option<Seq<char>>>,
    m2: Seq<Option<Seq<char>>>,
    with_def: bool,
    k: int,
)
    requires
        k <= m1.len(),
        k <= m2.len(),
        forall|j: int| 0 <= j < k ==> m1[j] == m2[j],
    ensures
        doc_hits(def, url, scope, nodes, m1, with_def, k) == doc_hits(def, url, scope, nodes, m2, with_def, k),
    decreases k,
{
    if k > 0 && k <= nodes.len() {
        lemma_doc_hits_frame(def, url, scope, nodes, m1, m2, with_def, k - 1);
    }
}

/// [`all_hits`] reads only the modules of the files it covers.
proof fn lemma_all_hits_frame(
    def: (Seq<char>, Seq<char>),
    docs: Seq<(String, StmtTree, String)>,
    m1: Seq<Seq<Option<Seq<char>>>>,
    m2: Seq<Seq<Option<Seq<char>>>>,
    with_def: bool,
    d: int,
)
    requires
        d <= m1.len(),
        d <= m2.len(),
        forall|j: int| 0 <= j < d ==> m1[j] == m2[j],
    ensures
        all_hits(def, docs, m1, with_def, d) == all_hits(def, docs, m2, with_def, d),
    decreases d,
{
    if d > 0 && d <= docs.len() {
        lemma_all_hits_frame(def, docs, m1, m2, with_def, d - 1);
    }
}

/// The span of the local (unprefixed) part of the occurrence at `full` of
/// `text`: after the first `:` of its text, else all of it (also when the
/// span is not a piece of the text).
pub open spec fn local_span(b: Seq<u8>, full: Range<usize>) -> Range<usize> {
    if full.start <= full.end <= b.len() && vstd::utf8::is_char_boundary(b, full.start as int)
        && vstd::utf8::is_char_boundary(b, full.end as int) {
        match first_colon(b.subrange(full.start as int, full.end as int), 0) {
            Some(i) => Range { start: (full.start + i + 1) as usize, end: full.end },
            None => full,
        }
    } else {
        full
    }
}

/// The first `:` byte of `s` from `k` on.
pub open spec fn first_colon(s: Seq<u8>, k: int) -> Option<int>
    decreases s.len() - k,
{
    if k < 0 || k >= s.len() {
        None
    } else if s[k] == 58u8 {
        Some(k)
    } else {
        first_colon(s, k + 1)
    }
}

/// The span of the local part of the occurrence at `full` ([`local_span`]):
/// a rename replaces only that.
#[verifier::loop_isolation(false)]
pub fn local_name_range(text: &str, full: Range<usize>) -> (r: Range<usize>)
    ensures
        r == local_span(text.spec_bytes(), full),
{
    let sub = match str_get(text, full.start, full.end) {
        Some(s) => s,
        None => {
            return full;
        },
    };
    let b = sub.as_bytes();
    let ghost sb = text.spec_bytes().subrange(full.start as int, full.end as int);
    assert(b@ == sb);
    let mut k: usize = 0;
    while k < b.len()
        invariant
            k <= b@.len(),
            b@ == sb,
            sb.len() == full.end - full.start,
            first_colon(sb, 0) == first_colon(sb, k as int),
        decreases b@.len() - k,
    {
        if b[k] == 58u8 {
            proof {
                assert(first_colon(sb, k as int) == Some(k as int));
            }
            return Range { start: full.start + k + 1, end: full.end };
        }
        k = k + 1;
    }
    full
}


proof fn lemma_first_colon(s: Seq<u8>, k: int)
    requires
        0 <= k,
    ensures
        first_colon(s, k) matches Some(i) ==> k <= i < s.len() && s[i] == 58u8 && forall|j: int| k <= j < i ==> s[j] != 58u8,
    decreases s.len() - k,
{
    if k < s.len() && s[k] != 58u8 {
        lemma_first_colon(s, k + 1);
    }
}

/// A rename replaces only the local part of an occurrence: the span ends
/// where the occurrence ends, and whatever it leaves before it, the prefix,
/// is free of `:` and followed by the first `:`.
pub proof fn law_rename_keeps_the_prefix(b: Seq<u8>, full: Range<usize>)
    ensures
        local_span(b, full).end == full.end,
        full.start <= local_span(b, full).start,
        local_span(b, full).start > full.start ==> {
            &&& local_span(b, full).start <= full.end <= b.len()
            &&& b[local_span(b, full).start - 1] == 58u8
            &&& forall|j: int| full.start <= j < local_span(b, full).start - 1 ==> b[j] != 58u8
        },
{
    if full.start <= full.end <= b.len() {
        let s = b.subrange(full.start as int, full.end as int);
        lemma_first_colon(s, 0);
        match first_colon(s, 0) {
            Some(i) => {
                assert(s[i] == b[full.start + i]);
                assert forall|j: int| full.start <= j < full.start + i implies b[j] != 58u8 by {
                    assert(s[j - full.start] == b[j]);
                }
            },
            None => {},
        }
    }
}

#[verifier::external_type_specification]
#[verifier::external_body]
pub struct ExReferenceIndex(yrepo::ReferenceIndex);

/// The name for the occurrences a whole-tree reference index records: for
/// a module, a local name and whether the definition counts, each
/// occurrence's file and byte span.
pub uninterp spec fn index_occurrences(ix: yrepo::ReferenceIndex) -> Map<(Seq<char>, Seq<char>, bool), Seq<(Seq<char>, int, int)>>;

/// yrepo's `ReferenceIndex::references`: every recorded reference to
/// `local` of `module` (and its definition when `include_decl`), as file
/// and span ([`index_occurrences`]).
#[verifier::external_body]
fn index_references(ix: &yrepo::ReferenceIndex, module: &str, local: &str, include_decl: bool) -> (r: Vec<(String, Range<usize>)>)
    ensures
        site_views(r@) == index_occurrences(*ix)[(module@, local@, include_decl)],
{
    ix.references(module, local, include_decl).into_iter().map(|(u, g)| (u.to_string(), g)).collect()
}

/// Add to `hits` the occurrences of `def` the whole-tree index `ix`
/// records ([`index_occurrences`]), skipping the open documents `open`
/// (their live text was searched) and sites already listed; returns how
/// many were added.
pub fn whole_tree_hits(
    ix: &yrepo::ReferenceIndex,
    def: &Def,
    include_decl: bool,
    hits: &mut Vec<(String, Range<usize>)>,
    open: &Vec<String>,
) -> (added: usize)
    ensures
        site_views(final(hits)@) == merged(
            site_views(old(hits)@),
            index_occurrences(*ix)[(def.module@, def.local@, include_decl)],
            views(open@),
            index_occurrences(*ix)[(def.module@, def.local@, include_decl)].len(),
        ),
        final(hits)@.len() == old(hits)@.len() + added,
{
    let extra = index_references(ix, def.module.as_str(), def.local.as_str(), include_decl);
    merge_hits(hits, &extra, open)
}


/// The name for the source files of the module records a compiled library
/// holds, record by record in the library's order.
pub uninterp spec fn library_module_sources(lib: yrepo::Library) -> Seq<Seq<Seq<char>>>;

/// The name for the files of the submodule records a compiled library
/// holds, in the library's order.
pub uninterp spec fn library_submodule_files(lib: yrepo::Library) -> Seq<Seq<char>>;

/// yrepo's `Library::modules`, read for each record's source files
/// ([`library_module_sources`]).
#[verifier::external_body]
fn module_sources(lib: &yrepo::Library) -> (r: Vec<Vec<String>>)
    ensures
        r@.map_values(|us: Vec<String>| views(us@)) == library_module_sources(*lib),
{
    lib.modules().iter().map(|m| m.source_urls().iter().map(|u| u.to_string()).collect()).collect()
}

/// yrepo's `Library::submodules`, read for each record's file
/// ([`library_submodule_files`]).
#[verifier::external_body]
fn submodule_files(lib: &yrepo::Library) -> (r: Vec<String>)
    ensures
        views(r@) == library_submodule_files(*lib),
{
    lib.submodules().iter().map(|s| s.url().to_string()).collect()
}

/// The lists `ls` one after another.
pub open spec fn flatten(ls: Seq<Seq<Seq<char>>>) -> Seq<Seq<char>>
    decreases ls.len(),
{
    if ls.len() == 0 {
        Seq::empty()
    } else {
        flatten(ls.drop_last()) + ls.last()
    }
}

/// The files a compiled library was built from: the modules' source files,
/// then the submodules' files, each once, in that order.
pub open spec fn library_file_list(lib: yrepo::Library) -> Seq<Seq<char>> {
    let all = flatten(library_module_sources(lib)) + library_submodule_files(lib);
    unique_in_order(all, all.len())
}

/// The files a compiled library was built from ([`library_file_list`]).
pub fn library_files(lib: &yrepo::Library) -> (r: Vec<String>)
    ensures
        views(r@) == library_file_list(*lib),
{
    let ms = module_sources(lib);
    let ghost ls = library_module_sources(*lib);
    let mut all: Vec<String> = Vec::new();
    let mut k: usize = 0;
    proof {
        assert(ls.take(0) =~= Seq::<Seq<Seq<char>>>::empty());
        assert(views(all@) =~= flatten(ls.take(0)));
    }
    while k < ms.len()
        invariant
            k <= ms@.len(),
            ms@.map_values(|us: Vec<String>| views(us@)) == ls,
            views(all@) == flatten(ls.take(k as int)),
        decreases ms@.len() - k,
    {
        let us = &ms[k];
        let ghost before = views(all@);
        let mut j: usize = 0;
        while j < us.len()
            invariant
                j <= us@.len(),
                views(all@) == before + views(us@).take(j as int),
            decreases us@.len() - j,
        {
            let ghost o = all@;
            all.push(string_of(chars_of(us[j].as_str()).as_slice()));
            proof {
                assert(views(all@) =~= views(o).push(us@[j as int]@));
                assert(views(us@).take(j + 1) =~= views(us@).take(j as int).push(us@[j as int]@));
            }
            j = j + 1;
        }
        proof {
            assert(views(us@).take(j as int) =~= views(us@));
            assert(ls[k as int] == views(us@));
            assert(ls.take(k + 1).drop_last() =~= ls.take(k as int));
            assert(ls.take(k + 1).last() == ls[k as int]);
        }
        k = k + 1;
    }
    proof {
        assert(ls.take(k as int) =~= ls);
    }
    let subs = submodule_files(lib);
    let ghost before = views(all@);
    let mut j: usize = 0;
    while j < subs.len()
        invariant
            j <= subs@.len(),
            views(all@) == before + views(subs@).take(j as int),
        decreases subs@.len() - j,
    {
        let ghost o = all@;
        all.push(string_of(chars_of(subs[j].as_str()).as_slice()));
        proof {
            assert(views(all@) =~= views(o).push(subs@[j as int]@));
            assert(views(subs@).take(j + 1) =~= views(subs@).take(j as int).push(subs@[j as int]@));
        }
        j = j + 1;
    }
    proof {
        assert(views(subs@).take(j as int) =~= views(subs@));
        assert(views(all@).len() == all@.len());
    }
    unique_urls(&all)
}
} // verus!
