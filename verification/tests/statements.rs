use netconf_language_server::completion::{handle as yang_completion, ItemKind};
use netconf_language_server::diagnostic::conflict_prefix;
use netconf_language_server::format::{handle as format_module, Comment};
use netconf_language_server::fold::handle as folding_ranges;
use netconf_language_server::goto::resolve;
use netconf_language_server::hover::{code_fence, handle as hover};
use netconf_language_server::references::{def_at, find_references, local_name_range};
use netconf_language_server::stmt::{header_seeds, Stmt, StmtArg, StmtEnd, StmtKind, StmtTree};
use netconf_language_server::semantic::{handle as semantic_tokens, Class, LexKind, Lexeme, Lines};
use ropey::Rope;
use yrepo::{Repository, Statement};

fn stmt_kind(k: &yrepo::StatementKind) -> StmtKind {
    match k {
        yrepo::StatementKind::Module => StmtKind::Module,
        yrepo::StatementKind::Submodule => StmtKind::Submodule,
        yrepo::StatementKind::Namespace => StmtKind::Namespace,
        yrepo::StatementKind::Prefix => StmtKind::Prefix,
        yrepo::StatementKind::YangVersion => StmtKind::YangVersion,
        yrepo::StatementKind::Import => StmtKind::Import,
        yrepo::StatementKind::Include => StmtKind::Include,
        yrepo::StatementKind::BelongsTo => StmtKind::BelongsTo,
        yrepo::StatementKind::Revision => StmtKind::Revision,
        yrepo::StatementKind::RevisionDate => StmtKind::RevisionDate,
        yrepo::StatementKind::Organization => StmtKind::Organization,
        yrepo::StatementKind::Contact => StmtKind::Contact,
        yrepo::StatementKind::Description => StmtKind::Description,
        yrepo::StatementKind::Reference => StmtKind::Reference,
        yrepo::StatementKind::Container => StmtKind::Container,
        yrepo::StatementKind::Leaf => StmtKind::Leaf,
        yrepo::StatementKind::LeafList => StmtKind::LeafList,
        yrepo::StatementKind::List => StmtKind::List,
        yrepo::StatementKind::Choice => StmtKind::Choice,
        yrepo::StatementKind::Case => StmtKind::Case,
        yrepo::StatementKind::Anyxml => StmtKind::Anyxml,
        yrepo::StatementKind::Anydata => StmtKind::Anydata,
        yrepo::StatementKind::Uses => StmtKind::Uses,
        yrepo::StatementKind::Grouping => StmtKind::Grouping,
        yrepo::StatementKind::Typedef => StmtKind::Typedef,
        yrepo::StatementKind::Type => StmtKind::Type,
        yrepo::StatementKind::Identity => StmtKind::Identity,
        yrepo::StatementKind::Base => StmtKind::Base,
        yrepo::StatementKind::Augment => StmtKind::Augment,
        yrepo::StatementKind::UsesAugment => StmtKind::UsesAugment,
        yrepo::StatementKind::Refine => StmtKind::Refine,
        yrepo::StatementKind::Deviation => StmtKind::Deviation,
        yrepo::StatementKind::DeviateAdd => StmtKind::DeviateAdd,
        yrepo::StatementKind::DeviateDelete => StmtKind::DeviateDelete,
        yrepo::StatementKind::DeviateReplace => StmtKind::DeviateReplace,
        yrepo::StatementKind::DeviateNotSupported => StmtKind::DeviateNotSupported,
        yrepo::StatementKind::Rpc => StmtKind::Rpc,
        yrepo::StatementKind::Action => StmtKind::Action,
        yrepo::StatementKind::Notification => StmtKind::Notification,
        yrepo::StatementKind::Input => StmtKind::Input,
        yrepo::StatementKind::Output => StmtKind::Output,
        yrepo::StatementKind::Config => StmtKind::Config,
        yrepo::StatementKind::Mandatory => StmtKind::Mandatory,
        yrepo::StatementKind::Presence => StmtKind::Presence,
        yrepo::StatementKind::Default => StmtKind::Default,
        yrepo::StatementKind::MinElements => StmtKind::MinElements,
        yrepo::StatementKind::MaxElements => StmtKind::MaxElements,
        yrepo::StatementKind::OrderedBy => StmtKind::OrderedBy,
        yrepo::StatementKind::Status => StmtKind::Status,
        yrepo::StatementKind::When => StmtKind::When,
        yrepo::StatementKind::IfFeature => StmtKind::IfFeature,
        yrepo::StatementKind::Must => StmtKind::Must,
        yrepo::StatementKind::Units => StmtKind::Units,
        yrepo::StatementKind::FractionDigits => StmtKind::FractionDigits,
        yrepo::StatementKind::Range => StmtKind::Range,
        yrepo::StatementKind::Length => StmtKind::Length,
        yrepo::StatementKind::Pattern => StmtKind::Pattern,
        yrepo::StatementKind::Enum => StmtKind::Enum,
        yrepo::StatementKind::Bit => StmtKind::Bit,
        yrepo::StatementKind::Path => StmtKind::Path,
        yrepo::StatementKind::RequireInstance => StmtKind::RequireInstance,
        yrepo::StatementKind::Value => StmtKind::Value,
        yrepo::StatementKind::Position => StmtKind::Position,
        yrepo::StatementKind::Unique => StmtKind::Unique,
        yrepo::StatementKind::Key => StmtKind::Key,
        yrepo::StatementKind::Feature => StmtKind::Feature,
        yrepo::StatementKind::Extension => StmtKind::Extension,
        yrepo::StatementKind::Argument => StmtKind::Argument,
        yrepo::StatementKind::YinElement => StmtKind::YinElement,
        yrepo::StatementKind::ErrorMessage => StmtKind::ErrorMessage,
        yrepo::StatementKind::ErrorAppTag => StmtKind::ErrorAppTag,
        yrepo::StatementKind::Modifier => StmtKind::Modifier,
        yrepo::StatementKind::Unknown(s) => StmtKind::Unknown(s.clone()),
        other => StmtKind::Unknown(format!("{other:?}")),
    }
}

fn flatten(s: &Statement, nodes: &mut Vec<Stmt>) -> usize {
    let idx = nodes.len();
    nodes.push(Stmt {
        kind: stmt_kind(&s.kind),
        range: s.range.clone(),
        span: s.span(),
        keyword: s.keyword.clone(),
        arg: s.arg.as_ref().map(|a| StmtArg {
            range: a.range.clone(),
            name: a.name().to_owned(),
            path: a.path(),
        }),
        end: match &s.end {
            Some(yrepo::StatementEnd::Semicolon { semi }) => Some(StmtEnd::Semicolon(semi.clone())),
            Some(yrepo::StatementEnd::Braces { open, close }) => Some(StmtEnd::Braces {
                open: open.clone(),
                close: close.clone(),
            }),
            None => None,
        },
        children: Vec::new(),
    });
    let mut kids = Vec::new();
    for c in &s.children {
        kids.push(flatten(c, nodes));
    }
    nodes[idx].children = kids;
    idx
}

fn tree_of(root: &Statement) -> StmtTree {
    let mut nodes = Vec::new();
    flatten(root, &mut nodes);
    StmtTree { nodes }
}

const DEF: &str = "module extdef {\n  namespace \"urn:extdef\";\n  prefix vendor;\n\
  extension info { argument name; }\n\
}\n";
const USE: &str = "module app {\n  namespace \"urn:app\";\n  prefix a;\n\
  import extdef { prefix vendor; }\n\
  leaf x { type string; vendor:info \"x\"; }\n\
}\n";

#[test]
fn goto_jumps_from_extension_usage_to_definition() {
    let mut repo = Repository::new();
    repo.upsert("/extdef.yang", DEF.to_string());
    repo.upsert("/app.yang", USE.to_string());
    let out = repo.compile();
    let lib = out.library.expect("library");
    let root = repo.statement("/app.yang").expect("root").clone();
    let tree = tree_of(&root);
    let byte = USE.find("vendor:info").unwrap() + "vendor:".len();
    let targets = resolve(&tree, USE, "/app.yang", byte, "app", &lib).expect("goto");
    assert_eq!(targets.len(), 1);
    assert_eq!(targets[0].url, "/extdef.yang");
    assert_eq!(&DEF[targets[0].target_range.clone()], "info");
    assert_eq!(
        targets[0].origin_range,
        root.narrowest_at(byte).unwrap().keyword.clone().unwrap()
    );
}

const FEAT: &str = "module fmod {\n  namespace \"urn:f\";\n  prefix f;\n\
  feature turbo;\n\
  leaf x { if-feature turbo; type string; }\n\
  leaf mode { type enumeration { enum auto { value 1; } } default auto; }\n\
  identity auto-id;\n\
  leaf idl { type identityref { base auto-id; } default auto-id; }\n\
}\n";

#[test]
fn goto_if_feature_and_default_references() {
    let mut repo = Repository::new();
    repo.upsert("/fmod.yang", FEAT.to_string());
    let out = repo.compile();
    let lib = out.library.expect("library");
    let tree = tree_of(repo.statement("/fmod.yang").expect("root"));
    let b = FEAT.find("if-feature turbo").unwrap() + "if-feature ".len();
    let t = resolve(&tree, FEAT, "/fmod.yang", b, "fmod", &lib).expect("if-feature goto");
    assert_eq!(t.len(), 1);
    assert_eq!(t[0].url, "/fmod.yang");
    assert_eq!(&FEAT[t[0].target_range.clone()], "turbo");
    let b = FEAT.find("default auto;").unwrap() + "default ".len();
    let t = resolve(&tree, FEAT, "/fmod.yang", b, "fmod", &lib).expect("enum default goto");
    assert_eq!(t.len(), 1);
    assert_eq!(&FEAT[t[0].target_range.clone()], "auto");
    let b = FEAT.find("default auto-id;").unwrap() + "default ".len();
    let t = resolve(&tree, FEAT, "/fmod.yang", b, "fmod", &lib).expect("identity default goto");
    assert_eq!(t.len(), 1);
    assert_eq!(&FEAT[t[0].target_range.clone()], "auto-id");
}

const LRF: &str = "module lrbase {\n  namespace \"urn:lb\";\n  prefix b;\n\
  container top { list item { key name; leaf name { type string; }\n\
  leaf port { type uint16; } } }\n\
}\n";
const LR: &str = "module lr {\n  namespace \"urn:lr\";\n  prefix l;\n\
  import lrbase { prefix b; }\n\
  leaf ref { type leafref { path \"/b:top/b:item/b:port\"; } }\n\
  leaf refp { type leafref { path \"/b:top/b:item[b:name='x']/b:port\"; } }\n\
}\n";

#[test]
fn goto_leafref_path_and_deviation() {
    let mut repo = Repository::new();
    repo.upsert("/lrbase.yang", LRF.to_string());
    repo.upsert("/lr.yang", LR.to_string());
    let out = repo.compile();
    let lib = out.library.expect("library");
    let tree = tree_of(repo.statement("/lr.yang").expect("root"));
    let b = LR.find("path \"/b:top/b:item/b:port\"").unwrap() + "path \"".len();
    let t = resolve(&tree, LR, "/lr.yang", b, "lr", &lib).expect("leafref goto");
    assert_eq!(t.len(), 1);
    assert_eq!(t[0].url, "/lrbase.yang");
    let hit = &LRF[t[0].target_range.clone()];
    assert!(hit.contains("port"), "target text {hit:?} should name the leaf");
    let b = LR.find("path \"/b:top/b:item[b:name='x']/b:port\"").unwrap() + "path \"".len();
    let t = resolve(&tree, LR, "/lr.yang", b, "lr", &lib).expect("leafref predicate goto");
    assert_eq!(t.len(), 1);
    assert_eq!(t[0].url, "/lrbase.yang");
    let hit = &LRF[t[0].target_range.clone()];
    assert!(hit.contains("port"), "target text {hit:?} should name the leaf");
}

const DEV: &str = "module devbase {\n  namespace \"urn:db\";\n  prefix db;\n\
  container c { leaf mtu { type uint32; } }\n\
}\n";
const DV: &str = "module dv {\n  namespace \"urn:dv\";\n  prefix dv;\n\
  import devbase { prefix db; }\n\
  deviation \"/db:c/db:mtu\" { deviate replace { type uint8; } }\n\
}\n";

#[test]
fn goto_deviation_target() {
    let mut repo = Repository::new();
    repo.upsert("/devbase.yang", DEV.to_string());
    repo.upsert("/dv.yang", DV.to_string());
    let out = repo.compile();
    let lib = out.library.expect("library");
    let tree = tree_of(repo.statement("/dv.yang").expect("root"));
    let b = DV.find("deviation \"/db:c/db:mtu\"").unwrap() + "deviation \"".len();
    let t = resolve(&tree, DV, "/dv.yang", b, "dv", &lib).expect("deviation goto");
    assert_eq!(t.len(), 1);
    assert_eq!(t[0].url, "/devbase.yang");
    let hit = &DEV[t[0].target_range.clone()];
    assert!(hit.contains("mtu"), "target text {hit:?} should name the leaf");
}

const RF: &str = "module rf {\n  namespace \"urn:rf\";\n  prefix rf;\n\
  grouping cfg { container inner { leaf host { type string; } } }\n\
  container app { uses cfg { refine inner/host { default \"x\"; } } }\n\
}\n";

#[test]
fn goto_refine_target_into_grouping() {
    let mut repo = Repository::new();
    repo.upsert("/rf.yang", RF.to_string());
    let out = repo.compile();
    let lib = out.library.expect("library");
    let tree = tree_of(repo.statement("/rf.yang").expect("root"));
    let byte = RF.find("refine inner/host").unwrap() + "refine inner/".len() + 1;
    let t = resolve(&tree, RF, "/rf.yang", byte, "rf", &lib).expect("refine goto");
    assert_eq!(t.len(), 1);
    let hit = &RF[t[0].target_range.clone()];
    assert!(hit.contains("host"), "target text {hit:?} should name the leaf");
}

const UA: &str = "module ua {\n  namespace \"urn:ua\";\n  prefix ua;\n\
  grouping g { container base { leaf id { type string; } } }\n\
  container app { uses g { augment base { leaf extra { type string; } } } }\n\
}\n";

#[test]
fn goto_uses_augment_target_into_grouping() {
    let mut repo = Repository::new();
    repo.upsert("/ua.yang", UA.to_string());
    let out = repo.compile();
    let lib = out.library.expect("library");
    let tree = tree_of(repo.statement("/ua.yang").expect("root"));
    let byte = UA.find("augment base").unwrap() + "augment ".len() + 1;
    let t = resolve(&tree, UA, "/ua.yang", byte, "ua", &lib).expect("uses-augment goto");
    assert_eq!(t.len(), 1);
    let hit = &UA[t[0].target_range.clone()];
    assert!(hit.contains("base"), "target text {hit:?} should name the container");
}

const A: &str = "module liba { namespace \"urn:a\"; prefix a;\n\
  typedef speed { type uint32; }\n\
  grouping gear { leaf g { type uint8; } }\n\
  identity mode;\n\
  feature turbo;\n\
  container c { leaf s { type speed; }\n\
  uses gear; leaf m { type identityref { base mode; } }\n\
  leaf f { if-feature turbo; type string; } }\n\
}\n";
const B: &str = "module libb { namespace \"urn:b\"; prefix b;\n\
  import liba { prefix a; }\n\
  typedef own { type a:speed; }\n\
  leaf s2 { type own; }\n\
  leaf s3 { type a:speed; }\n\
  container g2 { uses a:gear; }\n\
}\n";

fn caret_in(hay: &str, needle: &str) -> usize {
    hay.find(needle).unwrap() + needle.len()
}

#[test]
fn typedef_def_and_cross_module_references() {
    let mut r = Repository::new();
    r.upsert("/a.yang", A.to_string());
    r.upsert("/b.yang", B.to_string());
    let out = r.compile();
    let lib = out.library.expect("lib");
    let tree_a = tree_of(r.statement("/a.yang").expect("root a"));
    let tree_b = tree_of(r.statement("/b.yang").expect("root b"));
    let def = def_at(&tree_a, A, caret_in(A, "typedef "), "liba", &lib).expect("def");
    assert_eq!((def.module.as_str(), def.local.as_str()), ("liba", "speed"));
    let def2 = def_at(&tree_b, B, caret_in(B, "type a:"), "libb", &lib).expect("ref def");
    assert_eq!((def2.module.as_str(), def2.local.as_str()), ("liba", "speed"));
    let docs = vec![
        ("/a.yang".to_string(), tree_a, "liba".to_string()),
        ("/b.yang".to_string(), tree_b, "libb".to_string()),
    ];
    let hits = find_references(&def, &docs, &lib, false);
    assert_eq!(hits.len(), 3, "hits: {hits:?}");
    assert!(hits.iter().any(|(u, _)| u == "/a.yang"));
    assert!(hits.iter().any(|(u, _)| u == "/b.yang"));
    let hits = find_references(&def, &docs, &lib, true);
    assert_eq!(hits.len(), 4, "hits: {hits:?}");
}

#[test]
fn self_prefixed_module_def_at_mirrors_ietf_yang_types() {
    const T: &str = "module ietf-yang-types {\n  namespace \"urn:ietf\";\n  prefix yang;\n\n\
    \x20 typedef counter32 {\n    type uint32;\n    description\n\
    \x20    \"a schema node of type counter32 at times other than re-init\";\n  }\n\
    \x20 typedef zero-based-counter32 {\n    type yang:counter32;\n  }\n\
    \x20 typedef other {\n    type uint32;\n  }\n}\n";
    let mut r = Repository::new();
    r.upsert("/t.yang", T.to_string());
    let out = r.compile();
    let lib = out.library.expect("lib");
    let tree = tree_of(r.statement("/t.yang").expect("root"));
    let def = def_at(&tree, T, caret_in(T, "typedef "), "ietf-yang-types", &lib).expect("def on typedef name");
    assert_eq!((def.module.as_str(), def.local.as_str()), ("ietf-yang-types", "counter32"));
    let def2 = def_at(&tree, T, caret_in(T, "type yang:"), "ietf-yang-types", &lib)
        .expect("def on self-prefixed reference");
    assert_eq!((def2.module.as_str(), def2.local.as_str()), ("ietf-yang-types", "counter32"));
    let gap = T.find("counter32 {").unwrap() + "counter32".len();
    let def3 = def_at(&tree, T, gap, "ietf-yang-types", &lib).expect("def on body gap");
    assert_eq!((def3.module.as_str(), def3.local.as_str()), ("ietf-yang-types", "counter32"));
    let kw = T.find("typedef counter32").unwrap() + 2;
    let def4 = def_at(&tree, T, kw, "ietf-yang-types", &lib).expect("def on keyword");
    assert_eq!((def4.module.as_str(), def4.local.as_str()), ("ietf-yang-types", "counter32"));
    let prose = T.find("type counter32 at").unwrap() + "type ".len();
    assert!(
        def_at(&tree, T, prose, "ietf-yang-types", &lib).is_none(),
        "prose inside a description is not a reference"
    );
}

#[test]
fn local_name_range_strips_prefix_keeps_unprefixed() {
    let text = "type a:speed; type own;";
    let start = text.find("a:speed").unwrap();
    let full = start..start + "a:speed".len();
    let r = local_name_range(text, full.clone());
    assert_eq!(&text[r.clone()], "speed");
    let start2 = text.find("type own").unwrap() + "type ".len();
    let full2 = start2..start2 + "own".len();
    let r2 = local_name_range(text, full2.clone());
    assert_eq!(r2, full2);
    assert_eq!(&text[r2.clone()], "own");
}

#[test]
fn grouping_identity_feature_references() {
    let mut r = Repository::new();
    r.upsert("/a.yang", A.to_string());
    r.upsert("/b.yang", B.to_string());
    let out = r.compile();
    let lib = out.library.expect("lib");
    let tree_a = tree_of(r.statement("/a.yang").expect("root a"));
    let tree_b = tree_of(r.statement("/b.yang").expect("root b"));
    let def = def_at(&tree_a, A, caret_in(A, "grouping "), "liba", &lib).unwrap();
    let def_i = def_at(&tree_a, A, caret_in(A, "identity "), "liba", &lib).unwrap();
    let def_f = def_at(&tree_a, A, caret_in(A, "feature "), "liba", &lib).unwrap();
    let docs = vec![
        ("/a.yang".to_string(), tree_a, "liba".to_string()),
        ("/b.yang".to_string(), tree_b, "libb".to_string()),
    ];
    let hits = find_references(&def, &docs, &lib, false);
    assert_eq!(hits.len(), 2, "grouping hits: {hits:?}");
    let hits = find_references(&def_i, &docs, &lib, false);
    assert_eq!(hits.len(), 1, "identity hits: {hits:?}");
    assert_eq!(hits[0].0, "/a.yang");
    let hits = find_references(&def_f, &docs, &lib, false);
    assert_eq!(hits.len(), 1, "feature hits: {hits:?}");
}

#[test]
fn header_seeds_covers_imports_includes_and_belongs_to() {
    let mut repo = Repository::new();
    repo.upsert(
        "/w/m.yang",
        r#"module m {
                namespace "urn:m"; prefix m;
                import b { prefix b; revision-date 2019-01-01; }
                include m-sub;
                leaf x { type string; }
            }"#,
    );
    let root = tree_of(repo.statement("/w/m.yang").expect("statement"));
    let seeds = header_seeds(&root);
    assert!(seeds.contains(&("b".to_owned(), Some("2019-01-01".to_owned()))));
    assert!(seeds.contains(&("m-sub".to_owned(), None)));
    repo.upsert(
        "/w/m-sub.yang",
        r#"submodule m-sub {
                belongs-to m { prefix m; }
                leaf y { type string; }
            }"#,
    );
    let sub = tree_of(repo.statement("/w/m-sub.yang").expect("statement"));
    assert_eq!(
        header_seeds(&sub),
        vec![("m".to_owned(), None)],
        "submodule seeds its parent module"
    );
    assert_eq!(sub.module_scope(), Some("m".to_owned()));
    assert_eq!(root.module_scope(), Some("m".to_owned()));
}

const CBASE: &str = "module cbase {\n  namespace \"urn:cb\";\n  prefix cb;\n\
  grouping bg { leaf x { type string; } }\n\
}\n";
const CMOD: &str = "module cmod {\n  namespace \"urn:cm\";\n  prefix cm;\n\
  import cbase { prefix cb; }\n\
  grouping own-g { leaf y { type string; } }\n\
  container c { uses zzz }\n\
}\n";

#[test]
fn completion_suggests_groupings_for_uses() {
    let mut repo = Repository::new();
    repo.upsert("/cbase.yang", CBASE.to_string());
    repo.upsert("/cmod.yang", CMOD.to_string());
    let out = repo.compile();
    let lib = out.library.expect("lib");
    let tree = tree_of(repo.statement("/cmod.yang").expect("root"));
    let byte = CMOD.find("uses zzz").unwrap() + "uses ".len();
    let items = yang_completion(&tree, byte, "cmod", &lib).expect("items");
    let labels: Vec<&str> = items.iter().map(|i| i.label.as_str()).collect();
    assert!(labels.contains(&"own-g"), "labels: {labels:?}");
    assert!(labels.contains(&"cb:bg"), "labels: {labels:?}");
    assert!(items.iter().all(|i| i.kind == ItemKind::Struct && i.detail == "grouping"));
}

#[test]
fn completion_offers_builtin_and_typedef_types_and_nothing_outside_arguments() {
    let src = "module tm {\n  namespace \"urn:tm\";\n  prefix tm;\n\
  typedef my-int { type int8; }\n\
  leaf a { type uint8; }\n\
}\n";
    let mut repo = Repository::new();
    repo.upsert("/tm.yang", src.to_string());
    let lib = repo.compile().library.expect("lib");
    let tree = tree_of(repo.statement("/tm.yang").expect("root"));
    let byte = src.find("type uint8").unwrap() + "type ".len();
    let items = yang_completion(&tree, byte, "tm", &lib).expect("items");
    let b = items.iter().find(|i| i.label == "uint8").expect("builtin");
    assert_eq!((b.kind, b.detail.as_str()), (ItemKind::TypeParameter, "built-in"));
    let t = items.iter().find(|i| i.label == "my-int").expect("typedef");
    assert_eq!((t.kind, t.detail.as_str()), (ItemKind::Struct, "tm (typedef)"));
    let kw = src.find("leaf a").unwrap() + 1;
    assert!(yang_completion(&tree, kw, "tm", &lib).is_none());
}

#[test]
fn hover_resolves_extension_usage() {
    let mut repo = Repository::new();
    repo.upsert("/extdef.yang", DEF.to_string());
    repo.upsert("/app.yang", USE.to_string());
    let out = repo.compile();
    let lib = out.library.expect("library");
    let tree = tree_of(repo.statement("/app.yang").expect("root"));
    let head = USE.find("vendor:info").unwrap() + "vendor:".len();
    let text = hover(&tree, USE, head, "app", &lib).expect("hover");
    assert!(text.contains("extension **`info`**"), "hover text: {text}");
    assert!(text.contains("argument: `name`"), "hover text: {text}");
    // caret not on the head (e.g. on the quoted arg) → no extension hover
    let arg_byte = USE.find("info").unwrap() + "info \"x\"".len();
    assert!(hover(&tree, USE, arg_byte, "app", &lib).is_none());
}

#[test]
fn hover_if_feature_and_default_references() {
    let mut repo = Repository::new();
    repo.upsert("/fmod.yang", FEAT.to_string());
    let out = repo.compile();
    let lib = out.library.expect("library");
    let tree = tree_of(repo.statement("/fmod.yang").expect("root"));

    let b = FEAT.find("if-feature turbo").unwrap() + "if-feature ".len();
    let t = hover(&tree, FEAT, b, "fmod", &lib).expect("if-feature hover");
    assert!(t.contains("feature **`turbo`**"), "{t}");

    let b = FEAT.find("default auto;").unwrap() + "default ".len();
    let t = hover(&tree, FEAT, b, "fmod", &lib).expect("enum default hover");
    assert!(t.contains("enum value **`auto`**"), "{t}");

    let b = FEAT.find("default auto-id;").unwrap() + "default ".len();
    let t = hover(&tree, FEAT, b, "fmod", &lib).expect("identity default hover");
    assert!(t.contains("identity value **`auto-id`**"), "{t}");
}

const TYPES: &str = "module tmod {\n  namespace \"urn:t\";\n  prefix t;\n\
  import extdef { prefix vendor; }\n\
  typedef port { type uint16; }\n\
  typedef service-port { type port; }\n\
  identity base-id;\n\
  identity child-id { base base-id; }\n\
  leaf p { type service-port; }\n\
  leaf s { type string; }\n\
  leaf v { type vendor:thing; }\n\
  leaf w { type t:port; }\n\
  leaf i { type identityref { base child-id; } }\n\
}\n";

fn types_hover(needle: &str, skip: usize) -> Option<String> {
    let mut repo = Repository::new();
    repo.upsert("/extdef.yang", DEF.to_string());
    repo.upsert("/tmod.yang", TYPES.to_string());
    let out = repo.compile();
    let lib = out.library.expect("library");
    let tree = tree_of(repo.statement("/tmod.yang").expect("root"));
    let b = TYPES.find(needle).unwrap() + skip;
    hover(&tree, TYPES, b, "tmod", &lib)
}

#[test]
fn hover_shows_typedef_chain_down_to_builtin() {
    let t = types_hover("type service-port;", "type ".len()).expect("type hover");
    assert_eq!(
        t,
        "**type** `service-port`\n- typedef `service-port` (in module `tmod`)\n- typedef `port` (in module `tmod`)\n\u{2192} built-in **`uint16`**"
    );
}

#[test]
fn hover_names_builtin_types() {
    let t = types_hover("type string;", "type ".len()).expect("builtin hover");
    assert_eq!(t, "built-in type **`string`**");
}

#[test]
fn hover_on_import_describes_the_module() {
    let t = types_hover("import extdef", "import ".len()).expect("import hover");
    assert_eq!(t, "**module** `extdef`\n- namespace: `urn:extdef`\n- prefix: `vendor`");
}

#[test]
fn hover_on_prefixed_type_shows_the_binding_import() {
    let t = types_hover("type vendor:thing;", "type ".len()).expect("prefixed hover");
    let expected = format!(
        "prefix **`vendor`** \u{2192} module **`extdef`**\n{}",
        code_fence("import extdef { prefix vendor; }")
    );
    assert_eq!(t, expected);
    let t = types_hover("type t:port;", "type ".len()).expect("own prefix hover");
    assert_eq!(t, "prefix **`t`** \u{2192} module **`tmod`**\nthis module's own prefix");
}

#[test]
fn hover_on_base_shows_identity_ancestry() {
    let t = types_hover("base child-id;", "base ".len()).expect("identity hover");
    assert_eq!(t, "**identity** `child-id` (module `tmod`)\n- base: `base-id` (module `tmod`)");
}

const CONFLICT: &str = "module c {\n  namespace \"urn:c\";\n  prefix c;\n\
  import a { prefix x; }\n\
  import b { prefix c; }\n\
  import d { prefix x; }\n\
  import e { prefix y; }\n\
}\n";

#[test]
fn conflicting_import_prefixes_point_at_the_first_declaration() {
    let mut repo = Repository::new();
    repo.upsert("/c.yang", CONFLICT.to_string());
    let tree = tree_of(repo.statement("/c.yang").expect("root"));
    let found = conflict_prefix(&tree);
    assert_eq!(found.len(), 2);
    assert_eq!(found[0].name, "c");
    let own = CONFLICT.find("prefix c;").unwrap() + "prefix ".len();
    assert_eq!(found[0].first, own..own + 1);
    let dup = CONFLICT.find("import b { prefix c").unwrap() + "import b { prefix ".len();
    assert_eq!(found[0].range, dup..dup + 1);
    assert_eq!(found[1].name, "x");
    let first_x = CONFLICT.find("prefix x").unwrap() + "prefix ".len();
    assert_eq!(found[1].first, first_x..first_x + 1);
}

#[test]
fn distinct_prefixes_raise_no_conflict() {
    let mut repo = Repository::new();
    repo.upsert("/app.yang", USE.to_string());
    let tree = tree_of(repo.statement("/app.yang").expect("root"));
    assert!(conflict_prefix(&tree).is_empty());
    assert!(conflict_prefix(&StmtTree { nodes: Vec::new() }).is_empty());
}

fn lines_of(rope: &Rope) -> Lines {
    Lines::of_text(&rope.to_string()).expect("lines")
}

#[test]
fn lines_break_where_the_rope_breaks() {
    let text = "a\r\nb\nc\u{2028}d\re\u{85}f\u{b}g\u{c}h\u{2029}";
    let lines = Lines::of_text(text).expect("lines");
    assert_eq!(lines.starts, vec![0, 3, 5, 9, 11, 14, 16, 18, 22]);
    assert_eq!(lines.len, text.len());
    for t in [text, "", "x", "\n\n", "\r\r\n", "ab\ncd\n"] {
        let rope = Rope::from_str(t);
        let from_rope: Vec<usize> = (0..rope.len_lines()).map(|i| rope.line_to_byte(i)).collect();
        assert_eq!(Lines::of_text(t).expect("lines").starts, from_rope, "{t:?}");
    }
}

fn lexemes_of(toks: &[yrepo::Token]) -> Vec<Lexeme> {
    toks.iter()
        .map(|t| Lexeme {
            kind: match t.kind {
                yrepo::TokenKind::Comment => LexKind::Comment,
                yrepo::TokenKind::Keyword => LexKind::Keyword,
                yrepo::TokenKind::Identifier => LexKind::Identifier,
                yrepo::TokenKind::String => LexKind::String,
                yrepo::TokenKind::Number => LexKind::Number,
                yrepo::TokenKind::Boolean => LexKind::Boolean,
                yrepo::TokenKind::Operator => LexKind::Operator,
                _ => LexKind::Other,
            },
            range: t.range.clone(),
        })
        .collect()
}

/// Decode the delta stream back to absolute `(line, utf16 col, length, type)`.
fn decode(out: &[(u32, u32, u32, u32, u32)]) -> Vec<(u32, u32, u32, u32)> {
    let mut abs = Vec::with_capacity(out.len());
    let mut line = 0u32;
    let mut col = 0u32;
    for t in out {
        if t.0 > 0 {
            line += t.0;
            col = t.1;
        } else {
            col += t.1;
        }
        abs.push((line, col, t.2, t.3));
    }
    abs
}

/// Semantic tokens over an inline module, plus decoded absolute positions.
fn tokens_for(src: &str) -> (Rope, Vec<(u32, u32, u32, u32)>) {
    let rope = Rope::from_str(src);
    let mut repo = Repository::new();
    repo.upsert(String::from("u"), src.to_string());
    repo.compile();
    let tree = tree_of(repo.statement("u").expect("root"));
    let lex = lexemes_of(repo.tokens("u").unwrap());
    let out = semantic_tokens(Some(&tree), src, &lines_of(&rope), &lex).expect("tokens");
    let abs = decode(&out);
    (rope, abs)
}

fn line_utf16_len(rope: &Rope, line: u32) -> u32 {
    let i = (line as usize).min(rope.len_lines().saturating_sub(1));
    rope.line(i).chars().map(|c| c.len_utf16() as u32).sum()
}

/// Text covered by an absolute token (converts the UTF-16 column to bytes).
fn seg_text(rope: &Rope, line: u32, col: u32, len: u32) -> String {
    let i = (line as usize).min(rope.len_lines().saturating_sub(1));
    let line_txt: String = rope.line(i).to_string();
    let mut utf = 0u32;
    let mut byte = 0usize;
    for ch in line_txt.chars() {
        if utf >= col {
            break;
        }
        utf += ch.len_utf16() as u32;
        byte += ch.len_utf8();
    }
    let start = rope.line_to_byte(i) + byte;
    let end = (start + (len as usize)).min(rope.len_bytes());
    rope.get_byte_slice(start..end)
        .map(|s| s.to_string())
        .unwrap_or_default()
}

#[test]
fn multi_line_tokens_are_split_per_line() {
    let src = "module x {\n  yang-version 1.1;\n  namespace \"urn:x\";\n  prefix x;\n\
        description \"first line\n  second line\n  third line\";\n  /* block comment\n\
        spanning lines */\n  leaf foo { type string; }\n}\n";
    let (rope, abs) = tokens_for(src);
    // No token may cross a line boundary: col + length must fit in its line.
    assert!(!abs.is_empty());
    for (line, col, len, _ty) in &abs {
        assert!(
            *col + *len <= line_utf16_len(&rope, *line),
            "token L{line} c{col} len{len} crosses a line end"
        );
    }
    // The 3-line description string yields one token per line (lines 4..6).
    let string_txt: Vec<String> = abs
        .iter()
        .filter(|(_, _, _, t)| *t == Class::String.index())
        .map(|&(l, c, n, _)| seg_text(&rope, l, c, n))
        .collect();
    let joined: String = string_txt.iter().flat_map(|s| s.chars()).collect();
    assert!(
        joined.contains("first line")
            && joined.contains("second line")
            && joined.contains("third line")
    );
    // ...and the 2-line block comment yields two comment tokens.
    let comment_lines: u32 = abs
        .iter()
        .filter(|(_, _, _, t)| *t == Class::Comment.index())
        .count() as u32;
    assert_eq!(
        comment_lines, 2,
        "block comment should be split into one token per line"
    );
}

#[test]
fn augment_and_path_arguments_are_highlighted() {
    let src = "module x {\n  yang-version 1.1;\n  namespace \"urn:x\";\n  prefix x;\n\
        import ietf-interfaces { prefix if; }\n  augment \"/if:interfaces/if:interface\" {\n\
        leaf foo { type string; }\n  }\n  typedef r {\n    type leafref { path \"/if:interfaces/if:interface/if:name\"; }\n  }\n}\n";
    let (rope, abs) = tokens_for(src);
    let texts: Vec<String> = abs
        .iter()
        .filter(|(_, _, _, t)| *t == Class::String.index())
        .map(|&(l, c, n, _)| seg_text(&rope, l, c, n))
        .collect();
    assert!(
        texts
            .iter()
            .any(|s| s.contains("if:interfaces/if:interface")),
        "augment path argument not highlighted: {texts:?}"
    );
    assert!(
        texts.iter().any(|s| s.contains("if:interface/if:name")),
        "leafref path argument not highlighted: {texts:?}"
    );
}

#[test]
fn deviate_keywords_are_highlighted() {
    let src = "module x {\n  yang-version 1.1;\n  namespace \"urn:x\";\n  prefix x;\n\
        container c { leaf a { type string; } }\n\
        deviation \"/x:c/x:a\" {\n\
        deviate add { default \"y\"; }\n\
        deviate not-supported;\n  }\n}\n";
    let (rope, abs) = tokens_for(src);
    let kws: Vec<String> = abs
        .iter()
        .filter(|(_, _, _, t)| *t == Class::Keyword.index())
        .map(|&(l, c, n, _)| seg_text(&rope, l, c, n))
        .collect();
    assert!(
        kws.iter().any(|s| s == "deviation"),
        "deviation keyword missing: {kws:?}"
    );
    assert!(
        kws.iter().filter(|s| *s == "deviate").count() >= 2,
        "leading 'deviate' keywords missing: {kws:?}"
    );
    assert!(
        kws.iter().any(|s| s == "add"),
        "'deviate add' verb missing: {kws:?}"
    );
    assert!(
        kws.iter().any(|s| s == "not-supported"),
        "'deviate not-supported' verb missing: {kws:?}"
    );
}

#[test]
fn negative_numbers_are_highlighted() {
    // Unquoted negative `default` literals (and a negative enum `value`).
    let src = "module x {\n  yang-version 1.1;\n  namespace \"urn:x\";\n  prefix x;\n\
        leaf a { type int8 { range \"-16..-1\"; } default -10; }\n\
        leaf b { type int8 { range \"-48..-14\"; } default -27; }\n\
        leaf c { type enumeration { enum n { value -1; } } }\n\
        leaf d { type int8 { range \"-3..6\"; } default 0; }\n\
        leaf e { type decimal64 { fraction-digits 2; } default -3.25; }\n}\n";
    let (rope, abs) = tokens_for(src);
    let numbers: Vec<String> = abs
        .iter()
        .filter(|(_, _, _, t)| *t == Class::Number.index())
        .map(|&(l, c, n, _)| seg_text(&rope, l, c, n))
        .collect();
    for expected in ["-10", "-27", "-1", "0", "-3.25"] {
        assert!(
            numbers.iter().any(|s| s == expected),
            "negative number {expected:?} not highlighted: {numbers:?}"
        );
    }
    // Positive bounds inside quoted range strings stay strings, not numbers.
    assert!(
        numbers.iter().all(|s| s != "-16"),
        "quoted range content should not become a number token: {numbers:?}"
    );
}

#[test]
fn semantic_tokens_need_a_statement_tree() {
    let rope = Rope::from_str("junk");
    assert!(semantic_tokens(None, "junk", &lines_of(&rope), &[]).is_none());
}

#[test]
fn semantic_tokens_encode_keyword_and_name_exactly() {
    // `module m { }`: keyword at 0..6, name at 7..8 (namespace class).
    let src = "module m { }\n";
    let (_, abs) = tokens_for(src);
    assert_eq!(abs[0], (0, 0, 6, Class::Keyword.index()));
    assert_eq!(abs[1], (0, 7, 1, Class::Namespace.index()));
}

fn format_src(src: &str, width: u32) -> Option<String> {
    let mut repo = Repository::new();
    repo.upsert("/f.yang", src.to_string());
    let tree = repo.statement("/f.yang").map(tree_of);
    let comments: Vec<Comment> = repo
        .comments("/f.yang")
        .unwrap_or(&[])
        .iter()
        .map(|c| Comment { range: c.range.clone(), text: c.text.clone() })
        .collect();
    format_module(tree.as_ref(), src, &comments, width)
}

#[test]
fn formatting_regenerates_statements_at_the_configured_width() {
    let src = "module m {\nnamespace \"urn:m\";\n      prefix m;\ncontainer c {\nleaf x { type string; }\n}\ncontainer e {}\n}\n";
    let out = format_src(src, 2).expect("formatted");
    assert_eq!(
        out,
        "module m {\n  namespace \"urn:m\";\n  prefix m;\n  container c {\n    leaf x {\n      type string;\n    }\n  }\n  container e { }\n}\n"
    );
    let out4 = format_src(src, 4).expect("formatted");
    assert!(out4.contains("\n            type string;\n"), "{out4}");
}

#[test]
fn formatting_keeps_comments_in_place() {
    let src = "// head\nmodule m {\n  namespace \"urn:m\";\n   prefix m; // own\n  container c { leaf x { type string; } }\n}\n// tail\n";
    let out = format_src(src, 2).expect("formatted");
    let lines: Vec<&str> = out.lines().collect();
    assert_eq!(lines.first(), Some(&"// head"));
    assert_eq!(lines.last(), Some(&"// tail"));
    assert!(lines.contains(&"  // own"), "{out}");
    assert!(out.ends_with('\n'));
}

#[test]
fn formatting_needs_a_module() {
    assert_eq!(format_module(None, "", &[], 2), None);
    assert_eq!(format_module(Some(&StmtTree { nodes: Vec::new() }), "", &[], 2), None);
}

#[test]
fn folds_span_multi_line_blocks_only() {
    let src = "module m {\n  namespace \"urn:m\";\n  prefix m;\n  container c {\n    leaf x { type string; }\n  }\n}\n";
    let rope = Rope::from_str(src);
    let mut repo = Repository::new();
    repo.upsert("/f.yang", src.to_string());
    let tree = tree_of(repo.statement("/f.yang").expect("root"));
    let folds = folding_ranges(Some(&tree), &lines_of(&rope));
    assert_eq!(folds, vec![(0, 6), (3, 5)]);
    assert!(folding_ranges(None, &lines_of(&rope)).is_empty());
}
