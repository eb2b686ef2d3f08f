use std::sync::Arc;

use netconf_language_server::hover::node_hover;
use netconf_language_server::inst_map::{defining_of, map_doc, xml_instance_diagnostics, Resolved, value_diags as xml_value_diags, InstDiag, InstMap};
use netconf_language_server::inst::module_summaries;
use netconf_language_server::references::library_files;
use netconf_language_server::schema::latest_flags;
use netconf_language_server::jmap::{json_instance_diagnostics, map as jmap_map, value_diags as json_value_diags, JMap};
use netconf_language_server::json::{parse as parse_json, JsonDoc};
use netconf_language_server::schema::{NodeKind, Schema, SchemaModule, SchemaNode};
use netconf_language_server::valcheck::ValueType;
use netconf_language_server::xml::{parse as parse_xml, XmlDoc};
use netconf_language_server::{jcomp, xcomp};
use yrepo::{Library, Repository};

fn kind_of(k: yrepo::NodeKind) -> NodeKind {
    match k {
        yrepo::NodeKind::Container => NodeKind::Container,
        yrepo::NodeKind::Leaf => NodeKind::Leaf,
        yrepo::NodeKind::LeafList => NodeKind::LeafList,
        yrepo::NodeKind::List => NodeKind::List,
        yrepo::NodeKind::Choice => NodeKind::Choice,
        yrepo::NodeKind::Case => NodeKind::Case,
        yrepo::NodeKind::Anyxml => NodeKind::Anyxml,
        yrepo::NodeKind::Anydata => NodeKind::Anydata,
        yrepo::NodeKind::Rpc => NodeKind::Rpc,
        yrepo::NodeKind::Action => NodeKind::Action,
        yrepo::NodeKind::Notification => NodeKind::Notification,
        yrepo::NodeKind::Input => NodeKind::Input,
        yrepo::NodeKind::Output => NodeKind::Output,
    }
}

fn type_of(t: yrepo::ValueType) -> ValueType {
    match t {
        yrepo::ValueType::String { lengths, patterns } => ValueType::String { lengths, patterns },
        yrepo::ValueType::Integer { signed, bits, ranges } => ValueType::Integer { signed, bits, ranges },
        yrepo::ValueType::Decimal64 { ranges } => ValueType::Decimal64 { ranges },
        yrepo::ValueType::Boolean => ValueType::Boolean,
        yrepo::ValueType::Empty => ValueType::Empty,
        yrepo::ValueType::Binary => ValueType::Binary,
        yrepo::ValueType::Enumeration { members } => ValueType::Enumeration { members },
        yrepo::ValueType::Bits { members } => ValueType::Bits { members },
        yrepo::ValueType::Leafref { path, require_instance } => ValueType::Leafref { path, require_instance },
        yrepo::ValueType::Identityref { base } => ValueType::Identityref { base },
        yrepo::ValueType::InstanceIdentifier => ValueType::InstanceIdentifier,
        yrepo::ValueType::Union => ValueType::Union,
        yrepo::ValueType::Unknown => ValueType::Unknown,
    }
}

/// The argument of the `type` statement of the statement that starts at
/// `start` of file `url`, read from the repository's statement tree.
fn type_arg_of(repo: &Repository, url: &str, start: usize) -> Option<String> {
    let root = repo.statement(url)?;
    let def = root.preorder().find(|s| s.span().start == start)?;
    let ty = def.children.iter().find(|c| c.kind == yrepo::StatementKind::Type)?;
    ty.arg.as_ref().map(|a| a.name().to_owned())
}

/// The compiled library as the plain schema model.
fn schema_of(lib: &Library, repo: &Repository) -> Schema {
    let mut modules = Vec::new();
    for m in lib.modules() {
        let latest = lib.module(m.name()).is_some_and(|r| std::ptr::eq(r, m));
        let nodes = m
            .nodes()
            .iter()
            .enumerate()
            .map(|(id, n)| SchemaNode {
                kind: kind_of(n.kind()),
                name: n.name().to_owned(),
                children: n.children().to_vec(),
                data_children: m.data_children(id),
                rpc_input: m.rpc_input(id),
                instance_module: n.instance_module().to_owned(),
                mandatory: n.is_mandatory(),
                keys: n.keys().to_vec(),
                is_key: n.is_key(),
                has_default: n.default().is_some(),
                value_type: if latest { lib.value_type(m.name(), id).map(type_of) } else { None },
                type_arg: type_arg_of(repo, &n.defining().url, n.defining().range.start),
                defining_url: n.defining().url.to_string(),
                defining_start: n.defining().range.start,
                defining_end: n.defining().range.end,
            })
            .collect();
        modules.push(SchemaModule {
            name: m.name().to_owned(),
            namespace: m.namespace().map(str::to_owned),
            latest,
            nodes,
            top_nodes: m.top_nodes().to_vec(),
        });
    }
    Schema { modules }
}

fn compile_all(sources: &[(&str, &str)]) -> (Arc<Library>, Schema) {
    let mut repo = Repository::new();
    for (url, src) in sources {
        repo.upsert(*url, *src);
    }
    let lib = repo.compile().library.expect("library");
    let schema = schema_of(&lib, &repo);
    (lib, schema)
}

fn node_name(schema: &Schema, module: &str, id: usize) -> String {
    let k = schema.module(module).expect("module");
    schema.modules[k].nodes[id].name.clone()
}

const MOD_IF: &str = r#"module ietf-interfaces {
  yang-version 1.1;
  namespace "urn:if";
  prefix if;
  revision 2026-01-01;
  container interfaces {
    list interface {
      key "name";
      leaf name { type string; }
      leaf enabled { type boolean; }
      choice speed {
        case fixed { leaf fixed-mbps { type uint32; } }
        leaf auto { type empty; }
      }
    }
  }
  rpc get {
    input { leaf with-defaults { type string; } }
  }
}"#;

fn find(doc: &XmlDoc, local: &str) -> usize {
    doc.nodes
        .iter()
        .position(|n| n.local == local)
        .unwrap_or_else(|| panic!("no element {local}"))
}

#[test]
fn maps_data_tree_down_through_choice_case() {
    let (_lib, schema) = compile_all(&[("/if.yang", MOD_IF)]);
    let text = r#"<interfaces xmlns="urn:if">
  <interface>
    <name>eth0</name>
    <fixed-mbps>1000</fixed-mbps>
  </interface>
</interfaces>"#;
    let doc = parse_xml(text).expect("parse");
    let map = map_doc(&doc, &schema);
    assert!(map.diags.is_empty(), "{:?}", map.diags);
    let c = find(&doc, "interfaces");
    let r = map.resolved(c).expect("interfaces maps");
    assert_eq!(node_name(&schema, &r.module, r.id), "interfaces");
    let entry = find(&doc, "interface");
    assert!(map.resolved(entry).is_some());
    let name = find(&doc, "name");
    let r = map.resolved(name).unwrap();
    assert_eq!(node_name(&schema, &r.module, r.id), "name");
    let fixed = find(&doc, "fixed-mbps");
    assert!(map.resolved(fixed).is_some(), "case leaf must map");
    let rpc_text = r#"<rpc xmlns="urn:ietf:params:xml:ns:netconf:base:1.0"><get xmlns="urn:if"><with-defaults>all</with-defaults></get></rpc>"#;
    let rdoc = parse_xml(rpc_text).expect("parse rpc");
    let rmap = map_doc(&rdoc, &schema);
    assert!(rmap.diags.is_empty());
    assert!(rmap.resolved(find(&rdoc, "rpc")).is_none());
    assert!(rmap.resolved(find(&rdoc, "get")).is_some());
    assert!(rmap.resolved(find(&rdoc, "with-defaults")).is_some());
    let builtin_text = r#"<rpc xmlns="urn:ietf:params:xml:ns:netconf:base:1.0"><get-config xmlns="urn:ietf:params:xml:ns:netconf:base:1.0"><source><running/></source></get-config></rpc>"#;
    let bdoc = parse_xml(builtin_text).expect("parse builtin");
    let bmap = map_doc(&bdoc, &schema);
    assert!(bmap.diags.is_empty());
    assert!(bmap.resolved(find(&bdoc, "get-config")).is_none());
}

#[test]
fn config_payload_maps_top_level_across_modules_and_flags_unknowns() {
    let (_lib, schema) = compile_all(&[("/if.yang", MOD_IF)]);
    let text = r#"<config xmlns="urn:ietf:params:xml:ns:netconf:base:1.0">
  <interfaces xmlns="urn:if">
    <interface><name>x</name><bogus/></interface>
  </interfaces>
  <system xmlns="urn:demo"/>
</config>"#;
    let doc = parse_xml(text).expect("parse");
    let map = map_doc(&doc, &schema);
    let unknown: Vec<&InstDiag> = map.diags.iter().filter(|d| d.code == "netconf_unknown_node").collect();
    assert_eq!(unknown.len(), 2, "{:?}", map.diags);
    assert!(map.resolved(find(&doc, "interfaces")).is_some());
}

#[test]
fn wrong_namespace_is_reported() {
    let (_lib, schema) = compile_all(&[("/if.yang", MOD_IF)]);
    let text = r#"<interfaces xmlns="urn:if">
  <interface xmlns="urn:if">
    <name xmlns="urn:other">x</name>
  </interface>
</interfaces>"#;
    let doc = parse_xml(text).expect("parse");
    let map = map_doc(&doc, &schema);
    assert!(map.diags.iter().any(|d| d.code == "netconf_wrong_ns"), "{:?}", map.diags);
}

#[test]
fn foreign_and_message_docs_stay_dormant() {
    let (_lib, schema) = compile_all(&[("/if.yang", MOD_IF)]);
    let doc = parse_xml(r#"<widget xmlns="urn:other"><x/></widget>"#).expect("parse");
    let map = map_doc(&doc, &schema);
    assert!(map.diags.is_empty());
    assert!(map.resolved(find(&doc, "widget")).is_none());
    let doc = parse_xml(
        r#"<hello xmlns="urn:ietf:params:xml:ns:netconf:base:1.0"><capabilities><capability>urn:x</capability></capabilities></hello>"#,
    )
    .expect("parse");
    let map = map_doc(&doc, &schema);
    assert!(map.diags.is_empty());
}

const MOD_EX_IF: &str = r#"module example-ietf-interfaces {
  yang-version 1.1;
  namespace "urn:example:interfaces";
  prefix if;
  revision 2026-01-01;
  container interfaces {
    list interface {
      key "name";
      leaf name { type string; }
      leaf enabled { type boolean; }
    }
  }
}"#;

const MOD_EX_DEMO: &str = r#"module example-demo {
  yang-version 1.1;
  namespace "urn:example:demo";
  prefix demo;
  import example-ietf-interfaces { prefix if; }
  revision 2026-01-01;
  augment "/if:interfaces/if:interface" {
    leaf admin-down { type boolean; }
  }
}"#;

fn compile_demo() -> (Arc<Library>, Schema) {
    compile_all(&[
        ("/example-ietf-interfaces.yang", MOD_EX_IF),
        ("/example-demo.yang", MOD_EX_DEMO),
    ])
}

#[test]
fn maps_cross_module_augmented_node_and_defines_to_its_module() {
    let (_lib, schema) = compile_demo();
    let text = r#"<interfaces xmlns="urn:example:interfaces">
  <interface>
    <name>eth0</name>
    <enabled>true</enabled>
    <admin-down xmlns="urn:example:demo">false</admin-down>
  </interface>
</interfaces>"#;
    let doc = parse_xml(text).expect("parse");
    let map = map_doc(&doc, &schema);
    assert!(map.diags.is_empty(), "{:?}", map.diags);
    for (local, in_demo) in [
        ("interfaces", false),
        ("interface", false),
        ("name", false),
        ("admin-down", true),
    ] {
        let e = find(&doc, local);
        let res = map.resolved(e).unwrap_or_else(|| panic!("{local} unmapped"));
        let k = schema.module(&res.module).unwrap();
        let owner = &schema.modules[k].nodes[res.id].instance_module;
        if in_demo {
            assert_eq!(owner, "example-demo");
        } else {
            assert_eq!(owner, "example-ietf-interfaces");
        }
    }
}

const MOD_DEPTH: &str = r#"module d {
  yang-version 1.1;
  namespace "urn:d";
  prefix d;
  revision 2026-01-01;
  container server {
    leaf host { type string; mandatory true; }
    choice proto {
      case tcp { leaf port { type uint16; } }
      case udp { leaf sport { type uint16; } }
    }
    list iface {
      key "name";
      leaf name { type string; }
      leaf mtu { type uint32; mandatory true; }
    }
  }
}"#;

fn has_code(map: &InstMap, code: &str) -> bool {
    map.diags.iter().any(|d| d.code == code)
}

#[test]
fn flags_missing_mandatory_keys_and_empty_choice() {
    let (_lib, schema) = compile_all(&[("/d.yang", MOD_DEPTH)]);
    let text = r#"<server xmlns="urn:d">
  <iface>
    <name>eth0</name>
  </iface>
</server>"#;
    let doc = parse_xml(text).expect("parse");
    let map = map_doc(&doc, &schema);
    assert!(has_code(&map, "netconf_missing_node"), "{:?}", map.diags);
    assert!(has_code(&map, "netconf_missing_choice"), "{:?}", map.diags);
    let missing: Vec<&str> = map
        .diags
        .iter()
        .filter(|d| d.code == "netconf_missing_node")
        .map(|d| d.message.as_str())
        .collect();
    let joined = missing.join("\n");
    assert!(joined.contains("host"), "{joined}");
    assert!(joined.contains("mtu"), "{joined}");
    let empty: Vec<&InstDiag> = map.diags.iter().filter(|d| d.code == "netconf_missing_choice").collect();
    assert_eq!(empty.len(), 1, "{:?}", empty);
    assert!(empty[0].message.contains("proto"), "{:?}", empty[0]);
}

#[test]
fn inst_map_complete_subtree_has_no_depth_diagnostics() {
    let (_lib, schema) = compile_all(&[("/d.yang", MOD_DEPTH)]);
    let text = r#"<server xmlns="urn:d">
  <host>h1</host>
  <port>443</port>
  <iface>
    <name>eth0</name>
    <mtu>1500</mtu>
  </iface>
</server>"#;
    let doc = parse_xml(text).expect("parse");
    let map = map_doc(&doc, &schema);
    assert!(map.diags.is_empty(), "{:?}", map.diags);
}

#[test]
fn filter_subtree_suppresses_depth_diagnostics() {
    let (_lib, schema) = compile_all(&[("/d.yang", MOD_DEPTH)]);
    let text = r#"<filter xmlns="urn:ietf:params:xml:ns:netconf:base:1.0">
  <server xmlns="urn:d">
    <iface>
      <name>x</name>
    </iface>
  </server>
</filter>"#;
    let doc = parse_xml(text).expect("parse");
    let map = map_doc(&doc, &schema);
    assert!(!map.diags.iter().any(|d| d.code.starts_with("netconf_missing")), "{:?}", map.diags);
}

const MOD_VALUE: &str = r#"module v {
  yang-version 1.1;
  namespace "urn:v";
  prefix v;
  revision 2026-01-01;
  container box {
    leaf port { type uint16 { range "1..65535"; } }
    leaf name { type string { length "1..3"; } }
    leaf flag { type boolean; }
    leaf color { type enumeration { enum red; enum green; } }
  }
}"#;

#[test]
fn flags_invalid_leaf_values() {
    let (lib, schema) = compile_all(&[("/v.yang", MOD_VALUE)]);
    let text = r#"<box xmlns="urn:v">
  <port>99999</port>
  <name>toolong</name>
  <flag>yes</flag>
  <color>blue</color>
</box>"#;
    let doc = parse_xml(text).expect("parse");
    let diags = xml_value_diags(&doc, text, &schema, &lib);
    let bad: Vec<&InstDiag> = diags.iter().filter(|d| d.code == "netconf_bad_value").collect();
    assert_eq!(bad.len(), 4, "{:?}", diags);
    let joined: Vec<&str> = bad.iter().map(|d| d.message.as_str()).collect();
    assert!(joined.iter().any(|m| m.contains("out of range")), "{joined:?}");
    assert!(joined.iter().any(|m| m.contains("length")), "{joined:?}");
    assert!(joined.iter().any(|m| m.contains("true")), "{joined:?}");
    assert!(joined.iter().any(|m| m.contains("one of")), "{joined:?}");
}

#[test]
fn valid_leaf_values_produce_no_value_diagnostics() {
    let (lib, schema) = compile_all(&[("/v.yang", MOD_VALUE)]);
    let text = r#"<box xmlns="urn:v">
  <port>8080</port>
  <name>ok</name>
  <flag>true</flag>
  <color>red</color>
</box>"#;
    let doc = parse_xml(text).expect("parse");
    let diags = xml_value_diags(&doc, text, &schema, &lib);
    assert!(!diags.iter().any(|d| d.code == "netconf_bad_value"), "{:?}", diags);
}

#[test]
fn inst_map_leaf_list_entries_are_value_checked_per_element() {
    let src = r#"module ll {
  yang-version 1.1;
  namespace "urn:ll";
  prefix ll;
  revision 2026-01-01;
  container box {
    leaf-list port { type uint16 { range "1..10"; } }
  }
}"#;
    let (lib, schema) = compile_all(&[("/ll.yang", src)]);
    let text = r#"<box xmlns="urn:ll">
  <port>1</port>
  <port>20</port>
</box>"#;
    let doc = parse_xml(text).expect("parse");
    let diags = xml_value_diags(&doc, text, &schema, &lib);
    let bad: Vec<&InstDiag> = diags.iter().filter(|d| d.code == "netconf_bad_value").collect();
    assert_eq!(bad.len(), 1, "{:?}", diags);
    assert!(bad[0].message.contains("20"), "{:?}", bad[0]);
}

const MOD_IV: &str = r#"module iv {
  yang-version 1.1;
  namespace "urn:iv";
  prefix iv;
  revision 2026-01-01;
  identity base;
  identity child { base base; }
  identity other;
  container c {
    leaf ref { type identityref { base base; } }
  }
}"#;

#[test]
fn inst_map_identityref_values_checked_semantically() {
    let (lib, schema) = compile_all(&[("/iv.yang", MOD_IV)]);
    let text = r#"<c xmlns="urn:iv"><ref>iv:child</ref></c>"#;
    let doc = parse_xml(text).expect("parse");
    let diags = xml_value_diags(&doc, text, &schema, &lib);
    assert!(!diags.iter().any(|d| d.code == "netconf_bad_value"), "{:?}", diags);
    let text = r#"<c xmlns="urn:iv"><ref>iv:other</ref></c>"#;
    let doc = parse_xml(text).expect("parse");
    let diags = xml_value_diags(&doc, text, &schema, &lib);
    assert!(diags.iter().any(|d| d.message.contains("not `base` or derived")), "{:?}", diags);
    let text = r#"<c xmlns="urn:iv"><ref>iv:nope</ref></c>"#;
    let doc = parse_xml(text).expect("parse");
    let diags = xml_value_diags(&doc, text, &schema, &lib);
    assert!(diags.iter().any(|d| d.message.contains("unknown identity")), "{:?}", diags);
}

const MOD_J: &str = r#"module j {
  yang-version 1.1;
  namespace "urn:j";
  prefix j;
  revision 2026-01-01;
  container top {
    list item {
      key "name";
      leaf name { type string; }
      leaf enabled { type boolean; }
    }
    leaf note { type string; }
  }
  container other { leaf x { type string; } }
}"#;

fn member(doc: &JsonDoc, local: &str) -> usize {
    doc.members
        .iter()
        .position(|m| m.local == local)
        .unwrap_or_else(|| panic!("no member {local}"))
}

#[test]
fn maps_top_level_and_nested_members() {
    let (_lib, schema) = compile_all(&[("/j.yang", MOD_J)]);
    let text = r#"{
  "j:top": {
    "item": [
      { "name": "eth0", "enabled": true },
      { "name": "eth1" }
    ],
    "note": "hi"
  },
  "j:other": { "x": "y" }
}"#;
    let doc = parse_json(text).expect("parse");
    let jm = jmap_map(&doc, &schema);
    assert!(jm.diags.is_empty(), "{:?}", jm.diags);
    assert_eq!(doc.members[member(&doc, "top")].module.as_deref(), Some("j"));
    for local in ["top", "item", "name", "enabled", "note", "other", "x"] {
        assert!(jm.resolved(member(&doc, local)).is_some(), "{local}");
    }
}

#[test]
fn flags_unknown_and_wrong_module_nested_members() {
    let (_lib, schema) = compile_all(&[("/j.yang", MOD_J)]);
    let text = r#"{
  "j:top": {
    "bogus": 1,
    "name": "x"
  }
}"#;
    let doc = parse_json(text).expect("parse");
    let jm = jmap_map(&doc, &schema);
    let unknown: Vec<&InstDiag> = jm.diags.iter().filter(|d| d.code == "json_unknown_member").collect();
    assert_eq!(unknown.len(), 2, "{:?}", jm.diags);
    let text = r#"{
  "j:top": {
    "j:item": [ { "other:name": "x" } ]
  }
}"#;
    let doc = parse_json(text).expect("parse");
    let jm = jmap_map(&doc, &schema);
    assert!(jm.diags.iter().any(|d| d.code == "json_wrong_module"), "{:?}", jm.diags);
}

#[test]
fn foreign_document_stays_dormant() {
    let (_lib, schema) = compile_all(&[("/j.yang", MOD_J)]);
    let doc = parse_json(r#"{ "zz:unknown": { } }"#).expect("parse");
    let jm = jmap_map(&doc, &schema);
    assert!(jm.diags.is_empty());
}

const MOD_JD: &str = r#"module jd {
  yang-version 1.1;
  namespace "urn:jd";
  prefix jd;
  revision 2026-01-01;
  container server {
    leaf host { type string; mandatory true; }
    choice proto {
      case tcp { leaf port { type uint16; } }
      case udp { leaf sport { type uint16; } }
    }
    list iface {
      key "name";
      leaf name { type string; }
      leaf mtu { type uint32; mandatory true; }
    }
  }
}"#;

fn jhas_code(jm: &JMap, code: &str) -> bool {
    jm.diags.iter().any(|d| d.code == code)
}

#[test]
fn flags_missing_members_and_empty_choice() {
    let (_lib, schema) = compile_all(&[("/jd.yang", MOD_JD)]);
    let text = r#"{
  "jd:server": {
    "iface": [
      { "name": "eth0" }
    ]
  }
}"#;
    let doc = parse_json(text).expect("parse");
    let jm = jmap_map(&doc, &schema);
    assert!(jhas_code(&jm, "json_missing_member"), "{:?}", jm.diags);
    assert!(jhas_code(&jm, "json_missing_choice"), "{:?}", jm.diags);
    let joined = jm
        .diags
        .iter()
        .filter(|d| d.code == "json_missing_member")
        .map(|d| d.message.as_str())
        .collect::<Vec<_>>()
        .join("\n");
    assert!(joined.contains("host"), "{joined}");
    assert!(joined.contains("mtu"), "{joined}");
    assert!(
        jm.diags.iter().any(|d| d.code == "json_missing_choice" && d.message.contains("proto")),
        "{:?}",
        jm.diags
    );
}

#[test]
fn jmap_complete_subtree_has_no_depth_diagnostics() {
    let (_lib, schema) = compile_all(&[("/jd.yang", MOD_JD)]);
    let text = r#"{
  "jd:server": {
    "host": "h1",
    "port": 443,
    "iface": [
      { "name": "eth0", "mtu": 1500 }
    ]
  }
}"#;
    let doc = parse_json(text).expect("parse");
    let jm = jmap_map(&doc, &schema);
    assert!(jm.diags.is_empty(), "{:?}", jm.diags);
}

#[test]
fn dormant_doc_clears_depth_diagnostics() {
    let (_lib, schema) = compile_all(&[("/jd.yang", MOD_JD)]);
    let doc = parse_json(r#"{ "zz:server": { "host": "x" } }"#).expect("parse");
    let jm = jmap_map(&doc, &schema);
    assert!(jm.diags.is_empty(), "{:?}", jm.diags);
}

const MOD_JV: &str = r#"module jv {
  yang-version 1.1;
  namespace "urn:jv";
  prefix jv;
  revision 2026-01-01;
  container box {
    leaf port { type uint16 { range "1..65535"; } }
    leaf name { type string { length "1..3"; } }
    leaf flag { type boolean; }
    leaf color { type enumeration { enum red; enum green; } }
    leaf mark { type empty; }
  }
}"#;

#[test]
fn flags_invalid_member_values() {
    let (lib, schema) = compile_all(&[("/jv.yang", MOD_JV)]);
    let text = r#"{
  "jv:box": {
    "port": 99999,
    "name": "toolong",
    "flag": "yes",
    "color": "blue",
    "mark": "x"
  }
}"#;
    let doc = parse_json(text).expect("parse");
    let diags = json_value_diags(&doc, text, &schema, &lib);
    let bad: Vec<&InstDiag> = diags.iter().filter(|d| d.code == "json_bad_value").collect();
    assert_eq!(bad.len(), 5, "{:?}", diags);
    let joined: Vec<&str> = bad.iter().map(|d| d.message.as_str()).collect();
    assert!(joined.iter().any(|m| m.contains("out of range")), "{joined:?}");
    assert!(joined.iter().any(|m| m.contains("length")), "{joined:?}");
    assert!(joined.iter().any(|m| m.contains("true")), "{joined:?}");
    assert!(joined.iter().any(|m| m.contains("one of")), "{joined:?}");
    assert!(joined.iter().any(|m| m.contains("empty")), "{joined:?}");
}

#[test]
fn valid_member_values_produce_no_value_diagnostics() {
    let (lib, schema) = compile_all(&[("/jv.yang", MOD_JV)]);
    let text = r#"{
  "jv:box": {
    "port": 8080,
    "name": "ok",
    "flag": true,
    "color": "red",
    "mark": [null]
  }
}"#;
    let doc = parse_json(text).expect("parse");
    let diags = json_value_diags(&doc, text, &schema, &lib);
    assert!(!diags.iter().any(|d| d.code == "json_bad_value"), "{:?}", diags);
}

#[test]
fn jmap_leaf_list_entries_are_value_checked_per_element() {
    let src = r#"module jll {
  yang-version 1.1;
  namespace "urn:jll";
  prefix jll;
  revision 2026-01-01;
  container box {
    leaf-list port { type uint16 { range "1..10"; } }
  }
}"#;
    let (lib, schema) = compile_all(&[("/jll.yang", src)]);
    let text = r#"{
  "jll:box": {
    "port": [1, 20]
  }
}"#;
    let doc = parse_json(text).expect("parse");
    let diags = json_value_diags(&doc, text, &schema, &lib);
    let bad: Vec<&InstDiag> = diags.iter().filter(|d| d.code == "json_bad_value").collect();
    assert_eq!(bad.len(), 1, "{:?}", diags);
    assert!(bad[0].message.contains("20"), "{:?}", bad[0]);
    let member = doc.members.iter().position(|m| m.local == "port").expect("port member");
    let items = doc.members[member].scalar_items.clone().expect("items");
    assert_eq!(items.len(), 2);
    assert_eq!(bad[0].range, items[1], "{:?}", bad[0]);
}

#[test]
fn jmap_identityref_values_checked_semantically() {
    let src = r#"module jiv {
  yang-version 1.1;
  namespace "urn:jiv";
  prefix jiv;
  revision 2026-01-01;
  identity base;
  identity child { base base; }
  identity other;
  container c {
    leaf ref { type identityref { base base; } }
  }
}"#;
    let (lib, schema) = compile_all(&[("/jiv.yang", src)]);
    let text = r#"{ "jiv:c": { "ref": "jiv:child" } }"#;
    let doc = parse_json(text).expect("parse");
    let diags = json_value_diags(&doc, text, &schema, &lib);
    assert!(!diags.iter().any(|d| d.code == "json_bad_value"), "{:?}", diags);
    let text = r#"{ "jiv:c": { "ref": "jiv:other" } }"#;
    let doc = parse_json(text).expect("parse");
    let diags = json_value_diags(&doc, text, &schema, &lib);
    assert!(diags.iter().any(|d| d.message.contains("not `base` or derived")), "{:?}", diags);
}

const MOD_M: &str = r#"module m {
  yang-version 1.1;
  namespace "urn:m";
  prefix m;
  revision 2026-01-01;
  container system {
    leaf hostname { type string; }
    list user {
      key "name";
      leaf name { type string; }
      leaf uid { type uint32; mandatory true; }
    }
  }
  container other { leaf x { type string; } }
  rpc reset { input { leaf force { type empty; } } }
}"#;

fn marker_byte(text: &str) -> usize {
    text.find('|').expect("marker")
}

fn caret(marked: &str) -> (String, usize) {
    let i = marked.find('|').expect("marker");
    let mut text = marked.to_owned();
    text.remove(i);
    (text, i)
}

fn labels(items: &[netconf_language_server::completion::CompletionEntry]) -> Vec<String> {
    items.iter().map(|c| c.label.clone()).collect()
}

#[test]
fn completes_children_inside_a_container() {
    let (_lib, schema) = compile_all(&[("/m.yang", MOD_M)]);
    let text = r#"<system xmlns="urn:m">
  <hostname>h</hostname>
  |
</system>"#;
    let items = xcomp::handle(text, marker_byte(text), &schema);
    let got = labels(&items);
    assert!(got.contains(&"hostname".to_owned()), "{got:?}");
    assert!(got.contains(&"user".to_owned()), "{got:?}");
}

#[test]
fn list_entries_carry_key_stubs() {
    let (_lib, schema) = compile_all(&[("/m.yang", MOD_M)]);
    let text = r#"<system xmlns="urn:m">
  <user>
    <name>a</name>
  </user>
  |
</system>"#;
    let items = xcomp::handle(text, marker_byte(text), &schema);
    let item = items.iter().find(|c| c.label == "user").expect("user item");
    let insert = item.insert_text.as_str();
    assert!(insert.contains("<user"), "{insert}");
    assert!(insert.contains("<name>$0</name>"), "keys as placeholders: {insert}");
    assert!(insert.contains("</user>"), "{insert}");
}

#[test]
fn after_open_tag_offers_children_and_auto_xmlns_for_other_modules() {
    let (_lib, schema) = compile_all(&[("/m.yang", MOD_M)]);
    let text = r#"<system xmlns="urn:m">
  |
</system>"#;
    let items = xcomp::handle(text, marker_byte(text), &schema);
    let got = labels(&items);
    assert!(got.contains(&"hostname".to_owned()));
    let host = items.iter().find(|c| c.label == "hostname").unwrap();
    let insert = host.insert_text.as_str();
    assert!(!insert.contains("xmlns"), "same ns should not add xmlns: {insert}");
    assert!(insert.contains("<hostname>$0</hostname>"), "{insert}");
}

#[test]
fn rpc_envelope_offers_builtin_and_module_ops() {
    let (_lib, schema) = compile_all(&[("/m.yang", MOD_M)]);
    let text = r#"<rpc xmlns="urn:ietf:params:xml:ns:netconf:base:1.0">
  |
</rpc>"#;
    let items = xcomp::handle(text, marker_byte(text), &schema);
    let got = labels(&items);
    assert!(got.contains(&"get-config".to_owned()), "{got:?}");
    assert!(got.contains(&"edit-config".to_owned()), "{got:?}");
    assert!(got.contains(&"reset".to_owned()), "module rpc: {got:?}");
}

const MOD_V2: &str = r#"module v2 {
  yang-version 1.1;
  namespace "urn:v2";
  prefix v2;
  revision 2026-01-01;
  container box {
    leaf flag { type boolean; }
    leaf mark { type empty; }
    leaf color { type enumeration { enum red; enum green; } }
    leaf note { type string; }
    leaf many { type union { type string; type uint16; } }
  }
}"#;

#[test]
fn xcomp_leaf_completion_carries_typed_value_defaults() {
    let (_lib, schema) = compile_all(&[("/v2.yang", MOD_V2)]);
    let text = r#"<box xmlns="urn:v2">
  |
</box>"#;
    let items = xcomp::handle(text, marker_byte(text), &schema);
    let insert = |name: &str| {
        items
            .iter()
            .find(|c| c.label == name)
            .unwrap_or_else(|| panic!("no {name}"))
            .insert_text
            .clone()
    };
    assert_eq!(insert("flag"), "<flag>true</flag>");
    assert_eq!(insert("mark"), "<mark></mark>");
    assert_eq!(insert("color"), "<color>red</color>");
    assert_eq!(insert("note"), "<note>$0</note>");
    assert_eq!(insert("many"), "<many>$0</many>");
}

#[test]
fn root_object_offers_qualified_top_level_members() {
    let (_lib, schema) = compile_all(&[("/m.yang", MOD_M)]);
    let (text, byte) = caret("{\n  |\n}");
    let items = jcomp::handle(&text, byte, &schema);
    let got = labels(&items);
    assert!(got.contains(&"m:system".to_owned()), "{got:?}");
    assert!(got.contains(&"m:other".to_owned()), "{got:?}");
    let sys = items.iter().find(|c| c.label == "m:system").unwrap();
    assert!(sys.insert_text.starts_with("\"m:system\":"), "{:?}", sys.insert_text);
}

#[test]
fn container_body_offers_bare_children_and_list_key_stubs() {
    let (_lib, schema) = compile_all(&[("/m.yang", MOD_M)]);
    let (text, byte) = caret("{\n  \"m:system\": {\n    |\n  }\n}");
    let items = jcomp::handle(&text, byte, &schema);
    let got = labels(&items);
    assert!(got.contains(&"hostname".to_owned()), "{got:?}");
    assert!(got.contains(&"user".to_owned()), "{got:?}");
    assert!(!got.iter().any(|l| l.contains(':')), "{got:?}");
    let user = items.iter().find(|c| c.label == "user").unwrap();
    let insert = user.insert_text.as_str();
    assert!(insert.contains('['), "{insert}");
    assert!(insert.contains("\"name\": $0"), "key stub: {insert}");
}

#[test]
fn list_entry_body_qualifies_cross_module_augments() {
    let (_lib, schema) = compile_demo();
    let (text, byte) = caret(
        r#"{
  "example-ietf-interfaces:interfaces": {
    "interface": [
      {
        "name": "eth0",
        |
      }
    ]
  }
}"#,
    );
    let items = jcomp::handle(&text, byte, &schema);
    let got = labels(&items);
    assert!(got.contains(&"example-demo:admin-down".to_owned()), "{got:?}");
    assert!(got.contains(&"enabled".to_owned()), "{got:?}");
    let admin = items.iter().find(|c| c.label == "example-demo:admin-down").unwrap();
    assert!(admin.insert_text.starts_with("\"example-demo:admin-down\":"), "{}", admin.insert_text);
}

#[test]
fn non_member_positions_stay_empty() {
    let (_lib, schema) = compile_all(&[("/m.yang", MOD_M)]);
    let (text, byte) = caret("{\n  \"m:system\": {\n    \"hostname\": \"h\" |\n  }\n}");
    assert!(jcomp::handle(&text, byte, &schema).is_empty());
    let (text, byte) = caret("{\n  \"zz:thing\": 1, |\n}");
    assert!(jcomp::handle(&text, byte, &schema).is_empty());
}

#[test]
fn jcomp_leaf_completion_carries_typed_value_defaults() {
    let src = r#"module v {
  yang-version 1.1;
  namespace "urn:v";
  prefix v;
  revision 2026-01-01;
  container box {
    leaf flag { type boolean; }
    leaf mark { type empty; }
    leaf color { type enumeration { enum red; enum green; } }
    leaf note { type string; }
    leaf many { type union { type string; type uint16; } }
  }
}"#;
    let (_lib, schema) = compile_all(&[("/v.yang", src)]);
    let (text, byte) = caret("{\n  \"v:box\": {\n    |\n  }\n}");
    let items = jcomp::handle(&text, byte, &schema);
    let insert = |name: &str| {
        items
            .iter()
            .find(|c| c.label == name)
            .unwrap_or_else(|| panic!("no {name}"))
            .insert_text
            .clone()
    };
    assert_eq!(insert("flag"), "\"flag\": true");
    assert_eq!(insert("mark"), "\"mark\": [null]");
    assert_eq!(insert("color"), "\"color\": \"red\"");
    assert_eq!(insert("note"), "\"note\": \"$0\"");
    assert_eq!(insert("many"), "\"many\": ");
}

#[test]
fn instance_elements_hover_and_jump_to_their_definition() {
    let (_lib, schema) = compile_all(&[("/d.yang", MOD_DEPTH)]);
    let text = r#"<server xmlns="urn:d"><host>a</host><iface><name>e0</name><mtu>9</mtu></iface></server>"#;
    let doc = parse_xml(text).expect("parse");
    let map = map_doc(&doc, &schema);

    let res = map.resolved(find(&doc, "iface")).expect("iface mapped");
    let (url, range) = defining_of(&schema, res).expect("defined");
    assert_eq!(url, "/d.yang");
    assert!(MOD_DEPTH[range.clone()].starts_with("list iface"), "{:?}", &MOD_DEPTH[range]);
    let text_iface = node_hover(&schema, res, "list iface { }", true).expect("hover");
    assert_eq!(
        text_iface,
        "```yang\nlist iface { }\n```\n\n`list` **`iface`** (module `d`)\n- keys: name"
    );

    let res = map.resolved(find(&doc, "host")).expect("host mapped");
    let with = node_hover(&schema, res, "leaf host;", true).expect("hover");
    assert_eq!(
        with,
        "```yang\nleaf host;\n```\n\n`leaf` **`host`** (module `d`)\n- type: `string`\n- mandatory"
    );
    let without = node_hover(&schema, res, "leaf host;", false).expect("hover");
    assert!(!without.contains("mandatory"));
}

#[test]
fn unknown_nodes_have_no_hover_or_definition() {
    let (_lib, schema) = compile_all(&[("/d.yang", MOD_DEPTH)]);
    let missing_module = Resolved { module: "nope".to_string(), id: 0 };
    assert!(defining_of(&schema, &missing_module).is_none());
    assert!(node_hover(&schema, &missing_module, "", true).is_none());
    let missing_node = Resolved { module: "d".to_string(), id: 10_000 };
    assert!(defining_of(&schema, &missing_node).is_none());
    assert!(node_hover(&schema, &missing_node, "", false).is_none());
}

#[test]
fn instance_diagnostics_cover_recognized_documents_only() {
    let (lib, schema) = compile_all(&[("/v.yang", MOD_VALUE)]);
    let modules = module_summaries(&schema);
    let text = r#"<box xmlns="urn:v">
  <port>99999</port>
  <flag>yes</flag>
</box>"#;
    let diags = xml_instance_diagnostics(text, &schema, &modules, &lib);
    let bad = diags.iter().filter(|d| d.code == "netconf_bad_value").count();
    assert_eq!(bad, 2, "{:?}", diags);
    let foreign = r#"<widget xmlns="urn:other"><port>x</port></widget>"#;
    assert!(xml_instance_diagnostics(foreign, &schema, &modules, &lib).is_empty());
    assert!(xml_instance_diagnostics("<box xmlns=\"urn:v\"><port>", &schema, &modules, &lib).is_empty());
    let json = r#"{"v:box": {"port": 99999, "flag": true}}"#;
    let jd = json_instance_diagnostics(json, &schema, &modules, &lib);
    assert_eq!(jd.iter().filter(|d| d.code == "json_bad_value").count(), 1, "{:?}", jd);
    assert!(json_instance_diagnostics(r#"{"other": 1}"#, &schema, &modules, &lib).is_empty());
}

#[test]
fn library_files_lists_each_source_once() {
    let (lib, _schema) = compile_demo();
    let mut files = library_files(&lib);
    files.sort();
    assert_eq!(files, vec!["/example-demo.yang".to_string(), "/example-ietf-interfaces.yang".to_string()]);
}

#[test]
fn latest_record_is_the_first_with_the_greatest_revision() {
    let recs = vec![
        ("a".to_string(), Some("2020-01-01".to_string())),
        ("b".to_string(), None),
        ("a".to_string(), Some("2021-01-01".to_string())),
        ("a".to_string(), Some("2021-01-01".to_string())),
        ("c".to_string(), None),
        ("c".to_string(), Some("2019-01-01".to_string())),
    ];
    assert_eq!(latest_flags(&recs), vec![false, true, true, false, false, true]);
}
