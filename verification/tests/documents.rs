use netconf_language_server::inst_map::filter_mask;
use netconf_language_server::inst::{module_summaries_from_summary, ModuleSummary};
use netconf_language_server::incomplete::{tolerant_json, tolerant_xml};
use netconf_language_server::inst::{
    classify_json, classify_xml, DocKind, ModuleInfo, NETCONF_BASE_NS, NETCONF_NOTIFICATION_NS,
};
use netconf_language_server::json::{parse as parse_json, parse_root as parse_json_root, JsonRoot};
use netconf_language_server::template::skeleton;
use netconf_language_server::text::StrMap;
use netconf_language_server::xml::{parse as parse_xml, parse_root as parse_xml_root, XmlDoc, XmlNode, XmlRoot};

const NS: &str = "urn:ietf:params:xml:ns:netconf:base:1.0";

#[test]
fn xml_tolerates_a_lone_open_angle() {
    let doc = tolerant_xml(&format!(r#"<rpc xmlns="{NS}"><"#)).expect("repairable");
    assert!(!doc.nodes.is_empty());
    assert!(tolerant_xml(&format!(r#"<rpc xmlns="{NS}">"#)).is_some());
    assert!(tolerant_xml("<").is_none());
}

#[test]
fn json_tolerates_a_lone_quote_in_a_member_slot() {
    assert!(tolerant_json(r#"{"#).is_some());
    assert!(tolerant_json("{\n  \"").is_some());
    assert!(tolerant_json(r#"{"a": 1, ""#).is_some());
    assert!(tolerant_json("{}").is_some());
}

fn xml(name: &str, default_ns: Option<&str>) -> XmlRoot {
    XmlRoot {
        name: name.to_owned(),
        default_ns: default_ns.map(str::to_owned),
        ns_prefixes: StrMap::new(),
    }
}

fn modules() -> Vec<ModuleInfo> {
    vec![
        ModuleInfo {
            name: "ietf-interfaces".to_owned(),
            namespace: "urn:ietf:params:xml:ns:yang:ietf-interfaces".to_owned(),
            top_data: vec!["interfaces".to_owned(), "interfaces-state".to_owned()],
        },
        ModuleInfo {
            name: "example-demo".to_owned(),
            namespace: "urn:example:demo".to_owned(),
            top_data: vec!["system".to_owned()],
        },
    ]
}

#[test]
fn xml_netconf_message_and_payload() {
    let rpc = xml("rpc", Some(NETCONF_BASE_NS));
    assert_eq!(classify_xml(&rpc, &modules()), DocKind::NetconfMessage);
    let hello = xml("hello", Some(NETCONF_BASE_NS));
    assert_eq!(classify_xml(&hello, &modules()), DocKind::NetconfMessage);
    let config = xml("config", Some(NETCONF_BASE_NS));
    assert_eq!(classify_xml(&config, &modules()), DocKind::ConfigPayload);
    let notify = xml("notification", Some(NETCONF_NOTIFICATION_NS));
    assert_eq!(classify_xml(&notify, &modules()), DocKind::NetconfMessage);
}

#[test]
fn xml_data_tree_matches_module_namespace_and_top_node() {
    let data = xml("interfaces", Some("urn:ietf:params:xml:ns:yang:ietf-interfaces"));
    assert_eq!(
        classify_xml(&data, &modules()),
        DocKind::DataTree("ietf-interfaces".to_owned())
    );
}

#[test]
fn xml_unknown_namespace_or_wrong_local_is_dormant() {
    let foreign = xml("root", Some("urn:some:other:thing"));
    assert_eq!(classify_xml(&foreign, &modules()), DocKind::NotNetconf);
    let deep = xml("system", Some("urn:ietf:params:xml:ns:yang:ietf-interfaces"));
    assert_eq!(classify_xml(&deep, &modules()), DocKind::NotNetconf);
    assert_eq!(classify_xml(&xml("root", None), &modules()), DocKind::NotNetconf);
}

#[test]
fn json_data_tree_matches_module_qualified_keys() {
    let root = JsonRoot {
        top_keys: vec![
            "ietf-interfaces:interfaces".to_owned(),
            "example-demo:system".to_owned(),
        ],
    };
    assert_eq!(
        classify_json(&root, &modules()),
        DocKind::DataTree("ietf-interfaces".to_owned())
    );
}

#[test]
fn json_unknown_module_or_missing_top_is_dormant() {
    let root = JsonRoot {
        top_keys: vec!["other-module:whatever".to_owned()],
    };
    assert_eq!(classify_json(&root, &modules()), DocKind::NotNetconf);
    let root = JsonRoot {
        top_keys: vec!["ietf-interfaces:not-a-top".to_owned()],
    };
    assert_eq!(classify_json(&root, &modules()), DocKind::NotNetconf);
    let root = JsonRoot { top_keys: vec![] };
    assert_eq!(classify_json(&root, &modules()), DocKind::NotNetconf);
}

#[test]
fn parses_rfc7951_style_top_level_keys() {
    let root = parse_json_root(
        r#"{
  "ietf-interfaces:interfaces": {
    "interface": [ { "name": "eth0", "enabled": true } ]
  },
  "example-vlan:vlan-tagging": true
}"#,
    )
    .expect("parses");
    assert_eq!(
        root.top_keys,
        vec![
            "ietf-interfaces:interfaces".to_owned(),
            "example-vlan:vlan-tagging".to_owned()
        ]
    );
}

#[test]
fn non_object_or_invalid_returns_none() {
    assert!(parse_json_root("[1, 2, 3]").is_none());
    assert!(parse_json_root("").is_none());
    assert!(parse_json_root("{ not json").is_none());
}

#[test]
fn full_tree_members_have_qualifiers_and_ranges() {
    let doc = parse_json(
        r#"{
  "ietf-interfaces:interfaces": {
    "interface": [
      { "name": "eth0", "enabled": true }
    ]
  }
}"#,
    )
    .expect("parses");
    let n = doc.members.len();
    assert_eq!(n, 4);
    let top = doc.objects[doc.root].members[0];
    assert_eq!(doc.members[top].module.as_deref(), Some("ietf-interfaces"));
    assert_eq!(doc.members[top].local, "interfaces");
    let name = doc.members.iter().find(|m| m.local == "name").unwrap();
    assert_eq!(name.module, None);
    assert!(name.key_range.start < name.value_range.start);
    let byte = name.key_range.start + 2;
    assert_eq!(
        doc.member_at(byte),
        Some(doc.members.iter().position(|m| m.local == "name").unwrap())
    );
}

#[test]
fn hello_skeleton_has_base_ns_and_capabilities() {
    let text = skeleton("hello").unwrap();
    assert!(text.contains("<hello"));
    assert!(text.contains("urn:ietf:params:xml:ns:netconf:base:1.0"));
    assert!(text.contains("<capability>"));
}

#[test]
fn get_config_rpc_skeleton() {
    let text = skeleton("get-config").unwrap();
    assert!(text.contains("<rpc message-id="));
    assert!(text.contains("<get-config>"));
    assert!(text.contains("<source>"));
    assert!(text.contains("<running/>"));
    assert!(text.contains("<filter"));
    assert!(text.contains("</rpc>"));
}

#[test]
fn edit_config_rpc_skeleton() {
    let text = skeleton("edit-config").unwrap();
    assert!(text.contains("<edit-config>"));
    assert!(text.contains("<default-operation>merge</default-operation>"));
    assert!(text.contains("<config>"));
}

#[test]
fn config_payload_skeleton() {
    let text = skeleton("config").unwrap();
    assert!(text.contains("<config"));
    assert!(text.contains("urn:ietf:params:xml:ns:netconf:base:1.0"));
}

#[test]
fn unknown_kind_is_none() {
    assert!(skeleton("nope").is_none());
    for k in ["hello", "get-config", "edit-config", "config"] {
        assert!(skeleton(k).is_some());
    }
}

#[test]
fn parses_default_namespace_root() {
    let root = parse_xml_root(
        r#"<?xml version="1.0"?>
<interfaces xmlns="urn:example:interfaces">
  <interface><name>eth0</name></interface>
</interfaces>"#,
    )
    .expect("parses");
    assert_eq!(root.name, "interfaces");
    assert_eq!(root.default_ns.as_deref(), Some("urn:example:interfaces"));
    assert_eq!(root.local_name(), "interfaces");
    assert_eq!(root.effective_ns(), Some("urn:example:interfaces"));
}

#[test]
fn parses_prefixed_root_via_xmlns_binding() {
    let root = parse_xml_root(r#"<if:interfaces xmlns:if="urn:example:interfaces"/>"#)
        .expect("parses self-closing prefixed root");
    assert_eq!(root.name, "if:interfaces");
    assert_eq!(root.local_name(), "interfaces");
    assert_eq!(root.effective_ns(), Some("urn:example:interfaces"));
}

#[test]
fn parses_netconf_rpc_envelope() {
    let root = parse_xml_root(
        r#"<rpc message-id="101" xmlns="urn:ietf:params:xml:ns:netconf:base:1.0">
  <get-config><source><running/></source></get-config>
</rpc>"#,
    )
    .expect("parses");
    assert_eq!(root.name, "rpc");
    assert_eq!(
        root.default_ns.as_deref(),
        Some("urn:ietf:params:xml:ns:netconf:base:1.0")
    );
    assert_eq!(root.ns_prefixes.len(), 0);
}

#[test]
fn self_closing_empty_root() {
    let root = parse_xml_root(r#"<config xmlns="urn:ietf:params:xml:ns:netconf:base:1.0"/>"#)
        .expect("parses empty config");
    assert_eq!(root.name, "config");
    assert_eq!(root.local_name(), "config");
}

#[test]
fn non_xml_returns_none() {
    assert!(parse_xml_root("this is not xml").is_none());
    assert!(parse_xml_root("").is_none());
}

#[test]
fn full_tree_keeps_structure_and_namespaces() {
    let doc = parse_xml(
        r#"<if:interfaces xmlns:if="urn:if">
  <if:interface>
    <if:name>eth0</if:name>
    <other:admin-down xmlns:other="urn:demo">true</other:admin-down>
  </if:interface>
</if:interfaces>"#,
    )
    .expect("parses");
    let n = &doc.nodes;
    assert_eq!(n.len(), 4);
    assert_eq!(n[0].name, "if:interfaces");
    assert_eq!(n[0].ns.as_deref(), Some("urn:if"));
    assert_eq!(n[1].parent, Some(0));
    assert_eq!(n[0].children, vec![1]);
    assert_eq!(n[2].local, "name");
    assert_eq!(n[2].ns.as_deref(), Some("urn:if"));
    assert_eq!(n[3].name, "other:admin-down");
    assert_eq!(n[3].ns.as_deref(), Some("urn:demo"));
    assert!(n[0].elem_range.start < n[1].elem_range.start);
    assert!(n[0].name_range.start < n[1].name_range.start);
    let byte = n[2].elem_range.start + 1;
    assert_eq!(doc.element_at(byte), Some(2));
}

#[test]
fn nested_default_ns_rebindings() {
    let doc = parse_xml(r#"<a xmlns="urn:a"><b><c xmlns="urn:c"><d/></c><e/></b></a>"#)
        .expect("parses");
    let n = &doc.nodes;
    let ns = |i: usize| n[i].ns.as_deref().unwrap_or("");
    assert_eq!(
        (ns(0), ns(1), ns(2), ns(3), ns(4)),
        ("urn:a", "urn:a", "urn:c", "urn:c", "urn:a")
    );
    assert!(n[2].name_range.end <= n[2].elem_range.end);
}

#[test]
fn summaries_keep_modules_with_a_namespace_and_their_top_data() {
    let ss = vec![
        ModuleSummary {
            name: "demo".to_string(),
            namespace: Some("urn:demo".to_string()),
            top_data: vec!["a".to_string(), "b".to_string()],
        },
        ModuleSummary { name: "demo-sub".to_string(), namespace: None, top_data: vec![] },
        ModuleSummary { name: "blank".to_string(), namespace: Some(String::new()), top_data: vec!["x".to_string()] },
    ];
    let infos = module_summaries_from_summary(&ss);
    assert_eq!(infos.len(), 1);
    assert_eq!(infos[0].name, "demo");
    assert_eq!(infos[0].namespace, "urn:demo");
    assert_eq!(infos[0].top_data, vec!["a".to_string(), "b".to_string()]);
}

#[test]
fn filters_mask_their_subtree_at_any_depth() {
    let text = r#"<rpc xmlns="urn:ietf:params:xml:ns:netconf:base:1.0"><get><filter><top xmlns="urn:x"/></filter></get></rpc>"#;
    let doc = parse_xml(text).expect("parse");
    assert_eq!(filter_mask(&doc), vec![false, false, true, true]);
    let root = r#"<filter xmlns="urn:ietf:params:xml:ns:netconf:base:1.0"><a/></filter>"#;
    let doc = parse_xml(root).expect("parse");
    assert_eq!(filter_mask(&doc), vec![true, true]);
}

#[test]
fn leaf_text_skips_quoted_angles_and_trims() {
    let text = r#"<b x="a>b">v</b>"#;
    let doc = XmlDoc {
        nodes: vec![XmlNode {
            parent: None,
            children: vec![],
            name: "b".to_string(),
            local: "b".to_string(),
            ns: None,
            name_range: 1..2,
            elem_range: 0..16,
        }],
    };
    assert_eq!(doc.leaf_text(text, 0), Some((11..12, "v".to_string())));
    assert_eq!(doc.leaf_text(text, 1), None);
    let text = "<a>  h\u{e9}llo \n</a>";
    let doc = parse_xml(text).expect("parse");
    assert_eq!(doc.leaf_text(text, 0), Some((5..11, "h\u{e9}llo".to_string())));
    let text = "<a/>";
    let doc = parse_xml(text).expect("parse");
    assert_eq!(doc.leaf_text(text, 0), Some((2..3, String::new())));
}
