use netconf_language_server::launcher::{download_failure_message, locate_server, HostOs, Launch};
use netconf_language_server::semantic::{arg_semantics, encode, whole_arg, ArgSemantics, Class, Lines, MOD_CONST};
use netconf_language_server::position::{byte_to_position, position_to_byte, range_to_positions};
use netconf_language_server::stmt::StmtKind;
use netconf_language_server::config::{semantic_changed, Config, SemanticOverride, SemanticSettings};
use netconf_language_server::format::indent_of;
use netconf_language_server::hover::code_fence;
use netconf_language_server::incomplete::{balance_json, balance_xml, tolerant_json, tolerant_xml};
use netconf_language_server::json::parse as parse_json;
use netconf_language_server::references::{local_name_range, whole_tree_hits, Def};
use netconf_language_server::semantic::{inside, is_bare_number, is_unquoted_word};
use netconf_language_server::server::{is_valid_identifier, merge_hits, range_for_word, unique_urls};
use netconf_language_server::workspace::{doc_lang, is_yang, DocLang};
use netconf_language_server::xml::parse as parse_xml;

#[test]
fn indent_width_is_clamped_and_defaults_to_two() {
    let with = |n: Option<u8>| Config { indent_size: n, semantic: SemanticSettings::new() };
    assert_eq!(with(None).indent_width(), 2);
    assert_eq!(with(Some(0)).indent_width(), 1);
    assert_eq!(with(Some(4)).indent_width(), 4);
    assert_eq!(with(Some(40)).indent_width(), 16);
}

#[test]
fn indentation_is_depth_times_width_spaces() {
    assert_eq!(indent_of(2, 3), "      ");
    assert_eq!(indent_of(0, 4), "");
    assert_eq!(indent_of(3, 0), "");
}

#[test]
fn code_fence_wraps_yang() {
    assert_eq!(code_fence("leaf x;"), "```yang\nleaf x;\n```");
}

#[test]
fn complete_documents_are_read_as_written() {
    let x = r#"<a xmlns="urn:a"><b/></a>"#;
    assert_eq!(tolerant_xml(x).unwrap().nodes.len(), parse_xml(x).unwrap().nodes.len());
    let j = r#"{ "m:a": { "b": 1 } }"#;
    assert_eq!(tolerant_json(j).unwrap().members.len(), parse_json(j).unwrap().members.len());
}

#[test]
fn unclosed_documents_are_repaired() {
    let doc = tolerant_xml(r#"<a xmlns="urn:a"><b>"#).expect("repairable");
    assert_eq!(doc.nodes.len(), 2);
    let doc = tolerant_json(r#"{ "m:a": { "b": 1"#).expect("repairable");
    assert_eq!(doc.members.len(), 2);
}

#[test]
fn rename_span_keeps_only_the_first_prefix() {
    let text = "type a:b:c;";
    let start = text.find("a:b:c").unwrap();
    let r = local_name_range(text, start..start + 5);
    assert_eq!(&text[r], "b:c");
    let r = local_name_range(text, 3..100);
    assert_eq!(r, 3..100, "a span outside the text is left as it is");
}

#[test]
fn identifiers_follow_yang_rules() {
    assert!(is_valid_identifier("speed"));
    assert!(is_valid_identifier("_x-1.2"));
    assert!(!is_valid_identifier(""));
    assert!(!is_valid_identifier("1abc"));
    assert!(!is_valid_identifier("a b"));
    assert!(!is_valid_identifier("a:b"));
}

#[test]
fn word_ranges_cover_identifier_tokens() {
    let text = "type a:speed;";
    let byte = text.find("speed").unwrap() + 1;
    let r = range_for_word(text, byte);
    assert_eq!(&text[r], "speed");
    assert_eq!(range_for_word(text, 100), 100..100);
}

#[test]
fn merged_hits_skip_open_buffers_and_duplicates() {
    let mut hits = vec![("/a.yang".to_string(), 1..3)];
    let extra = vec![
        ("/a.yang".to_string(), 1..3),
        ("/b.yang".to_string(), 4..6),
        ("/open.yang".to_string(), 0..1),
    ];
    let added = merge_hits(&mut hits, &extra, &vec!["/open.yang".to_string()]);
    assert_eq!(added, 1);
    assert_eq!(hits, vec![("/a.yang".to_string(), 1..3), ("/b.yang".to_string(), 4..6)]);
    let urls = unique_urls(&vec!["/a".to_string(), "/b".to_string(), "/a".to_string()]);
    assert_eq!(urls, vec!["/a".to_string(), "/b".to_string()]);
}

#[test]
fn an_empty_reference_index_adds_no_hits() {
    let ix = yrepo::ReferenceIndex::default();
    let def = Def { module: "m".to_string(), local: "t".to_string() };
    let mut hits = vec![("/a.yang".to_string(), 1..3)];
    let added = whole_tree_hits(&ix, &def, true, &mut hits, &vec![]);
    assert_eq!(added, 0);
    assert_eq!(hits, vec![("/a.yang".to_string(), 1..3)]);
}

#[test]
fn document_language_follows_the_file_extension() {
    assert_eq!(doc_lang("file:///w/a.yang"), DocLang::Yang);
    assert_eq!(doc_lang("file:///w/a.xml"), DocLang::Xml);
    assert_eq!(doc_lang("file:///w/a.json"), DocLang::Json);
    assert_eq!(doc_lang("file:///w/a.txt"), DocLang::Other);
    assert!(is_yang("file:///w/m.yang"));
    assert!(!is_yang("file:///w/m.xml"));
}

#[test]
fn argument_shapes_for_highlighting() {
    assert!(is_bare_number("-10"));
    assert!(is_bare_number("2.5"));
    assert!(!is_bare_number("1..2"));
    assert!(is_unquoted_word("abc"));
    assert!(!is_unquoted_word("\"abc\""));
    assert!(!is_unquoted_word("a b"));
    assert!(inside(&(2..4), &[0..1, 1..5]));
    assert!(!inside(&(2..6), &[0..1, 1..5]));
}

#[test]
fn encode_cuts_spans_at_line_ends_in_utf16_columns() {
    let text = "a\u{1F600}b\ncd";
    let lines = Lines { starts: vec![0, 7], len: text.len() };
    let items = vec![(Class::String, 0u32, 5..8)];
    let out = encode(text, &lines, &items);
    assert_eq!(out, vec![(0, 3, 1, 4, 0), (1, 0, 1, 4, 0)]);
}

#[test]
fn encode_leaves_line_breaks_out_of_tokens() {
    let text = "/*a\nb*/";
    let lines = Lines { starts: vec![0, 4], len: text.len() };
    let out = encode(text, &lines, &[(Class::Comment, 0u32, 0..7)]);
    assert_eq!(out, vec![(0, 0, 3, 6, 0), (1, 0, 3, 6, 0)]);
    let crlf = "ab\r\ncd";
    let lines = Lines { starts: vec![0, 4], len: crlf.len() };
    let out = encode(crlf, &lines, &[(Class::String, 0u32, 0..6)]);
    assert_eq!(out, vec![(0, 0, 2, 4, 0), (1, 0, 2, 4, 0)]);
}

#[test]
fn encode_deltas_on_one_line_and_clips_to_the_text() {
    let text = "leaf x;";
    let lines = Lines { starts: vec![0], len: text.len() };
    let items = vec![
        (Class::Keyword, 0u32, 0..4),
        (Class::Variable, MOD_CONST, 5..6),
        (Class::Comment, 0u32, 6..40),
        (Class::Number, 0u32, 50..60),
    ];
    let out = encode(text, &lines, &items);
    assert_eq!(out, vec![(0, 0, 4, 0, 0), (0, 5, 1, 3, 1), (0, 1, 1, 6, 0)]);
}

#[test]
fn whole_arguments_classify_numbers_and_words() {
    assert_eq!(whole_arg(&StmtKind::Default, "-10"), Some((Class::Number, 0)));
    assert_eq!(whole_arg(&StmtKind::Units, "milliseconds"), Some((Class::Variable, MOD_CONST)));
    assert_eq!(whole_arg(&StmtKind::IfFeature, "fast"), Some((Class::Variable, 0)));
    assert_eq!(whole_arg(&StmtKind::Description, "\"text\""), None);
    assert_eq!(whole_arg(&StmtKind::Must, "a b"), None);
    assert_eq!(arg_semantics(&StmtKind::Leaf), ArgSemantics::Atomic(Class::Variable));
    assert_eq!(arg_semantics(&StmtKind::Import), ArgSemantics::Atomic(Class::Namespace));
    assert_eq!(arg_semantics(&StmtKind::Description), ArgSemantics::Composite);
}

#[test]
fn positions_count_utf16_columns_and_round_trip() {
    let text = "ab\n\u{1F600}x\n";
    let lines = Lines { starts: vec![0, 3, 9], len: text.len() };
    assert_eq!(byte_to_position(text, &lines, 7), (1, 2));
    assert_eq!(byte_to_position(text, &lines, 100), (2, 0));
    assert_eq!(byte_to_position(text, &lines, 1), (0, 1));
    assert_eq!(position_to_byte(text, &lines, 1, 2), Some(7));
    assert_eq!(position_to_byte(text, &lines, 0, 1), Some(1));
    // A column inside a surrogate pair clamps to the character's start.
    assert_eq!(position_to_byte(text, &lines, 1, 1), Some(3));
    // A column past the line's end stops at the line's end, before its break.
    assert_eq!(position_to_byte(text, &lines, 1, 10), Some(8));
    let two = "ab\ncd";
    let two_lines = Lines { starts: vec![0, 3], len: two.len() };
    assert_eq!(position_to_byte(two, &two_lines, 0, 10), Some(2));
    assert_eq!(position_to_byte(two, &two_lines, 1, 10), Some(5));
    assert_eq!(position_to_byte(text, &lines, 3, 0), None);
    for x in [0usize, 1, 2, 3, 7, 8, 9] {
        let (l, c) = byte_to_position(text, &lines, x);
        assert_eq!(position_to_byte(text, &lines, l, c), Some(x), "byte {x}");
    }
    assert_eq!(
        range_to_positions(text, &lines, &(3..8)),
        ((1, 0), (1, 3))
    );
}

fn launch_parts(l: Launch) -> (bool, String, String) {
    match l {
        Launch::Use(p) => (true, p, String::new()),
        Launch::Download { file, url } => (false, file, url),
    }
}

#[test]
fn server_is_located_by_setting_then_path_then_release() {
    assert_eq!(
        launch_parts(locate_server(Some("  /opt/ncls  "), Some("/usr/bin/x".to_string()), HostOs::Linux)),
        (true, "/opt/ncls".to_string(), String::new())
    );
    assert_eq!(
        launch_parts(locate_server(Some("   "), Some("/usr/bin/x".to_string()), HostOs::Linux)),
        (true, "/usr/bin/x".to_string(), String::new())
    );
    assert_eq!(
        launch_parts(locate_server(None, None, HostOs::Windows)),
        (
            false,
            "netconf-language-server-win32.exe".to_string(),
            "https://github.com/trislu/netconf-language-server/releases/latest/download/netconf-language-server-win32.exe"
                .to_string()
        )
    );
    assert_eq!(launch_parts(locate_server(None, None, HostOs::Mac)).1, "netconf-language-server-darwin");
}

#[test]
fn download_failure_names_file_url_and_remedies() {
    let m = download_failure_message("f", "u", "e");
    assert!(m.starts_with("failed to download f from u (e); install the server with `cargo install netconf-language-server`"));
    assert!(m.ends_with("lsp.netconf-language-server.binary in settings"));
}

#[test]
fn balancing_xml_appends_end_tags_once() {
    let out = balance_xml("<a><b x=\"1\">t<!-- c --><c/>").unwrap();
    assert_eq!(out, "<a><b x=\"1\">t<!-- c --><c/></b></a>");
    assert_eq!(balance_xml(&out), Some(out.clone()));
    assert_eq!(balance_xml("<a><!-- open"), None);
}

#[test]
fn balancing_json_appends_closers_once() {
    let out = balance_json("{\"a\": [1, {\"b\": \"}\"").unwrap();
    assert_eq!(out, "{\"a\": [1, {\"b\": \"}\"}]}");
    assert_eq!(balance_json(&out), Some(out.clone()));
    assert_eq!(balance_json("{\"a"), None);
}

#[test]
fn semantic_settings_change_only_when_a_role_changes() {
    let roles = |units_mods: Vec<String>| SemanticSettings {
        roles: vec![
            ("enumAndBitNames".to_string(), SemanticOverride::Type("enumMember".to_string())),
            (
                "units".to_string(),
                SemanticOverride::Fields { token: Some("string".to_string()), modifiers: Some(units_mods) },
            ),
        ],
    };
    assert!(!semantic_changed(&roles(vec![]), &roles(vec![])));
    assert!(semantic_changed(&roles(vec![]), &roles(vec!["readonly".to_string()])));
    assert!(semantic_changed(&SemanticSettings::new(), &roles(vec![])));
    assert!(!semantic_changed(&SemanticSettings::new(), &SemanticSettings::new()));
    let no_mods = SemanticSettings {
        roles: vec![("units".to_string(), SemanticOverride::Fields { token: Some("string".to_string()), modifiers: None })],
    };
    let empty_mods = SemanticSettings {
        roles: vec![("units".to_string(), SemanticOverride::Fields { token: Some("string".to_string()), modifiers: Some(vec![]) })],
    };
    assert!(semantic_changed(&no_mods, &empty_mods));
}
