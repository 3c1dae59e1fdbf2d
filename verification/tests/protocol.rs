use proc_macro2::TokenStream;
use topcoat_css::protocol::{editor_css, editor_module, locate_module, module_expansion, MANIFEST_VERSION};
use topcoat_css::tokens::{css_tokens, fingerprint};
use topcoat_css::{Manifest, Module};

fn tokens(text: &str) -> TokenStream {
    text.parse().unwrap()
}

fn module(file: &str, line: usize, column: usize, body: &str, fields: &[(&str, &str)]) -> Module {
    Module {
        file: file.to_string(),
        line,
        column,
        fingerprint: fingerprint(tokens(body)),
        fields: fields.iter().map(|(k, v)| (k.to_string(), v.to_string())).collect(),
    }
}

#[test]
fn fingerprints_name_token_kinds_and_lengths() {
    assert_eq!(fingerprint(tokens(".card")), "5:punct1:.5:ident4:card");
    assert_eq!(fingerprint(tokens("{ a }")), "5:Brace10:5:ident1:a");
    assert_eq!(fingerprint(tokens("(\"é\")")), "11:Parenthesis15:7:literal4:\"é\"");
    assert_eq!(fingerprint(tokens(".card  {x}")), fingerprint(tokens("\n.card{ x }")));
    assert_ne!(fingerprint(tokens("a b")), fingerprint(tokens("ab")));
}

#[test]
fn editor_css_rebuilds_token_bodies() {
    assert_eq!(
        css_tokens(&tokens(".user-card, .type, #some-id { color: red; }")),
        ".user-card , .type , #some-id {color :red ;}"
    );
    assert_eq!(css_tokens(&tokens(".card:hover .title")), ".card :hover .title");
    assert_eq!(css_tokens(&tokens("calc(100% - 2rem)")), "calc(100 %-2rem)");
    assert_eq!(editor_css(&tokens("\".new-card { color: blue; }\"")), ".new-card { color: blue; }");
    assert_eq!(editor_css(&tokens(".new-card { color: blue; }")), ".new-card {color :blue ;}");
    assert_eq!(editor_css(&TokenStream::new()), "");
    assert_eq!(editor_css(&tokens("\"\"")), "");
}

#[test]
fn editor_expansions_guard_placeholder_values() {
    let fields = vec![("new_card".to_string(), "new-card_tc123".to_string())];
    let record = editor_module(fields);
    assert_eq!(record.line, 0);
    let editor = module_expansion(&record, true).unwrap();
    assert!(editor.guard);
    assert!(!editor.tracks_manifest);
    assert_eq!(editor.fields, [("new_card".to_string(), String::new())]);
    let build = module_expansion(&record, false).unwrap();
    assert!(!build.guard);
    assert!(build.tracks_manifest);
    assert_eq!(build.fields, [("new_card".to_string(), "new-card_tc123".to_string())]);
    let bad = module("/src/main.rs", 1, 1, "x", &[("1card", "c")]);
    assert!(module_expansion(&bad, false).unwrap_err().starts_with("invalid generated CSS field: "));
}

#[test]
fn invocations_find_their_record_by_path_position_and_tokens() {
    let manifest = Manifest {
        version: MANIFEST_VERSION,
        modules: vec![
            module("/p/src/main.rs", 1, 17, ".card { color: red; }", &[("card", "card_tc1")]),
            module("/p/src/main.rs", 1, 40, ".card { color: red; }", &[("card", "card_tc2")]),
        ],
    };
    let body = tokens(" .card  { color : red ; }");
    assert_eq!(locate_module(&manifest, Some("/p/src/main.rs"), "src/main.rs", 1, 40, body.clone()).unwrap(), 1);
    assert_eq!(locate_module(&manifest, Some("/p/src//main.rs"), "src/main.rs", 1, 17, body.clone()).unwrap(), 0);
    let error = locate_module(&manifest, Some("/p/src/main.rs"), "src/main.rs", 2, 17, body.clone()).unwrap_err();
    assert!(error.starts_with("css! at src/main.rs:2:17 was not collected by the build script"));
    let changed = tokens(".card { color: blue; }");
    assert!(locate_module(&manifest, Some("/p/src/main.rs"), "src/main.rs", 1, 17, changed).is_err());
    let old = Manifest { version: 0, modules: vec![] };
    assert_eq!(
        locate_module(&old, Some("/p/src/main.rs"), "src/main.rs", 1, 17, body.clone()).unwrap_err(),
        "incompatible CSS build manifest; use matching topcoat-css and topcoat-css-build versions"
    );
}

#[test]
fn records_match_only_text_paths_and_current_versions() {
    let manifest = Manifest {
        version: MANIFEST_VERSION,
        modules: vec![module("/p/src/main.rs", 1, 17, ".card", &[("card", "card_tc1")])],
    };
    let error = locate_module(&manifest, None, "src/main.rs", 1, 17, tokens(".card")).unwrap_err();
    assert!(error.starts_with("css! at src/main.rs:1:17 was not collected"));
    assert!(topcoat_css::protocol::check_version(&manifest).is_ok());
    let old = Manifest { version: 2, modules: vec![] };
    assert!(topcoat_css::protocol::check_version(&old).unwrap_err().starts_with("incompatible CSS build manifest"));
}

#[test]
fn records_hold_their_fields_in_order() {
    let sorted = module("/p", 1, 1, "x", &[("a", "a_tc"), ("b", "b_tc")]);
    assert!(sorted.has_sorted_fields());
    let unsorted = module("/p", 1, 1, "x", &[("b", "b_tc"), ("a", "a_tc")]);
    assert!(!unsorted.has_sorted_fields());
    let repeated = module("/p", 1, 1, "x", &[("a", "a_tc"), ("a", "a_tc")]);
    assert!(!repeated.has_sorted_fields());
    assert!(module_expansion(&module("/p", 1, 1, "x", &[]), false).is_ok());
}
