use topcoat_css::compiler::{field_from_verdicts, field_name, module_fields, resolve_export};
use topcoat_css::exports::{Export, Exports, Reference};
use topcoat_css::naming::scoping_pattern;
use topcoat_css::push_unique;
use topcoat_css::validate::{check_rule, check_url, RuleKind};

fn export(name: &str, composes: Vec<Reference>) -> Export {
    Export { name: name.to_string(), composes }
}

fn local(name: &str) -> Reference {
    Reference::Local { name: name.to_string() }
}

fn exports(entries: Vec<(&str, Export)>) -> Exports {
    let mut all = Exports::new();
    for (key, value) in entries {
        all.insert(key.to_string(), value);
    }
    all
}

#[test]
fn field_names_handle_hyphens_and_rust_keywords() {
    assert_eq!(field_name("user-card").unwrap(), "user_card");
    assert_eq!(field_name("type").unwrap(), "r#type");
    assert_eq!(field_name("async").unwrap(), "r#async");
}

#[test]
fn reserved_and_invalid_names_cannot_become_fields() {
    for name in ["self", "Self", "super", "crate", "_"] {
        let error = field_name(name).unwrap_err();
        assert!(error.contains("cannot become a Rust field; rename this export"), "{error}");
        assert!(error.contains(&format!("`{name}`")));
    }
    let error = field_name("1abc").unwrap_err();
    assert!(error.contains("starting with a letter or underscore"), "{error}");
    assert_eq!(field_name("café").unwrap(), "café");
    assert_eq!(field_name("fade-in").unwrap(), "fade_in");
}

#[test]
fn class_lists_resolve_transitive_local_and_global_names() {
    // The exports of `.base {} .middle { composes: base; }
    // .card { composes: middle; composes: external from global; }`.
    let all = exports(vec![
        ("base", export("base_tc1", vec![])),
        ("middle", export("middle_tc1", vec![local("base_tc1")])),
        (
            "card",
            export(
                "card_tc1",
                vec![local("middle_tc1"), Reference::Global { name: "external".to_string() }],
            ),
        ),
    ]);
    let fields = module_fields(&all).unwrap();
    let get = |field: &str| fields.iter().find(|(f, _)| f == field).unwrap().1.clone();
    let card: Vec<String> = get("card").split_whitespace().map(String::from).collect();
    assert!(card.contains(&get("base")));
    assert!(card.contains(&get("middle").split_whitespace().next().unwrap().to_string()));
    assert!(card.contains(&"external".to_string()));
    assert_eq!(get("card"), "card_tc1 middle_tc1 base_tc1 external");
    assert_eq!(get("middle"), "middle_tc1 base_tc1");
}

#[test]
fn fields_are_sorted_by_field_and_values_listed_once() {
    let all = exports(vec![
        ("user-name", export("user-name_tc1", vec![])),
        ("card", export("card_tc1", vec![local("base_tc1"), local("base_tc1")])),
        ("base", export("base_tc1", vec![])),
    ]);
    let fields = module_fields(&all).unwrap();
    let names: Vec<&str> = fields.iter().map(|(f, _)| f.as_str()).collect();
    assert_eq!(names, ["base", "card", "user_name"]);
    assert_eq!(fields[1].1, "card_tc1 base_tc1");
}

#[test]
fn reports_export_and_rule_errors() {
    let collide = exports(vec![
        ("user-card", export("user-card_tc", vec![])),
        ("user_card", export("user_card_tc", vec![])),
    ]);
    let error = module_fields(&collide).unwrap_err();
    assert!(error.contains("both produce Rust field"), "{error}");
    assert_eq!(
        error,
        "CSS exports `user-card` and `user_card` both produce Rust field `user_card`; rename one"
    );

    let reserved = exports(vec![("self", export("self_tc", vec![]))]);
    assert!(module_fields(&reserved).unwrap_err().contains("cannot become a Rust field"));

    let cross = exports(vec![(
        "card",
        export(
            "card_tc",
            vec![Reference::Dependency {
                name: "base".to_string(),
                specifier: "./base.css".to_string(),
            }],
        ),
    )]);
    let error = module_fields(&cross).unwrap_err();
    assert!(error.contains("cross-file composes"), "{error}");
    assert!(error.contains("./base.css"));

    let cyclic = exports(vec![
        ("a", export("a_tc", vec![local("b_tc")])),
        ("b", export("b_tc", vec![local("a_tc")])),
    ]);
    let error = module_fields(&cyclic).unwrap_err();
    assert_eq!(error, "cyclic CSS composition involving `a`");

    let undefined = exports(vec![("a", export("a_tc", vec![local("zzz_tc")]))]);
    assert_eq!(
        module_fields(&undefined).unwrap_err(),
        "composition refers to undefined local class `zzz_tc`"
    );

    assert!(check_rule(&RuleKind::Import).unwrap_err().contains("@import"));
    assert!(check_rule(&RuleKind::Namespace).unwrap_err().contains("@namespace"));
    assert!(
        check_rule(&RuleKind::Unknown { name: "madeup".to_string() })
            .unwrap_err()
            .contains("unknown @madeup")
    );
    assert!(check_rule(&RuleKind::Other).is_ok());
    assert!(check_url("images/photo.png").unwrap_err().contains("relative url"));
}

#[test]
fn urls_that_survive_bundling() {
    for url in [
        "/images/photo.png",
        "#marker",
        "https://example.com/picture.png",
        "data:image/png;base64,AAAA",
        "git+ssh:x",
    ] {
        assert!(check_url(url).is_ok(), "{url}");
    }
    for url in ["images/photo.png", "./a.png", "../a.png", "", ":x", "1http://x", "a b:c"] {
        let error = check_url(url).unwrap_err();
        assert_eq!(
            error,
            format!(
                "relative url({url}) would break in the asset bundle; use a root-relative URL, absolute URL, or data URL"
            )
        );
    }
}

#[test]
fn resolution_restores_the_visiting_set() {
    let all = exports(vec![
        ("base", export("base_tc", vec![])),
        ("card", export("card_tc", vec![local("base_tc"), local("base_tc")])),
    ]);
    let mut visiting = Vec::new();
    let mut output = Vec::new();
    resolve_export("card", &all, &mut visiting, &mut output).unwrap();
    assert!(visiting.is_empty());
    assert_eq!(output, ["card_tc", "base_tc"]);
}

#[test]
fn a_name_under_resolution_fails_as_a_cycle_and_changes_nothing() {
    let all = exports(vec![("card", export("card_tc", vec![]))]);
    let mut visiting = vec!["ghost".to_string()];
    let mut output = vec!["kept".to_string()];
    let error = resolve_export("ghost", &all, &mut visiting, &mut output).unwrap_err();
    assert_eq!(error, "cyclic CSS composition involving `ghost`");
    assert_eq!(visiting, ["ghost"]);
    assert_eq!(output, ["kept"]);
}

#[test]
fn field_verdicts_pick_the_plain_or_raw_form() {
    assert_eq!(field_from_verdicts("user-card", true, false).unwrap(), "user_card");
    assert_eq!(field_from_verdicts("type", false, true).unwrap(), "r#type");
    assert!(field_from_verdicts("1abc", false, false).unwrap_err().contains("starting with a letter"));
    assert!(field_from_verdicts("self", true, true).unwrap_err().contains("rename this export"));
}

#[test]
fn push_unique_keeps_one_of_each() {
    let mut output = vec!["a".to_string()];
    push_unique(&mut output, "b");
    push_unique(&mut output, "a");
    push_unique(&mut output, "b");
    assert_eq!(output, ["a", "b"]);
}

#[test]
fn exports_insert_replaces_and_orders() {
    let mut all = Exports::new();
    all.insert("b".to_string(), export("b1", vec![]));
    all.insert("a".to_string(), export("a1", vec![]));
    all.insert("b".to_string(), export("b2", vec![]));
    assert_eq!(all.len(), 2);
    assert_eq!(all.entry(0).0, "a");
    assert_eq!(all.entry(1).1.name, "b2");
}

#[test]
fn scoping_pattern_hashes_namespace_file_index_and_css() {
    let css = ".card { color: red; }";
    assert_eq!(
        scoping_pattern(css, "test-app", "src/main.rs", 0).unwrap(),
        "[local]_tc3fe524c7d90a096a6fe90554"
    );
    assert_eq!(
        scoping_pattern(css, "test-app", "src/main.rs", 1).unwrap(),
        "[local]_tc2c72a24e31bb1250ea07ab3f"
    );
    assert_eq!(
        scoping_pattern(" \n\t", "test-app", "src/main.rs", 0).unwrap_err(),
        "css! requires a nonempty stylesheet"
    );
    assert_ne!(
        scoping_pattern(css, "other-app", "src/main.rs", 0).unwrap(),
        scoping_pattern(css, "test-app", "src/main.rs", 0).unwrap()
    );
}
