use lightningcss::css_modules::{Config, CssModuleReference, Pattern};
use lightningcss::stylesheet::{ParserOptions, PrinterOptions, StyleSheet};
use topcoat_css::compiler::module_fields;
use topcoat_css::exports::{Export, Exports, Reference};
use topcoat_css::naming::scoping_pattern;
use topcoat_css::scanner::scan;

/// One CSS module compiled as the build helper does for `src/main.rs` of the
/// package `test-app`: scoped by the library's pattern, printed by Lightning
/// CSS, fields from the library.
fn compile(css: &str, index: usize, minify: bool) -> (String, Vec<(String, String)>) {
    let pattern_text = scoping_pattern(css, "test-app", "src/main.rs", index).unwrap();
    let pattern = Pattern::parse(&pattern_text).unwrap();
    let sheet = StyleSheet::parse(
        css,
        ParserOptions {
            filename: "src/main.rs".to_owned(),
            css_modules: Some(Config { pattern, ..Config::default() }),
            error_recovery: false,
            ..ParserOptions::default()
        },
    )
    .unwrap();
    let result = sheet.to_css(PrinterOptions { minify, ..PrinterOptions::default() }).unwrap();
    let mut exports = Exports::new();
    for (key, export) in result.exports.unwrap_or_default() {
        let composes = export
            .composes
            .into_iter()
            .map(|reference| match reference {
                CssModuleReference::Local { name } => Reference::Local { name },
                CssModuleReference::Global { name } => Reference::Global { name },
                CssModuleReference::Dependency { name, specifier } => {
                    Reference::Dependency { name, specifier }
                }
            })
            .collect();
        exports.insert(key, Export { name: export.name, composes });
    }
    (result.code, module_fields(&exports).unwrap())
}

fn field<'a>(fields: &'a [(String, String)], name: &str) -> &'a str {
    &fields.iter().find(|(f, _)| f == name).unwrap().1
}

/// The stylesheet and fields of every invocation in a source file, in order.
fn build(source: &str) -> (String, Vec<Vec<(String, String)>>) {
    let inputs = scan(source, &vec!["css".to_string()]).unwrap();
    let mut css = String::new();
    let mut modules = Vec::new();
    for (index, input) in inputs.iter().enumerate() {
        let (code, fields) = compile(&input.css, index, false);
        css.push_str(&code);
        modules.push(fields);
    }
    (css, modules)
}

#[test]
fn export_fields_handle_hyphens_and_rust_keywords() {
    let (_, fields) = compile(".user-card, .type, .async { color: red; }", 0, false);
    let names: Vec<&str> = fields.iter().map(|(f, _)| f.as_str()).collect();
    assert!(names.contains(&"user_card"));
    assert!(names.contains(&"r#type"));
    assert!(names.contains(&"r#async"));
}

#[test]
fn composition_resolves_transitive_local_and_global_names() {
    let (_, fields) = compile(
        r#"
        .base { color: red; }
        .middle { composes: base; }
        .card { composes: middle; composes: external from global; }
    "#,
        0,
        false,
    );
    let card: Vec<&str> = field(&fields, "card").split_whitespace().collect();
    assert!(card.contains(&field(&fields, "base")));
    assert!(card.contains(&field(&fields, "middle").split_whitespace().next().unwrap()));
    assert!(card.contains(&"external"));
}

#[test]
fn modules_are_separate_and_relocatable() {
    let source = "fn a() { css! { .card { color: red; } }; css! { .card { color: red; } }; }";
    let first = build(source);
    let second = build(source);
    assert_eq!(first.0, second.0);
    assert_ne!(field(&first.1[0], "card"), field(&first.1[1], "card"));
    let shifted = build(&format!("// unrelated line\n{source}"));
    assert_eq!(first.0, shifted.0);
}

#[test]
fn minification_preserves_export_names() {
    let css = ".card { color: red; padding: 1rem 2rem; }";
    let pretty = compile(css, 0, false);
    let minified = compile(css, 0, true);
    assert_eq!(pretty.1, minified.1);
    assert!(minified.0.len() < pretty.0.len());
}

#[test]
fn scopes_selectors_without_rewriting_strings_attributes_urls_or_numbers() {
    let (css, fields) = compile(
        r#"
        .card:hover .image, .card[data-label=".literal"] {
            padding: 0.5rem 1rem;
            opacity: 0.8;
            content: ".literal";
            background: url("https://example.com/picture.png");
            color: var(--foreground);
        }
    "#,
        0,
        false,
    );
    assert_eq!(fields.len(), 2);
    assert!(css.contains(&format!(".{}:hover .{}", field(&fields, "card"), field(&fields, "image"))));
    assert!(css.contains(".literal"));
    assert!(css.contains("https://example.com/picture.png"));
    assert!(css.contains(".5rem 1rem") || css.contains("0.5rem 1rem"));
    assert!(css.contains("var(--foreground)"));
    assert!(!css.contains("literal_tc"));
}
