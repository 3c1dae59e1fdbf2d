use proc_macro2::TokenStream;
use topcoat_css::naming::scoping_pattern;
use topcoat_css::sources::{source_step, SourceStep};
use topcoat_css::scanner::{char_offset, lexable_source, offset, scan, Input};
use topcoat_css::tokens::Position;

fn names(list: &[&str]) -> Vec<String> {
    list.iter().map(|s| s.to_string()).collect()
}

fn collect(source: &str) -> Vec<Input> {
    scan(source, &names(&["css"])).unwrap()
}

#[test]
fn scanner_accepts_shebang_bom_and_crlf() {
    let source =
        "\u{feff}#!/usr/bin/env rust-script\r\nfn a() { css! { .card { color: red; } }; }\r\n";
    assert_eq!(collect(source).len(), 1);
}

#[test]
fn scanner_ignores_comments_and_strings_and_handles_unicode_and_aliases() {
    let source = r##"
        // css! { broken }
        const TEXT: &str = "css! { also broken }";
        fn example() { let _ = "café 🦀"; let style = custom::styles! { .café { content: "🦀"; } }; }
    "##;
    let inputs = scan(source, &names(&["css", "styles"])).unwrap();
    assert_eq!(inputs.len(), 1);
    assert!(inputs[0].css.contains("🦀"));
    assert!(inputs[0].css.contains(".café"));
    assert_eq!(topcoat_css::compiler::field_name("café").unwrap(), "café");
}

#[test]
fn token_bodies_keep_whitespace_sensitive_selectors() {
    let inputs = collect(
        r#"
        fn example() {
            let a = css! { .card :hover { color: red; } };
            let b = css! { .card:hover { color: red; } };
            let c = css! { .card .title { margin: 0.5rem; } };
            let d = css! { .card.title { margin: 0.5rem; } };
        }
    "#,
    );
    let css: Vec<&str> = inputs.iter().map(|i| i.css.as_str()).collect();
    assert_eq!(
        css,
        [
            " .card :hover { color: red; } ",
            " .card:hover { color: red; } ",
            " .card .title { margin: 0.5rem; } ",
            " .card.title { margin: 0.5rem; } ",
        ]
    );
    // Whitespace is not a token: only the exact source text tells these apart.
    assert_eq!(inputs[0].fingerprint, inputs[1].fingerprint);
}

#[test]
fn string_literal_bodies_are_read_as_values() {
    let inputs = collect(
        "fn component() { let style = css!(r###\".card::before { content: 'Hello'; }\"###); }",
    );
    assert_eq!(inputs.len(), 1);
    assert_eq!(inputs[0].css, ".card::before { content: 'Hello'; }");
}

#[test]
fn invocations_record_position_and_fingerprint() {
    let source = "fn a() { css! { .card { color: red; } }; }";
    let inputs = collect(source);
    assert_eq!(inputs[0].line, 1);
    assert_eq!(inputs[0].column, 17);
    let tokens: TokenStream = " .card { color: red; } ".parse().unwrap();
    assert_eq!(inputs[0].fingerprint, topcoat_css::tokens::fingerprint(tokens));
}

#[test]
fn modules_get_separate_relocatable_names() {
    let source = "fn a() { css! { .card { color: red; } }; css! { .card { color: red; } }; }";
    let first = collect(source);
    let second = collect(source);
    assert_eq!(first.len(), 2);
    assert_eq!(first[0].css, first[1].css);
    let name = |inputs: &Vec<Input>, index: usize| {
        scoping_pattern(&inputs[index].css, "test-app", "src/main.rs", index).unwrap()
    };
    assert_eq!(name(&first, 0), name(&second, 0));
    assert_ne!(name(&first, 0), name(&first, 1));
    let shifted = collect(&format!("// unrelated line\n{source}"));
    assert_eq!(shifted[0].line, 2);
    assert_eq!(name(&first, 0), name(&shifted, 0));
    assert_eq!(name(&first, 1), name(&shifted, 1));
}

#[test]
fn nested_invocations_are_found_in_source_order() {
    let inputs = collect(
        "mod m { fn f() { if x { css!{ .a {} }; } } } fn g() { css!(\".b {}\"); notcss!{ .c {} }; }",
    );
    let css: Vec<&str> = inputs.iter().map(|i| i.css.as_str()).collect();
    assert_eq!(css, [" .a {} ", ".b {}"]);
}

#[test]
fn scanner_reports_empty_bodies_and_untokenizable_source() {
    assert_eq!(
        scan("fn a() { css!(); }", &names(&["css"])).unwrap_err(),
        "css! requires a CSS body or a string literal"
    );
    let error = scan("fn a() { css! { content: 'ab'; } }", &names(&["css"])).unwrap_err();
    assert!(error.starts_with("cannot tokenize Rust source: "), "{error}");
    assert!(error.ends_with("use css!(r#\"...\"#)"), "{error}");
}

#[test]
fn blanking_keeps_positions() {
    let source = "\u{feff}#!/bin/run\nfn main() {}\n";
    let lexable = lexable_source(source);
    assert_eq!(lexable, "           \nfn main() {}\n");
    assert_eq!(lexable.chars().count(), source.chars().count());
    assert_eq!(lexable_source("#![allow(x)]\n"), "#![allow(x)]\n");
    assert_eq!(lexable_source("#!x"), "   ");
}

#[test]
fn character_offsets_count_characters_by_line() {
    let src: Vec<char> = "ab\ncdé\n".chars().collect();
    assert_eq!(char_offset(&src, Position { line: 1, column: 0 }).unwrap(), 0);
    assert_eq!(char_offset(&src, Position { line: 1, column: 3 }).unwrap(), 3);
    assert_eq!(char_offset(&src, Position { line: 2, column: 3 }).unwrap(), 6);
    assert_eq!(char_offset(&src, Position { line: 2, column: 4 }).unwrap(), 7);
    assert_eq!(
        char_offset(&src, Position { line: 2, column: 5 }).unwrap_err(),
        "source column is out of range"
    );
    assert_eq!(
        char_offset(&src, Position { line: 3, column: 0 }).unwrap_err(),
        "source line is out of range"
    );
    assert_eq!(
        char_offset(&src, Position { line: 0, column: 0 }).unwrap_err(),
        "source line is out of range"
    );
}

#[test]
fn offsets_count_bytes_as_the_source_text_does() {
    let source = "ab\ncé";
    assert_eq!(offset(source, Position { line: 2, column: 2 }).unwrap(), 6);
    assert_eq!(offset(source, Position { line: 2, column: 1 }).unwrap(), 4);
    assert_eq!(offset(source, Position { line: 1, column: 0 }).unwrap(), 0);
    assert_eq!(offset("é\nx", Position { line: 2, column: 1 }).unwrap(), 4);
    assert_eq!(
        offset(source, Position { line: 2, column: 3 }).unwrap_err(),
        "source column is out of range"
    );
    assert_eq!(
        offset(source, Position { line: 3, column: 0 }).unwrap_err(),
        "source line is out of range"
    );
}

#[test]
fn source_walk_refuses_links_and_collects_rust_files() {
    match source_step("src/link", true, true, None) {
        SourceStep::Reject(m) => {
            assert_eq!(m, "symlinked source src/link is unsupported; use a real source path")
        }
        other => panic!("{other:?}"),
    }
    assert!(matches!(source_step("src", false, true, None), SourceStep::Descend));
    assert!(matches!(source_step("src/main.rs", false, false, Some("rs")), SourceStep::Collect));
    assert!(matches!(source_step("src/notes.md", false, false, Some("md")), SourceStep::Skip));
    assert!(matches!(source_step("src/Makefile", false, false, None), SourceStep::Skip));
}
