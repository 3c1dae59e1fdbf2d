//! The build manifest that the build helper writes and the `css!` macro reads:
//! one record per collected invocation, and how the macro finds its record and
//! what it expands to.

use vstd::prelude::*;
use proc_macro2::TokenStream;
use crate::compiler::{concat3, ident_reply, parse_ident, reply_view, fields_sorted};
use crate::text::{text_lt, lemma_text_less_transitive};
use crate::text::{decimal, push_decimal};
use crate::tokens::{stream_tokens, fingerprint, fingerprint_spec, css_tokens, css_text};
use crate::scanner::{literal_string, string_literal_value};

verus! {

pub const MANIFEST_VERSION: u32 = 1;

pub const MANIFEST_ENV: &'static str = "TOPCOAT_CSS_MANIFEST";

pub const STYLESHEET_ENV: &'static str = "TOPCOAT_CSS_STYLESHEET";

/// The record of one collected invocation.
#[derive(Debug)]
pub struct Module {
    /// Canonical source path, used only to match an invocation at expansion time.
    pub file: String,
    /// One-based line and Unicode character column of the first input token.
    pub line: usize,
    pub column: usize,
    pub fingerprint: String,
    /// Valid Rust field names (including raw identifiers) with the scoped CSS
    /// class list of each, sorted by field.
    pub fields: Vec<(String, String)>,
}

/// All records of one build, in file order and source order.
#[derive(Debug)]
pub struct Manifest {
    pub version: u32,
    pub modules: Vec<Module>,
}

pub open spec fn field_pairs(v: Seq<(String, String)>) -> Seq<(Seq<char>, Seq<char>)> {
    v.map_values(|p: (String, String)| (p.0@, p.1@))
}

impl Module {
    /// The fields are in strictly increasing order, as a sorted map holds them.
    pub open spec fn wf(&self) -> bool {
        fields_sorted(field_pairs(self.fields@))
    }

    /// Whether the fields are in strictly increasing order (see `wf`).
    pub fn has_sorted_fields(&self) -> (r: bool)
        ensures
            r == self.wf(),
    {
        fields_in_order(&self.fields)
    }
}

/// Whether the fields are in strictly increasing order of name.
pub fn fields_in_order(fields: &Vec<(String, String)>) -> (r: bool)
    ensures
        r == fields_sorted(field_pairs(fields@)),
{
    let ghost fs = field_pairs(fields@);
    if fields.len() == 0 {
        return true;
    }
    let mut i: usize = 1;
    while i < fields.len()
        invariant
            1 <= i <= fields.len(),
            fs == field_pairs(fields@),
            forall|a: int, b: int| 0 <= a < b < i ==> crate::text::text_less(#[trigger] fs[a].0, #[trigger] fs[b].0),
        decreases fields.len() - i,
    {
        assert(fs[i - 1].0 == fields@[i - 1].0@ && fs[i as int].0 == fields@[i as int].0@);
        if !text_lt(fields[i - 1].0.as_str(), fields[i].0.as_str()) {
            return false;
        }
        assert forall|a: int, b: int| 0 <= a < b < i + 1 implies crate::text::text_less(
            #[trigger] fs[a].0,
            #[trigger] fs[b].0,
        ) by {
            if b == i && a < i - 1 {
                lemma_text_less_transitive(fs[a].0, fs[i - 1].0, fs[b].0);
            }
        }
        i += 1;
    }
    true
}

/// Component-wise equality of two paths (`Path::new(a) == Path::new(b)`).
pub uninterp spec fn paths_equal(a: Seq<char>, b: Seq<char>) -> bool;

/// `Path::new(a) == Path::new(b)`; the answer is named `paths_equal`.
#[verifier::external_body]
fn same_path(a: &str, b: &str) -> (r: bool)
    ensures
        r == paths_equal(a@, b@),
{
    std::path::Path::new(a) == std::path::Path::new(b)
}

/// A record matches an invocation at `file:line:column` whose tokens have the
/// given fingerprint.
pub open spec fn module_matches(
    m: Module,
    file: Option<Seq<char>>,
    line: usize,
    column: usize,
    fp: Seq<char>,
) -> bool {
    &&& file matches Some(f) && paths_equal(m.file@, f)
    &&& m.line == line
    &&& m.column == column
    &&& m.fingerprint@ == fp
}

/// Position of the first matching record at or after `from`.
pub open spec fn first_match(
    modules: Seq<Module>,
    file: Option<Seq<char>>,
    line: usize,
    column: usize,
    fp: Seq<char>,
    from: nat,
) -> Option<nat>
    decreases modules.len() - from,
{
    if from >= modules.len() {
        None
    } else if module_matches(modules[from as int], file, line, column, fp) {
        Some(from)
    } else {
        first_match(modules, file, line, column, fp, from + 1)
    }
}

/// A record is found only where its path equals the invocation's file, which must
/// be text, and its line, column and fingerprint are the invocation's; it is the
/// first such record.
pub proof fn lemma_found_record_matches(
    modules: Seq<Module>,
    file: Option<Seq<char>>,
    line: usize,
    column: usize,
    fp: Seq<char>,
    from: nat,
)
    ensures
        first_match(modules, file, line, column, fp, from) matches Some(k) ==> {
            &&& from <= k < modules.len()
            &&& file matches Some(f) && paths_equal(modules[k as int].file@, f)
            &&& modules[k as int].line == line
            &&& modules[k as int].column == column
            &&& modules[k as int].fingerprint@ == fp
            &&& forall|j: int| from <= j < k ==> !(file matches Some(f) && paths_equal(#[trigger] modules[j].file@, f)
                && modules[j].line == line && modules[j].column == column && modules[j].fingerprint@ == fp)
        },
    decreases modules.len() - from,
{
    if from < modules.len() && !module_matches(modules[from as int], file, line, column, fp) {
        lemma_found_record_matches(modules, file, line, column, fp, from + 1);
    }
}

pub open spec fn version_message() -> Seq<char> {
    "incompatible CSS build manifest; use matching topcoat-css and topcoat-css-build versions"@
}

pub open spec fn not_collected_message(shown: Seq<char>, line: usize, column: usize) -> Seq<char> {
    "css! at "@ + shown + ":"@ + decimal(line as nat) + ":"@ + decimal(column as nat)
        + " was not collected by the build script; add its source directory with BuildConfig::source(...), register a renamed macro with macro_name(...), and ensure the build script reruns when sources change. Macro-generated CSS is not supported"@
}

/// Accepts a manifest written by this version of the build helper.
pub fn check_version(manifest: &Manifest) -> (r: Result<(), String>)
    ensures
        manifest.version == MANIFEST_VERSION ==> r is Ok,
        manifest.version != MANIFEST_VERSION ==> (r matches Err(m) && m@ == version_message()),
{
    if manifest.version != MANIFEST_VERSION {
        return Err(
            String::from_str(
                "incompatible CSS build manifest; use matching topcoat-css and topcoat-css-build versions",
            ),
        );
    }
    Ok(())
}

/// A path as text, when it is one.
pub open spec fn opt_text(file: Option<&str>) -> Option<Seq<char>> {
    match file {
        Some(f) => Some(f@),
        None => None,
    }
}

/// The record of the invocation at `file:line:column` with input `tokens`: the
/// first record for the same path and position whose fingerprint is that of the
/// tokens. A `file` that is no text (`None`) matches no record, whose paths are
/// all text. `shown` is the file as the error message names it.
pub fn locate_module(
    manifest: &Manifest,
    file: Option<&str>,
    shown: &str,
    line: usize,
    column: usize,
    tokens: TokenStream,
) -> (r: Result<usize, String>)
    ensures
        manifest.version != MANIFEST_VERSION ==> (r matches Err(m) && m@ == version_message()),
        manifest.version == MANIFEST_VERSION ==> match first_match(
            manifest.modules@,
            opt_text(file),
            line,
            column,
            fingerprint_spec(stream_tokens(tokens)),
            0,
        ) {
            Some(k) => r == Ok::<usize, String>(k as usize) && k < manifest.modules@.len(),
            None => r matches Err(m) && m@ == not_collected_message(shown@, line, column),
        },
        r matches Ok(k) ==> (file matches Some(f) && paths_equal(manifest.modules@[k as int].file@, f@)
            && manifest.modules@[k as int].line == line && manifest.modules@[k as int].column
            == column && manifest.modules@[k as int].fingerprint@ == fingerprint_spec(
            stream_tokens(tokens),
        )),
{
    proof {
        lemma_found_record_matches(
            manifest.modules@,
            opt_text(file),
            line,
            column,
            fingerprint_spec(stream_tokens(tokens)),
            0,
        );
    }
    check_version(manifest)?;
    let fp = fingerprint(tokens);
    let ghost mods = manifest.modules@;
    let ghost path = opt_text(file);
    let mut i: usize = 0;
    while i < manifest.modules.len()
        invariant
            i <= mods.len(),
            mods == manifest.modules@,
            path == opt_text(file),
            manifest.version == MANIFEST_VERSION,
            fp@ == fingerprint_spec(stream_tokens(tokens)),
            first_match(mods, path, line, column, fp@, 0) == first_match(
                mods,
                path,
                line,
                column,
                fp@,
                i as nat,
            ),
        decreases mods.len() - i,
    {
        let m = &manifest.modules[i];
        let same = match file {
            Some(f) => same_path(m.file.as_str(), f),
            None => false,
        };
        if same && m.line == line && m.column == column && crate::text::text_eq(
            m.fingerprint.as_str(),
            fp.as_str(),
        ) {
            return Ok(i);
        }
        i += 1;
    }
    let mut msg = concat3("css! at ", shown, ":");
    push_decimal(&mut msg, line);
    msg.append(":");
    push_decimal(&mut msg, column);
    msg.append(
        " was not collected by the build script; add its source directory with BuildConfig::source(...), register a renamed macro with macro_name(...), and ensure the build script reruns when sources change. Macro-generated CSS is not supported",
    );
    Err(msg)
}

/// What a `css!` invocation expands to: a value with one `&'static str` field per
/// export. An editor expansion carries empty placeholder values and a guard that
/// stops it from compiling; a build expansion carries the scoped class lists and
/// tracks the manifest file.
#[derive(Debug)]
pub struct Expansion {
    pub guard: bool,
    pub tracks_manifest: bool,
    pub fields: Vec<(String, String)>,
}

pub open spec fn field_message(error: Seq<char>) -> Seq<char> {
    "invalid generated CSS field: "@ + error
}

/// The expansion of a record whose fields all parsed as identifiers: the guard
/// and manifest tracking as `editor` says, and the fields in order, with empty
/// values for the editor and the scoped class lists otherwise.
pub open spec fn expansion_matches(e: Expansion, module: Module, editor: bool) -> bool {
    let fs = field_pairs(module.fields@);
    &&& e.guard == editor
    &&& e.tracks_manifest == !editor
    &&& field_pairs(e.fields@).len() == fs.len()
    &&& forall|i: int|
        0 <= i < fs.len() ==> (#[trigger] field_pairs(e.fields@)[i]).0 == fs[i].0
            && field_pairs(e.fields@)[i].1 == if editor {
            Seq::<char>::empty()
        } else {
            fs[i].1
        }
}

/// The expansion of a record (see `Expansion`). Each field is handed to the
/// identifier parser in order; the first reply that is an error becomes the
/// error, and with no such reply the expansion is `expansion_matches`. A record
/// without fields always expands.
pub fn module_expansion(module: &Module, editor: bool) -> (r: Result<Expansion, String>)
    requires
        module.wf(),
    ensures
        module.fields@.len() == 0 ==> r is Ok,
        match r {
            Ok(e) => expansion_matches(e, *module, editor) && forall|i: int|
                0 <= i < module.fields@.len() ==> ident_reply(
                    (#[trigger] field_pairs(module.fields@)[i]).0,
                    None,
                ),
            Err(m) => exists|k: int, msg: Seq<char>|
                0 <= k < module.fields@.len() && #[trigger] ident_reply(
                    field_pairs(module.fields@)[k].0,
                    Some(msg),
                ) && m@ == field_message(msg) && forall|j: int|
                    0 <= j < k ==> ident_reply((#[trigger] field_pairs(module.fields@)[j]).0, None),
        },
{
    let ghost fs = field_pairs(module.fields@);
    let mut i: usize = 0;
    while i < module.fields.len()
        invariant
            i <= module.fields@.len(),
            fs == field_pairs(module.fields@),
            forall|j: int| 0 <= j < i ==> ident_reply((#[trigger] fs[j]).0, None),
        decreases module.fields@.len() - i,
    {
        assert(fs[i as int].0 == module.fields@[i as int].0@);
        let reply = parse_ident(module.fields[i].0.as_str());
        match reply {
            Some(e) => {
                let mut m = String::from_str("invalid generated CSS field: ");
                m.append(e.as_str());
                assert(ident_reply(fs[i as int].0, Some(e@)));
                return Err(m);
            },
            None => {},
        }
        i += 1;
    }
    let mut fields: Vec<(String, String)> = Vec::new();
    let mut j: usize = 0;
    while j < module.fields.len()
        invariant
            j <= module.fields@.len(),
            fs == field_pairs(module.fields@),
            field_pairs(fields@).len() == j,
            forall|k: int|
                0 <= k < j ==> (#[trigger] field_pairs(fields@)[k]).0 == fs[k].0
                    && field_pairs(fields@)[k].1 == if editor {
                    Seq::<char>::empty()
                } else {
                    fs[k].1
                },
        decreases module.fields@.len() - j,
    {
        let name = module.fields[j].0.clone();
        let value = if editor {
            String::new()
        } else {
            module.fields[j].1.clone()
        };
        let ghost before = fields@;
        fields.push((name, value));
        assert(field_pairs(fields@) =~= field_pairs(before).push((name@, value@)));
        j += 1;
    }
    Ok(Expansion { guard: editor, tracks_manifest: !editor, fields })
}

/// The CSS that the editor reads from a macro input: the value of a string
/// literal, or else text rebuilt from the tokens.
pub open spec fn editor_css_spec(tokens: Seq<crate::tokens::TokenView>) -> Seq<char> {
    match string_literal_value(tokens) {
        Some(v) => v,
        None => css_text(tokens),
    }
}

/// The CSS that the editor compiles to discover fields (see `editor_css_spec`).
pub fn editor_css(input: &TokenStream) -> (r: String)
    ensures
        r@ == editor_css_spec(stream_tokens(*input)),
{
    match literal_string(input) {
        Some(v) => v,
        None => css_tokens(input),
    }
}

/// The record an editor expansion uses: no source position, only fields.
pub fn editor_module(fields: Vec<(String, String)>) -> (r: Module)
    requires
        fields_sorted(field_pairs(fields@)),
    ensures
        r.wf(),
        r.fields == fields,
        r.file@ == Seq::<char>::empty(),
        r.line == 0,
        r.column == 0,
        r.fingerprint@ == Seq::<char>::empty(),
{
    Module { file: String::new(), line: 0, column: 0, fingerprint: String::new(), fields }
}

} // verus!
