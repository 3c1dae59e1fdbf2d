//! The rules that turn a scoped CSS module into Rust fields: naming of scoped
//! classes, the Rust field for each export, the composed class list of each
//! export, and the CSS that a combined stylesheet cannot carry.

use vstd::prelude::*;
use crate::exports::{EntryView, Exports, ExportView, Reference, ReferenceView, keys_sorted};
use crate::text::{text_less, text_lt, text_eq, chars_of, string_of};

verus! {

pub open spec fn texts(v: Seq<String>) -> Seq<Seq<char>> {
    v.map_values(|s: String| s@)
}

/// `a + b + c` as a new string.
pub fn concat3(a: &str, b: &str, c: &str) -> (r: String)
    ensures
        r@ == a@ + b@ + c@,
{
    let mut r = String::from_str(a);
    r.append(b);
    r.append(c);
    r
}

/// `output` with `value` appended unless it already holds it.
pub open spec fn with_unique(output: Seq<Seq<char>>, value: Seq<char>) -> Seq<Seq<char>> {
    if output.contains(value) {
        output
    } else {
        output.push(value)
    }
}

/// Appends `value` to `output` unless an equal string is already there.
pub fn push_unique(output: &mut Vec<String>, value: &str)
    ensures
        texts(final(output)@) == with_unique(texts(old(output)@), value@),
{
    let mut i: usize = 0;
    while i < output.len()
        invariant
            i <= output.len(),
            forall|j: int| 0 <= j < i ==> #[trigger] output@[j]@ != value@,
        decreases output.len() - i,
    {
        if text_eq(output[i].as_str(), value) {
            assert(texts(output@)[i as int] == value@);
            return;
        }
        i += 1;
    }
    proof {
        assert forall|j: int| 0 <= j < texts(output@).len() implies texts(output@)[j] != value@ by {
            assert(output@[j]@ != value@);
        }
    }
    let ghost before = output@;
    output.push(value.to_owned());
    assert(texts(output@) =~= texts(before).push(value@));
}

/// Position of the first entry whose original name is `name`, searching from `from`.
pub open spec fn first_key(ex: Seq<EntryView>, name: Seq<char>, from: nat) -> Option<nat>
    decreases ex.len() - from,
{
    if from >= ex.len() {
        None
    } else if ex[from as int].0 == name {
        Some(from)
    } else {
        first_key(ex, name, from + 1)
    }
}

/// Position of the first entry whose scoped name is `scoped`, searching from `from`.
pub open spec fn first_scoped(ex: Seq<EntryView>, scoped: Seq<char>, from: nat) -> Option<nat>
    decreases ex.len() - from,
{
    if from >= ex.len() {
        None
    } else if ex[from as int].1.name == scoped {
        Some(from)
    } else {
        first_scoped(ex, scoped, from + 1)
    }
}

/// Number of entries whose original name is not being resolved.
pub open spec fn unvisited(ex: Seq<EntryView>, visiting: Set<Seq<char>>) -> nat
    decreases ex.len(),
{
    if ex.len() == 0 {
        0
    } else {
        unvisited(ex.drop_last(), visiting) + if visiting.contains(ex.last().0) {
            0nat
        } else {
            1nat
        }
    }
}

pub proof fn lemma_first_key_found(ex: Seq<EntryView>, name: Seq<char>, from: nat)
    ensures
        first_key(ex, name, from) matches Some(k) ==> from <= k < ex.len() && ex[k as int].0
            == name,
    decreases ex.len() - from,
{
    if from < ex.len() && ex[from as int].0 != name {
        lemma_first_key_found(ex, name, from + 1);
    }
}

pub proof fn lemma_first_scoped_found(ex: Seq<EntryView>, scoped: Seq<char>, from: nat)
    ensures
        first_scoped(ex, scoped, from) matches Some(k) ==> from <= k < ex.len() && ex[k as int].1.name
            == scoped,
    decreases ex.len() - from,
{
    if from < ex.len() && ex[from as int].1.name != scoped {
        lemma_first_scoped_found(ex, scoped, from + 1);
    }
}

pub proof fn lemma_unvisited_shrinks(ex: Seq<EntryView>, visiting: Set<Seq<char>>, k: int)
    requires
        0 <= k < ex.len(),
        !visiting.contains(ex[k].0),
    ensures
        unvisited(ex, visiting.insert(ex[k].0)) < unvisited(ex, visiting),
    decreases ex.len(),
{
    lemma_unvisited_monotone(ex.drop_last(), visiting, ex[k].0);
    if k < ex.len() - 1 {
        lemma_unvisited_shrinks(ex.drop_last(), visiting, k);
    }
}

pub proof fn lemma_unvisited_monotone(ex: Seq<EntryView>, visiting: Set<Seq<char>>, name: Seq<char>)
    ensures
        unvisited(ex, visiting.insert(name)) <= unvisited(ex, visiting),
    decreases ex.len(),
{
    if ex.len() > 0 {
        lemma_unvisited_monotone(ex.drop_last(), visiting, name);
    }
}

pub open spec fn cyclic_message(name: Seq<char>) -> Seq<char> {
    "cyclic CSS composition involving `"@ + name + "`"@
}

pub open spec fn undefined_message(scoped: Seq<char>) -> Seq<char> {
    "composition refers to undefined local class `"@ + scoped + "`"@
}

pub open spec fn cross_file_message(specifier: Seq<char>) -> Seq<char> {
    "cross-file composes from `"@ + specifier
        + "` is unsupported; compose within the same css! module"@
}

/// The scoped class list of export `name`: its own scoped name, then in order what
/// it composes, local compositions resolved transitively, each name once.
/// `visiting` holds the exports whose resolution is under way.
pub open spec fn resolve_spec(
    ex: Seq<EntryView>,
    name: Seq<char>,
    visiting: Set<Seq<char>>,
    output: Seq<Seq<char>>,
) -> Result<Seq<Seq<char>>, Seq<char>>
    decreases unvisited(ex, visiting), 0nat, 0nat,
{
    if visiting.contains(name) {
        Err(cyclic_message(name))
    } else {
        match first_key(ex, name, 0) {
            None => Err(Seq::empty()),
            Some(k) => {
                proof {
                    lemma_first_key_found(ex, name, 0);
                    lemma_unvisited_shrinks(ex, visiting, k as int);
                }
                resolve_refs_spec(
                    ex,
                    visiting.insert(name),
                    ex[k as int].1.composes,
                    0,
                    with_unique(output, ex[k as int].1.name),
                )
            },
        }
    }
}

/// Resolution of the references `refs[i..]` of one export.
pub open spec fn resolve_refs_spec(
    ex: Seq<EntryView>,
    visiting: Set<Seq<char>>,
    refs: Seq<ReferenceView>,
    i: nat,
    output: Seq<Seq<char>>,
) -> Result<Seq<Seq<char>>, Seq<char>>
    decreases unvisited(ex, visiting), 1nat, refs.len() - i,
{
    if i >= refs.len() {
        Ok(output)
    } else {
        match refs[i as int] {
            ReferenceView::Local(scoped) => match first_scoped(ex, scoped, 0) {
                None => Err(undefined_message(scoped)),
                Some(k) => match resolve_spec(ex, ex[k as int].0, visiting, output) {
                    Ok(next) => resolve_refs_spec(ex, visiting, refs, i + 1, next),
                    Err(e) => Err(e),
                },
            },
            ReferenceView::Global(global) => resolve_refs_spec(
                ex,
                visiting,
                refs,
                i + 1,
                with_unique(output, global),
            ),
            ReferenceView::Dependency(_, specifier) => Err(cross_file_message(specifier)),
        }
    }
}

fn find_key(exports: &Exports, name: &str) -> (r: Option<usize>)
    ensures
        r matches Some(k) ==> first_key(exports@, name@, 0) == Some(k as nat),
        r is None ==> first_key(exports@, name@, 0) is None,
{
    let mut i: usize = 0;
    while i < exports.len()
        invariant
            i <= exports@.len(),
            first_key(exports@, name@, 0) == first_key(exports@, name@, i as nat),
        decreases exports@.len() - i,
    {
        let (key, _) = exports.entry(i);
        if text_eq(key.as_str(), name) {
            return Some(i);
        }
        i += 1;
    }
    None
}

fn find_scoped(exports: &Exports, scoped: &str) -> (r: Option<usize>)
    ensures
        r matches Some(k) ==> first_scoped(exports@, scoped@, 0) == Some(k as nat),
        r is None ==> first_scoped(exports@, scoped@, 0) is None,
{
    let mut i: usize = 0;
    while i < exports.len()
        invariant
            i <= exports@.len(),
            first_scoped(exports@, scoped@, 0) == first_scoped(exports@, scoped@, i as nat),
        decreases exports@.len() - i,
    {
        let (_, export) = exports.entry(i);
        if text_eq(export.name.as_str(), scoped) {
            return Some(i);
        }
        i += 1;
    }
    None
}

pub fn contains_text(v: &Vec<String>, s: &str) -> (r: bool)
    ensures
        r == texts(v@).contains(s@),
{
    let mut i: usize = 0;
    while i < v.len()
        invariant
            i <= v.len(),
            forall|j: int| 0 <= j < i ==> #[trigger] v@[j]@ != s@,
        decreases v.len() - i,
    {
        if text_eq(v[i].as_str(), s) {
            assert(texts(v@)[i as int] == s@);
            return true;
        }
        i += 1;
    }
    assert forall|j: int| 0 <= j < texts(v@).len() implies texts(v@)[j] != s@ by {
        assert(v@[j]@ != s@);
    }
    false
}

/// Appends to `output` the scoped class list of export `name` (see `resolve_spec`).
pub fn resolve_export(
    name: &str,
    exports: &Exports,
    visiting: &mut Vec<String>,
    output: &mut Vec<String>,
) -> (r: Result<(), String>)
    requires
        exports.wf(),
        first_key(exports@, name@, 0) is Some || texts(old(visiting)@).contains(name@),
    ensures
        match resolve_spec(exports@, name@, texts(old(visiting)@).to_set(), texts(old(output)@)) {
            Ok(o) => r is Ok && texts(final(output)@) == o && final(visiting)@ == old(visiting)@,
            Err(e) => r matches Err(m) && m@ == e,
        },
        texts(old(visiting)@).contains(name@) ==> final(output)@ == old(output)@ && final(visiting)@
            == old(visiting)@,
    decreases unvisited(exports@, texts(old(visiting)@).to_set()),
{
    let ghost ex = exports@;
    let ghost vset = texts(visiting@).to_set();
    if contains_text(visiting, name) {
        assert(texts(visiting@).contains(name@));
        assert(vset.contains(name@));
        return Err(concat3("cyclic CSS composition involving `", name, "`"));
    }
    let k = match find_key(exports, name) {
        Some(k) => k,
        None => {
            return Err(String::new());
        },
    };
    proof {
        lemma_first_key_found(ex, name@, 0);
    }
    let ghost old_visiting = visiting@;
    visiting.push(name.to_owned());
    proof {
        assert(texts(visiting@) =~= texts(old_visiting).push(name@));
        lemma_push_to_set(texts(old_visiting), name@);
        lemma_unvisited_shrinks(ex, vset, k as int);
    }
    let (_, export) = exports.entry(k);
    push_unique(output, export.name.as_str());
    let ghost vset2 = vset.insert(name@);
    let ghost refs = ex[k as int].1.composes;
    let ghost start = texts(output@);
    assert(resolve_spec(ex, name@, vset, texts(old(output)@)) == resolve_refs_spec(ex, vset2, refs, 0, start));
    let mut i: usize = 0;
    while i < export.composes.len()
        invariant
            exports.wf(),
            ex == exports@,
            export@ == ex[k as int].1,
            refs == export.composes@.map_values(|r: Reference| r@),
            i <= export.composes.len(),
            texts(visiting@) == texts(old_visiting).push(name@),
            visiting@ == old_visiting.push(visiting@.last()),
            texts(visiting@).to_set() == vset2,
            unvisited(ex, vset2) < unvisited(ex, vset),
            vset == texts(old(visiting)@).to_set(),
            !texts(old(visiting)@).contains(name@),
            resolve_spec(ex, name@, vset, texts(old(output)@)) == resolve_refs_spec(ex, vset2, refs, 0, start),
            resolve_refs_spec(ex, vset2, refs, 0, start) == resolve_refs_spec(
                ex,
                vset2,
                refs,
                i as nat,
                texts(output@),
            ),
        decreases export.composes.len() - i,
    {
        assert(refs[i as int] == export.composes@[i as int]@);
        match &export.composes[i] {
            Reference::Local { name: scoped } => {
                match find_scoped(exports, scoped.as_str()) {
                    None => {
                        return Err(
                            concat3(
                                "composition refers to undefined local class `",
                                scoped.as_str(),
                                "`",
                            ),
                        );
                    },
                    Some(j) => {
                        proof {
                            lemma_first_scoped_found(ex, scoped@, 0);
                        }
                        let (key, _) = exports.entry(j);
                        proof {
                            assert(first_key(ex, key@, 0) is Some) by {
                                lemma_first_key_exists(ex, key@, j as nat);
                            }
                        }
                        let ghost before = texts(output@);
                        match resolve_export(key.as_str(), exports, visiting, output) {
                            Ok(()) => {},
                            Err(e) => {
                                return Err(e);
                            },
                        }
                    },
                }
            },
            Reference::Global { name: global } => {
                push_unique(output, global.as_str());
            },
            Reference::Dependency { specifier, .. } => {
                return Err(
                    concat3(
                        "cross-file composes from `",
                        specifier.as_str(),
                        "` is unsupported; compose within the same css! module",
                    ),
                );
            },
        }
        i += 1;
    }
    visiting.pop();
    proof {
        assert(visiting@ =~= old_visiting);
    }
    Ok(())
}

pub proof fn lemma_push_to_set(s: Seq<Seq<char>>, x: Seq<char>)
    ensures
        s.push(x).to_set() == s.to_set().insert(x),
{
    assert forall|y: Seq<char>| s.push(x).to_set().contains(y) <==> s.to_set().insert(x).contains(y) by {
        if s.push(x).contains(y) {
            let j = choose|j: int| 0 <= j < s.push(x).len() && s.push(x)[j] == y;
            if j < s.len() {
                assert(s[j] == y);
            }
        }
        if s.contains(y) {
            let j = choose|j: int| 0 <= j < s.len() && s[j] == y;
            assert(s.push(x)[j] == y);
        }
        if y == x {
            assert(s.push(x)[s.len() as int] == y);
        }
    }
    assert(s.push(x).to_set() =~= s.to_set().insert(x));
}

pub proof fn lemma_first_key_exists(ex: Seq<EntryView>, name: Seq<char>, j: nat)
    requires
        j < ex.len(),
        ex[j as int].0 == name,
    ensures
        first_key(ex, name, 0) is Some,
{
    lemma_first_key_exists_from(ex, name, j, 0);
}

proof fn lemma_first_key_exists_from(ex: Seq<EntryView>, name: Seq<char>, j: nat, from: nat)
    requires
        from <= j < ex.len(),
        ex[j as int].0 == name,
    ensures
        first_key(ex, name, from) is Some,
    decreases j - from,
{
    if ex[from as int].0 != name {
        lemma_first_key_exists_from(ex, name, j, from + 1);
    }
}

/// Holds of a text and a reply of `syn::parse_str::<syn::Ident>` on it: `None`
/// when the text parsed as an identifier, else the error's message. The reply
/// depends on the lexer in use (inside a procedural macro the compiler's, else
/// proc-macro2's own, and they differ on some white space), so nothing is said of
/// which replies a text can get: only that a reply was given for that text.
pub uninterp spec fn ident_reply(text: Seq<char>, reply: Option<Seq<char>>) -> bool;

/// A reply as plain text.
pub open spec fn reply_view(r: Option<String>) -> Option<Seq<char>> {
    match r {
        Some(s) => Some(s@),
        None => None,
    }
}

/// A letter of ASCII or `_`.
pub open spec fn ascii_ident_start(c: char) -> bool {
    ('a' <= c && c <= 'z') || ('A' <= c && c <= 'Z') || c == '_'
}

/// A letter or digit of ASCII, or `_`.
pub open spec fn ascii_ident_continue(c: char) -> bool {
    ascii_ident_start(c) || ('0' <= c && c <= '9')
}

/// Text shaped as an ASCII identifier: both lexers read it as one identifier token.
pub open spec fn ident_shape(t: Seq<char>) -> bool {
    &&& t.len() > 0
    &&& ascii_ident_start(t[0])
    &&& forall|i: int| 1 <= i < t.len() ==> ascii_ident_continue(#[trigger] t[i])
}

/// The words that `syn` refuses as an identifier.
pub open spec fn syn_keyword(t: Seq<char>) -> bool {
    ||| t == "_"@
    ||| t == "abstract"@
    ||| t == "as"@
    ||| t == "async"@
    ||| t == "await"@
    ||| t == "become"@
    ||| t == "box"@
    ||| t == "break"@
    ||| t == "const"@
    ||| t == "continue"@
    ||| t == "crate"@
    ||| t == "do"@
    ||| t == "dyn"@
    ||| t == "else"@
    ||| t == "enum"@
    ||| t == "extern"@
    ||| t == "false"@
    ||| t == "final"@
    ||| t == "fn"@
    ||| t == "for"@
    ||| t == "if"@
    ||| t == "impl"@
    ||| t == "in"@
    ||| t == "let"@
    ||| t == "loop"@
    ||| t == "macro"@
    ||| t == "match"@
    ||| t == "mod"@
    ||| t == "move"@
    ||| t == "mut"@
    ||| t == "override"@
    ||| t == "priv"@
    ||| t == "pub"@
    ||| t == "ref"@
    ||| t == "return"@
    ||| t == "Self"@
    ||| t == "self"@
    ||| t == "static"@
    ||| t == "struct"@
    ||| t == "super"@
    ||| t == "trait"@
    ||| t == "true"@
    ||| t == "try"@
    ||| t == "type"@
    ||| t == "typeof"@
    ||| t == "unsafe"@
    ||| t == "unsized"@
    ||| t == "use"@
    ||| t == "virtual"@
    ||| t == "where"@
    ||| t == "while"@
    ||| t == "yield"@
}

/// What every reply on `text` satisfies, whichever lexer reads it: an ASCII
/// identifier is accepted unless `syn` counts it a keyword, and the raw form of an
/// ASCII identifier that may be raw (not `_`, `self`, `Self`, `super`, `crate`) is
/// accepted.
pub open spec fn reply_known(text: Seq<char>, reply: Option<Seq<char>>) -> bool {
    &&& ident_shape(text) ==> (reply is None <==> !syn_keyword(text))
    &&& (text.len() > 2 && text.take(2) == "r#"@ && ident_shape(text.skip(2)) && !reserved_field(
        text.skip(2),
    )) ==> reply is None
}

/// `syn::parse_str::<syn::Ident>(text)`: `None` when it parses, else the error's
/// message. The reply is tied to `text` by `ident_reply`; of ASCII identifiers and
/// their raw forms it says what both lexers agree on (`reply_known`).
#[verifier::external_body]
pub(crate) fn parse_ident(text: &str) -> (r: Option<String>)
    ensures
        ident_reply(text@, reply_view(r)),
        reply_known(text@, reply_view(r)),
{
    syn::parse_str::<syn::Ident>(text).err().map(|e| e.to_string())
}

/// A result as plain text.
pub open spec fn result_view(r: Result<String, String>) -> Result<Seq<char>, Seq<char>> {
    match r {
        Ok(s) => Ok(s@),
        Err(e) => Err(e@),
    }
}

/// `name.replace('-', "_")`.
pub open spec fn underscored(name: Seq<char>) -> Seq<char> {
    name.map_values(|c: char| if c == '-' { '_' } else { c })
}

/// Every hyphen of an export name becomes an underscore and nothing else
/// changes: the field text has the name's length, `_` wherever the name has `-`,
/// the name's character everywhere else, and no `-` at all.
pub proof fn lemma_underscored_replaces_every_hyphen(name: Seq<char>)
    ensures
        underscored(name).len() == name.len(),
        forall|i: int| 0 <= i < name.len() && name[i] == '-' ==> #[trigger] underscored(name)[i] == '_',
        forall|i: int| 0 <= i < name.len() && name[i] != '-' ==> #[trigger] underscored(name)[i] == name[i],
        !underscored(name).contains('-'),
{
    if underscored(name).contains('-') {
        let j = choose|j: int| 0 <= j < underscored(name).len() && underscored(name)[j] == '-';
        assert(underscored(name)[j] == if name[j] == '-' { '_' } else { name[j] });
    }
}

/// Names that no Rust field can have, even as raw identifiers.
pub open spec fn reserved_field(field: Seq<char>) -> bool {
    ||| field == "_"@
    ||| field == "self"@
    ||| field == "Self"@
    ||| field == "super"@
    ||| field == "crate"@
}

pub open spec fn reserved_message(name: Seq<char>) -> Seq<char> {
    "CSS export `"@ + name + "` cannot become a Rust field; rename this export"@
}

pub open spec fn invalid_field_message(name: Seq<char>) -> Seq<char> {
    "CSS export `"@ + name
        + "` cannot become a Rust field; use letters, digits, underscores, and hyphens, starting with a letter or underscore"@
}

/// The raw identifier form of a field.
pub open spec fn raw_field(field: Seq<char>) -> Seq<char> {
    "r#"@ + field
}

/// The Rust field of a CSS export: hyphens become underscores, and a text that is
/// no identifier as it stands becomes a raw identifier. `plain_ok` and `raw_ok`
/// are the parser's verdicts on the field and on its raw form.
pub open spec fn field_outcome(name: Seq<char>, plain_ok: bool, raw_ok: bool) -> Result<
    Seq<char>,
    Seq<char>,
> {
    let field = underscored(name);
    if reserved_field(field) {
        Err(reserved_message(name))
    } else if plain_ok {
        Ok(field)
    } else if raw_ok {
        Ok(raw_field(field))
    } else {
        Err(invalid_field_message(name))
    }
}

/// The parser was asked what `field_name` asks for export `name`: nothing for a
/// reserved field; else the field, with reply `plain`, and when that is an error
/// also the raw form, with reply `raw`.
pub open spec fn field_replies(name: Seq<char>, plain: Option<Seq<char>>, raw: Option<Seq<char>>) -> bool {
    let field = underscored(name);
    ||| reserved_field(field)
    ||| ident_reply(field, plain) && reply_known(field, plain) && (plain is None || (ident_reply(
        raw_field(field),
        raw,
    ) && reply_known(raw_field(field), raw)))
}

/// The field of an export whose name, with hyphens as underscores, is an ASCII
/// identifier: as it stands, or raw where `syn` counts it a keyword.
pub open spec fn ascii_field(name: Seq<char>) -> Result<Seq<char>, Seq<char>> {
    let field = underscored(name);
    if reserved_field(field) {
        Err(reserved_message(name))
    } else if syn_keyword(field) {
        Ok(raw_field(field))
    } else {
        Ok(field)
    }
}

/// An export whose name, with hyphens as underscores, is an ASCII identifier gets
/// the same field from either lexer: `user-name` becomes `user_name`, `type`
/// becomes `r#type`.
pub proof fn lemma_ascii_field(name: Seq<char>, plain: Option<Seq<char>>, raw: Option<Seq<char>>)
    requires
        field_replies(name, plain, raw),
        ident_shape(underscored(name)),
    ensures
        field_outcome(name, plain is None, raw is None) == ascii_field(name),
{
    let field = underscored(name);
    if !reserved_field(field) && syn_keyword(field) {
        reveal_strlit("r#");
        let r = raw_field(field);
        assert(r.take(2) =~= "r#"@);
        assert(r.skip(2) =~= field);
    }
}

/// The shapes a field can take: the export name with hyphens as underscores, as it
/// stands or as a raw identifier, never a reserved name.
pub open spec fn field_form(name: Seq<char>, field: Seq<char>) -> bool {
    &&& !reserved_field(underscored(name))
    &&& (field == underscored(name) || field == raw_field(underscored(name)))
}

fn underscore_hyphens(name: &str) -> (r: String)
    ensures
        r@ == underscored(name@),
{
    let v = chars_of(name);
    let mut out: Vec<char> = Vec::new();
    let mut i: usize = 0;
    while i < v.len()
        invariant
            i <= v.len(),
            v@ == name@,
            out@ == underscored(name@).take(i as int),
        decreases v.len() - i,
    {
        let c = v[i];
        out.push(if c == '-' { '_' } else { c });
        i += 1;
        assert(out@ =~= underscored(name@).take(i as int));
    }
    assert(underscored(name@).take(v.len() as int) =~= underscored(name@));
    string_of(&out)
}

fn is_reserved(field: &str) -> (r: bool)
    ensures
        r == reserved_field(field@),
{
    text_eq(field, "_") || text_eq(field, "self") || text_eq(field, "Self") || text_eq(field, "super")
        || text_eq(field, "crate")
}

/// The Rust field for the CSS export `name`, given the parser's verdicts on the
/// field and on its raw form (see `field_outcome`).
pub fn field_from_verdicts(name: &str, plain_ok: bool, raw_ok: bool) -> (r: Result<String, String>)
    ensures
        result_view(r) == field_outcome(name@, plain_ok, raw_ok),
{
    let field = underscore_hyphens(name);
    if is_reserved(field.as_str()) {
        return Err(
            concat3("CSS export `", name, "` cannot become a Rust field; rename this export"),
        );
    }
    if plain_ok {
        return Ok(field);
    }
    if raw_ok {
        let mut raw = String::from_str("r#");
        raw.append(field.as_str());
        return Ok(raw);
    }
    Err(
        concat3(
            "CSS export `",
            name,
            "` cannot become a Rust field; use letters, digits, underscores, and hyphens, starting with a letter or underscore",
        ),
    )
}

/// The Rust field for the CSS export `name`: the parser is asked about the field,
/// then, if it refuses that, about its raw form, and `field_outcome` of its
/// verdicts is the result.
pub fn field_name(name: &str) -> (r: Result<String, String>)
    ensures
        exists|plain: Option<Seq<char>>, raw: Option<Seq<char>>|
            #[trigger] field_replies(name@, plain, raw) && result_view(r) == field_outcome(
                name@,
                plain is None,
                raw is None,
            ),
{
    let field = underscore_hyphens(name);
    if is_reserved(field.as_str()) {
        let r = field_from_verdicts(name, false, false);
        assert(field_replies(name@, None, None));
        return r;
    }
    let plain = parse_ident(field.as_str());
    let raw = if plain.is_none() {
        None
    } else {
        let mut text = String::from_str("r#");
        text.append(field.as_str());
        assert(text@ == raw_field(field@));
        parse_ident(text.as_str())
    };
    let r = field_from_verdicts(name, plain.is_none(), raw.is_none());
    assert(field_replies(name@, reply_view(plain), reply_view(raw)));
    r
}

/// The names joined by single spaces (`join(" ")`).
pub open spec fn join_spaces(names: Seq<Seq<char>>) -> Seq<char>
    decreases names.len(),
{
    if names.len() == 0 {
        Seq::empty()
    } else if names.len() == 1 {
        names[0]
    } else {
        join_spaces(names.drop_last()) + " "@ + names.last()
    }
}

pub fn join_with_spaces(names: &Vec<String>) -> (r: String)
    ensures
        r@ == join_spaces(texts(names@)),
{
    let mut r = String::new();
    let mut i: usize = 0;
    while i < names.len()
        invariant
            i <= names.len(),
            r@ == join_spaces(texts(names@).take(i as int)),
        decreases names.len() - i,
    {
        assert(texts(names@).take(i + 1).drop_last() =~= texts(names@).take(i as int));
        if i > 0 {
            r.append(" ");
        }
        r.append(names[i].as_str());
        i += 1;
        proof {
            if i == 1 {
                assert(r@ =~= join_spaces(texts(names@).take(1)));
            } else {
                assert(r@ =~= join_spaces(texts(names@).take(i as int)));
            }
        }
    }
    assert(texts(names@).take(names.len() as int) =~= texts(names@));
    r
}

/// A field row: Rust field, original export name, scoped class list.
pub type Row = (Seq<char>, Seq<char>, Seq<char>);

/// `rows` with `row` inserted before the first row whose field sorts after it.
pub open spec fn insert_row(rows: Seq<Row>, row: Row) -> Seq<Row>
    decreases rows.len(),
{
    if rows.len() == 0 {
        seq![row]
    } else if text_less(row.0, rows[0].0) {
        seq![row] + rows
    } else {
        seq![rows[0]] + insert_row(rows.drop_first(), row)
    }
}

/// Position of the first row with field `field`, searching from `from`.
pub open spec fn row_with_field(rows: Seq<Row>, field: Seq<char>, from: nat) -> Option<nat>
    decreases rows.len() - from,
{
    if from >= rows.len() {
        None
    } else if rows[from as int].0 == field {
        Some(from)
    } else {
        row_with_field(rows, field, from + 1)
    }
}

pub open spec fn collision_message(previous: Seq<char>, name: Seq<char>, field: Seq<char>) -> Seq<
    char,
> {
    "CSS exports `"@ + previous + "` and `"@ + name + "` both produce Rust field `"@ + field
        + "`; rename one"@
}

/// The parser's replies for one export: on its field, and on the raw form.
pub type Replies = (Option<Seq<char>>, Option<Seq<char>>);

/// The field rows of the first `n` exports in order of original name, export `j`
/// having got the parser's replies `replies[j]`: each export's field and scoped
/// class list, or the first error met.
pub open spec fn field_rows(ex: Seq<EntryView>, n: nat, replies: Seq<Replies>) -> Result<Seq<Row>, Seq<char>>
    decreases n,
{
    if n == 0 || n > ex.len() {
        Ok(Seq::empty())
    } else {
        match field_rows(ex, (n - 1) as nat, replies) {
            Err(e) => Err(e),
            Ok(rows) => {
                let name = ex[n - 1].0;
                let answer = replies[n - 1];
                match field_outcome(name, answer.0 is None, answer.1 is None) {
                    Err(e) => Err(e),
                    Ok(f) => match row_with_field(rows, f, 0) {
                        Some(r) => Err(collision_message(rows[r as int].1, name, f)),
                        None => match resolve_spec(ex, name, Set::empty(), Seq::empty()) {
                            Err(e) => Err(e),
                            Ok(classes) => Ok(insert_row(rows, (f, name, join_spaces(classes)))),
                        },
                    },
                }
            },
        }
    }
}

/// Every export that the rows of `ex` reach got its replies from the parser.
pub open spec fn replies_given(ex: Seq<EntryView>, replies: Seq<Replies>) -> bool {
    &&& replies.len() == ex.len()
    &&& forall|j: int|
        0 <= j < ex.len() && field_rows(ex, j as nat, replies) is Ok ==> field_replies(
            ex[j].0,
            (#[trigger] replies[j]).0,
            replies[j].1,
        )
}

/// Fields in strictly increasing order, hence distinct.
pub open spec fn fields_sorted(fields: Seq<(Seq<char>, Seq<char>)>) -> bool {
    forall|i: int, j: int| 0 <= i < j < fields.len() ==> text_less(#[trigger] fields[i].0, #[trigger] fields[j].0)
}

/// Rows depend on the replies of the exports they reach only.
pub proof fn lemma_field_rows_prefix(ex: Seq<EntryView>, n: nat, r1: Seq<Replies>, r2: Seq<Replies>)
    requires
        forall|j: int| 0 <= j < n ==> r1[j] == r2[j],
    ensures
        field_rows(ex, n, r1) == field_rows(ex, n, r2),
    decreases n,
{
    if n > 0 {
        lemma_field_rows_prefix(ex, (n - 1) as nat, r1, r2);
    }
}

/// Field and class list of each row, in row order.
pub open spec fn row_fields(rows: Seq<Row>) -> Seq<(Seq<char>, Seq<char>)> {
    rows.map_values(|r: Row| (r.0, r.2))
}

pub open spec fn pair_texts(v: Seq<(String, String)>) -> Seq<(Seq<char>, Seq<char>)> {
    v.map_values(|p: (String, String)| (p.0@, p.1@))
}

pub open spec fn row_texts(v: Seq<(String, String, String)>) -> Seq<Row> {
    v.map_values(|p: (String, String, String)| (p.0@, p.1@, p.2@))
}

proof fn lemma_insert_row_at(rows: Seq<Row>, row: Row, p: int)
    requires
        0 <= p <= rows.len(),
        forall|j: int| 0 <= j < p ==> !text_less(row.0, #[trigger] rows[j].0),
        p < rows.len() ==> text_less(row.0, rows[p].0),
    ensures
        insert_row(rows, row) == rows.insert(p, row),
    decreases rows.len(),
{
    if rows.len() == 0 {
        assert(rows.insert(p, row) =~= seq![row]);
    } else if p == 0 {
        assert(rows.insert(p, row) =~= seq![row] + rows);
    } else {
        assert(!text_less(row.0, rows[0].0));
        let rest = rows.drop_first();
        assert forall|j: int| 0 <= j < p - 1 implies !text_less(row.0, #[trigger] rest[j].0) by {
            assert(rest[j] == rows[j + 1]);
        }
        lemma_insert_row_at(rest, row, p - 1);
        assert(rows.insert(p, row) =~= seq![rows[0]] + rest.insert(p - 1, row));
    }
}

fn find_row(rows: &Vec<(String, String, String)>, field: &str) -> (r: Option<usize>)
    ensures
        r matches Some(k) ==> row_with_field(row_texts(rows@), field@, 0) == Some(k as nat),
        r is None ==> row_with_field(row_texts(rows@), field@, 0) is None,
{
    let ghost rt = row_texts(rows@);
    let mut i: usize = 0;
    while i < rows.len()
        invariant
            i <= rows.len(),
            rt == row_texts(rows@),
            row_with_field(rt, field@, 0) == row_with_field(rt, field@, i as nat),
        decreases rows.len() - i,
    {
        assert(rt[i as int] == (rows@[i as int].0@, rows@[i as int].1@, rows@[i as int].2@));
        if text_eq(rows[i].0.as_str(), field) {
            return Some(i);
        }
        i += 1;
    }
    None
}

fn add_row(rows: &mut Vec<(String, String, String)>, row: (String, String, String))
    ensures
        row_texts(final(rows)@) == insert_row(row_texts(old(rows)@), (row.0@, row.1@, row.2@)),
{
    let ghost before = row_texts(rows@);
    let ghost rv = (row.0@, row.1@, row.2@);
    let mut p: usize = 0;
    while p < rows.len() && !text_lt(row.0.as_str(), rows[p].0.as_str())
        invariant
            p <= rows.len(),
            before == row_texts(rows@),
            rv == (row.0@, row.1@, row.2@),
            forall|j: int| 0 <= j < p ==> !text_less(rv.0, #[trigger] before[j].0),
        decreases rows.len() - p,
    {
        assert(before[p as int].0 == rows@[p as int].0@);
        p += 1;
    }
    proof {
        lemma_insert_row_at(before, rv, p as int);
    }
    rows.insert(p, row);
    assert(row_texts(rows@) =~= before.insert(p as int, rv));
}

/// Exports whose names, with hyphens as underscores, are all ASCII identifiers
/// get the same fields and the same first error from any two runs of the
/// parser: the result depends on the exports alone.
pub proof fn lemma_fields_determined(ex: Seq<EntryView>, r1: Seq<Replies>, r2: Seq<Replies>)
    requires
        replies_given(ex, r1),
        replies_given(ex, r2),
        forall|j: int| 0 <= j < ex.len() ==> ident_shape(underscored(#[trigger] ex[j].0)),
    ensures
        field_rows(ex, ex.len(), r1) == field_rows(ex, ex.len(), r2),
{
    lemma_fields_determined_upto(ex, r1, r2, ex.len());
}

proof fn lemma_fields_determined_upto(ex: Seq<EntryView>, r1: Seq<Replies>, r2: Seq<Replies>, n: nat)
    requires
        n <= ex.len(),
        replies_given(ex, r1),
        replies_given(ex, r2),
        forall|j: int| 0 <= j < ex.len() ==> ident_shape(underscored(#[trigger] ex[j].0)),
    ensures
        field_rows(ex, n, r1) == field_rows(ex, n, r2),
    decreases n,
{
    if n > 0 {
        let k = n - 1;
        lemma_fields_determined_upto(ex, r1, r2, k as nat);
        if field_rows(ex, k as nat, r1) is Ok {
            let name = ex[k].0;
            assert(ident_shape(underscored(ex[k].0)));
            assert(field_replies(name, r1[k].0, r1[k].1));
            assert(field_replies(name, r2[k].0, r2[k].1));
            lemma_ascii_field(name, r1[k].0, r1[k].1);
            lemma_ascii_field(name, r2[k].0, r2[k].1);
        }
    }
}

/// Once the rows of a prefix fail, every export that the rows reach got its replies.
proof fn lemma_replies_after_failure(ex: Seq<EntryView>, replies: Seq<Replies>, n: nat)
    requires
        n <= ex.len(),
        replies.len() == ex.len(),
        field_rows(ex, n, replies) is Err,
        forall|j: int| 0 <= j < n ==> field_replies(ex[j].0, (#[trigger] replies[j]).0, replies[j].1),
    ensures
        replies_given(ex, replies),
{
    assert forall|j: int|
        0 <= j < ex.len() && field_rows(ex, j as nat, replies) is Ok implies field_replies(
        ex[j].0,
        (#[trigger] replies[j]).0,
        replies[j].1,
    ) by {
        if j >= n {
            lemma_field_rows_stays_failed(ex, n, j as nat, replies);
        }
    }
}

/// The Rust fields of a CSS module with the scoped class list of each, sorted by
/// field; or the first error met in order of original name (see `field_rows`).
/// The parser's verdicts on field names come from `field_name`.
pub fn module_fields(exports: &Exports) -> (r: Result<Vec<(String, String)>, String>)
    requires
        exports.wf(),
    ensures
        exists|replies: Seq<Replies>|
            #[trigger] replies_given(exports@, replies) && match field_rows(
                exports@,
                exports@.len(),
                replies,
            ) {
                Ok(rows) => r matches Ok(f) && pair_texts(f@) == row_fields(rows) && fields_sorted(
                    pair_texts(f@),
                ),
                Err(e) => r matches Err(m) && m@ == e,
            },
{
    let ghost ex = exports@;
    let ghost mut replies: Seq<Replies> = Seq::new(ex.len(), |j: int| (None, None));
    let mut rows: Vec<(String, String, String)> = Vec::new();
    assert(row_texts(rows@) =~= Seq::<Row>::empty());
    let mut i: usize = 0;
    while i < exports.len()
        invariant
            exports.wf(),
            ex == exports@,
            i <= ex.len(),
            replies.len() == ex.len(),
            field_rows(ex, i as nat, replies) == Ok::<Seq<Row>, Seq<char>>(row_texts(rows@)),
            forall|j: int| 0 <= j < i ==> field_replies(ex[j].0, (#[trigger] replies[j]).0, replies[j].1),
        decreases ex.len() - i,
    {
        let (name, _) = exports.entry(i);
        let ghost prior = row_texts(rows@);
        let fr = field_name(name.as_str());
        let ghost (p, q) = choose|p: Option<Seq<char>>, q: Option<Seq<char>>|
            #[trigger] field_replies(name@, p, q) && result_view(fr) == field_outcome(
                name@,
                p is None,
                q is None,
            );
        proof {
            let before = replies;
            replies = replies.update(i as int, (p, q));
            lemma_field_rows_prefix(ex, i as nat, before, replies);
            assert(replies[i as int] == (p, q));
        }
        assert(field_rows(ex, (i + 1) as nat, replies) == match field_outcome(
            name@,
            p is None,
            q is None,
        ) {
            Err(e) => Err(e),
            Ok(f) => match row_with_field(prior, f, 0) {
                Some(r) => Err(collision_message(prior[r as int].1, name@, f)),
                None => match resolve_spec(ex, name@, Set::empty(), Seq::empty()) {
                    Err(e) => Err(e),
                    Ok(classes) => Ok(insert_row(prior, (f, name@, join_spaces(classes)))),
                },
            },
        });
        let field = match fr {
            Ok(f) => f,
            Err(e) => {
                proof {
                    lemma_field_rows_stays_failed(ex, (i + 1) as nat, ex.len(), replies);
                    lemma_replies_after_failure(ex, replies, (i + 1) as nat);
                }
                return Err(e);
            },
        };
        if let Some(r) = find_row(&rows, field.as_str()) {
            proof {
                lemma_row_found(prior, field@, 0);
            }
            let mut m = concat3("CSS exports `", rows[r].1.as_str(), "` and `");
            m.append(name.as_str());
            m.append("` both produce Rust field `");
            m.append(field.as_str());
            m.append("`; rename one");
            proof {
                assert(prior[r as int].1 == rows@[r as int].1@);
                assert(m@ =~= collision_message(prior[r as int].1, name@, field@));
                lemma_field_rows_stays_failed(ex, (i + 1) as nat, ex.len(), replies);
                lemma_replies_after_failure(ex, replies, (i + 1) as nat);
            }
            return Err(m);
        }
        let mut visiting: Vec<String> = Vec::new();
        let mut classes: Vec<String> = Vec::new();
        proof {
            lemma_first_key_exists(ex, name@, i as nat);
            assert(texts(visiting@).to_set() =~= Set::<Seq<char>>::empty());
            assert(texts(classes@) =~= Seq::<Seq<char>>::empty());
        }
        match resolve_export(name.as_str(), exports, &mut visiting, &mut classes) {
            Ok(()) => {},
            Err(e) => {
                proof {
                    lemma_field_rows_stays_failed(ex, (i + 1) as nat, ex.len(), replies);
                    lemma_replies_after_failure(ex, replies, (i + 1) as nat);
                }
                return Err(e);
            },
        }
        let value = join_with_spaces(&classes);
        let owned = name.clone();
        add_row(&mut rows, (field, owned, value));
        i += 1;
    }
    let mut out: Vec<(String, String)> = Vec::new();
    let mut j: usize = 0;
    while j < rows.len()
        invariant
            j <= rows.len(),
            pair_texts(out@) == row_fields(row_texts(rows@)).take(j as int),
        decreases rows.len() - j,
    {
        let ghost before = out@;
        let a = rows[j].0.clone();
        let b = rows[j].2.clone();
        out.push((a, b));
        assert(out@ == before.push((a, b)));
        assert(pair_texts(out@) =~= pair_texts(before).push((a@, b@)));
        assert(row_fields(row_texts(rows@))[j as int] == (rows@[j as int].0@, rows@[j as int].2@));
        j += 1;
        assert(pair_texts(out@) =~= row_fields(row_texts(rows@)).take(j as int));
    }
    assert(row_fields(row_texts(rows@)).take(rows.len() as int) =~= row_fields(row_texts(rows@)));
    proof {
        let rs = row_texts(rows@);
        lemma_field_rows_distinct(ex, ex.len(), replies);
        assert forall|a: int, b: int| 0 <= a < b < pair_texts(out@).len() implies text_less(
            #[trigger] pair_texts(out@)[a].0,
            #[trigger] pair_texts(out@)[b].0,
        ) by {
            assert(pair_texts(out@)[a].0 == rs[a].0);
            assert(pair_texts(out@)[b].0 == rs[b].0);
        }
        assert(replies_given(ex, replies));
    }
    Ok(out)
}

proof fn lemma_row_found(rows: Seq<Row>, field: Seq<char>, from: nat)
    ensures
        row_with_field(rows, field, from) matches Some(k) ==> from <= k < rows.len(),
    decreases rows.len() - from,
{
    if from < rows.len() && rows[from as int].0 != field {
        lemma_row_found(rows, field, from + 1);
    }
}

proof fn lemma_with_unique(output: Seq<Seq<char>>, value: Seq<char>)
    ensures
        with_unique(output, value).contains(value),
        output.no_duplicates() ==> with_unique(output, value).no_duplicates(),
        output.is_prefix_of(with_unique(output, value)),
{
    if !output.contains(value) {
        assert(output.push(value)[output.len() as int] == value);
        assert(output.is_prefix_of(output.push(value)));
        if output.no_duplicates() {
            assert forall|i: int, j: int|
                0 <= i < output.push(value).len() && 0 <= j < output.push(value).len() && i != j
                    implies output.push(value)[i] != output.push(value)[j] by {
                if i < output.len() && j < output.len() {
                } else if i < output.len() {
                    assert(output.push(value)[i] == output[i]);
                } else {
                    assert(output.push(value)[j] == output[j]);
                }
            }
        }
    } else {
        assert(output.is_prefix_of(output));
    }
}

proof fn lemma_prefix_transitive(a: Seq<Seq<char>>, b: Seq<Seq<char>>, c: Seq<Seq<char>>)
    requires
        a.is_prefix_of(b),
        b.is_prefix_of(c),
    ensures
        a.is_prefix_of(c),
{
    assert forall|i: int| 0 <= i < a.len() implies a[i] == c[i] by {
        assert(a[i] == b[i]);
    }
}

/// Resolution only extends its output, and keeps it free of duplicates.
proof fn lemma_resolve_extends(
    ex: Seq<EntryView>,
    name: Seq<char>,
    visiting: Set<Seq<char>>,
    output: Seq<Seq<char>>,
)
    ensures
        resolve_spec(ex, name, visiting, output) matches Ok(o) ==> output.is_prefix_of(o) && (
        output.no_duplicates() ==> o.no_duplicates()),
    decreases unvisited(ex, visiting), 0nat, 0nat,
{
    if !visiting.contains(name) {
        if let Some(k) = first_key(ex, name, 0) {
            lemma_first_key_found(ex, name, 0);
            lemma_unvisited_shrinks(ex, visiting, k as int);
            let first = with_unique(output, ex[k as int].1.name);
            lemma_with_unique(output, ex[k as int].1.name);
            lemma_resolve_refs_extends(ex, visiting.insert(name), ex[k as int].1.composes, 0, first);
            if let Ok(o) = resolve_spec(ex, name, visiting, output) {
                lemma_prefix_transitive(output, first, o);
            }
        }
    }
}

proof fn lemma_resolve_refs_extends(
    ex: Seq<EntryView>,
    visiting: Set<Seq<char>>,
    refs: Seq<ReferenceView>,
    i: nat,
    output: Seq<Seq<char>>,
)
    ensures
        resolve_refs_spec(ex, visiting, refs, i, output) matches Ok(o) ==> output.is_prefix_of(o) && (
        output.no_duplicates() ==> o.no_duplicates()),
    decreases unvisited(ex, visiting), 1nat, refs.len() - i,
{
    if i >= refs.len() {
        assert(output.is_prefix_of(output));
    } else {
        match refs[i as int] {
            ReferenceView::Local(scoped) => {
                if let Some(k) = first_scoped(ex, scoped, 0) {
                    lemma_resolve_extends(ex, ex[k as int].0, visiting, output);
                    if let Ok(next) = resolve_spec(ex, ex[k as int].0, visiting, output) {
                        lemma_resolve_refs_extends(ex, visiting, refs, i + 1, next);
                        if let Ok(o) = resolve_refs_spec(ex, visiting, refs, i, output) {
                            lemma_prefix_transitive(output, next, o);
                        }
                    }
                }
            },
            ReferenceView::Global(global) => {
                let next = with_unique(output, global);
                lemma_with_unique(output, global);
                lemma_resolve_refs_extends(ex, visiting, refs, i + 1, next);
                if let Ok(o) = resolve_refs_spec(ex, visiting, refs, i, output) {
                    lemma_prefix_transitive(output, next, o);
                }
            },
            ReferenceView::Dependency(_, _) => {},
        }
    }
}

proof fn lemma_first_key_distinct(ex: Seq<EntryView>, k: nat, from: nat)
    requires
        keys_sorted(ex),
        from <= k < ex.len(),
    ensures
        first_key(ex, ex[k as int].0, from) == Some(k),
    decreases k - from,
{
    if from < k {
        assert(text_less(ex[from as int].0, ex[k as int].0));
        crate::text::lemma_text_less_irreflexive(ex[k as int].0);
        lemma_first_key_distinct(ex, k, from + 1);
    }
}

/// The class list of an export starts with its own scoped name and holds every
/// class once: `style.card` is `card_tc…` followed by what it composes.
pub proof fn lemma_class_list(ex: Seq<EntryView>, k: int)
    requires
        keys_sorted(ex),
        0 <= k < ex.len(),
    ensures
        resolve_spec(ex, ex[k].0, Set::empty(), Seq::empty()) matches Ok(o) ==> o.len() > 0 && o[0]
            == ex[k].1.name && o.no_duplicates(),
{
    let name = ex[k].0;
    lemma_first_key_distinct(ex, k as nat, 0);
    let first = with_unique(Seq::<Seq<char>>::empty(), ex[k].1.name);
    assert(first =~= seq![ex[k].1.name]);
    lemma_resolve_refs_extends(ex, Set::empty().insert(name), ex[k].1.composes, 0, first);
    assert(resolve_spec(ex, name, Set::empty(), Seq::empty()) == resolve_refs_spec(
        ex,
        Set::empty().insert(name),
        ex[k].1.composes,
        0,
        first,
    ));
    assert(first.no_duplicates());
    if let Ok(o) = resolve_spec(ex, name, Set::empty(), Seq::empty()) {
        assert(first[0] == o[0]);
    }
}

/// Rows in strictly increasing order of field, hence with distinct fields.
pub open spec fn rows_sorted(rows: Seq<Row>) -> bool {
    forall|i: int, j: int| 0 <= i < j < rows.len() ==> text_less(#[trigger] rows[i].0, #[trigger] rows[j].0)
}

proof fn lemma_row_absent(rows: Seq<Row>, field: Seq<char>, from: nat)
    requires
        row_with_field(rows, field, from) is None,
    ensures
        forall|i: int| from <= i < rows.len() ==> #[trigger] rows[i].0 != field,
    decreases rows.len() - from,
{
    if from < rows.len() {
        lemma_row_absent(rows, field, from + 1);
    }
}

proof fn lemma_insert_row(rows: Seq<Row>, row: Row)
    requires
        rows_sorted(rows),
        forall|i: int| 0 <= i < rows.len() ==> #[trigger] rows[i].0 != row.0,
    ensures
        rows_sorted(insert_row(rows, row)),
        insert_row(rows, row).len() == rows.len() + 1,
        forall|x: Row| #[trigger] insert_row(rows, row).contains(x) <==> (rows.contains(x) || x == row),
    decreases rows.len(),
{
    let r = insert_row(rows, row);
    if rows.len() == 0 {
        assert(r =~= seq![row]);
        assert forall|x: Row| r.contains(x) <==> (rows.contains(x) || x == row) by {
            if r.contains(x) {
                assert(r[0] == x);
            }
            if x == row {
                assert(r[0] == x);
            }
        }
    } else if text_less(row.0, rows[0].0) {
        assert(r =~= seq![row] + rows);
        assert forall|i: int, j: int| 0 <= i < j < r.len() implies text_less(#[trigger] r[i].0, #[trigger] r[j].0) by {
            if i == 0 {
                if j > 1 {
                    crate::text::lemma_text_less_transitive(row.0, rows[0].0, rows[j - 1].0);
                }
            } else {
                assert(r[i] == rows[i - 1] && r[j] == rows[j - 1]);
            }
        }
        assert forall|x: Row| r.contains(x) <==> (rows.contains(x) || x == row) by {
            if r.contains(x) {
                let k = choose|k: int| 0 <= k < r.len() && r[k] == x;
                if k > 0 {
                    assert(rows[k - 1] == x);
                }
            }
            if rows.contains(x) {
                let k = choose|k: int| 0 <= k < rows.len() && rows[k] == x;
                assert(r[k + 1] == x);
            }
            if x == row {
                assert(r[0] == x);
            }
        }
    } else {
        let rest = rows.drop_first();
        assert forall|i: int| 0 <= i < rest.len() implies #[trigger] rest[i].0 != row.0 by {
            assert(rest[i] == rows[i + 1]);
        }
        assert forall|i: int, j: int| 0 <= i < j < rest.len() implies text_less(#[trigger] rest[i].0, #[trigger] rest[j].0) by {
            assert(rest[i] == rows[i + 1] && rest[j] == rows[j + 1]);
        }
        lemma_insert_row(rest, row);
        let inner = insert_row(rest, row);
        assert(r =~= seq![rows[0]] + inner);
        crate::text::lemma_text_less_total(row.0, rows[0].0);
        assert(text_less(rows[0].0, row.0));
        assert forall|i: int, j: int| 0 <= i < j < r.len() implies text_less(#[trigger] r[i].0, #[trigger] r[j].0) by {
            if i == 0 {
                assert(r[j] == inner[j - 1]);
                assert(inner.contains(inner[j - 1]));
                if inner[j - 1] != row {
                    assert(rest.contains(inner[j - 1]));
                    let k = choose|k: int| 0 <= k < rest.len() && rest[k] == inner[j - 1];
                    assert(rest[k] == rows[k + 1]);
                }
            } else {
                assert(r[i] == inner[i - 1] && r[j] == inner[j - 1]);
            }
        }
        assert forall|x: Row| r.contains(x) <==> (rows.contains(x) || x == row) by {
            if r.contains(x) {
                let k = choose|k: int| 0 <= k < r.len() && r[k] == x;
                if k > 0 {
                    assert(inner[k - 1] == x);
                    assert(inner.contains(x));
                    if rest.contains(x) {
                        let m = choose|m: int| 0 <= m < rest.len() && rest[m] == x;
                        assert(rows[m + 1] == x);
                    }
                } else {
                    assert(rows[0] == x);
                }
            }
            if rows.contains(x) {
                let k = choose|k: int| 0 <= k < rows.len() && rows[k] == x;
                if k == 0 {
                    assert(r[0] == x);
                } else {
                    assert(rest[k - 1] == x);
                    assert(rest.contains(x));
                    assert(inner.contains(x));
                    let m = choose|m: int| 0 <= m < inner.len() && inner[m] == x;
                    assert(r[m + 1] == x);
                }
            }
            if x == row {
                assert(inner.contains(x));
                let m = choose|m: int| 0 <= m < inner.len() && inner[m] == x;
                assert(r[m + 1] == x);
            }
        }
    }
}

/// The fields of a CSS module are distinct and in order, one per export, each its
/// export's name with hyphens as underscores, as it stands or as a raw
/// identifier: two exports that would share a field fail instead.
pub proof fn lemma_field_rows_distinct(ex: Seq<EntryView>, n: nat, replies: Seq<Replies>)
    requires
        n <= ex.len(),
    ensures
        field_rows(ex, n, replies) matches Ok(rows) ==> {
            &&& rows_sorted(rows)
            &&& rows.len() == n
            &&& forall|r: int| 0 <= r < rows.len() ==> field_form(#[trigger] rows[r].1, rows[r].0)
        },
    decreases n,
{
    if n > 0 {
        lemma_field_rows_distinct(ex, (n - 1) as nat, replies);
        if let Ok(rows) = field_rows(ex, (n - 1) as nat, replies) {
            let name = ex[n - 1].0;
            let answer = replies[n - 1];
            if let Ok(f) = field_outcome(name, answer.0 is None, answer.1 is None) {
                if row_with_field(rows, f, 0) is None {
                    if let Ok(classes) = resolve_spec(ex, name, Set::empty(), Seq::empty()) {
                        let row = (f, name, join_spaces(classes));
                        lemma_row_absent(rows, f, 0);
                        lemma_insert_row(rows, row);
                        let out = insert_row(rows, row);
                        assert forall|r: int| 0 <= r < out.len() implies field_form(
                            #[trigger] out[r].1,
                            out[r].0,
                        ) by {
                            assert(out.contains(out[r]));
                            if out[r] != row {
                                let k = choose|k: int| 0 <= k < rows.len() && rows[k] == out[r];
                                assert(field_form(rows[k].1, rows[k].0));
                            }
                        }
                    }
                }
            }
        }
    }
}

/// Once the rows of a prefix fail, the rows of every longer prefix fail the same way.
pub proof fn lemma_field_rows_stays_failed(ex: Seq<EntryView>, n: nat, m: nat, replies: Seq<Replies>)
    requires
        n <= m <= ex.len(),
        field_rows(ex, n, replies) is Err,
    ensures
        field_rows(ex, m, replies) == field_rows(ex, n, replies),
    decreases m - n,
{
    if n < m {
        lemma_field_rows_stays_failed(ex, n, (m - 1) as nat, replies);
    }
}

} // verus!
