//! What a combined, relocated stylesheet cannot carry: imports, namespaces,
//! at-rules that cannot be scoped, and URLs relative to the source file.

use vstd::prelude::*;
use crate::text::chars_of;
use crate::compiler::concat3;

verus! {

/// The kinds of rule that the combined stylesheet must reject.
#[derive(Debug)]
pub enum RuleKind {
    Import,
    Namespace,
    /// An at-rule that the CSS parser does not know, by name.
    Unknown { name: String },
    /// Any other rule; its contents are checked in turn.
    Other,
}

pub open spec fn import_message() -> Seq<char> {
    "@import cannot be combined safely; load external stylesheets separately in the layout"@
}

pub open spec fn namespace_message() -> Seq<char> {
    "@namespace is unsupported in a combined stylesheet"@
}

pub open spec fn unknown_rule_message(name: Seq<char>) -> Seq<char> {
    "unknown @"@ + name + " rule cannot be scoped safely"@
}

/// Accepts a rule or says why the combined stylesheet cannot hold it.
pub fn check_rule(kind: &RuleKind) -> (r: Result<(), String>)
    ensures
        match kind {
            RuleKind::Import => r matches Err(m) && m@ == import_message(),
            RuleKind::Namespace => r matches Err(m) && m@ == namespace_message(),
            RuleKind::Unknown { name } => r matches Err(m) && m@ == unknown_rule_message(name@),
            RuleKind::Other => r is Ok,
        },
{
    match kind {
        RuleKind::Import => Err(
            String::from_str(
                "@import cannot be combined safely; load external stylesheets separately in the layout",
            ),
        ),
        RuleKind::Namespace => Err(
            String::from_str("@namespace is unsupported in a combined stylesheet"),
        ),
        RuleKind::Unknown { name } => Err(
            concat3("unknown @", name.as_str(), " rule cannot be scoped safely"),
        ),
        RuleKind::Other => Ok(()),
    }
}

pub open spec fn is_ascii_alpha(c: char) -> bool {
    ('a' <= c <= 'z') || ('A' <= c <= 'Z')
}

pub open spec fn is_ascii_digit(c: char) -> bool {
    '0' <= c <= '9'
}

/// Characters allowed in a URL scheme after its first letter.
pub open spec fn is_scheme_char(c: char) -> bool {
    is_ascii_alpha(c) || is_ascii_digit(c) || c == '+' || c == '-' || c == '.'
}

/// Position of the first `:` in `url` at or after `from`.
pub open spec fn first_colon(url: Seq<char>, from: nat) -> Option<nat>
    decreases url.len() - from,
{
    if from >= url.len() {
        None
    } else if url[from as int] == ':' {
        Some(from)
    } else {
        first_colon(url, from + 1)
    }
}

/// The URL starts with a scheme: a letter, then scheme characters, up to its first `:`.
pub open spec fn has_scheme(url: Seq<char>) -> bool {
    match first_colon(url, 0) {
        Some(k) => k > 0 && is_ascii_alpha(url[0]) && forall|i: int|
            0 <= i < k ==> is_scheme_char(#[trigger] url[i]),
        None => false,
    }
}

/// A URL that keeps its meaning when the stylesheet moves: root-relative, a
/// fragment, or with a scheme (absolute, data).
pub open spec fn url_allowed(url: Seq<char>) -> bool {
    ||| url.len() > 0 && url[0] == '/'
    ||| url.len() > 0 && url[0] == '#'
    ||| has_scheme(url)
}

pub open spec fn relative_url_message(url: Seq<char>) -> Seq<char> {
    "relative url("@ + url
        + ") would break in the asset bundle; use a root-relative URL, absolute URL, or data URL"@
}

fn alpha(c: char) -> (r: bool)
    ensures
        r == is_ascii_alpha(c),
{
    ('a' <= c && c <= 'z') || ('A' <= c && c <= 'Z')
}

fn scheme_char(c: char) -> (r: bool)
    ensures
        r == is_scheme_char(c),
{
    alpha(c) || ('0' <= c && c <= '9') || c == '+' || c == '-' || c == '.'
}

/// Whether `url` starts with a scheme (see `has_scheme`).
pub fn starts_with_scheme(url: &str) -> (r: bool)
    ensures
        r == has_scheme(url@),
{
    let v = chars_of(url);
    let mut k: usize = 0;
    while k < v.len() && v[k] != ':'
        invariant
            k <= v.len(),
            v@ == url@,
            first_colon(url@, 0) == first_colon(url@, k as nat),
        decreases v.len() - k,
    {
        k += 1;
    }
    if k == v.len() || k == 0 || !alpha(v[0]) {
        return false;
    }
    assert(first_colon(url@, k as nat) == Some(k as nat));
    let mut i: usize = 0;
    while i < k
        invariant
            i <= k < v.len(),
            v@ == url@,
            first_colon(url@, 0) == Some(k as nat),
            forall|j: int| 0 <= j < i ==> is_scheme_char(#[trigger] v@[j]),
        decreases k - i,
    {
        if !scheme_char(v[i]) {
            return false;
        }
        i += 1;
    }
    true
}

/// Accepts a URL that survives the move into the asset bundle (see `url_allowed`).
pub fn check_url(url: &str) -> (r: Result<(), String>)
    ensures
        url_allowed(url@) ==> r is Ok,
        !url_allowed(url@) ==> (r matches Err(m) && m@ == relative_url_message(url@)),
{
    let v = chars_of(url);
    if v.len() > 0 && (v[0] == '/' || v[0] == '#') {
        return Ok(());
    }
    if starts_with_scheme(url) {
        return Ok(());
    }
    Err(
        concat3(
            "relative url(",
            url,
            ") would break in the asset bundle; use a root-relative URL, absolute URL, or data URL",
        ),
    )
}

proof fn lemma_first_colon_found(url: Seq<char>, from: nat)
    ensures
        first_colon(url, from) matches Some(k) ==> from <= k < url.len() && url[k as int] == ':',
    decreases url.len() - from,
{
    if from < url.len() && url[from as int] != ':' {
        lemma_first_colon_found(url, from + 1);
    }
}

/// A URL has a scheme only up to a colon: the scheme is a letter and then letters,
/// digits, `+`, `-` or `.`, followed by `:`. So a URL with no colon that starts
/// with neither `/` nor `#` (a file name next to the source) is refused.
pub proof fn lemma_scheme_needs_colon(url: Seq<char>)
    ensures
        has_scheme(url) ==> exists|k: int|
            0 < k < url.len() && #[trigger] url[k] == ':' && is_ascii_alpha(url[0]) && forall|i: int|
                0 <= i < k ==> is_scheme_char(#[trigger] url[i]),
        !url.contains(':') && !(url.len() > 0 && (url[0] == '/' || url[0] == '#')) ==> !url_allowed(
            url,
        ),
{
    lemma_first_colon_found(url, 0);
    if has_scheme(url) {
        let k = first_colon(url, 0)->Some_0 as int;
        assert(url[k] == ':');
    }
    if !url.contains(':') {
        if let Some(k) = first_colon(url, 0) {
            assert(url[k as int] == ':');
            assert(url.contains(':'));
        }
    }
}

} // verus!
