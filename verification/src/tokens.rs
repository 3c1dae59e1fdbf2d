//! Rust token streams as the scanner and the macros see them: each token with
//! its text and source position, groups with their delimiters and contents.

use vstd::prelude::*;
use proc_macro2::{Delimiter, Group, LineColumn, TokenStream, TokenTree};
use crate::text::{decimal, push_decimal};

verus! {

#[verifier::external_type_specification]
#[verifier::external_body]
pub struct ExTokenStream(proc_macro2::TokenStream);

#[verifier::external_type_specification]
#[verifier::external_body]
pub struct ExGroup(proc_macro2::Group);

/// A one-based line and zero-based character column in a source text.
#[derive(Clone, Copy, Debug, PartialEq, Eq, Structural)]
pub struct Position {
    pub line: usize,
    pub column: usize,
}

/// The delimiter of a token group.
#[derive(Clone, Copy, Debug, PartialEq, Eq, Structural)]
pub enum Delim {
    Parenthesis,
    Brace,
    Bracket,
    /// An invisible group, as macros produce.
    Invisible,
}

/// One token tree: a group with its contents, or a single token with its text.
pub enum TokenView {
    Group {
        delimiter: Delim,
        /// Start of the opening delimiter.
        open: Position,
        /// End of the opening delimiter.
        open_end: Position,
        /// Start of the closing delimiter.
        close_start: Position,
        tokens: Seq<TokenView>,
    },
    Ident { text: Seq<char>, start: Position },
    Punct { ch: char, start: Position },
    Literal { text: Seq<char>, start: Position },
}

/// The token trees that a token stream holds, in order.
pub uninterp spec fn stream_tokens(stream: TokenStream) -> Seq<TokenView>;

/// The group token tree that a group holds.
pub uninterp spec fn group_token(group: Group) -> TokenView;

/// One token tree handed out of a stream; a group stays a group.
pub enum Tree {
    Group(Group),
    Ident { text: String, start: Position },
    Punct { ch: char, start: Position },
    Literal { text: String, start: Position },
}

pub open spec fn tree_view(tree: Tree) -> TokenView {
    match tree {
        Tree::Group(g) => group_token(g),
        Tree::Ident { text, start } => TokenView::Ident { text: text@, start },
        Tree::Punct { ch, start } => TokenView::Punct { ch, start },
        Tree::Literal { text, start } => TokenView::Literal { text: text@, start },
    }
}

/// What a group holds: its delimiter, positions and inner stream.
pub struct GroupParts {
    pub delimiter: Delim,
    pub open: Position,
    pub open_end: Position,
    pub close_start: Position,
    pub stream: TokenStream,
}

/// `TokenStream::into_iter`: the token trees of the stream in order, each with its
/// text (`to_string`, `as_char`) and the start of its span.
#[verifier::external_body]
pub(crate) fn stream_trees(stream: &TokenStream) -> (r: Vec<Tree>)
    ensures
        r@.len() == stream_tokens(*stream).len(),
        forall|i: int| 0 <= i < r@.len() ==> tree_view(#[trigger] r@[i]) == stream_tokens(*stream)[i],
        forall|i: int| 0 <= i < r@.len() && (#[trigger] r@[i] is Group) ==> stream_tokens(*stream)[i] is Group,
{
    let at = |lc: LineColumn| Position { line: lc.line, column: lc.column };
    stream.clone().into_iter().map(|tree| match tree {
        TokenTree::Group(g) => Tree::Group(g),
        TokenTree::Ident(i) => Tree::Ident { text: i.to_string(), start: at(i.span().start()) },
        TokenTree::Punct(p) => Tree::Punct { ch: p.as_char(), start: at(p.span().start()) },
        TokenTree::Literal(l) => Tree::Literal { text: l.to_string(), start: at(l.span().start()) },
    }).collect()
}

/// `Group::delimiter`, `Group::stream` and the group's spans: the parts of the group token.
#[verifier::external_body]
pub(crate) fn group_parts(group: &Group) -> (r: GroupParts)
    ensures
        group_token(*group) == (TokenView::Group {
            delimiter: r.delimiter,
            open: r.open,
            open_end: r.open_end,
            close_start: r.close_start,
            tokens: stream_tokens(r.stream),
        }),
{
    let at = |lc: LineColumn| Position { line: lc.line, column: lc.column };
    let delimiter = match group.delimiter() {
        Delimiter::Parenthesis => Delim::Parenthesis,
        Delimiter::Brace => Delim::Brace,
        Delimiter::Bracket => Delim::Bracket,
        Delimiter::None => Delim::Invisible,
    };
    GroupParts {
        delimiter,
        open: at(group.span().start()),
        open_end: at(group.span_open().end()),
        close_start: at(group.span_close().start()),
        stream: group.stream(),
    }
}

/// `Debug` name of a delimiter.
pub open spec fn delim_name(d: Delim) -> Seq<char> {
    match d {
        Delim::Parenthesis => "Parenthesis"@,
        Delim::Brace => "Brace"@,
        Delim::Bracket => "Bracket"@,
        Delim::Invisible => "None"@,
    }
}

fn delimiter_name(d: Delim) -> (r: &'static str)
    ensures
        r@ == delim_name(d),
{
    match d {
        Delim::Parenthesis => "Parenthesis",
        Delim::Brace => "Brace",
        Delim::Bracket => "Bracket",
        Delim::Invisible => "None",
    }
}

/// Number of UTF-8 bytes of a text (`str::len`).
pub open spec fn byte_len(s: Seq<char>) -> nat {
    vstd::utf8::encode_utf8(s).len()
}

/// One fingerprint record: byte length of the kind, `:`, the kind, byte length of
/// the value, `:`, the value.
pub open spec fn record(kind: Seq<char>, value: Seq<char>) -> Seq<char> {
    decimal(byte_len(kind)) + ":"@ + kind + decimal(byte_len(value)) + ":"@ + value
}

/// The fingerprint of a token sequence: one record per token tree, a group's
/// value being the fingerprint of its contents. Spans play no part.
pub open spec fn fingerprint_spec(tokens: Seq<TokenView>) -> Seq<char>
    decreases tokens,
{
    if tokens.len() == 0 {
        Seq::empty()
    } else {
        let rest = fingerprint_spec(tokens.drop_last());
        let last = tokens[tokens.len() - 1];
        match last {
            TokenView::Group { delimiter, tokens: inner, .. } => rest + record(
                delim_name(delimiter),
                fingerprint_spec(inner),
            ),
            TokenView::Ident { text, .. } => rest + record("ident"@, text),
            TokenView::Punct { ch, .. } => rest + record("punct"@, seq![ch]),
            TokenView::Literal { text, .. } => rest + record("literal"@, text),
        }
    }
}

/// The fingerprint record of one token tree.
pub open spec fn record_of(t: TokenView) -> Seq<char> {
    match t {
        TokenView::Group { delimiter, tokens: inner, .. } => record(
            delim_name(delimiter),
            fingerprint_spec(inner),
        ),
        TokenView::Ident { text, .. } => record("ident"@, text),
        TokenView::Punct { ch, .. } => record("punct"@, seq![ch]),
        TokenView::Literal { text, .. } => record("literal"@, text),
    }
}

/// The kind that a record names.
pub open spec fn kind_of(t: TokenView) -> Seq<char> {
    match t {
        TokenView::Group { delimiter, .. } => delim_name(delimiter),
        TokenView::Ident { .. } => "ident"@,
        TokenView::Punct { .. } => "punct"@,
        TokenView::Literal { .. } => "literal"@,
    }
}

/// Two token trees with the same contents: the same kind of token with the same
/// text, or groups with the same delimiter and the same contents.
pub open spec fn same_contents(a: Seq<TokenView>, b: Seq<TokenView>) -> bool
    decreases a,
{
    if a.len() != b.len() {
        false
    } else if a.len() == 0 {
        true
    } else {
        same_contents(a.drop_first(), b.drop_first()) && match a[0] {
            TokenView::Group { delimiter: d1, tokens: t1, .. } => match b[0] {
                TokenView::Group { delimiter: d2, tokens: t2, .. } => d1 == d2 && same_contents(t1, t2),
                _ => false,
            },
            TokenView::Ident { text: s1, .. } => match b[0] {
                TokenView::Ident { text: s2, .. } => s1 == s2,
                _ => false,
            },
            TokenView::Punct { ch: c1, .. } => match b[0] {
                TokenView::Punct { ch: c2, .. } => c1 == c2,
                _ => false,
            },
            TokenView::Literal { text: s1, .. } => match b[0] {
                TokenView::Literal { text: s2, .. } => s1 == s2,
                _ => false,
            },
        }
    }
}

proof fn lemma_fingerprint_front(s: Seq<TokenView>)
    requires
        s.len() > 0,
    ensures
        fingerprint_spec(s) == record_of(s[0]) + fingerprint_spec(s.drop_first()),
    decreases s.len(),
{
    assert(fingerprint_spec(s) == fingerprint_spec(s.drop_last()) + record_of(s[s.len() - 1]));
    if s.len() == 1 {
        assert(s.drop_last().len() == 0);
        assert(s.drop_first().len() == 0);
        assert(fingerprint_spec(s.drop_last()) =~= Seq::<char>::empty());
        assert(fingerprint_spec(s.drop_first()) =~= Seq::<char>::empty());
        assert(fingerprint_spec(s) =~= record_of(s[0]) + fingerprint_spec(s.drop_first()));
    } else {
        let init = s.drop_last();
        lemma_fingerprint_front(init);
        let rest = s.drop_first();
        assert(init.drop_first() =~= rest.drop_last());
        assert(init[0] == s[0]);
        assert(rest[rest.len() - 1] == s[s.len() - 1]);
        assert(fingerprint_spec(rest) == fingerprint_spec(rest.drop_last()) + record_of(
            rest[rest.len() - 1],
        ));
        assert(fingerprint_spec(s) =~= record_of(s[0]) + fingerprint_spec(s.drop_first()));
    }
}

/// The fingerprint depends on token contents only: moving an invocation, or
/// reformatting around its tokens, keeps its fingerprint.
pub proof fn lemma_fingerprint_ignores_positions(a: Seq<TokenView>, b: Seq<TokenView>)
    requires
        same_contents(a, b),
    ensures
        fingerprint_spec(a) == fingerprint_spec(b),
    decreases a,
{
    if a.len() > 0 {
        lemma_fingerprint_front(a);
        lemma_fingerprint_front(b);
        lemma_fingerprint_ignores_positions(a.drop_first(), b.drop_first());
        if let TokenView::Group { tokens: t1, .. } = a[0] {
            if let TokenView::Group { tokens: t2, .. } = b[0] {
                assert(decreases_to!(a => a[0]));
                lemma_fingerprint_ignores_positions(t1, t2);
            }
        }
    }
}

proof fn lemma_digits_are_not_colons(n: nat)
    ensures
        forall|i: int| 0 <= i < decimal(n).len() ==> decimal(n)[i] != ':',
    decreases n,
{
    if n < 10 {
        vstd::utf8::char_u32_cast(crate::text::digit_char(n), (n + 0x30) as u32);
        assert(decimal(n) =~= seq![crate::text::digit_char(n)]);
    } else {
        lemma_digits_are_not_colons(n / 10);
        let d = crate::text::digit_char(n % 10);
        vstd::utf8::char_u32_cast(d, (n % 10 + 0x30) as u32);
        assert forall|i: int| 0 <= i < decimal(n).len() implies decimal(n)[i] != ':' by {
            assert(decimal(n) == decimal(n / 10).push(d));
            if i < decimal(n / 10).len() {
                assert(decimal(n)[i] == decimal(n / 10)[i]);
            }
        }
    }
}

/// A decimal number and a colon: the number ends at the first colon.
proof fn lemma_colon_split(n1: nat, x1: Seq<char>, n2: nat, x2: Seq<char>)
    requires
        decimal(n1) + seq![':'] + x1 == decimal(n2) + seq![':'] + x2,
    ensures
        n1 == n2,
        x1 == x2,
{
    lemma_digits_are_not_colons(n1);
    lemma_digits_are_not_colons(n2);
    let l1 = decimal(n1).len();
    let l2 = decimal(n2).len();
    let whole = decimal(n1) + seq![':'] + x1;
    let other = decimal(n2) + seq![':'] + x2;
    assert(whole[l1 as int] == ':');
    assert(other[l2 as int] == ':');
    if l1 < l2 {
        assert(other[l1 as int] == decimal(n2)[l1 as int]);
    }
    if l2 < l1 {
        assert(whole[l2 as int] == decimal(n1)[l2 as int]);
    }
    assert(l1 == l2);
    assert(whole.take(l1 as int) =~= decimal(n1));
    assert(other.take(l2 as int) =~= decimal(n2));
    crate::naming::lemma_decimal_injective(n1, n2);
    assert(whole.skip(l1 as int + 1) =~= x1);
    assert(other.skip(l2 as int + 1) =~= x2);
}

pub proof fn lemma_encode_concat(x: Seq<char>, z: Seq<char>)
    ensures
        vstd::utf8::encode_utf8(x + z) == vstd::utf8::encode_utf8(x) + vstd::utf8::encode_utf8(z),
    decreases x.len(),
{
    if x.len() == 0 {
        assert(x + z =~= z);
        assert(vstd::utf8::encode_utf8(x) =~= Seq::<u8>::empty());
        assert(vstd::utf8::encode_utf8(x) + vstd::utf8::encode_utf8(z) =~= vstd::utf8::encode_utf8(z));
    } else {
        lemma_encode_concat(x.drop_first(), z);
        assert((x + z).drop_first() =~= x.drop_first() + z);
        assert((x + z)[0] == x[0]);
        assert(vstd::utf8::encode_utf8(x + z) =~= vstd::utf8::encode_scalar(x[0] as u32) + (
        vstd::utf8::encode_utf8(x.drop_first()) + vstd::utf8::encode_utf8(z)));
    }
}

proof fn lemma_encode_long(x: Seq<char>)
    ensures
        vstd::utf8::encode_utf8(x).len() >= x.len(),
    decreases x.len(),
{
    if x.len() > 0 {
        lemma_encode_long(x.drop_first());
        let v = x[0] as u32;
        assert(vstd::utf8::encode_scalar(v).len() >= 1);
    }
}

/// Text cut by its UTF-8 length: the byte length of a prefix fixes the prefix.
proof fn lemma_byte_prefix(x: Seq<char>, r1: Seq<char>, y: Seq<char>, r2: Seq<char>)
    requires
        x + r1 == y + r2,
        byte_len(x) == byte_len(y),
    ensures
        x == y,
        r1 == r2,
{
    let whole = x + r1;
    if x.len() <= y.len() {
        let z = y.skip(x.len() as int);
        assert(whole.take(x.len() as int) =~= x);
        assert((y + r2).take(x.len() as int) =~= y.take(x.len() as int));
        assert(y =~= x + z);
        lemma_encode_concat(x, z);
        lemma_encode_long(z);
        assert(z.len() == 0);
        assert(y =~= x);
    } else {
        let z = x.skip(y.len() as int);
        assert((y + r2).take(y.len() as int) =~= y);
        assert(whole.take(y.len() as int) =~= x.take(y.len() as int));
        assert(x =~= y + z);
        lemma_encode_concat(y, z);
        lemma_encode_long(z);
        assert(false);
    }
    assert(whole.skip(x.len() as int) =~= r1);
    assert((y + r2).skip(y.len() as int) =~= r2);
}

/// A record and what follows it: the kind, the value and the rest are recovered.
proof fn lemma_record_split(
    k1: Seq<char>,
    v1: Seq<char>,
    r1: Seq<char>,
    k2: Seq<char>,
    v2: Seq<char>,
    r2: Seq<char>,
)
    requires
        record(k1, v1) + r1 == record(k2, v2) + r2,
    ensures
        k1 == k2,
        v1 == v2,
        r1 == r2,
{
    let c = seq![':'];
    reveal_strlit(":");
    assert(":"@ =~= c);
    let t1 = decimal(byte_len(v1)) + c + (v1 + r1);
    let t2 = decimal(byte_len(v2)) + c + (v2 + r2);
    assert(record(k1, v1) + r1 =~= decimal(byte_len(k1)) + c + (k1 + t1));
    assert(record(k2, v2) + r2 =~= decimal(byte_len(k2)) + c + (k2 + t2));
    lemma_colon_split(byte_len(k1), k1 + t1, byte_len(k2), k2 + t2);
    lemma_byte_prefix(k1, t1, k2, t2);
    lemma_colon_split(byte_len(v1), v1 + r1, byte_len(v2), v2 + r2);
    lemma_byte_prefix(v1, r1, v2, r2);
}

/// Different kinds of token have different kind names.
proof fn lemma_kinds_distinct(x: TokenView, y: TokenView)
    requires
        kind_of(x) == kind_of(y),
    ensures
        x is Group <==> y is Group,
        x is Ident <==> y is Ident,
        x is Punct <==> y is Punct,
        x is Literal <==> y is Literal,
        x is Group && y is Group ==> x->delimiter == y->delimiter,
{
    reveal_strlit("Parenthesis");
    reveal_strlit("Brace");
    reveal_strlit("Bracket");
    reveal_strlit("None");
    reveal_strlit("ident");
    reveal_strlit("punct");
    reveal_strlit("literal");
    let k = kind_of(x);
    assert(k.len() == kind_of(y).len());
    assert(k[0] == kind_of(y)[0]);
}

/// Equal fingerprints mean equal token contents: the length-prefixed records
/// can be read back one by one, so an invocation's record is found only for
/// exactly its tokens.
pub proof fn lemma_fingerprint_determines_contents(a: Seq<TokenView>, b: Seq<TokenView>)
    requires
        fingerprint_spec(a) == fingerprint_spec(b),
    ensures
        same_contents(a, b),
    decreases a,
{
    if a.len() == 0 && b.len() == 0 {
    } else if a.len() == 0 {
        lemma_fingerprint_front(b);
        assert(fingerprint_spec(a) =~= Seq::<char>::empty());
        crate::naming::lemma_decimal_long(byte_len(kind_of(b[0])));
        assert(record_of(b[0]).len() > 0);
    } else if b.len() == 0 {
        lemma_fingerprint_front(a);
        assert(fingerprint_spec(b) =~= Seq::<char>::empty());
        crate::naming::lemma_decimal_long(byte_len(kind_of(a[0])));
        assert(record_of(a[0]).len() > 0);
    } else {
        lemma_fingerprint_front(a);
        lemma_fingerprint_front(b);
        let x = a[0];
        let y = b[0];
        let vx = match x {
            TokenView::Group { tokens, .. } => fingerprint_spec(tokens),
            TokenView::Ident { text, .. } => text,
            TokenView::Punct { ch, .. } => seq![ch],
            TokenView::Literal { text, .. } => text,
        };
        let vy = match y {
            TokenView::Group { tokens, .. } => fingerprint_spec(tokens),
            TokenView::Ident { text, .. } => text,
            TokenView::Punct { ch, .. } => seq![ch],
            TokenView::Literal { text, .. } => text,
        };
        assert(record_of(x) == record(kind_of(x), vx));
        assert(record_of(y) == record(kind_of(y), vy));
        lemma_record_split(
            kind_of(x),
            vx,
            fingerprint_spec(a.drop_first()),
            kind_of(y),
            vy,
            fingerprint_spec(b.drop_first()),
        );
        lemma_kinds_distinct(x, y);
        lemma_fingerprint_determines_contents(a.drop_first(), b.drop_first());
        if let TokenView::Group { tokens: t1, .. } = x {
            if let TokenView::Group { tokens: t2, .. } = y {
                assert(decreases_to!(a => a[0]));
                lemma_fingerprint_determines_contents(t1, t2);
            }
        }
        if let TokenView::Punct { ch: c1, .. } = x {
            if let TokenView::Punct { ch: c2, .. } = y {
                assert(seq![c1][0] == seq![c2][0]);
            }
        }
    }
}

fn push_record(out: &mut String, kind: &str, value: &str)
    ensures
        final(out)@ == old(out)@ + record(kind@, value@),
{
    let ghost start = out@;
    push_decimal(out, kind.as_bytes().len());
    out.append(":");
    out.append(kind);
    push_decimal(out, value.as_bytes().len());
    out.append(":");
    out.append(value);
    assert(out@ =~= start + record(kind@, value@));
}

/// Token contents of a stream as text that does not depend on how the stream
/// would be displayed (see `fingerprint_spec`).
pub fn fingerprint(tokens: TokenStream) -> (r: String)
    ensures
        r@ == fingerprint_spec(stream_tokens(tokens)),
    decreases stream_tokens(tokens),
{
    let ghost all = stream_tokens(tokens);
    let trees = stream_trees(&tokens);
    let mut result = String::new();
    let mut i: usize = 0;
    while i < trees.len()
        invariant
            i <= trees.len(),
            trees@.len() == all.len(),
            all == stream_tokens(tokens),
            forall|j: int| 0 <= j < trees@.len() ==> tree_view(#[trigger] trees@[j]) == all[j],
            result@ == fingerprint_spec(all.take(i as int)),
        decreases trees.len() - i,
    {
        let ghost prefix = all.take(i as int + 1);
        assert(prefix.drop_last() =~= all.take(i as int));
        assert(prefix[i as int] == all[i as int]);
        assert(tree_view(trees@[i as int]) == all[i as int]);
        match &trees[i] {
            Tree::Group(g) => {
                let parts = group_parts(g);
                assert(all[i as int] == group_token(*g));
                assert(decreases_to!(all => all[i as int]));
                assert(all[i as int]->tokens == stream_tokens(parts.stream));
                assert(decreases_to!(all[i as int] => all[i as int]->tokens));
                let name = delimiter_name(parts.delimiter);
                let inner = fingerprint(parts.stream);
                push_record(&mut result, name, inner.as_str());
            },
            Tree::Ident { text, .. } => {
                push_record(&mut result, "ident", text.as_str());
            },
            Tree::Punct { ch, .. } => {
                let mut value = String::new();
                value.push(*ch);
                assert(value@ =~= seq![*ch]);
                push_record(&mut result, "punct", value.as_str());
            },
            Tree::Literal { text, .. } => {
                push_record(&mut result, "literal", text.as_str());
            },
        }
        i += 1;
    }
    assert(all.take(trees.len() as int) =~= all);
    result
}

/// A token that attaches to what precedes it in reconstructed CSS: `-`, or a
/// group in parentheses, brackets or invisible delimiters.
pub open spec fn joins_previous(t: TokenView) -> bool {
    match t {
        TokenView::Punct { ch, .. } => ch == '-',
        TokenView::Group { delimiter, .. } => delimiter != Delim::Brace,
        _ => false,
    }
}

/// A token that what follows attaches to: `.`, `#`, `@`, `:` or `-`.
pub open spec fn joins_next(t: TokenView) -> bool {
    match t {
        TokenView::Punct { ch, .. } => ch == '.' || ch == '#' || ch == '@' || ch == ':' || ch == '-',
        _ => false,
    }
}

pub open spec fn open_text(d: Delim) -> Seq<char> {
    match d {
        Delim::Parenthesis => seq!['('],
        Delim::Brace => seq!['{'],
        Delim::Bracket => seq!['['],
        Delim::Invisible => Seq::empty(),
    }
}

pub open spec fn close_text(d: Delim) -> Seq<char> {
    match d {
        Delim::Parenthesis => seq![')'],
        Delim::Brace => seq!['}'],
        Delim::Bracket => seq![']'],
        Delim::Invisible => Seq::empty(),
    }
}

/// CSS text rebuilt from tokens alone: tokens in order, separated by one space
/// except where CSS punctuation joins them; groups inside their delimiters.
pub open spec fn css_text(tokens: Seq<TokenView>) -> Seq<char>
    decreases tokens,
{
    if tokens.len() == 0 {
        Seq::empty()
    } else {
        let n = tokens.len() - 1;
        let last = tokens[n];
        let sep = if n > 0 && !joins_next(tokens[n - 1]) && !joins_previous(last) {
            seq![' ']
        } else {
            Seq::empty()
        };
        let piece = match last {
            TokenView::Group { delimiter, tokens: inner, .. } => open_text(delimiter) + css_text(
                inner,
            ) + close_text(delimiter),
            TokenView::Ident { text, .. } => text,
            TokenView::Punct { ch, .. } => seq![ch],
            TokenView::Literal { text, .. } => text,
        };
        css_text(tokens.drop_last()) + sep + piece
    }
}

/// CSS punctuation that starts a selector or at-rule joins what follows it: after
/// `.`, `#`, `@`, `:` or `-` a word follows with no space, so `@` `media`
/// becomes `@media` and `.` `card` becomes `.card`.
pub proof fn lemma_css_text_punctuation_joins_next(
    s: Seq<TokenView>,
    text: Seq<char>,
    at: Position,
)
    requires
        s.len() > 0,
        s.last() matches TokenView::Punct { ch, .. } && (ch == '.' || ch == '#' || ch == '@' || ch
            == ':' || ch == '-'),
    ensures
        css_text(s.push(TokenView::Ident { text, start: at })) == css_text(s) + text,
{
    let t = s.push(TokenView::Ident { text, start: at });
    assert(t.drop_last() =~= s);
    assert(t[t.len() - 2] == s.last());
    assert(css_text(t) =~= css_text(s) + Seq::<char>::empty() + text);
}

/// Two words stay apart: a word after a word is separated by one space.
pub proof fn lemma_css_text_words_spaced(s: Seq<TokenView>, text: Seq<char>, at: Position)
    requires
        s.len() > 0,
        s.last() is Ident,
    ensures
        css_text(s.push(TokenView::Ident { text, start: at })) == css_text(s) + seq![' '] + text,
{
    let t = s.push(TokenView::Ident { text, start: at });
    assert(t.drop_last() =~= s);
    assert(t[t.len() - 2] == s.last());
}

/// A hyphen joins the word before it: `user` `-` becomes `user-`.
pub proof fn lemma_css_text_hyphen_joins_previous(s: Seq<TokenView>, at: Position)
    requires
        s.len() > 0,
    ensures
        css_text(s.push(TokenView::Punct { ch: '-', start: at })) == css_text(s) + seq!['-'],
{
    let t = s.push(TokenView::Punct { ch: '-', start: at });
    assert(t.drop_last() =~= s);
    assert(css_text(t) =~= css_text(s) + Seq::<char>::empty() + seq!['-']);
}

/// Groups after a word: parentheses and brackets attach to it, as in
/// `nth-child(2n)` or `a[href]`, while a block in braces is set off by one space,
/// as in `.card {..}`; each group is its rebuilt contents inside its delimiters.
pub proof fn lemma_css_text_groups_after_word(
    s: Seq<TokenView>,
    delimiter: Delim,
    open: Position,
    open_end: Position,
    close_start: Position,
    inner: Seq<TokenView>,
)
    requires
        s.len() > 0,
        s.last() is Ident,
    ensures
        delimiter == Delim::Parenthesis ==> css_text(
            s.push(TokenView::Group { delimiter, open, open_end, close_start, tokens: inner }),
        ) == css_text(s) + seq!['('] + css_text(inner) + seq![')'],
        delimiter == Delim::Bracket ==> css_text(
            s.push(TokenView::Group { delimiter, open, open_end, close_start, tokens: inner }),
        ) == css_text(s) + seq!['['] + css_text(inner) + seq![']'],
        delimiter == Delim::Brace ==> css_text(
            s.push(TokenView::Group { delimiter, open, open_end, close_start, tokens: inner }),
        ) == css_text(s) + seq![' '] + seq!['{'] + css_text(inner) + seq!['}'],
{
    let g = TokenView::Group { delimiter, open, open_end, close_start, tokens: inner };
    let t = s.push(g);
    assert(t.drop_last() =~= s);
    assert(t[t.len() - 2] == s.last());
    assert(t[t.len() - 1] == g);
    if delimiter == Delim::Parenthesis || delimiter == Delim::Bracket {
        assert(css_text(t) =~= css_text(s) + Seq::<char>::empty() + (open_text(delimiter) + css_text(inner) + close_text(delimiter)));
    } else if delimiter == Delim::Brace {
        assert(css_text(t) =~= css_text(s) + seq![' '] + (open_text(delimiter) + css_text(inner) + close_text(delimiter)));
    }
}

fn push_delimiter(out: &mut String, d: Delim, open: bool)
    ensures
        final(out)@ == old(out)@ + if open {
            open_text(d)
        } else {
            close_text(d)
        },
{
    let ghost start = out@;
    match d {
        Delim::Parenthesis => out.push(if open { '(' } else { ')' }),
        Delim::Brace => out.push(if open { '{' } else { '}' }),
        Delim::Bracket => out.push(if open { '[' } else { ']' }),
        Delim::Invisible => {},
    }
    assert(out@ =~= start + if open {
        open_text(d)
    } else {
        close_text(d)
    });
}

/// CSS text rebuilt from a token stream (see `css_text`). Whitespace that the
/// tokens do not record is approximated, so the text serves to discover export
/// names only.
pub fn css_tokens(input: &TokenStream) -> (r: String)
    ensures
        r@ == css_text(stream_tokens(*input)),
    decreases stream_tokens(*input),
{
    let ghost all = stream_tokens(*input);
    let trees = stream_trees(input);
    let mut result = String::new();
    let mut i: usize = 0;
    let mut join_next = true;
    while i < trees.len()
        invariant
            i <= trees.len(),
            trees@.len() == all.len(),
            all == stream_tokens(*input),
            forall|j: int| 0 <= j < trees@.len() ==> tree_view(#[trigger] trees@[j]) == all[j],
            result@ == css_text(all.take(i as int)),
            i == 0 ==> join_next,
            i > 0 ==> join_next == joins_next(all[i - 1]),
        decreases trees.len() - i,
    {
        let ghost prefix = all.take(i as int + 1);
        assert(prefix.drop_last() =~= all.take(i as int));
        assert(prefix[i as int] == all[i as int]);
        assert(i > 0 ==> prefix[i - 1] == all[i - 1]);
        assert(tree_view(trees@[i as int]) == all[i as int]);
        let ghost before = result@;
        match &trees[i] {
            Tree::Group(g) => {
                let parts = group_parts(g);
                assert(all[i as int] == group_token(*g));
                assert(all[i as int]->tokens == stream_tokens(parts.stream));
                assert(decreases_to!(all => all[i as int]));
                assert(decreases_to!(all[i as int] => all[i as int]->tokens));
                let joins = match parts.delimiter {
                    Delim::Brace => false,
                    _ => true,
                };
                if !join_next && !joins {
                    result.push(' ');
                }
                join_next = false;
                let ghost spaced = result@;
                push_delimiter(&mut result, parts.delimiter, true);
                let inner = css_tokens(&parts.stream);
                result.append(inner.as_str());
                push_delimiter(&mut result, parts.delimiter, false);
                assert(result@ =~= spaced + (open_text(parts.delimiter) + css_text(
                    stream_tokens(parts.stream),
                ) + close_text(parts.delimiter)));
            },
            Tree::Ident { text, .. } => {
                if !join_next {
                    result.push(' ');
                }
                join_next = false;
                result.append(text.as_str());
            },
            Tree::Punct { ch, .. } => {
                let c = *ch;
                if !join_next && c != '-' {
                    result.push(' ');
                }
                join_next = c == '.' || c == '#' || c == '@' || c == ':' || c == '-';
                result.push(c);
            },
            Tree::Literal { text, .. } => {
                if !join_next {
                    result.push(' ');
                }
                join_next = false;
                result.append(text.as_str());
            },
        }
        assert(result@ =~= css_text(prefix));
        i += 1;
    }
    assert(all.take(trees.len() as int) =~= all);
    result
}

} // verus!
