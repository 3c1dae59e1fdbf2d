//! Collection of `css!` invocations from Rust source text: the CSS text of each,
//! exactly as written, with the fingerprint and position that the macro uses to
//! find its record again.

use vstd::prelude::*;
use proc_macro2::TokenStream;
use crate::text::{chars_of, string_of};
use crate::compiler::{texts, contains_text};
use crate::tokens::{
    Position, TokenView, Tree, stream_tokens, stream_trees, group_parts, group_token, tree_view,
    fingerprint, fingerprint_spec, byte_len, lemma_encode_concat,
};

verus! {

/// End of the line that starts at `pos`: just after its `\n`, or the end of the text.
pub open spec fn line_end(src: Seq<char>, pos: nat) -> nat
    decreases src.len() - pos,
{
    if pos >= src.len() {
        src.len()
    } else if src[pos as int] == '\n' {
        pos + 1
    } else {
        line_end(src, pos + 1)
    }
}

/// Character range of line `line` (one-based), counting lines as
/// `split_inclusive('\n')` does, searching from line `k` starting at `pos`.
pub open spec fn line_range(src: Seq<char>, line: nat, pos: nat, k: nat) -> Option<(nat, nat)>
    decreases src.len() - pos,
{
    if pos >= src.len() {
        None
    } else {
        let e = line_end(src, pos);
        if k == line {
            Some((pos, e))
        } else if e <= pos || e > src.len() {
            None
        } else {
            line_range(src, line, e, k + 1)
        }
    }
}

pub open spec fn line_message() -> Seq<char> {
    "source line is out of range"@
}

pub open spec fn column_message() -> Seq<char> {
    "source column is out of range"@
}

/// Index, counted in characters (not UTF-8 bytes), of a line and column in a
/// text: the column may be at most the length of its line, terminator included.
pub open spec fn char_offset_spec(src: Seq<char>, at: Position) -> Result<nat, Seq<char>> {
    match line_range(src, at.line as nat, 0, 1) {
        None => Err(line_message()),
        Some((s, e)) => if at.column <= e - s {
            Ok(s + at.column as nat)
        } else {
            Err(column_message())
        },
    }
}

proof fn lemma_line_end_bounds(src: Seq<char>, pos: nat)
    requires
        pos < src.len(),
    ensures
        pos < line_end(src, pos) <= src.len(),
    decreases src.len() - pos,
{
    if src[pos as int] != '\n' {
        if pos + 1 < src.len() {
            lemma_line_end_bounds(src, pos + 1);
        } else {
            assert(line_end(src, pos + 1) == src.len());
        }
    }
}

proof fn lemma_line_range_past(src: Seq<char>, line: nat, pos: nat, k: nat)
    requires
        k > line,
    ensures
        line_range(src, line, pos, k) is None,
    decreases src.len() - pos,
{
    if pos < src.len() {
        let e = line_end(src, pos);
        if !(e <= pos || e > src.len()) {
            lemma_line_range_past(src, line, e, k + 1);
        }
    }
}

proof fn lemma_line_range_bounds(src: Seq<char>, line: nat, pos: nat, k: nat)
    ensures
        line_range(src, line, pos, k) matches Some((s, e)) ==> s < e <= src.len(),
    decreases src.len() - pos,
{
    if pos < src.len() {
        lemma_line_end_bounds(src, pos);
        let e = line_end(src, pos);
        if k != line {
            lemma_line_range_bounds(src, line, e, k + 1);
        }
    }
}

/// Index of `at` in the characters `src` (see `char_offset_spec`). It counts
/// characters, not UTF-8 bytes: the body of an invocation is cut from the
/// characters of the source. `offset` gives the same position in bytes.
pub fn char_offset(src: &Vec<char>, at: Position) -> (r: Result<usize, String>)
    ensures
        match char_offset_spec(src@, at) {
            Ok(o) => r matches Ok(v) && v == o && o <= src@.len(),
            Err(e) => r matches Err(m) && m@ == e,
        },
{
    if at.line == 0 {
        proof {
            lemma_line_range_past(src@, 0, 0, 1);
        }
        return Err(String::from_str("source line is out of range"));
    }
    let mut pos: usize = 0;
    let mut k: usize = 1;
    while pos < src.len()
        invariant
            pos <= src@.len(),
            1 <= k <= at.line,
            line_range(src@, at.line as nat, 0, 1) == line_range(src@, at.line as nat, pos as nat, k as nat),
        decreases src@.len() - pos,
    {
        let mut e: usize = pos;
        while e < src.len() && src[e] != '\n'
            invariant
                pos <= e <= src@.len(),
                line_end(src@, pos as nat) == line_end(src@, e as nat),
            decreases src@.len() - e,
        {
            e += 1;
        }
        if e < src.len() {
            e += 1;
        }
        proof {
            lemma_line_end_bounds(src@, pos as nat);
        }
        assert(e == line_end(src@, pos as nat));
        if k == at.line {
            proof {
                lemma_line_range_bounds(src@, at.line as nat, 0, 1);
            }
            if at.column <= e - pos {
                return Ok(pos + at.column);
            }
            return Err(String::from_str("source column is out of range"));
        }
        pos = e;
        k += 1;
    }
    Err(String::from_str("source line is out of range"))
}

/// Byte offset, in the UTF-8 text, of a line and column: the bytes of the
/// characters before the position (see `char_offset_spec`).
pub open spec fn offset_spec(src: Seq<char>, at: Position) -> Result<nat, Seq<char>> {
    match char_offset_spec(src, at) {
        Ok(o) => Ok(byte_len(src.take(o as int))),
        Err(e) => Err(e),
    }
}

/// Number of UTF-8 bytes of a character (`char::len_utf8`).
fn utf8_width(c: char) -> (n: usize)
    ensures
        n == vstd::utf8::encode_scalar(c as u32).len(),
{
    proof {
        vstd::utf8::char_is_scalar(c);
    }
    let v = c as u32;
    if v <= 0x7f {
        1
    } else if v <= 0x7ff {
        2
    } else if v <= 0xffff {
        3
    } else {
        4
    }
}

proof fn lemma_byte_len_step(x: Seq<char>, i: int)
    requires
        0 <= i < x.len(),
    ensures
        byte_len(x.take(i + 1)) == byte_len(x.take(i)) + vstd::utf8::encode_scalar(x[i] as u32).len(),
{
    let c = seq![x[i]];
    assert(x.take(i + 1) =~= x.take(i) + c);
    lemma_encode_concat(x.take(i), c);
    assert(c.drop_first() =~= Seq::<char>::empty());
    assert(vstd::utf8::encode_utf8(c) =~= vstd::utf8::encode_scalar(x[i] as u32) + vstd::utf8::encode_utf8(Seq::<char>::empty()));
}

/// Byte offset of `at` in `source` (see `offset_spec`): a character boundary of
/// the text.
pub fn offset(source: &str, at: Position) -> (r: Result<usize, String>)
    ensures
        match offset_spec(source@, at) {
            Ok(o) => r matches Ok(v) && v == o,
            Err(e) => r matches Err(m) && m@ == e,
        },
{
    let src = chars_of(source);
    let o = char_offset(&src, at)?;
    let ghost x = source@;
    proof {
        lemma_encode_concat(x.take(o as int), x.skip(o as int));
        assert(x.take(o as int) + x.skip(o as int) =~= x);
    }
    let total = source.as_bytes().len();
    let mut bytes: usize = 0;
    let mut i: usize = 0;
    while i < o
        invariant
            i <= o <= src@.len(),
            src@ == x,
            total == byte_len(x),
            byte_len(x.take(o as int)) <= total,
            bytes == byte_len(x.take(i as int)),
        decreases o - i,
    {
        proof {
            lemma_byte_len_step(x, i as int);
            lemma_byte_len_prefix(x, i + 1, o as int);
        }
        bytes = bytes + utf8_width(src[i]);
        i += 1;
    }
    Ok(bytes)
}

proof fn lemma_byte_len_prefix(x: Seq<char>, i: int, j: int)
    requires
        0 <= i <= j <= x.len(),
    ensures
        byte_len(x.take(i)) <= byte_len(x.take(j)),
{
    let a = x.take(i);
    let b = x.take(j).skip(i);
    assert(x.take(j) =~= a + b);
    lemma_encode_concat(a, b);
}

/// The value of a Rust string literal written as the whole token sequence (as
/// `syn::LitStr` parses it), if the tokens are one.
pub uninterp spec fn string_literal_value(tokens: Seq<TokenView>) -> Option<Seq<char>>;

/// `syn::parse2::<syn::LitStr>` then `LitStr::value`: the value of the string
/// literal that the stream consists of, named `string_literal_value`.
#[verifier::external_body]
pub(crate) fn literal_string(tokens: &TokenStream) -> (r: Option<String>)
    ensures
        match string_literal_value(stream_tokens(*tokens)) {
            Some(v) => r matches Some(s) && s@ == v,
            None => r is None,
        },
{
    syn::parse2::<syn::LitStr>(tokens.clone()).ok().map(|literal| literal.value())
}

/// One collected invocation: its CSS, the fingerprint of its tokens, and the
/// one-based line and character column of its first token.
#[derive(Debug)]
pub struct Input {
    pub css: String,
    pub fingerprint: String,
    pub line: usize,
    pub column: usize,
}

pub struct InputView {
    pub css: Seq<char>,
    pub fingerprint: Seq<char>,
    pub line: nat,
    pub column: nat,
}

impl View for Input {
    type V = InputView;

    open spec fn view(&self) -> InputView {
        InputView {
            css: self.css@,
            fingerprint: self.fingerprint@,
            line: self.line as nat,
            column: self.column as nat,
        }
    }
}

pub open spec fn inputs_view(v: Seq<Input>) -> Seq<InputView> {
    v.map_values(|i: Input| i@)
}

pub open spec fn token_start(t: TokenView) -> Position {
    match t {
        TokenView::Group { open, .. } => open,
        TokenView::Ident { start, .. } => start,
        TokenView::Punct { start, .. } => start,
        TokenView::Literal { start, .. } => start,
    }
}

pub open spec fn empty_body_message() -> Seq<char> {
    "css! requires a CSS body or a string literal"@
}

pub open spec fn range_message() -> Seq<char> {
    "CSS source range is invalid"@
}

/// The CSS of an invocation's group: the value of a string literal, or else the
/// source text between the delimiters, exactly as written.
pub open spec fn css_of_group(group: TokenView, src: Seq<char>) -> Result<Seq<char>, Seq<char>> {
    match string_literal_value(group->tokens) {
        Some(v) => Ok(v),
        None => match char_offset_spec(src, group->open_end) {
            Err(e) => Err(e),
            Ok(from) => match char_offset_spec(src, group->close_start) {
                Err(e) => Err(e),
                Ok(to) => if from <= to {
                    Ok(src.subrange(from as int, to as int))
                } else {
                    Err(range_message())
                },
            },
        },
    }
}

/// The record of one invocation whose input group is `group`.
pub open spec fn extract_spec(group: TokenView, src: Seq<char>) -> Result<InputView, Seq<char>> {
    let inner = group->tokens;
    if inner.len() == 0 {
        Err(empty_body_message())
    } else {
        let start = token_start(inner[0]);
        match css_of_group(group, src) {
            Err(e) => Err(e),
            Ok(css) => if start.column >= usize::MAX {
                Err(column_message())
            } else {
                Ok(
                    InputView {
                        css,
                        fingerprint: fingerprint_spec(inner),
                        line: start.line as nat,
                        column: (start.column + 1) as nat,
                    },
                )
            },
        }
    }
}

fn tree_start(tree: &Tree) -> (r: Position)
    ensures
        r == token_start(tree_view(*tree)),
{
    match tree {
        Tree::Group(g) => group_parts(g).open,
        Tree::Ident { start, .. } => *start,
        Tree::Punct { start, .. } => *start,
        Tree::Literal { start, .. } => *start,
    }
}

/// The record of one invocation (see `extract_spec`).
pub fn extract(group: &proc_macro2::Group, src: &Vec<char>) -> (r: Result<Input, String>)
    ensures
        match extract_spec(group_token(*group), src@) {
            Ok(v) => r matches Ok(i) && i@ == v,
            Err(e) => r matches Err(m) && m@ == e,
        },
{
    let parts = group_parts(group);
    let trees = stream_trees(&parts.stream);
    if trees.len() == 0 {
        return Err(String::from_str("css! requires a CSS body or a string literal"));
    }
    let start = tree_start(&trees[0]);
    assert(tree_view(trees@[0]) == stream_tokens(parts.stream)[0]);
    let css = match literal_string(&parts.stream) {
        Some(value) => value,
        None => {
            let from = char_offset(src, parts.open_end)?;
            let to = char_offset(src, parts.close_start)?;
            if from > to {
                return Err(String::from_str("CSS source range is invalid"));
            }
            let mut body: Vec<char> = Vec::new();
            let mut i: usize = from;
            while i < to
                invariant
                    from <= i <= to <= src@.len(),
                    body@ == src@.subrange(from as int, i as int),
                decreases to - i,
            {
                body.push(src[i]);
                i += 1;
                assert(body@ =~= src@.subrange(from as int, i as int));
            }
            string_of(&body)
        },
    };
    if start.column == usize::MAX {
        return Err(String::from_str("source column is out of range"));
    }
    let fp = fingerprint(parts.stream);
    Ok(Input { css, fingerprint: fp, line: start.line, column: start.column + 1 })
}

/// Position `i` starts an invocation of one of `names`: an identifier among the
/// names, then `!`, then a group.
pub open spec fn is_invocation(tokens: Seq<TokenView>, i: int, names: Seq<Seq<char>>) -> bool {
    &&& 0 <= i && i + 2 < tokens.len()
    &&& is_name_among(tokens[i], names)
    &&& is_bang_token(tokens[i + 1])
    &&& tokens[i + 2] is Group
}

pub open spec fn is_name_among(t: TokenView, names: Seq<Seq<char>>) -> bool {
    match t {
        TokenView::Ident { text, .. } => names.contains(text),
        _ => false,
    }
}

pub open spec fn is_bang_token(t: TokenView) -> bool {
    match t {
        TokenView::Punct { ch, .. } => ch == '!',
        _ => false,
    }
}

pub open spec fn prepend(
    found: Seq<InputView>,
    rest: Result<Seq<InputView>, Seq<char>>,
) -> Result<Seq<InputView>, Seq<char>> {
    match rest {
        Ok(v) => Ok(found + v),
        Err(e) => Err(e),
    }
}

/// The invocations found in `tokens[i..]`, in source order: an invocation's group
/// is not searched further; any other group is searched for nested invocations.
pub open spec fn scan_from(
    tokens: Seq<TokenView>,
    i: nat,
    src: Seq<char>,
    names: Seq<Seq<char>>,
) -> Result<Seq<InputView>, Seq<char>>
    decreases tokens, tokens.len() - i,
{
    if i >= tokens.len() {
        Ok(Seq::empty())
    } else if is_invocation(tokens, i as int, names) {
        match extract_spec(tokens[i + 2int], src) {
            Err(e) => Err(e),
            Ok(input) => prepend(seq![input], scan_from(tokens, i + 3, src, names)),
        }
    } else {
        match tokens[i as int] {
            TokenView::Group { tokens: inner, .. } => match scan_from(inner, 0, src, names) {
                Err(e) => Err(e),
                Ok(found) => prepend(found, scan_from(tokens, i + 1, src, names)),
            },
            _ => scan_from(tokens, i + 1, src, names),
        }
    }
}

/// Collection reaches into every group, whatever its delimiter: an invocation
/// that starts a group's contents (say an argument `f(css! { .. })`) is collected
/// first when the scan reaches that group, and a failure to extract it fails the
/// scan.
pub proof fn lemma_nested_invocation_collected(
    tokens: Seq<TokenView>,
    i: nat,
    src: Seq<char>,
    names: Seq<Seq<char>>,
)
    requires
        i < tokens.len(),
        tokens[i as int] is Group,
        is_invocation(tokens[i as int]->tokens, 0, names),
    ensures
        scan_from(tokens, i, src, names) matches Ok(found) ==> (extract_spec(
            tokens[i as int]->tokens[2],
            src,
        ) matches Ok(input) && found.len() > 0 && found[0] == input),
        extract_spec(tokens[i as int]->tokens[2], src) is Err ==> scan_from(tokens, i, src, names) is Err,
{
    let inner = tokens[i as int]->tokens;
    assert(!is_invocation(tokens, i as int, names));
    assert(scan_from(tokens, i, src, names) == match scan_from(inner, 0, src, names) {
        Err(e) => Err(e),
        Ok(found) => prepend(found, scan_from(tokens, i + 1, src, names)),
    });
    assert(scan_from(inner, 0, src, names) == match extract_spec(inner[2], src) {
        Err(e) => Err(e),
        Ok(input) => prepend(seq![input], scan_from(inner, 3, src, names)),
    });
}

fn ident_among(tree: &Tree, names: &Vec<String>) -> (r: bool)
    ensures
        r == is_name_among(tree_view(*tree), texts(names@)),
{
    match tree {
        Tree::Ident { text, .. } => contains_text(names, text.as_str()),
        Tree::Group(g) => {
            let _ = group_parts(g);
            false
        },
        _ => false,
    }
}

fn is_bang(tree: &Tree) -> (r: bool)
    ensures
        r == is_bang_token(tree_view(*tree)),
{
    match tree {
        Tree::Punct { ch, .. } => *ch == '!',
        Tree::Group(g) => {
            let _ = group_parts(g);
            false
        },
        _ => false,
    }
}

proof fn lemma_prepend_assoc(
    a: Seq<InputView>,
    b: Seq<InputView>,
    rest: Result<Seq<InputView>, Seq<char>>,
)
    ensures
        prepend(a, prepend(b, rest)) == prepend(a + b, rest),
{
    if let Ok(v) = rest {
        assert(a + (b + v) =~= (a + b) + v);
    }
}

/// Appends the invocations found in `tokens` (see `scan_from`).
pub fn visit(
    tokens: &TokenStream,
    src: &Vec<char>,
    names: &Vec<String>,
    inputs: &mut Vec<Input>,
) -> (r: Result<(), String>)
    ensures
        match scan_from(stream_tokens(*tokens), 0, src@, texts(names@)) {
            Ok(found) => r is Ok && inputs_view(final(inputs)@) == inputs_view(old(inputs)@)
                + found,
            Err(e) => r matches Err(m) && m@ == e,
        },
    decreases stream_tokens(*tokens),
{
    let ghost all = stream_tokens(*tokens);
    let ghost nm = texts(names@);
    let ghost start = inputs_view(inputs@);
    let trees = stream_trees(tokens);
    let mut index: usize = 0;
    while index < trees.len()
        invariant
            index <= trees.len(),
            trees@.len() == all.len(),
            all == stream_tokens(*tokens),
            nm == texts(names@),
            forall|j: int| 0 <= j < trees@.len() ==> tree_view(#[trigger] trees@[j]) == all[j],
            forall|j: int| 0 <= j < trees@.len() && (#[trigger] trees@[j] is Group) ==> all[j] is Group,
            scan_from(all, 0, src@, nm) == prepend(
                inputs_view(inputs@).skip(start.len() as int),
                scan_from(all, index as nat, src@, nm),
            ),
            inputs_view(inputs@).len() >= start.len(),
            inputs_view(inputs@).take(start.len() as int) == start,
        decreases trees.len() - index,
    {
        assert(tree_view(trees@[index as int]) == all[index as int]);
        let ghost pushed = inputs_view(inputs@);
        if trees.len() - index > 2 && ident_among(&trees[index], names) && is_bang(
            &trees[index + 1],
        ) {
            assert(tree_view(trees@[index + 1]) == all[index + 1]);
            assert(tree_view(trees@[index + 2]) == all[index + 2]);
            if let Tree::Group(g) = &trees[index + 2] {
                assert(is_invocation(all, index as int, nm));
                let input = extract(g, src)?;
                inputs.push(input);
                proof {
                    assert(scan_from(all, index as nat, src@, nm) == prepend(
                        seq![input@],
                        scan_from(all, (index + 3) as nat, src@, nm),
                    ));
                    lemma_prepend_assoc(
                        pushed.skip(start.len() as int),
                        seq![input@],
                        scan_from(all, (index + 3) as nat, src@, nm),
                    );
                    assert(inputs_view(inputs@) =~= pushed.push(input@));
                    assert(inputs_view(inputs@).skip(start.len() as int) =~= pushed.skip(
                        start.len() as int,
                    ) + seq![input@]);
                    assert(inputs_view(inputs@).take(start.len() as int) =~= pushed.take(
                        start.len() as int,
                    ));
                }
                index += 3;
                continue;
            }
        }
        assert(!is_invocation(all, index as int, nm));
        if let Tree::Group(g) = &trees[index] {
            let parts = group_parts(g);
            assert(all[index as int] == group_token(*g));
            assert(all[index as int]->tokens == stream_tokens(parts.stream));
            assert(decreases_to!(all => all[index as int]));
            assert(decreases_to!(all[index as int] => all[index as int]->tokens));
            visit(&parts.stream, src, names, inputs)?;
            proof {
                let found = scan_from(stream_tokens(parts.stream), 0, src@, nm)->Ok_0;
                assert(scan_from(all, index as nat, src@, nm) == prepend(
                    found,
                    scan_from(all, (index + 1) as nat, src@, nm),
                ));
                lemma_prepend_assoc(
                    pushed.skip(start.len() as int),
                    found,
                    scan_from(all, (index + 1) as nat, src@, nm),
                );
                assert(inputs_view(inputs@).skip(start.len() as int) =~= pushed.skip(
                    start.len() as int,
                ) + found);
                assert(inputs_view(inputs@).take(start.len() as int) =~= pushed.take(
                    start.len() as int,
                ));
            }
        }
        index += 1;
    }
    proof {
        assert(inputs_view(inputs@) =~= start + inputs_view(inputs@).skip(start.len() as int));
    }
    Ok(())
}

/// The text starts with a byte order mark.
pub open spec fn has_bom(src: Seq<char>) -> bool {
    src.len() > 0 && src[0] == '\u{feff}'
}

/// Where a shebang line would start: after a byte order mark, if any.
pub open spec fn shebang_at(src: Seq<char>) -> nat {
    if has_bom(src) {
        1
    } else {
        0
    }
}

/// The text starts (after a byte order mark) with `#!` that does not begin an
/// inner attribute `#![`.
pub open spec fn has_shebang(src: Seq<char>) -> bool {
    let s = shebang_at(src) as int;
    &&& s + 1 < src.len()
    &&& src[s] == '#'
    &&& src[s + 1] == '!'
    &&& !(s + 2 < src.len() && src[s + 2] == '[')
}

/// Position of the first `\n` at or after `from`, or the length of the text.
pub open spec fn newline_at(src: Seq<char>, from: nat) -> nat
    decreases src.len() - from,
{
    if from >= src.len() {
        src.len()
    } else if src[from as int] == '\n' {
        from
    } else {
        newline_at(src, from + 1)
    }
}

/// Whether character `i` is blanked before tokenizing: a byte order mark, or a
/// character of the shebang line before its newline.
pub open spec fn blanked(src: Seq<char>, i: int) -> bool {
    ||| i == 0 && has_bom(src)
    ||| has_shebang(src) && shebang_at(src) <= i < newline_at(src, 0)
}

/// The text that is tokenized: the source with its byte order mark and shebang
/// line replaced by spaces, character for character.
pub open spec fn lexable(src: Seq<char>) -> Seq<char> {
    Seq::new(src.len(), |i: int| if blanked(src, i) { ' ' } else { src[i] })
}

proof fn lemma_newline_at(src: Seq<char>, from: nat)
    ensures
        from <= src.len() ==> from <= newline_at(src, from) <= src.len(),
        newline_at(src, from) < src.len() ==> src[newline_at(src, from) as int] == '\n',
        forall|j: int| from <= j < newline_at(src, from) ==> src[j] != '\n',
    decreases src.len() - from,
{
    if from < src.len() && src[from as int] != '\n' {
        lemma_newline_at(src, from + 1);
    }
}

/// Blanking the byte order mark and shebang line keeps every character position:
/// the same length, and newlines exactly where the source has them.
pub proof fn lemma_lexable_keeps_positions(src: Seq<char>)
    ensures
        lexable(src).len() == src.len(),
        forall|i: int| 0 <= i < src.len() ==> (#[trigger] lexable(src)[i] == '\n' <==> src[i] == '\n'),
        forall|i: int| 0 <= i < src.len() && !blanked(src, i) ==> #[trigger] lexable(src)[i] == src[i],
{
    lemma_newline_at(src, 0);
    assert forall|i: int| 0 <= i < src.len() implies (#[trigger] lexable(src)[i] == '\n' <==> src[i] == '\n') by {
        if blanked(src, i) {
            if i == 0 && has_bom(src) {
                assert(src[0] == '\u{feff}');
            } else {
                assert(src[i] != '\n');
            }
        }
    }
}

/// The source text to tokenize (see `lexable`).
pub fn lexable_source(source: &str) -> (r: String)
    ensures
        r@ == lexable(source@),
{
    let mut v = chars_of(source);
    let ghost src = source@;
    let bom = v.len() > 0 && v[0] == '\u{feff}';
    if bom {
        v.set(0, ' ');
    }
    let s: usize = if bom { 1 } else { 0 };
    let shebang = s + 1 < v.len() && v[s] == '#' && v[s + 1] == '!' && !(s + 2 < v.len() && v[s
        + 2] == '[');
    assert(shebang == has_shebang(src));
    if shebang {
        let mut i: usize = s;
        while i < v.len() && v[i] != '\n'
            invariant
                s <= i <= v.len(),
                v@.len() == src.len(),
                s == shebang_at(src),
                newline_at(src, s as nat) == newline_at(src, i as nat),
                forall|j: int| 0 <= j < v@.len() ==> #[trigger] v@[j] == if (j == 0 && has_bom(src)) || (s <= j < i) {
                    ' '
                } else {
                    src[j]
                },
            decreases v.len() - i,
        {
            assert(v@[i as int] == src[i as int]);
            v.set(i, ' ');
            i += 1;
        }
        proof {
            if i < v.len() {
                assert(v@[i as int] == src[i as int]);
            }
            lemma_newline_at(src, 0);
            assert(newline_at(src, 0) == newline_at(src, s as nat)) by {
                if s == 1 {
                    assert(src[0] != '\n');
                }
            }
        }
    }
    proof {
        lemma_newline_at(src, 0);
    }
    assert(v@ =~= lexable(src));
    string_of(&v)
}

/// The error of a source that does not tokenize, with the lexer's message `e`.
pub open spec fn tokenize_message(e: Seq<char>) -> Seq<char> {
    "cannot tokenize Rust source: "@ + e + "; for CSS that is not valid Rust tokens, use css!(r#\"...\"#)"@
}

/// Holds of a text and the lexer's reply on it: the token stream, or the lexer's
/// message. Which reply a text gets depends on the lexer in use (inside a
/// procedural macro the compiler's, whose spans are not positions in the text), so
/// nothing is said of which replies a text can get: only that the reply came from
/// that text.
pub uninterp spec fn lexed(text: Seq<char>, reply: Result<TokenStream, Seq<char>>) -> bool;

/// A lexer reply with its message as plain text.
pub open spec fn lex_view(r: Result<TokenStream, String>) -> Result<TokenStream, Seq<char>> {
    match r {
        Ok(t) => Ok(t),
        Err(e) => Err(e@),
    }
}

/// `str::parse::<TokenStream>`: the tokens of Rust source, or the lexer's message;
/// the reply is tied to the source by `lexed` and to nothing more.
#[verifier::external_body]
fn tokenize(src: &str) -> (r: Result<TokenStream, String>)
    ensures
        lexed(src@, lex_view(r)),
{
    src.parse::<TokenStream>().map_err(|e| e.to_string())
}

/// The `css!` invocations (any of `names`) in a Rust source file, in source order,
/// each with its CSS exactly as written.
pub fn scan(source: &str, names: &Vec<String>) -> (r: Result<Vec<Input>, String>)
    ensures
        match r {
            Ok(v) => exists|tokens: TokenStream|
                #[trigger] lexed(lexable(source@), Ok(tokens)) && scan_from(stream_tokens(tokens), 0, source@, texts(names@)) == Ok::<
                    Seq<InputView>,
                    Seq<char>,
                >(inputs_view(v@)),
            Err(m) => (exists|e: Seq<char>|
                #[trigger] lexed(lexable(source@), Err(e)) && m@ == tokenize_message(e)) || exists|tokens: TokenStream|
                #[trigger] lexed(lexable(source@), Ok(tokens)) && scan_from(stream_tokens(tokens), 0, source@, texts(names@)) == Err::<
                    Seq<InputView>,
                    Seq<char>,
                >(m@),
        },
{
    let lex = lexable_source(source);
    let tokens = match tokenize(lex.as_str()) {
        Ok(t) => t,
        Err(e) => {
            let mut m = String::from_str("cannot tokenize Rust source: ");
            m.append(e.as_str());
            m.append("; for CSS that is not valid Rust tokens, use css!(r#\"...\"#)");
            proof {
                assert(m@ =~= tokenize_message(e@));
            }
            return Err(m);
        },
    };
    let src = chars_of(source);
    let mut inputs: Vec<Input> = Vec::new();
    visit(&tokens, &src, names, &mut inputs)?;
    assert(inputs_view(inputs@) =~= inputs_view(Seq::<Input>::empty()) + inputs_view(inputs@));
    Ok(inputs)
}

} // verus!
