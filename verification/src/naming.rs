//! Scoped names: every local name of a CSS module becomes `<local>_tc<hash>`, where
//! the hash covers the package namespace, the relative source path, the index of
//! the invocation in its file and the CSS text, and nothing else.

use vstd::prelude::*;
use vstd::utf8::{encode_utf8, decode_utf8};
use sha2::Digest;
use crate::text::{digit_char, decimal, hex_text, hex_byte, is_blank_text, is_blank, push_decimal, hex_string, chars_of, string_of};

verus! {

/// SHA-256 digest of a byte sequence.
pub uninterp spec fn sha256(data: Seq<u8>) -> Seq<u8>;

/// `sha2::Sha256::digest`: the SHA-256 digest of `data`, named `sha256`, 32 bytes long.
#[verifier::external_body]
fn sha256_digest(data: &[u8]) -> (r: Vec<u8>)
    ensures
        r@ == sha256(data@),
        r@.len() == 32,
{
    sha2::Sha256::digest(data).to_vec()
}

/// The low `k` bytes of `n`, least significant first.
pub open spec fn le_bytes(n: nat, k: nat) -> Seq<u8>
    decreases k,
{
    if k == 0 {
        Seq::empty()
    } else {
        seq![(n % 256) as u8] + le_bytes(n / 256, (k - 1) as nat)
    }
}

/// One hashed part: its UTF-8 length as a little-endian `u64`, then its UTF-8 bytes.
pub open spec fn frame(part: Seq<char>) -> Seq<u8> {
    le_bytes(encode_utf8(part).len(), 8) + encode_utf8(part)
}

/// The bytes hashed for one `css!` invocation.
pub open spec fn hash_input(namespace: Seq<char>, file: Seq<char>, index: nat, css: Seq<char>) -> Seq<
    u8,
> {
    frame("topcoat-css-v1"@) + frame(namespace) + frame(file) + frame(decimal(index)) + frame(css)
}

/// The CSS modules name pattern for one invocation: the local name, `_tc`, and
/// the first 24 hex digits of the hash.
pub open spec fn pattern_text(namespace: Seq<char>, file: Seq<char>, index: nat, css: Seq<char>) -> Seq<
    char,
> {
    "[local]_tc"@ + hex_text(sha256(hash_input(namespace, file, index, css))).take(24)
}

pub open spec fn empty_css_message() -> Seq<char> {
    "css! requires a nonempty stylesheet"@
}

fn push_frame(out: &mut Vec<u8>, part: &str)
    ensures
        final(out)@ == old(out)@ + frame(part@),
{
    let bytes = part.as_bytes();
    let mut n: u64 = bytes.len() as u64;
    let ghost start = out@;
    let ghost len = bytes@.len();
    let mut k: usize = 0;
    while k < 8
        invariant
            k <= 8,
            bytes@ == encode_utf8(part@),
            len == bytes@.len(),
            out@ + le_bytes(n as nat, (8 - k) as nat) == start + le_bytes(len, 8),
        decreases 8 - k,
    {
        let ghost before = out@;
        out.push((n % 256) as u8);
        assert(le_bytes(n as nat, (8 - k) as nat) == seq![(n % 256) as u8] + le_bytes(
            (n / 256) as nat,
            (8 - k - 1) as nat,
        ));
        n = n / 256;
        k += 1;
        assert(out@ + le_bytes(n as nat, (8 - k) as nat) =~= start + le_bytes(len, 8));
    }
    assert(le_bytes(n as nat, 0) =~= Seq::<u8>::empty());
    let mut i: usize = 0;
    let ghost mid = out@;
    while i < bytes.len()
        invariant
            i <= bytes@.len(),
            out@ == mid + bytes@.take(i as int),
        decreases bytes@.len() - i,
    {
        out.push(bytes[i]);
        i += 1;
        assert(out@ =~= mid + bytes@.take(i as int));
    }
    assert(bytes@.take(bytes@.len() as int) =~= bytes@);
}

pub proof fn lemma_hex_text_len(bytes: Seq<u8>)
    ensures
        hex_text(bytes).len() == 2 * bytes.len(),
    decreases bytes.len(),
{
    if bytes.len() > 0 {
        lemma_hex_text_len(bytes.drop_last());
    }
}

/// The name pattern for the CSS of one `css!` invocation (see `pattern_text`), or
/// an error when the CSS is blank.
pub fn scoping_pattern(css: &str, namespace: &str, file: &str, index: usize) -> (r: Result<
    String,
    String,
>)
    ensures
        is_blank_text(css@) ==> (r matches Err(m) && m@ == empty_css_message()),
        !is_blank_text(css@) ==> (r matches Ok(p) && p@ == pattern_text(
            namespace@,
            file@,
            index as nat,
            css@,
        )),
{
    if is_blank(css) {
        return Err(String::from_str("css! requires a nonempty stylesheet"));
    }
    let mut number = String::new();
    push_decimal(&mut number, index);
    assert(number@ =~= decimal(index as nat));
    let mut input: Vec<u8> = Vec::new();
    push_frame(&mut input, "topcoat-css-v1");
    push_frame(&mut input, namespace);
    push_frame(&mut input, file);
    push_frame(&mut input, number.as_str());
    push_frame(&mut input, css);
    assert(input@ =~= hash_input(namespace@, file@, index as nat, css@));
    let digest = sha256_digest(input.as_slice());
    let hex = chars_of(hex_string(&digest).as_str());
    proof {
        lemma_hex_text_len(digest@);
    }
    let mut out: Vec<char> = chars_of("[local]_tc");
    let ghost head = out@;
    let mut i: usize = 0;
    while i < 24
        invariant
            i <= 24,
            hex@ == hex_text(digest@),
            hex@.len() == 64,
            out@ == head + hex@.take(i as int),
        decreases 24 - i,
    {
        out.push(hex[i]);
        i += 1;
        assert(out@ =~= head + hex@.take(i as int));
    }
    Ok(string_of(&out))
}

pub open spec fn pow256(k: nat) -> nat
    decreases k,
{
    if k == 0 {
        1
    } else {
        256 * pow256((k - 1) as nat)
    }
}

proof fn lemma_le_bytes_len(n: nat, k: nat)
    ensures
        le_bytes(n, k).len() == k,
    decreases k,
{
    if k > 0 {
        lemma_le_bytes_len(n / 256, (k - 1) as nat);
    }
}

proof fn lemma_le_bytes_injective(a: nat, b: nat, k: nat)
    requires
        a < pow256(k),
        b < pow256(k),
        le_bytes(a, k) == le_bytes(b, k),
    ensures
        a == b,
    decreases k,
{
    if k > 0 {
        let p = pow256((k - 1) as nat);
        assert(le_bytes(a, k) == seq![(a % 256) as u8] + le_bytes(a / 256, (k - 1) as nat));
        assert(le_bytes(b, k) == seq![(b % 256) as u8] + le_bytes(b / 256, (k - 1) as nat));
        assert(le_bytes(a, k)[0] == (a % 256) as u8);
        assert(le_bytes(b, k)[0] == (b % 256) as u8);
        assert((a % 256) as u8 == (b % 256) as u8);
        assert(a % 256 == b % 256);
        assert(le_bytes(a, k).drop_first() =~= le_bytes(a / 256, (k - 1) as nat));
        assert(le_bytes(b, k).drop_first() =~= le_bytes(b / 256, (k - 1) as nat));
        assert(a / 256 < p) by (nonlinear_arith)
            requires
                a < 256 * p,
        ;
        assert(b / 256 < p) by (nonlinear_arith)
            requires
                b < 256 * p,
        ;
        lemma_le_bytes_injective(a / 256, b / 256, (k - 1) as nat);
        assert(a == 256 * (a / 256) + a % 256) by (nonlinear_arith);
        assert(b == 256 * (b / 256) + b % 256) by (nonlinear_arith);
    }
}

proof fn lemma_frame_injective(a: Seq<char>, b: Seq<char>, ra: Seq<u8>, rb: Seq<u8>)
    requires
        encode_utf8(a).len() < pow256(8),
        encode_utf8(b).len() < pow256(8),
        frame(a) + ra == frame(b) + rb,
    ensures
        a == b,
        ra == rb,
{
    broadcast use vstd::utf8::encode_utf8_decode_utf8;

    let x = frame(a) + ra;
    let la = encode_utf8(a).len();
    let lb = encode_utf8(b).len();
    lemma_le_bytes_len(la, 8);
    lemma_le_bytes_len(lb, 8);
    assert(x.take(8) =~= le_bytes(la, 8));
    assert((frame(b) + rb).take(8) =~= le_bytes(lb, 8));
    lemma_le_bytes_injective(la, lb, 8);
    assert(x.subrange(8, 8 + la as int) =~= encode_utf8(a));
    assert((frame(b) + rb).subrange(8, 8 + lb as int) =~= encode_utf8(b));
    assert(decode_utf8(encode_utf8(a)) == a);
    assert(decode_utf8(encode_utf8(b)) == b);
    assert(x.skip(8 + la as int) =~= ra);
    assert((frame(b) + rb).skip(8 + lb as int) =~= rb);
}

proof fn lemma_digit_char_injective(a: nat, b: nat)
    requires
        a < 10,
        b < 10,
        digit_char(a) == digit_char(b),
    ensures
        a == b,
{
    vstd::utf8::char_u32_cast(digit_char(a), (a + 0x30) as u32);
    vstd::utf8::char_u32_cast(digit_char(b), (b + 0x30) as u32);
}

pub proof fn lemma_decimal_long(n: nat)
    ensures
        n >= 10 ==> decimal(n).len() >= 2,
        decimal(n).len() >= 1,
    decreases n,
{
    if n >= 10 {
        lemma_decimal_long(n / 10);
    }
}

pub proof fn lemma_decimal_injective(a: nat, b: nat)
    requires
        decimal(a) == decimal(b),
    ensures
        a == b,
    decreases a,
{
    lemma_decimal_long(a);
    lemma_decimal_long(b);
    if a < 10 && b < 10 {
        assert(decimal(a) == seq![digit_char(a)]);
        assert(decimal(b) == seq![digit_char(b)]);
        assert(decimal(a)[0] == decimal(b)[0]);
        assert(seq![digit_char(a)][0] == digit_char(a));
        assert(seq![digit_char(b)][0] == digit_char(b));
        lemma_digit_char_injective(a, b);
    } else if a >= 10 && b >= 10 {
        assert(decimal(a) == decimal(a / 10).push(digit_char(a % 10)));
        assert(decimal(b) == decimal(b / 10).push(digit_char(b % 10)));
        assert(decimal(a).last() == decimal(b).last());
        assert(decimal(a / 10).push(digit_char(a % 10)).last() == digit_char(a % 10));
        assert(decimal(b / 10).push(digit_char(b % 10)).last() == digit_char(b % 10));
        lemma_digit_char_injective(a % 10, b % 10);
        assert(decimal(a).drop_last() =~= decimal(a / 10));
        assert(decimal(b).drop_last() =~= decimal(b / 10));
        lemma_decimal_injective(a / 10, b / 10);
    }
}

/// Distinct invocations hash distinct inputs: the hashed bytes determine the
/// namespace, the file, the invocation index and the CSS text. Two invocations
/// with the same CSS therefore get distinct scoped names unless SHA-256 collides,
/// and nothing else (no line number, no absolute path) enters the hash.
pub proof fn lemma_hash_input_injective(
    namespace1: Seq<char>,
    file1: Seq<char>,
    index1: nat,
    css1: Seq<char>,
    namespace2: Seq<char>,
    file2: Seq<char>,
    index2: nat,
    css2: Seq<char>,
)
    requires
        encode_utf8(namespace1).len() < pow256(8),
        encode_utf8(file1).len() < pow256(8),
        encode_utf8(decimal(index1)).len() < pow256(8),
        encode_utf8(css1).len() < pow256(8),
        encode_utf8(namespace2).len() < pow256(8),
        encode_utf8(file2).len() < pow256(8),
        encode_utf8(decimal(index2)).len() < pow256(8),
        encode_utf8(css2).len() < pow256(8),
        hash_input(namespace1, file1, index1, css1) == hash_input(namespace2, file2, index2, css2),
    ensures
        namespace1 == namespace2,
        file1 == file2,
        index1 == index2,
        css1 == css2,
{
    let tag = frame("topcoat-css-v1"@);
    let e: Seq<u8> = Seq::empty();
    assert(hash_input(namespace1, file1, index1, css1) =~= tag + (frame(namespace1) + (frame(file1)
        + (frame(decimal(index1)) + (frame(css1) + e)))));
    assert(hash_input(namespace2, file2, index2, css2) =~= tag + (frame(namespace2) + (frame(file2)
        + (frame(decimal(index2)) + (frame(css2) + e)))));
    let x1 = frame(namespace1) + (frame(file1) + (frame(decimal(index1)) + (frame(css1) + e)));
    let x2 = frame(namespace2) + (frame(file2) + (frame(decimal(index2)) + (frame(css2) + e)));
    assert((tag + x1).skip(tag.len() as int) =~= x1);
    assert((tag + x2).skip(tag.len() as int) =~= x2);
    lemma_frame_injective(
        namespace1,
        namespace2,
        frame(file1) + (frame(decimal(index1)) + (frame(css1) + e)),
        frame(file2) + (frame(decimal(index2)) + (frame(css2) + e)),
    );
    lemma_frame_injective(
        file1,
        file2,
        frame(decimal(index1)) + (frame(css1) + e),
        frame(decimal(index2)) + (frame(css2) + e),
    );
    lemma_frame_injective(decimal(index1), decimal(index2), frame(css1) + e, frame(css2) + e);
    lemma_decimal_injective(index1, index2);
    lemma_frame_injective(css1, css2, e, e);
}

} // verus!
