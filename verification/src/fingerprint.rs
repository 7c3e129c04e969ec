//! Stable, line-number-independent finding identity.
//!
//! Diffing finding sets across two refs requires an identity that survives line-number
//! shifts: code inserted above a finding must not read as a fixed finding and a new one. A
//! finding's absolute position is therefore not part of its identity. Instead:
//!
//! ```text
//! content_key = H( rule_id ‖ normalized_match_text ‖ structural_path )
//! fingerprint = H( file_path ‖ content_key )
//! occurrence  = index among identical fingerprints
//! ```
//!
//! plus a secondary context hash over the source window around the match, used only to
//! tell an unchanged finding from one that was edited nearby.

use sha2::{Digest, Sha256};
use vstd::prelude::*;

use crate::syntax;
use crate::syntax::SyntaxNode;
use crate::text;

verus! {

/// Default number of nearest ancestor node kinds folded into the structural path.
pub const DEFAULT_ANCESTOR_DEPTH: usize = 3;

/// Lines of context on each side of a match that its context hash covers.
pub const CONTEXT_LINES: usize = 2;

// ---------------------------------------------------------------------------
// Hashes
// ---------------------------------------------------------------------------

/// The SHA-256 digest of a byte string.
pub uninterp spec fn sha256_digest(bytes: Seq<u8>) -> Seq<u8>;

/// `sha2::Sha256::digest` computes the SHA-256 digest of its argument: 32 bytes that depend
/// on the argument alone.
#[verifier::external_body]
fn sha256(bytes: &[u8]) -> (r: Vec<u8>)
    ensures
        r@ == sha256_digest(bytes@),
        r@.len() == 32,
{
    Sha256::digest(bytes).to_vec()
}

/// The text that a byte string holds, with each malformed part replaced.
pub uninterp spec fn utf8_lossy(bytes: Seq<u8>) -> Seq<char>;

/// `String::from_utf8_lossy` decodes UTF-8, and puts replacement characters where the bytes
/// are malformed. The result depends on the bytes alone, and encodes to the same bytes
/// wherever they are well-formed.
#[verifier::external_body]
pub(crate) fn from_utf8_lossy(bytes: &[u8]) -> (r: String)
    ensures
        r@ == utf8_lossy(bytes@),
        vstd::utf8::valid_utf8(bytes@) ==> vstd::utf8::encode_utf8(r@) == bytes@,
{
    String::from_utf8_lossy(bytes).into_owned()
}

/// The lowercase hexadecimal digit of a value below 16.
pub open spec fn hex_digit(n: int) -> char {
    if n < 10 {
        ('0' as int + n) as char
    } else {
        ('a' as int + n - 10) as char
    }
}

/// Two hexadecimal digits for each byte, the high half first.
pub open spec fn hex(bytes: Seq<u8>) -> Seq<char> {
    Seq::new(
        2 * bytes.len(),
        |i: int|
            hex_digit(
                if i % 2 == 0 {
                    bytes[i / 2] as int / 16
                } else {
                    bytes[i / 2] as int % 16
                },
            ),
    )
}

fn hex_char(n: u8) -> (c: char)
    requires
        n < 16,
    ensures
        c == hex_digit(n as int),
{
    if n < 10 {
        (48u8 + n) as char
    } else {
        (87u8 + n) as char
    }
}

fn to_hex(bytes: &Vec<u8>) -> (r: String)
    ensures
        r@ == hex(bytes@),
{
    let mut out = String::new();
    for i in 0..bytes.len()
        invariant
            out@ == hex(bytes@).take(2 * i),
    {
        out.push(hex_char(bytes[i] / 16));
        out.push(hex_char(bytes[i] % 16));
        assert(out@ =~= hex(bytes@).take(2 * (i + 1)));
    }
    assert(hex(bytes@).take(2 * bytes@.len() as int) =~= hex(bytes@));
    out
}

/// Is every character a lowercase hexadecimal digit?
pub open spec fn all_hex(s: Seq<char>) -> bool {
    forall|i: int|
        0 <= i < s.len() ==> '0' <= #[trigger] s[i] <= '9' || 'a' <= s[i] <= 'f'
}

/// Lowercase-hex SHA-256 of `bytes`.
pub fn sha256_hex(bytes: &[u8]) -> (r: String)
    ensures
        r@ == hex(sha256_digest(bytes@)),
        r@.len() == 64,
        all_hex(r@),
{
    let d = sha256(bytes);
    proof {
        lemma_hex_faithful(d@, d@);
    }
    to_hex(&d)
}

/// The character between the parts of a hashed tuple.
pub open spec fn separator() -> Seq<char> {
    seq!['\u{1f}']
}

/// The texts that a list of string slices holds.
pub open spec fn slices(s: Seq<&str>) -> Seq<Seq<char>> {
    s.map_values(|x: &str| x@)
}

/// The parts one after the other, with a separator between neighbours: what is hashed for
/// a tuple.
pub open spec fn preimage(parts: Seq<Seq<char>>) -> Seq<char> {
    text::joined(parts, separator())
}

/// The hash of a tuple of texts.
pub open spec fn digest_of(parts: Seq<Seq<char>>) -> Seq<char> {
    hex(sha256_digest(vstd::utf8::encode_utf8(preimage(parts))))
}

/// SHA-256 of the parts joined by a separator, hex encoded. The separator makes the
/// concatenation unambiguous.
pub fn sha256_parts(parts: &[&str]) -> (r: String)
    ensures
        r@ == digest_of(slices(parts@)),
        r@.len() == 64,
        all_hex(r@),
{
    let mut out = String::new();
    for i in 0..parts.len()
        invariant
            out@ == preimage(slices(parts@).take(i as int)),
    {
        let ghost now = slices(parts@).take(i + 1);
        assert(now.drop_last() =~= slices(parts@).take(i as int));
        assert(now.last() == parts@[i as int]@);
        if i > 0 {
            out.push('\u{1f}');
            assert(out@ =~= preimage(now.drop_last()) + separator());
        }
        out.append(parts[i]);
        if i == 0 {
            assert(out@ =~= now[0]);
        }
    }
    assert(slices(parts@).take(parts@.len() as int) =~= slices(parts@));
    sha256_hex(out.as_str().as_bytes())
}

// ---------------------------------------------------------------------------
// Match text and structure
// ---------------------------------------------------------------------------

/// The words of a text with one space between neighbours.
pub open spec fn normalized(s: Seq<char>) -> Seq<char> {
    text::joined(text::words(s), " "@)
}

/// Collapse every run of whitespace to a single space and trim the ends. This is what makes
/// a pure reformat leave a finding's fingerprint untouched.
pub fn normalize_ws(text: &str) -> (r: String)
    ensures
        r@ == normalized(text@),
{
    let ws = text::split_whitespace(text);
    text::join(&ws, " ")
}

/// The kinds of the named nodes among ancestors, in their order.
pub open spec fn named_kinds(ancestors: Seq<syntax::AncestorModel>) -> Seq<Seq<char>>
    decreases ancestors.len(),
{
    if ancestors.len() == 0 {
        seq![]
    } else {
        let rest = named_kinds(ancestors.drop_last());
        if ancestors.last().named {
            rest.push(ancestors.last().kind)
        } else {
            rest
        }
    }
}

/// The kinds of the `depth` nearest named ancestors, nearest first; fewer where the node
/// has fewer.
pub open spec fn nearest_kinds(ancestors: Seq<syntax::AncestorModel>, depth: nat) -> Seq<Seq<char>> {
    let kinds = named_kinds(ancestors);
    if kinds.len() <= depth {
        kinds
    } else {
        kinds.take(depth as int)
    }
}

/// The kinds of the nearest named ancestors from the outermost in, closed by the node's own
/// kind.
pub open spec fn structure(node: syntax::NodeModel, depth: nat) -> Seq<char> {
    text::joined(nearest_kinds(node.ancestors, depth).reverse().push(node.kind), ">"@)
}

proof fn lemma_named_kinds_grow(ancestors: Seq<syntax::AncestorModel>, i: int)
    requires
        0 <= i <= ancestors.len(),
    ensures
        named_kinds(ancestors.take(i)).is_prefix_of(named_kinds(ancestors)),
    decreases ancestors.len(),
{
    if i == ancestors.len() {
        assert(ancestors.take(i) =~= ancestors);
    } else {
        lemma_named_kinds_grow(ancestors.drop_last(), i);
        assert(ancestors.drop_last().take(i) =~= ancestors.take(i));
    }
}

/// The kinds of the `depth` nearest named ancestors of a node, outermost first, closed by
/// the node's own kind, as in `call_expression>arguments>string`.
///
/// Only named ancestors are counted, so that punctuation nodes neither dilute the path nor
/// make it sensitive to formatting.
pub fn structural_path(node: &SyntaxNode, depth: usize) -> (r: String)
    ensures
        r@ == structure(node@, depth as nat),
{
    let ghost ancestors = node@.ancestors;
    let mut kinds: Vec<String> = Vec::new();
    let mut i: usize = 0;
    while i < node.ancestors.len() && kinds.len() < depth
        invariant
            ancestors == node@.ancestors,
            i <= ancestors.len(),
            ancestors.len() == node.ancestors@.len(),
            kinds@.len() <= depth,
            text::texts(kinds@) == named_kinds(ancestors.take(i as int)),
        decreases ancestors.len() - i,
    {
        assert(ancestors.take(i + 1).drop_last() =~= ancestors.take(i as int));
        assert(ancestors[i as int] == node.ancestors@[i as int]@);
        if node.ancestors[i].named {
            let ghost before = text::texts(kinds@);
            kinds.push(node.ancestors[i].kind.clone());
            assert(text::texts(kinds@) =~= before.push(ancestors[i as int].kind));
        }
        i = i + 1;
    }
    proof {
        lemma_named_kinds_grow(ancestors, i as int);
        assert(text::texts(kinds@).len() == kinds@.len());
        assert(ancestors.take(ancestors.len() as int) =~= ancestors);
        assert(text::texts(kinds@) =~= nearest_kinds(ancestors, depth as nat));
    }
    let mut path: Vec<String> = Vec::new();
    let mut k: usize = kinds.len();
    while k > 0
        invariant
            k <= kinds@.len(),
            text::texts(path@) == text::texts(kinds@).reverse().take(kinds@.len() - k),
        decreases k,
    {
        let ghost before = text::texts(path@);
        k = k - 1;
        path.push(kinds[k].clone());
        assert(text::texts(path@) =~= before.push(kinds@[k as int]@));
        assert(text::texts(path@) =~= text::texts(kinds@).reverse().take(kinds@.len() - k));
    }
    assert(text::texts(path@) =~= text::texts(kinds@).reverse());
    let ghost outer = text::texts(path@);
    path.push(node.kind.clone());
    assert(text::texts(path@) =~= outer.push(node.kind@));
    text::join(&path, ">")
}

/// The whitespace-normalized text of a span of source bytes.
pub open spec fn match_text(source: Seq<u8>, node: syntax::NodeModel) -> Seq<char> {
    normalized(utf8_lossy(source.subrange(node.start_byte as int, node.end_byte as int)))
}

/// The whitespace-normalized match text used in the fingerprint.
pub fn normalized_match_text(source: &[u8], node: &SyntaxNode) -> (r: String)
    requires
        node.start_byte <= node.end_byte <= source@.len(),
    ensures
        r@ == match_text(source@, node@),
{
    let raw = from_utf8_lossy(vstd::slice::slice_subrange(source, node.start_byte, node.end_byte));
    normalize_ws(raw.as_str())
}

// ---------------------------------------------------------------------------
// Identity
// ---------------------------------------------------------------------------

/// A path without the `./` it starts with, however often.
pub open spec fn without_dot_slash(s: Seq<char>) -> Seq<char>
    decreases s.len(),
{
    if s.len() >= 2 && s[0] == '.' && s[1] == '/' {
        without_dot_slash(s.skip(2))
    } else {
        s
    }
}

/// The canonical form of a path: forward slashes, no leading `./`.
pub open spec fn path_identity(path: Seq<char>) -> Seq<char> {
    without_dot_slash(text::replaced(path, '\\', '/'))
}

/// The canonical form of a finding path for identity and diff keys: forward slashes, no
/// leading `./`. Every fingerprint is composed from it, and a finding is looked up under it among
/// the paths of a diff.
pub fn identity_path(path: &str) -> (r: String)
    ensures
        r@ == path_identity(path@),
{
    let s = text::replace_char(path, '\\', '/');
    let chars = text::chars_of(s.as_str());
    let mut i: usize = 0;
    assert(chars@.skip(0) =~= chars@);
    while chars.len() - i >= 2 && chars[i] == '.' && chars[i + 1] == '/'
        invariant
            i <= chars@.len(),
            without_dot_slash(chars@) == without_dot_slash(chars@.skip(i as int)),
        decreases chars@.len() - i,
    {
        assert(chars@.skip(i as int).skip(2) =~= chars@.skip(i + 2));
        i = i + 2;
    }
    let r = text::substring(chars.as_slice(), i, chars.len());
    assert(r@ =~= chars@.skip(i as int));
    r
}

/// The path-independent half of a finding's identity.
pub open spec fn content_identity(
    rule_id: Seq<char>,
    match_text: Seq<char>,
    structure: Seq<char>,
) -> Seq<char> {
    digest_of(seq![rule_id, match_text, structure])
}

/// The fingerprint of the content `key` in the file `path`.
pub open spec fn composed(path: Seq<char>, key: Seq<char>) -> Seq<char> {
    digest_of(seq![path, key])
}

/// The path-independent half of a finding's identity. Persisted alongside the fingerprint,
/// so that a rename can recompose the fingerprint under the new path without the source.
pub fn content_key(rule_id: &str, normalized_match_text: &str, structural_path: &str) -> (r: String)
    ensures
        r@ == content_identity(rule_id@, normalized_match_text@, structural_path@),
        r@.len() == 64,
        all_hex(r@),
{
    let parts = vec![rule_id, normalized_match_text, structural_path];
    assert(slices(parts@) =~= seq![rule_id@, normalized_match_text@, structural_path@]);
    sha256_parts(parts.as_slice())
}

/// Compose the stable fingerprint: the file path bound to the content key.
pub fn compose(file_path: &str, content_key: &str) -> (r: String)
    ensures
        r@ == composed(file_path@, content_key@),
        r@.len() == 64,
        all_hex(r@),
{
    let parts = vec![file_path, content_key];
    assert(slices(parts@) =~= seq![file_path@, content_key@]);
    sha256_parts(parts.as_slice())
}

/// The identity of the fingerprint scheme: its version, the ancestor depth and the number
/// of context lines.
pub open spec fn scheme(depth: nat) -> Seq<char> {
    "fp/v2:d"@ + text::decimal(depth) + ":c"@ + text::decimal(CONTEXT_LINES as nat)
}

/// The identity of the fingerprint scheme in effect at an ancestor depth.
pub fn scheme_id(depth: usize) -> (r: String)
    ensures
        r@ == scheme(depth as nat),
{
    let mut out = "fp/v2:d".to_owned();
    out.append(text::decimal_string(depth).as_str());
    out.append(":c");
    out.append(text::decimal_string(CONTEXT_LINES).as_str());
    out
}

// ---------------------------------------------------------------------------
// Context
// ---------------------------------------------------------------------------

/// The first line of the window around rows that start at `start`.
pub open spec fn window_first(start: int, around: int) -> int {
    if start >= around {
        start - around
    } else {
        0
    }
}

/// The last line of the window around rows that end at `end`, in a text of `n` lines.
pub open spec fn window_last(n: int, end: int, around: int) -> int {
    let row = if end < n {
        end
    } else {
        n - 1
    };
    if row + around < n {
        row + around
    } else {
        n - 1
    }
}

/// Does the window around the rows lie in a text of `n` lines? It does not where the rows
/// start far behind the last line, or where the window is too large to count.
pub open spec fn window_fits(n: int, start: int, end: int, around: int) -> bool {
    n == 0 || {
        &&& (if end < n {
            end
        } else {
            n - 1
        }) + around <= usize::MAX
        &&& window_first(start, around) <= window_last(n, end, around) + 1
    }
}

/// The hash of the normalized lines in the window around the rows.
pub open spec fn window_digest(lines: Seq<Seq<char>>, start: int, end: int, around: int) -> Seq<char> {
    if lines.len() == 0 {
        digest_of(seq![])
    } else {
        let window = lines.subrange(
            window_first(start, around),
            window_last(lines.len() as int, end, around) + 1,
        );
        digest_of(seq![normalized(text::joined(window, "\n"@))])
    }
}

/// Does the window around the rows lie in a text of `n` lines?
pub fn fits_window(n: usize, start_row: usize, end_row: usize, ctx_lines: usize) -> (r: bool)
    ensures
        r == window_fits(n as int, start_row as int, end_row as int, ctx_lines as int),
{
    if n == 0 {
        return true;
    }
    let row: usize = if end_row < n {
        end_row
    } else {
        n - 1
    };
    if row > usize::MAX - ctx_lines {
        return false;
    }
    let first: usize = if start_row >= ctx_lines {
        start_row - ctx_lines
    } else {
        0
    };
    let last: usize = if row + ctx_lines < n {
        row + ctx_lines
    } else {
        n - 1
    };
    first <= last || first - last == 1
}

/// The hash of the lines around a span of rows (`ctx_lines` on each side), normalized.
pub fn window_hash(
    lines: &Vec<String>,
    start_row: usize,
    end_row: usize,
    ctx_lines: usize,
) -> (r: String)
    requires
        window_fits(lines@.len() as int, start_row as int, end_row as int, ctx_lines as int),
    ensures
        r@ == window_digest(
            text::texts(lines@),
            start_row as int,
            end_row as int,
            ctx_lines as int,
        ),
        r@.len() == 64,
        all_hex(r@),
{
    let n = lines.len();
    if n == 0 {
        let none: Vec<&str> = Vec::new();
        assert(slices(none@) =~= seq![]);
        return sha256_parts(none.as_slice());
    }
    let first: usize = if start_row >= ctx_lines {
        start_row - ctx_lines
    } else {
        0
    };
    let row: usize = if end_row < n {
        end_row
    } else {
        n - 1
    };
    let last: usize = if row + ctx_lines < n {
        row + ctx_lines
    } else {
        n - 1
    };
    let mut window: Vec<String> = Vec::new();
    for i in first..last + 1
        invariant
            first <= last + 1 <= lines@.len(),
            text::texts(window@) == text::texts(lines@).subrange(first as int, i as int),
    {
        let ghost before = text::texts(window@);
        window.push(lines[i].clone());
        assert(text::texts(window@) =~= before.push(lines@[i as int]@));
        assert(text::texts(window@) =~= text::texts(lines@).subrange(first as int, i + 1));
    }
    let joined = text::join(&window, "\n");
    let flat = normalize_ws(joined.as_str());
    let parts = vec![flat.as_str()];
    assert(slices(parts@) =~= seq![flat@]);
    sha256_parts(parts.as_slice())
}

/// The lines of a source file, decoded.
pub open spec fn source_lines(source: Seq<u8>) -> Seq<Seq<char>> {
    text::text_lines(utf8_lossy(source))
}

/// Secondary identity: a hash of the source window around the match. Two findings that
/// share a fingerprint but differ here are one finding whose neighbourhood was edited.
pub fn context_hash(source: &[u8], node: &SyntaxNode, ctx_lines: usize) -> (r: String)
    requires
        window_fits(
            source_lines(source@).len() as int,
            node.start.row as int,
            node.end.row as int,
            ctx_lines as int,
        ),
    ensures
        r@ == window_digest(
            source_lines(source@),
            node.start.row as int,
            node.end.row as int,
            ctx_lines as int,
        ),
        r@.len() == 64,
        all_hex(r@),
{
    let text = from_utf8_lossy(source);
    let lines = text::lines(text.as_str());
    assert(text::texts(lines@).len() == lines@.len());
    window_hash(&lines, node.start.row, node.end.row, ctx_lines)
}

/// The context hash of a node, or none where its window does not lie in the source.
pub fn checked_context_hash(source: &[u8], node: &SyntaxNode, ctx_lines: usize) -> (r: Option<String>)
    ensures
        text::opt_text(r) == if window_fits(
            source_lines(source@).len() as int,
            node.start.row as int,
            node.end.row as int,
            ctx_lines as int,
        ) {
            Some(
                window_digest(
                    source_lines(source@),
                    node.start.row as int,
                    node.end.row as int,
                    ctx_lines as int,
                ),
            )
        } else {
            None
        },
{
    let text = from_utf8_lossy(source);
    let lines = text::lines(text.as_str());
    assert(text::texts(lines@).len() == lines@.len());
    if fits_window(lines.len(), node.start.row, node.end.row, ctx_lines) {
        Some(context_hash(source, node, ctx_lines))
    } else {
        None
    }
}

// ---------------------------------------------------------------------------
// What identity rests on
// ---------------------------------------------------------------------------

/// Normalizing a normalized text changes nothing.
pub proof fn lemma_normalized_idempotent(s: Seq<char>)
    ensures
        normalized(normalized(s)) == normalized(s),
{
    text::lemma_words_are_words(s);
    text::lemma_words_of_joined(text::words(s));
}

/// A reformat leaves the normalized text as it is: whitespace before, after and between the
/// two halves of a text may be replaced by other whitespace.
pub proof fn lemma_normalized_reformat(
    before: Seq<char>,
    a: Seq<char>,
    gap: Seq<char>,
    other_gap: Seq<char>,
    b: Seq<char>,
    after: Seq<char>,
)
    requires
        text::blank(before),
        text::blank(gap),
        text::blank(other_gap),
        text::blank(after),
        gap.len() > 0,
        other_gap.len() > 0,
    ensures
        normalized(before + a + gap + b + after) == normalized(a + other_gap + b),
{
    let empty = Seq::<char>::empty();
    text::lemma_words_apart(a, gap, b);
    text::lemma_words_apart(a, other_gap, b);
    let core = a + gap + b;
    text::lemma_words_apart(empty, before, core);
    assert(empty + before + core =~= before + core);
    assert(text::words(empty) + text::words(core) =~= text::words(core));
    let led = before + core;
    if after.len() > 0 {
        text::lemma_words_apart(led, after, empty);
        assert(led + after + empty =~= led + after);
        assert(text::words(led) + text::words(empty) =~= text::words(led));
    } else {
        assert(led + after =~= led);
    }
    assert(before + a + gap + b + after =~= led + after);
}

/// Is the separator absent from every part?
pub open spec fn separable(parts: Seq<Seq<char>>) -> bool {
    parts.len() > 0 && forall|i: int|
        0 <= i < parts.len() ==> !(#[trigger] parts[i]).contains('\u{1f}')
}

/// Different tuples are hashed as different byte strings, where no part holds the separator.
pub proof fn lemma_preimage_unambiguous(p: Seq<Seq<char>>, q: Seq<Seq<char>>)
    requires
        separable(p),
        separable(q),
        vstd::utf8::encode_utf8(preimage(p)) == vstd::utf8::encode_utf8(preimage(q)),
    ensures
        p == q,
{
    vstd::utf8::encode_utf8_decode_utf8(preimage(p));
    vstd::utf8::encode_utf8_decode_utf8(preimage(q));
    text::lemma_pieces_of_joined(p, '\u{1f}');
    text::lemma_pieces_of_joined(q, '\u{1f}');
}

/// Hexadecimal text determines the bytes it stands for, and is lowercase.
pub proof fn lemma_hex_faithful(a: Seq<u8>, b: Seq<u8>)
    ensures
        hex(a) == hex(b) ==> a == b,
        all_hex(hex(a)),
{
    if hex(a) == hex(b) {
        assert(hex(a).len() == 2 * a.len() && hex(b).len() == 2 * b.len());
        assert forall|i: int| 0 <= i < a.len() implies a[i] == b[i] by {
            let (x, y) = (a[i] as int, b[i] as int);
            assert(hex(a)[2 * i] == hex_digit(x / 16));
            assert(hex(b)[2 * i] == hex_digit(y / 16));
            assert(hex(a)[2 * i + 1] == hex_digit(x % 16));
            assert(hex(b)[2 * i + 1] == hex_digit(y % 16));
        }
        assert(a =~= b);
    }
}

/// Two different tuples share a hash only where SHA-256 itself collides.
pub proof fn lemma_digest_separates(p: Seq<Seq<char>>, q: Seq<Seq<char>>)
    requires
        separable(p),
        separable(q),
        p != q,
        digest_of(p) == digest_of(q),
    ensures
        vstd::utf8::encode_utf8(preimage(p)) != vstd::utf8::encode_utf8(preimage(q)),
        sha256_digest(vstd::utf8::encode_utf8(preimage(p))) == sha256_digest(
            vstd::utf8::encode_utf8(preimage(q)),
        ),
{
    if vstd::utf8::encode_utf8(preimage(p)) == vstd::utf8::encode_utf8(preimage(q)) {
        lemma_preimage_unambiguous(p, q);
    }
    lemma_hex_faithful(
        sha256_digest(vstd::utf8::encode_utf8(preimage(p))),
        sha256_digest(vstd::utf8::encode_utf8(preimage(q))),
    );
}

proof fn lemma_without_dot_slash(s: Seq<char>)
    ensures
        !(without_dot_slash(s).len() >= 2 && without_dot_slash(s)[0] == '.'
            && without_dot_slash(s)[1] == '/'),
        without_dot_slash(without_dot_slash(s)) == without_dot_slash(s),
        s.contains('\\') || !without_dot_slash(s).contains('\\'),
    decreases s.len(),
{
    if s.len() >= 2 && s[0] == '.' && s[1] == '/' {
        lemma_without_dot_slash(s.skip(2));
        if s.skip(2).contains('\\') {
            let k = choose|k: int| 0 <= k < s.skip(2).len() && s.skip(2)[k] == '\\';
            assert(s[k + 2] == '\\');
        }
    }
}

/// An identity path has no backslash and no leading `./`, and is its own identity path.
pub proof fn lemma_path_identity_canonical(path: Seq<char>)
    ensures
        !path_identity(path).contains('\\'),
        !(path_identity(path).len() >= 2 && path_identity(path)[0] == '.' && path_identity(path)[1]
            == '/'),
        path_identity(path_identity(path)) == path_identity(path),
{
    let s = text::replaced(path, '\\', '/');
    assert(!s.contains('\\')) by {
        assert forall|k: int| 0 <= k < s.len() implies s[k] != '\\' by {}
    }
    lemma_without_dot_slash(s);
    let r = path_identity(path);
    assert forall|k: int| 0 <= k < r.len() implies r[k] != '\\' by {
        assert(r.contains(r[k]));
    }
    assert(text::replaced(r, '\\', '/') =~= r);
}

/// Taking an unnamed node out of a node's ancestors leaves its structural path as it is.
pub proof fn lemma_structure_ignores_unnamed(
    node: syntax::NodeModel,
    other: syntax::NodeModel,
    i: int,
    depth: nat,
)
    requires
        0 <= i < node.ancestors.len(),
        !node.ancestors[i].named,
        other.kind == node.kind,
        other.ancestors == node.ancestors.remove(i),
    ensures
        structure(other, depth) == structure(node, depth),
{
    lemma_named_kinds_remove(node.ancestors, i);
}

proof fn lemma_named_kinds_remove(ancestors: Seq<syntax::AncestorModel>, i: int)
    requires
        0 <= i < ancestors.len(),
        !ancestors[i].named,
    ensures
        named_kinds(ancestors.remove(i)) == named_kinds(ancestors),
    decreases ancestors.len(),
{
    let init = ancestors.drop_last();
    if i == ancestors.len() - 1 {
        assert(ancestors.remove(i) =~= init);
    } else {
        lemma_named_kinds_remove(init, i);
        assert(ancestors.remove(i).drop_last() =~= init.remove(i));
        assert(ancestors.remove(i).last() == ancestors.last());
    }
}

/// A structural path folds in at most `depth` ancestors.
pub proof fn lemma_structure_depth(node: syntax::NodeModel, depth: nat)
    ensures
        nearest_kinds(node.ancestors, depth).len() <= depth,
{
}

// ---------------------------------------------------------------------------
// What identity is made of
// ---------------------------------------------------------------------------

proof fn lemma_spacing(ws: Seq<Seq<char>>)
    requires
        forall|i: int| 0 <= i < ws.len() ==> text::is_word(#[trigger] ws[i]),
    ensures
        ({
            let r = text::joined(ws, " "@);
            &&& ws.len() > 0 ==> r.len() > 0 && !text::is_space(r.last()) && !text::is_space(r[0])
            &&& forall|i: int|
                0 <= i < r.len() && text::is_space(#[trigger] r[i]) ==> r[i] == ' ' && 0 < i
                    < r.len() - 1 && !text::is_space(r[i - 1]) && !text::is_space(r[i + 1])
        }),
    decreases ws.len(),
{
    reveal_strlit(" ");
    let r = text::joined(ws, " "@);
    if ws.len() == 1 {
        assert(text::is_word(ws[0]));
    } else if ws.len() > 1 {
        let init = ws.drop_last();
        assert forall|i: int| 0 <= i < init.len() implies text::is_word(#[trigger] init[i]) by {
            assert(init[i] == ws[i]);
        }
        lemma_spacing(init);
        let (a, w) = (text::joined(init, " "@), ws[ws.len() - 1]);
        assert(text::is_word(w));
        assert(r =~= a + " "@ + w);
        assert forall|i: int|
            0 <= i < r.len() && text::is_space(#[trigger] r[i]) implies r[i] == ' ' && 0 < i
            < r.len() - 1 && !text::is_space(r[i - 1]) && !text::is_space(r[i + 1]) by {
            let n = a.len() as int;
            if i < n {
                assert(r[i] == a[i]);
                assert(text::is_space(a[i]));
                assert(r[i - 1] == a[i - 1] && r[i + 1] == a[i + 1]);
            } else if i == n {
                assert(r[i - 1] == a.last());
                assert(r[i + 1] == w[0]);
            } else {
                assert(r[i] == w[i - n - 1]);
            }
        }
    }
}

/// A normalized text has the words of the text, as they are and in their order, and of whitespace
/// nothing but single spaces between them.
pub proof fn lemma_normalized_keeps_words(s: Seq<char>)
    ensures
        text::words(normalized(s)) == text::words(s),
        forall|i: int|
            0 <= i < normalized(s).len() && text::is_space(#[trigger] normalized(s)[i])
                ==> normalized(s)[i] == ' ' && 0 < i < normalized(s).len() - 1 && !text::is_space(
                normalized(s)[i - 1],
            ) && !text::is_space(normalized(s)[i + 1]),
{
    text::lemma_words_are_words(s);
    text::lemma_words_of_joined(text::words(s));
    lemma_spacing(text::words(s));
}

/// The text that identifies a match is the normalized text of exactly the bytes that its node spans.
pub proof fn lemma_match_text_spans(source: Seq<u8>, node: syntax::NodeModel)
    requires
        node.start_byte <= node.end_byte <= source.len(),
    ensures
        match_text(source, node) == normalized(
            utf8_lossy(
                Seq::new(
                    (node.end_byte - node.start_byte) as nat,
                    |i: int| source[node.start_byte + i],
                ),
            ),
        ),
{
    assert(source.subrange(node.start_byte as int, node.end_byte as int) =~= Seq::new(
        (node.end_byte - node.start_byte) as nat,
        |i: int| source[node.start_byte + i],
    ));
}

proof fn lemma_named_listed(ancestors: Seq<syntax::AncestorModel>) -> (w: Seq<int>)
    ensures
        w.len() == named_kinds(ancestors).len(),
        forall|i: int, j: int| #![trigger w[i], w[j]] 0 <= i < j < w.len() ==> w[i] < w[j],
        forall|k: int|
            0 <= k < ancestors.len() && (#[trigger] ancestors[k]).named <==> w.contains(k),
        forall|i: int|
            0 <= i < w.len() ==> named_kinds(ancestors)[i] == ancestors[#[trigger] w[i]].kind,
    decreases ancestors.len(),
{
    if ancestors.len() == 0 {
        seq![]
    } else {
        let init = ancestors.drop_last();
        let m = init.len() as int;
        let v = lemma_named_listed(init);
        assert forall|i: int| 0 <= i < v.len() implies 0 <= #[trigger] v[i] < m && init[v[i]]
            == ancestors[v[i]] by {
            assert(v.contains(v[i]));
        }
        let w = if ancestors.last().named {
            v.push(m)
        } else {
            v
        };
        assert forall|k: int|
            0 <= k < ancestors.len() && (#[trigger] ancestors[k]).named <==> w.contains(k) by {
            if 0 <= k < m {
                assert(init[k] == ancestors[k]);
            }
            if v.contains(k) {
                let i = choose|i: int| 0 <= i < v.len() && v[i] == k;
                assert(w[i] == k);
            }
            if w.contains(k) && k != m {
                let i = choose|i: int| 0 <= i < w.len() && w[i] == k;
                assert(v[i] == k);
                assert(v.contains(k));
            }
            if ancestors.last().named {
                assert(w[v.len() as int] == m);
            } else if w.contains(m) {
                let i = choose|i: int| 0 <= i < w.len() && w[i] == m;
                assert(0 <= v[i] < m);
            }
        }
        w
    }
}

/// A structural path is made of the kinds of the nearest named ancestors, from the outermost of
/// them in, and of the node's own kind, with `>` between them: of all named ancestors where there
/// are no more than `depth`, and else of the `depth` nearest. The result says which ancestors these
/// are, nearest first.
pub proof fn lemma_structure_made_of(node: syntax::NodeModel, depth: nat) -> (w: Seq<int>)
    ensures
        w.len() <= depth,
        forall|i: int, j: int| #![trigger w[i], w[j]] 0 <= i < j < w.len() ==> w[i] < w[j],
        forall|i: int|
            0 <= i < w.len() ==> 0 <= #[trigger] w[i] < node.ancestors.len()
                && node.ancestors[w[i]].named,
        forall|k: int|
            0 <= k < node.ancestors.len() && (#[trigger] node.ancestors[k]).named && !w.contains(k)
                ==> w.len() == depth && forall|i: int| 0 <= i < w.len() ==> #[trigger] w[i] < k,
        structure(node, depth) == text::joined(
            Seq::new(
                w.len() + 1,
                |i: int|
                    if i < w.len() {
                        node.ancestors[w[w.len() - 1 - i]].kind
                    } else {
                        node.kind
                    },
            ),
            ">"@,
        ),
{
    let all = lemma_named_listed(node.ancestors);
    let w = if all.len() <= depth {
        all
    } else {
        all.take(depth as int)
    };
    assert forall|i: int| 0 <= i < w.len() implies 0 <= #[trigger] w[i] < node.ancestors.len()
        && node.ancestors[w[i]].named by {
        assert(all.contains(all[i]));
    }
    assert forall|k: int|
        0 <= k < node.ancestors.len() && (#[trigger] node.ancestors[k]).named && !w.contains(
            k,
        ) implies w.len() == depth && forall|i: int| 0 <= i < w.len() ==> #[trigger] w[i] < k by {
        assert(all.contains(k));
        let x = choose|x: int| 0 <= x < all.len() && all[x] == k;
        if x < w.len() {
            assert(w[x] == k);
        }
        assert forall|i: int| 0 <= i < w.len() implies #[trigger] w[i] < k by {
            assert(all[i] < all[x]);
        }
    }
    let kinds = nearest_kinds(node.ancestors, depth);
    assert(kinds.reverse().push(node.kind) =~= Seq::new(
        w.len() + 1,
        |i: int|
            if i < w.len() {
                node.ancestors[w[w.len() - 1 - i]].kind
            } else {
                node.kind
            },
    ));
    w
}

/// The identity of a path is the path, with slashes for backslashes and without any `./` before it.
pub proof fn lemma_path_identity_is_path(path: Seq<char>)
    ensures
        !path.contains('\\') && !(path.len() >= 2 && path[0] == '.' && path[1] == '/')
            ==> path_identity(path) == path,
        path_identity(seq!['.', '/'] + path) == path_identity(path),
        path_identity(seq!['.', '\\'] + path) == path_identity(path),
        forall|other: Seq<char>|
            other.len() == path.len() && (forall|i: int|
                0 <= i < path.len() ==> #[trigger] other[i] == path[i] || other[i] == '/' && path[i]
                    == '\\') ==> #[trigger] path_identity(other) == path_identity(path),
{
    let s = text::replaced(path, '\\', '/');
    if !path.contains('\\') {
        assert forall|i: int| 0 <= i < path.len() implies s[i] == path[i] by {
            assert(path.contains(path[i]));
        }
        assert(s =~= path);
    }
    let a = text::replaced(seq!['.', '/'] + path, '\\', '/');
    let b = text::replaced(seq!['.', '\\'] + path, '\\', '/');
    assert(a.skip(2) =~= s);
    assert(b.skip(2) =~= s);
    assert forall|other: Seq<char>|
        other.len() == path.len() && (forall|i: int|
            0 <= i < path.len() ==> #[trigger] other[i] == path[i] || other[i] == '/' && path[i]
                == '\\') implies #[trigger] path_identity(other) == path_identity(path) by {
        let t = text::replaced(other, '\\', '/');
        assert forall|i: int| 0 <= i < t.len() implies t[i] == s[i] by {
            assert(other[i] == path[i] || other[i] == '/' && path[i] == '\\');
        }
        assert(t =~= s);
    }
}

/// What is hashed for a tuple are its parts with the unit separator between them, as UTF-8, and the
/// hash is written in hexadecimal.
pub proof fn lemma_hash_of_parts(parts: Seq<Seq<char>>, x: Seq<char>)
    ensures
        digest_of(seq![x]) == hex(sha256_digest(vstd::utf8::encode_utf8(x))),
        parts.len() > 0 ==> preimage(parts.push(x)) == preimage(parts) + seq!['\u{1f}'] + x,
        digest_of(parts) == hex(sha256_digest(vstd::utf8::encode_utf8(preimage(parts)))),
{
    text::lemma_joined_one_by_one(parts, x, separator());
}

/// Each byte is written as two hexadecimal digits, the one for sixteens first.
pub proof fn lemma_hex_digits(bytes: Seq<u8>, i: int)
    requires
        0 <= i < bytes.len(),
    ensures
        hex(bytes).len() == 2 * bytes.len(),
        ({
            let value = |c: char| if '0' <= c <= '9' { c as int - '0' as int } else { c as int - 'a' as int + 10 };
            bytes[i] as int == 16 * value(hex(bytes)[2 * i]) + value(hex(bytes)[2 * i + 1])
        }),
{
    let x = bytes[i] as int;
    assert(hex(bytes)[2 * i] == hex_digit(x / 16));
    assert(hex(bytes)[2 * i + 1] == hex_digit(x % 16));
}

/// The scheme of fingerprints names the depth: schemes of two depths are told apart.
pub proof fn lemma_scheme_names_depth(a: nat, b: nat)
    ensures
        scheme(a) == "fp/v2:d"@ + text::decimal(a) + ":c2"@,
        scheme(a) == scheme(b) ==> a == b,
{
    reveal_strlit(":c");
    reveal_strlit(":c2");
    assert(text::decimal(2) =~= seq!['2']);
    assert(":c"@ + seq!['2'] =~= ":c2"@);
    let n = "fp/v2:d"@.len() as int;
    let (x, y) = (text::decimal(a), text::decimal(b));
    assert("fp/v2:d"@ + x + ":c"@ + seq!['2'] =~= "fp/v2:d"@ + x + (":c"@ + seq!['2']));
    assert(scheme(a) == "fp/v2:d"@ + x + ":c2"@);
    assert("fp/v2:d"@ + y + ":c"@ + seq!['2'] =~= "fp/v2:d"@ + y + (":c"@ + seq!['2']));
    assert(scheme(b) == "fp/v2:d"@ + y + ":c2"@);
    if scheme(a) == scheme(b) {
        assert(scheme(a).len() == n + x.len() + 3 && scheme(b).len() == n + y.len() + 3);
        assert(scheme(a).subrange(n, n + x.len()) =~= x);
        assert(scheme(b).subrange(n, n + y.len()) =~= y);
        text::lemma_decimal_denotes(a);
        text::lemma_decimal_denotes(b);
    }
}

} // verus!
