//! Text helpers, stated over sequences of characters.
//!
//! Every executable function here mirrors a spec function of the same meaning, so
//! that the contracts of the other modules can speak about text directly.

use vstd::prelude::*;
use vstd::slice::slice_subrange;

verus! {

// ---------------------------------------------------------------------------
// Characters and strings
// ---------------------------------------------------------------------------

/// `String::push` appends the given character to the end of the string.
pub assume_specification[ String::push ](s: &mut String, c: char)
    ensures
        final(s)@ == old(s)@.push(c),
;

/// The texts held by a sequence of strings.
pub open spec fn texts(s: Seq<String>) -> Seq<Seq<char>> {
    s.map_values(|x: String| x@)
}

/// The characters of a string, in order.
pub fn chars_of(s: &str) -> (r: Vec<char>)
    ensures
        r@ == s@,
{
    let mut out: Vec<char> = Vec::new();
    for c in it: s.chars()
        invariant
            it.seq() == s@,
            out@ == s@.take(it.index() as int),
    {
        out.push(c);
    }
    assert(s@.take(s@.len() as int) =~= s@);
    out
}

/// The string made of the given characters.
pub fn string_of(chars: &[char]) -> (r: String)
    ensures
        r@ == chars@,
{
    let mut out = String::new();
    for i in 0..chars.len()
        invariant
            out@ == chars@.take(i as int),
    {
        out.push(chars[i]);
        assert(chars@.take(i as int).push(chars@[i as int]) =~= chars@.take(i + 1));
    }
    assert(chars@.take(chars@.len() as int) =~= chars@);
    out
}

/// The string made of the characters from position `i` up to position `j`.
pub fn substring(chars: &[char], i: usize, j: usize) -> (r: String)
    requires
        i <= j <= chars@.len(),
    ensures
        r@ == chars@.subrange(i as int, j as int),
{
    string_of(slice_subrange(chars, i, j))
}

/// Do two strings hold the same text?
pub fn same(a: &str, b: &str) -> (r: bool)
    ensures
        r == (a@ == b@),
{
    let x = a.as_bytes();
    let y = b.as_bytes();
    proof {
        vstd::utf8::encode_utf8_decode_utf8(a@);
        vstd::utf8::encode_utf8_decode_utf8(b@);
    }
    if x.len() != y.len() {
        return false;
    }
    for i in 0..x.len()
        invariant
            x@ == vstd::utf8::encode_utf8(a@),
            y@ == vstd::utf8::encode_utf8(b@),
            x@.len() == y@.len(),
            forall|k: int| 0 <= k < i ==> x@[k] == y@[k],
    {
        if x[i] != y[i] {
            return false;
        }
    }
    assert(x@ =~= y@);
    true
}

/// Is `text` one of the strings in `list`?
pub fn contains_text(list: &Vec<String>, text: &str) -> (r: bool)
    ensures
        r == texts(list@).contains(text@),
{
    for i in 0..list.len()
        invariant
            forall|k: int| 0 <= k < i ==> texts(list@)[k] != text@,
    {
        if same(list[i].as_str(), text) {
            assert(texts(list@)[i as int] == text@);
            return true;
        }
        assert(texts(list@)[i as int] != text@);
    }
    false
}

/// A copy of a list of strings.
pub fn clone_texts(list: &Vec<String>) -> (r: Vec<String>)
    ensures
        r@ == list@,
        texts(r@) == texts(list@),
{
    let mut out: Vec<String> = Vec::new();
    for i in 0..list.len()
        invariant
            out@ == list@.take(i as int),
    {
        out.push(list[i].clone());
    }
    assert(list@.take(list@.len() as int) =~= list@);
    out
}

/// A copy of an optional string.
pub fn clone_option(s: &Option<String>) -> (r: Option<String>)
    ensures
        r == *s,
{
    match s {
        Some(x) => Some(x.clone()),
        None => None,
    }
}

/// The text held by an optional string.
pub open spec fn opt_text(s: Option<String>) -> Option<Seq<char>> {
    match s {
        Some(x) => Some(x@),
        None => None,
    }
}

// ---------------------------------------------------------------------------
// Whitespace
// ---------------------------------------------------------------------------

/// The characters with the Unicode `White_Space` property.
pub open spec fn is_space(c: char) -> bool {
    ||| '\u{9}' <= c <= '\u{d}'
    ||| c == ' '
    ||| c == '\u{85}'
    ||| c == '\u{a0}'
    ||| c == '\u{1680}'
    ||| '\u{2000}' <= c <= '\u{200a}'
    ||| c == '\u{2028}'
    ||| c == '\u{2029}'
    ||| c == '\u{202f}'
    ||| c == '\u{205f}'
    ||| c == '\u{3000}'
}

/// Does the character have the Unicode `White_Space` property?
pub fn is_whitespace(c: char) -> (r: bool)
    ensures
        r == is_space(c),
{
    (c >= '\u{9}' && c <= '\u{d}') || c == ' ' || c == '\u{85}' || c == '\u{a0}' || c == '\u{1680}'
        || (c >= '\u{2000}' && c <= '\u{200a}') || c == '\u{2028}' || c == '\u{2029}' || c
        == '\u{202f}' || c == '\u{205f}' || c == '\u{3000}'
}

/// The text without its leading whitespace.
pub open spec fn trimmed_start(s: Seq<char>) -> Seq<char>
    decreases s.len(),
{
    if s.len() > 0 && is_space(s[0]) {
        trimmed_start(s.drop_first())
    } else {
        s
    }
}

/// The text without its trailing whitespace.
pub open spec fn trimmed_end(s: Seq<char>) -> Seq<char>
    decreases s.len(),
{
    if s.len() > 0 && is_space(s.last()) {
        trimmed_end(s.drop_last())
    } else {
        s
    }
}

/// The text without its leading and trailing whitespace.
pub open spec fn trimmed(s: Seq<char>) -> Seq<char> {
    trimmed_end(trimmed_start(s))
}

fn skip_leading(chars: &[char]) -> (i: usize)
    ensures
        i <= chars@.len(),
        trimmed_start(chars@) == chars@.skip(i as int),
{
    let mut i: usize = 0;
    assert(chars@.skip(0) =~= chars@);
    while i < chars.len() && is_whitespace(chars[i])
        invariant
            i <= chars@.len(),
            trimmed_start(chars@) == trimmed_start(chars@.skip(i as int)),
        decreases chars@.len() - i,
    {
        assert(chars@.skip(i as int).drop_first() =~= chars@.skip(i + 1));
        i = i + 1;
    }
    i
}

/// `s` without its leading whitespace.
pub fn trim_start(s: &str) -> (r: String)
    ensures
        r@ == trimmed_start(s@),
{
    let chars = chars_of(s);
    let i = skip_leading(chars.as_slice());
    substring(chars.as_slice(), i, chars.len())
}

/// `s` without its leading and trailing whitespace.
pub fn trim(s: &str) -> (r: String)
    ensures
        r@ == trimmed(s@),
{
    let chars = chars_of(s);
    let i = skip_leading(chars.as_slice());
    let mut j: usize = chars.len();
    let ghost tail = chars@.skip(i as int);
    assert(chars@.subrange(i as int, j as int) =~= tail);
    while j > i && is_whitespace(chars[j - 1])
        invariant
            i <= j <= chars@.len(),
            trimmed_end(tail) == trimmed_end(chars@.subrange(i as int, j as int)),
        decreases j,
    {
        assert(chars@.subrange(i as int, j as int).drop_last() =~= chars@.subrange(
            i as int,
            j - 1,
        ));
        j = j - 1;
    }
    substring(chars.as_slice(), i, j)
}

/// The maximal runs of non-whitespace characters, in order.
pub open spec fn words(s: Seq<char>) -> Seq<Seq<char>>
    decreases s.len(),
{
    if s.len() == 0 {
        seq![]
    } else if is_space(s[0]) {
        words(s.drop_first())
    } else {
        let n = word_len(s);
        proof {
            lemma_word_len_bound(s);
        }
        seq![s.take(n as int)] + words(s.skip(n as int))
    }
}

/// The length of the run of non-whitespace characters that `s` starts with.
pub open spec fn word_len(s: Seq<char>) -> nat
    decreases s.len(),
{
    if s.len() == 0 || is_space(s[0]) {
        0
    } else {
        1 + word_len(s.drop_first())
    }
}

pub proof fn lemma_word_len_bound(s: Seq<char>)
    ensures
        word_len(s) <= s.len(),
        s.len() > 0 && !is_space(s[0]) ==> word_len(s) > 0,
    decreases s.len(),
{
    if s.len() > 0 && !is_space(s[0]) {
        lemma_word_len_bound(s.drop_first());
    }
}

/// Leading whitespace holds no word.
pub proof fn lemma_words_trimmed_start(s: Seq<char>)
    ensures
        words(s) == words(trimmed_start(s)),
    decreases s.len(),
{
    if s.len() > 0 && is_space(s[0]) {
        lemma_words_trimmed_start(s.drop_first());
    }
}

proof fn lemma_word_len(s: Seq<char>, n: nat)
    requires
        n <= s.len(),
        forall|k: int| 0 <= k < n ==> !is_space(#[trigger] s[k]),
        n < s.len() ==> is_space(s[n as int]),
    ensures
        word_len(s) == n,
    decreases n,
{
    if n > 0 {
        assert(s.drop_first().len() == s.len() - 1);
        assert forall|k: int| 0 <= k < n - 1 implies !is_space(#[trigger] s.drop_first()[k]) by {
            assert(s.drop_first()[k] == s[k + 1]);
        }
        lemma_word_len(s.drop_first(), (n - 1) as nat);
    }
}

/// The whitespace-separated words of `s`.
pub fn split_whitespace(s: &str) -> (r: Vec<String>)
    ensures
        texts(r@) == words(s@),
{
    let chars = chars_of(s);
    let mut out: Vec<String> = Vec::new();
    let mut i: usize = 0;
    assert(s@.skip(0) =~= s@);
    loop
        invariant
            chars@ == s@,
            i <= s@.len(),
            texts(out@) + words(s@.skip(i as int)) == words(s@),
        decreases s@.len() - i,
    {
        let rest = slice_subrange(chars.as_slice(), i, chars.len());
        assert(rest@ =~= s@.skip(i as int));
        let k = skip_leading(rest);
        let start: usize = i + k;
        let ghost t = s@.skip(start as int);
        assert(rest@.skip(k as int) =~= t);
        if start >= chars.len() {
            proof {
                lemma_words_trimmed_start(rest@);
            }
            assert(words(t) =~= seq![]);
            assert(texts(out@) =~= words(s@));
            return out;
        }
        let mut j: usize = start;
        while j < chars.len() && !is_whitespace(chars[j])
            invariant
                chars@ == s@,
                start <= j <= s@.len(),
                t == s@.skip(start as int),
                forall|m: int| 0 <= m < j - start ==> !is_space(#[trigger] t[m]),
            decreases s@.len() - j,
        {
            assert(t[j - start] == s@[j as int]);
            j = j + 1;
        }
        proof {
            if j < s@.len() {
                assert(t[j - start] == s@[j as int]);
            }
            lemma_word_len(t, (j - start) as nat);
            lemma_words_trimmed_start(rest@);
            lemma_trimmed_start_idempotent(rest@);
            assert(t.len() > 0 && !is_space(t[0]));
            assert(t[0] == s@[start as int]);
        }
        let ghost before = texts(out@);
        out.push(substring(chars.as_slice(), start, j));
        proof {
            assert(t.take((j - start) as int) =~= s@.subrange(start as int, j as int));
            assert(t.skip((j - start) as int) =~= s@.skip(j as int));
            assert(texts(out@) =~= before.push(t.take((j - start) as int)));
            assert(texts(out@) + words(s@.skip(j as int)) =~= before + (seq![
                t.take((j - start) as int),
            ] + words(s@.skip(j as int))));
        }
        i = j;
    }
}

/// Trimming twice trims no more than once.
pub proof fn lemma_trimmed_start_idempotent(s: Seq<char>)
    ensures
        trimmed_start(trimmed_start(s)) == trimmed_start(s),
        trimmed_start(s).len() <= s.len(),
        trimmed_start(s).len() > 0 ==> !is_space(trimmed_start(s)[0]),
    decreases s.len(),
{
    if s.len() > 0 && is_space(s[0]) {
        lemma_trimmed_start_idempotent(s.drop_first());
    }
}

// ---------------------------------------------------------------------------
// Case, replacement and prefixes
// ---------------------------------------------------------------------------

/// The lower-case form of an ASCII letter; any other character as it is.
pub open spec fn lower_char(c: char) -> char {
    if 'A' <= c <= 'Z' {
        ((c as u8) + 32) as char
    } else {
        c
    }
}

/// The text with its ASCII letters in lower case.
pub open spec fn ascii_lower(s: Seq<char>) -> Seq<char> {
    s.map_values(|c: char| lower_char(c))
}

/// `s` with its ASCII letters in lower case.
pub fn to_ascii_lowercase(s: &str) -> (r: String)
    ensures
        r@ == ascii_lower(s@),
{
    let chars = chars_of(s);
    let mut out = String::new();
    for i in 0..chars.len()
        invariant
            out@ == ascii_lower(chars@.take(i as int)),
    {
        let c = chars[i];
        if c >= 'A' && c <= 'Z' {
            out.push(((c as u8) + 32) as char);
        } else {
            out.push(c);
        }
        assert(out@ =~= ascii_lower(chars@.take(i + 1)));
    }
    assert(chars@.take(chars@.len() as int) =~= chars@);
    out
}

/// The text with every `from` replaced by `to`.
pub open spec fn replaced(s: Seq<char>, from: char, to: char) -> Seq<char> {
    s.map_values(|c: char| if c == from { to } else { c })
}

/// `s` with every `from` replaced by `to`.
pub fn replace_char(s: &str, from: char, to: char) -> (r: String)
    ensures
        r@ == replaced(s@, from, to),
{
    let chars = chars_of(s);
    let mut out = String::new();
    for i in 0..chars.len()
        invariant
            out@ == replaced(chars@.take(i as int), from, to),
    {
        let c = chars[i];
        if c == from {
            out.push(to);
        } else {
            out.push(c);
        }
        assert(out@ =~= replaced(chars@.take(i + 1), from, to));
    }
    assert(chars@.take(chars@.len() as int) =~= chars@);
    out
}

/// Does `s` start with `prefix`?
pub fn starts_with(s: &str, prefix: &str) -> (r: bool)
    ensures
        r == prefix@.is_prefix_of(s@),
{
    let a = chars_of(s);
    let p = chars_of(prefix);
    if p.len() > a.len() {
        return false;
    }
    for i in 0..p.len()
        invariant
            p@ == prefix@,
            a@ == s@,
            p@.len() <= a@.len(),
            forall|k: int| 0 <= k < i ==> p@[k] == a@[k],
    {
        if a[i] != p[i] {
            assert(s@.take(p@.len() as int)[i as int] != prefix@[i as int]);
            return false;
        }
    }
    assert(s@.take(p@.len() as int) =~= prefix@);
    true
}

/// What follows `prefix` in `s`, if `s` starts with it.
pub open spec fn after_prefix(s: Seq<char>, prefix: Seq<char>) -> Option<Seq<char>> {
    if prefix.is_prefix_of(s) {
        Some(s.skip(prefix.len() as int))
    } else {
        None
    }
}

/// What follows `prefix` in `s`, if `s` starts with it.
pub fn strip_prefix(s: &str, prefix: &str) -> (r: Option<String>)
    ensures
        opt_text(r) == after_prefix(s@, prefix@),
{
    if starts_with(s, prefix) {
        let chars = chars_of(s);
        let n = prefix.unicode_len();
        assert(s@.take(prefix@.len() as int) == prefix@);
        let rest = substring(chars.as_slice(), n, chars.len());
        assert(rest@ =~= s@.skip(n as int));
        Some(rest)
    } else {
        None
    }
}

// ---------------------------------------------------------------------------
// Splitting and joining
// ---------------------------------------------------------------------------

/// The position of the first `c` in `s`, or the length of `s` if there is none.
pub open spec fn position_of(s: Seq<char>, c: char) -> nat
    decreases s.len(),
{
    if s.len() == 0 || s[0] == c {
        0
    } else {
        1 + position_of(s.drop_first(), c)
    }
}

pub proof fn lemma_position_of(s: Seq<char>, c: char)
    ensures
        position_of(s, c) <= s.len(),
        position_of(s, c) < s.len() ==> s[position_of(s, c) as int] == c,
        forall|k: int| 0 <= k < position_of(s, c) ==> s[k] != c,
        position_of(s, c) < s.len() <==> s.contains(c),
    decreases s.len(),
{
    if s.len() == 0 || s[0] == c {
    } else {
        let t = s.drop_first();
        lemma_position_of(t, c);
        assert forall|k: int| 0 <= k < position_of(s, c) implies s[k] != c by {
            if k > 0 {
                assert(t[k - 1] == s[k]);
            }
        }
        if position_of(s, c) < s.len() {
            assert(t[position_of(t, c) as int] == s[position_of(s, c) as int]);
        }
        if s.contains(c) {
            let k = choose|k: int| 0 <= k < s.len() && s[k] == c;
            assert(t[k - 1] == c);
        }
    }
}

pub proof fn lemma_position_is(s: Seq<char>, c: char, n: nat)
    requires
        n <= s.len(),
        n < s.len() ==> s[n as int] == c,
        forall|k: int| 0 <= k < n ==> s[k] != c,
    ensures
        position_of(s, c) == n,
{
    lemma_position_of(s, c);
}

fn find_char(chars: &[char], from: usize, c: char) -> (r: usize)
    requires
        from <= chars@.len(),
    ensures
        from <= r <= chars@.len(),
        r - from == position_of(chars@.skip(from as int), c),
{
    let mut j: usize = from;
    let ghost tail = chars@.skip(from as int);
    while j < chars.len() && chars[j] != c
        invariant
            from <= j <= chars@.len(),
            tail == chars@.skip(from as int),
            forall|k: int| 0 <= k < j - from ==> tail[k] != c,
        decreases chars@.len() - j,
    {
        assert(tail[j - from] == chars@[j as int]);
        j = j + 1;
    }
    proof {
        if j < chars@.len() {
            assert(tail[j - from] == chars@[j as int]);
        }
        lemma_position_is(tail, c, (j - from) as nat);
    }
    j
}

/// The pieces of `s` between the occurrences of `c`: always one more than there are
/// occurrences.
pub open spec fn pieces(s: Seq<char>, c: char) -> Seq<Seq<char>>
    decreases s.len(),
{
    let n = position_of(s, c);
    if n >= s.len() {
        seq![s]
    } else {
        seq![s.take(n as int)] + pieces(s.skip(n as int + 1), c)
    }
}

/// The pieces of `s` between the occurrences of `c`.
pub fn split_char(s: &str, c: char) -> (r: Vec<String>)
    ensures
        texts(r@) == pieces(s@, c),
{
    let chars = chars_of(s);
    let mut out: Vec<String> = Vec::new();
    let mut i: usize = 0;
    assert(s@.skip(0) =~= s@);
    loop
        invariant
            chars@ == s@,
            i <= s@.len(),
            texts(out@) + pieces(s@.skip(i as int), c) == pieces(s@, c),
        decreases s@.len() - i,
    {
        let j = find_char(chars.as_slice(), i, c);
        let ghost tail = s@.skip(i as int);
        let ghost before = texts(out@);
        out.push(substring(chars.as_slice(), i, j));
        assert(texts(out@) =~= before.push(s@.subrange(i as int, j as int)));
        if j >= chars.len() {
            assert(s@.subrange(i as int, j as int) =~= tail);
            assert(texts(out@) =~= before + seq![tail]);
            return out;
        }
        proof {
            let n = position_of(tail, c);
            assert(tail.take(n as int) =~= s@.subrange(i as int, j as int));
            assert(tail.skip(n as int + 1) =~= s@.skip(j + 1));
            assert(texts(out@) + pieces(s@.skip(j + 1), c) =~= before + (seq![tail.take(n as int)]
                + pieces(s@.skip(j + 1), c)));
        }
        i = j + 1;
    }
}

/// What precedes and what follows the first `c` in `s`, if there is one.
pub open spec fn halves(s: Seq<char>, c: char) -> Option<(Seq<char>, Seq<char>)> {
    let n = position_of(s, c);
    if n < s.len() {
        Some((s.take(n as int), s.skip(n as int + 1)))
    } else {
        None
    }
}

/// What precedes and what follows the first `c` in `s`, if there is one.
pub fn split_once(s: &str, c: char) -> (r: Option<(String, String)>)
    ensures
        match r {
            Some(p) => halves(s@, c) == Some((p.0@, p.1@)),
            None => halves(s@, c) is None,
        },
{
    let chars = chars_of(s);
    let j = find_char(chars.as_slice(), 0, c);
    assert(chars@.skip(0) =~= s@);
    if j >= chars.len() {
        return None;
    }
    let a = substring(chars.as_slice(), 0, j);
    let b = substring(chars.as_slice(), j + 1, chars.len());
    assert(a@ =~= s@.take(j as int));
    assert(b@ =~= s@.skip(j + 1));
    Some((a, b))
}

/// A line without the carriage return that ends it.
pub open spec fn without_cr(s: Seq<char>) -> Seq<char> {
    if s.len() > 0 && s.last() == '\r' {
        s.drop_last()
    } else {
        s
    }
}

/// The lines of a text: ended by `\n` or `\r\n`, the last one possibly by nothing.
pub open spec fn text_lines(s: Seq<char>) -> Seq<Seq<char>>
    decreases s.len(),
{
    if s.len() == 0 {
        seq![]
    } else {
        let n = position_of(s, '\n');
        if n >= s.len() {
            seq![s]
        } else {
            seq![without_cr(s.take(n as int))] + text_lines(s.skip(n as int + 1))
        }
    }
}

/// The lines of a text.
pub fn lines(s: &str) -> (r: Vec<String>)
    ensures
        texts(r@) == text_lines(s@),
{
    let chars = chars_of(s);
    let mut out: Vec<String> = Vec::new();
    let mut i: usize = 0;
    assert(s@.skip(0) =~= s@);
    while i < chars.len()
        invariant
            chars@ == s@,
            i <= s@.len(),
            texts(out@) + text_lines(s@.skip(i as int)) == text_lines(s@),
        decreases s@.len() - i,
    {
        let j = find_char(chars.as_slice(), i, '\n');
        let ghost tail = s@.skip(i as int);
        let ghost before = texts(out@);
        if j >= chars.len() {
            out.push(substring(chars.as_slice(), i, j));
            assert(s@.subrange(i as int, j as int) =~= tail);
            assert(texts(out@) =~= before + seq![tail]);
            return out;
        }
        let end: usize = if j > i && chars[j - 1] == '\r' {
            j - 1
        } else {
            j
        };
        out.push(substring(chars.as_slice(), i, end));
        proof {
            let n = position_of(tail, '\n');
            assert(tail.take(n as int) =~= s@.subrange(i as int, j as int));
            assert(without_cr(tail.take(n as int)) =~= s@.subrange(i as int, end as int));
            assert(tail.skip(n as int + 1) =~= s@.skip(j + 1));
            assert(texts(out@) =~= before.push(s@.subrange(i as int, end as int)));
            assert(texts(out@) + text_lines(s@.skip(j + 1)) =~= before + (seq![
                without_cr(tail.take(n as int)),
            ] + text_lines(s@.skip(j + 1))));
        }
        i = j + 1;
    }
    assert(text_lines(s@.skip(i as int)) =~= seq![]);
    assert(texts(out@) =~= text_lines(s@));
    out
}

/// The parts one after the other, with `sep` between neighbours.
pub open spec fn joined(parts: Seq<Seq<char>>, sep: Seq<char>) -> Seq<char>
    decreases parts.len(),
{
    if parts.len() == 0 {
        seq![]
    } else if parts.len() == 1 {
        parts[0]
    } else {
        joined(parts.drop_last(), sep) + sep + parts.last()
    }
}

/// The strings one after the other, with `sep` between neighbours.
pub fn join(parts: &Vec<String>, sep: &str) -> (r: String)
    ensures
        r@ == joined(texts(parts@), sep@),
{
    let mut out = String::new();
    for i in 0..parts.len()
        invariant
            out@ == joined(texts(parts@).take(i as int), sep@),
    {
        if i > 0 {
            out.append(sep);
        }
        out.append(parts[i].as_str());
        let ghost now = texts(parts@).take(i + 1);
        assert(now.drop_last() =~= texts(parts@).take(i as int));
        assert(now.last() == parts@[i as int]@);
        if i == 0 {
            assert(out@ =~= now[0]);
        }
    }
    assert(texts(parts@).take(parts@.len() as int) =~= texts(parts@));
    out
}

/// `n` copies of a character.
pub open spec fn repeated(c: char, n: nat) -> Seq<char> {
    Seq::new(n, |i: int| c)
}

/// Append `n` copies of `c` to a string.
pub fn push_repeated(out: &mut String, c: char, n: usize)
    ensures
        final(out)@ == old(out)@ + repeated(c, n as nat),
{
    let ghost start = out@;
    for i in 0..n
        invariant
            out@ == start + repeated(c, i as nat),
    {
        out.push(c);
        assert(out@ =~= start + repeated(c, (i + 1) as nat));
    }
}

// ---------------------------------------------------------------------------
// Numbers
// ---------------------------------------------------------------------------

/// The character of a decimal digit.
pub open spec fn digit(d: nat) -> char {
    (('0' as u8) + d) as char
}

/// A number in decimal.
pub open spec fn decimal(n: nat) -> Seq<char>
    decreases n,
{
    if n < 10 {
        seq![digit(n)]
    } else {
        decimal(n / 10).push(digit(n % 10))
    }
}

/// A number in decimal.
pub fn decimal_string(n: usize) -> (r: String)
    ensures
        r@ == decimal(n as nat),
    decreases n,
{
    let mut out = if n < 10 {
        String::new()
    } else {
        decimal_string(n / 10)
    };
    out.push((48u8 + (n % 10) as u8) as char);
    assert(n < 10 ==> out@ =~= seq![digit(n as nat)]);
    out
}

/// Is the character a decimal digit?
pub open spec fn is_digit(c: char) -> bool {
    '0' <= c <= '9'
}

/// The value of a sequence of decimal digits.
pub open spec fn digits_value(s: Seq<char>) -> nat
    decreases s.len(),
{
    if s.len() == 0 {
        0
    } else {
        digits_value(s.drop_last()) * 10 + (s.last() as nat - '0' as nat) as nat
    }
}

/// Is every character a decimal digit?
pub open spec fn all_digits(s: Seq<char>) -> bool {
    forall|i: int| 0 <= i < s.len() ==> is_digit(#[trigger] s[i])
}

/// The text without the `+` that it may start with.
pub open spec fn without_plus(s: Seq<char>) -> Seq<char> {
    if s.len() > 0 && s[0] == '+' {
        s.drop_first()
    } else {
        s
    }
}

/// The number that a text denotes: decimal digits, at least one, after an optional `+`.
pub open spec fn number_of(s: Seq<char>) -> Option<nat> {
    if without_plus(s).len() > 0 && all_digits(without_plus(s)) {
        Some(digits_value(without_plus(s)))
    } else {
        None
    }
}

/// The number that a text denotes, where it fits in a `usize`.
pub open spec fn usize_of(s: Seq<char>) -> Option<usize> {
    match number_of(s) {
        Some(n) => if n <= usize::MAX {
            Some(n as usize)
        } else {
            None
        },
        None => None,
    }
}

proof fn lemma_digits_value_grows(s: Seq<char>, n: int)
    requires
        0 <= n <= s.len(),
        all_digits(s),
    ensures
        digits_value(s.take(n)) <= digits_value(s),
    decreases s.len() - n,
{
    if n == s.len() {
        assert(s.take(n) =~= s);
    } else {
        let next = s.take(n + 1);
        assert(next.drop_last() =~= s.take(n));
        assert(is_digit(next.last()));
        lemma_digits_value_grows(s, n + 1);
    }
}

/// The number that a text denotes, where it fits in a `usize`.
pub fn parse_usize(s: &str) -> (r: Option<usize>)
    ensures
        r == usize_of(s@),
{
    let chars = chars_of(s);
    let start: usize = if chars.len() > 0 && chars[0] == '+' {
        1
    } else {
        0
    };
    let ghost t = without_plus(s@);
    assert(t =~= s@.skip(start as int));
    if start >= chars.len() {
        return None;
    }
    let mut i: usize = start;
    while i < chars.len()
        invariant
            chars@ == s@,
            start <= i <= s@.len(),
            t == s@.skip(start as int),
            t == without_plus(s@),
            forall|k: int| 0 <= k < i - start ==> is_digit(#[trigger] t[k]),
        decreases s@.len() - i,
    {
        assert(t[i - start] == s@[i as int]);
        if chars[i] < '0' || chars[i] > '9' {
            assert(!is_digit(t[i - start]));
            return None;
        }
        i = i + 1;
    }
    let mut value: usize = 0;
    let mut j: usize = start;
    while j < chars.len()
        invariant
            chars@ == s@,
            start <= j <= s@.len(),
            t == s@.skip(start as int),
            all_digits(t),
            value == digits_value(t.take(j - start)),
            number_of(s@) == Some(digits_value(t)),
        decreases s@.len() - j,
    {
        assert(t[j - start] == s@[j as int]);
        let d: usize = (chars[j] as u8 - 48u8) as usize;
        proof {
            let next = t.take(j - start + 1);
            assert(next.drop_last() =~= t.take(j - start));
            assert(next.last() == s@[j as int]);
            lemma_digits_value_grows(t, j - start + 1);
        }
        if value > (usize::MAX - d) / 10 {
            return None;
        }
        value = value * 10 + d;
        j = j + 1;
    }
    assert(t.take(t.len() as int) =~= t);
    Some(value)
}

// ---------------------------------------------------------------------------
// Joining and splitting
// ---------------------------------------------------------------------------

/// A joined list starts with its first part.
pub proof fn lemma_joined_first(a: Seq<char>, rest: Seq<Seq<char>>, sep: Seq<char>)
    requires
        rest.len() > 0,
    ensures
        joined(seq![a] + rest, sep) == a + sep + joined(rest, sep),
    decreases rest.len(),
{
    let all = seq![a] + rest;
    assert(all.drop_last() =~= seq![a] + rest.drop_last());
    assert(all.last() == rest.last());
    if rest.len() == 1 {
        assert(all.drop_last() =~= seq![a]);
        assert(joined(all.drop_last(), sep) == a);
    } else {
        lemma_joined_first(a, rest.drop_last(), sep);
        assert(joined(all, sep) =~= a + sep + (joined(rest.drop_last(), sep) + sep + rest.last()));
    }
}

/// Splitting at a character undoes joining with it, where no part holds the character.
pub proof fn lemma_pieces_of_joined(parts: Seq<Seq<char>>, c: char)
    requires
        parts.len() > 0,
        forall|i: int| 0 <= i < parts.len() ==> !(#[trigger] parts[i]).contains(c),
    ensures
        pieces(joined(parts, seq![c]), c) == parts,
    decreases parts.len(),
{
    let all = joined(parts, seq![c]);
    let a = parts[0];
    let rest = parts.drop_first();
    assert(parts =~= seq![a] + rest);
    assert forall|k: int| 0 <= k < a.len() implies a[k] != c by {
        assert(a.contains(a[k]));
    }
    if rest.len() == 0 {
        lemma_position_is(a, c, a.len());
        assert(pieces(all, c) =~= parts);
    } else {
        assert forall|i: int| 0 <= i < rest.len() implies !(#[trigger] rest[i]).contains(c) by {
            assert(rest[i] == parts[i + 1]);
        }
        lemma_pieces_of_joined(rest, c);
        lemma_joined_first(a, rest, seq![c]);
        let tail = joined(rest, seq![c]);
        assert(all =~= a + seq![c] + tail);
        lemma_position_is(all, c, a.len());
        assert(all.take(a.len() as int) =~= a);
        assert(all.skip(a.len() as int + 1) =~= tail);
        assert(pieces(all, c) =~= parts);
    }
}

/// The lines of a text whose lines are all ended, and of what follows it, are the lines of both.
pub proof fn lemma_lines_of_concat(p: Seq<char>, q: Seq<char>)
    requires
        p.len() == 0 || p.last() == '\n',
    ensures
        text_lines(p + q) == text_lines(p) + text_lines(q),
    decreases p.len(),
{
    let all = p + q;
    if p.len() == 0 {
        assert(all =~= q);
        assert(text_lines(p) + text_lines(q) =~= text_lines(q));
    } else {
        let n = position_of(p, '\n') as int;
        lemma_position_of(p, '\n');
        assert(n < p.len()) by {
            if n >= p.len() {
                assert(p[p.len() - 1] != '\n');
            }
        }
        assert forall|k: int| 0 <= k < n implies all[k] != '\n' by {
            assert(all[k] == p[k]);
        }
        assert(all[n] == p[n]);
        lemma_position_is(all, '\n', n as nat);
        let rest = p.skip(n + 1);
        assert(rest.len() > 0 ==> rest.last() == p.last());
        lemma_lines_of_concat(rest, q);
        assert(all.take(n) =~= p.take(n));
        assert(all.skip(n + 1) =~= rest + q);
        assert(text_lines(all) =~= text_lines(p) + text_lines(q));
    }
}

/// Is the text made of whitespace alone?
pub open spec fn blank(s: Seq<char>) -> bool {
    forall|k: int| 0 <= k < s.len() ==> is_space(#[trigger] s[k])
}

/// Is the text one word?
pub open spec fn is_word(s: Seq<char>) -> bool {
    s.len() > 0 && forall|k: int| 0 <= k < s.len() ==> !is_space(#[trigger] s[k])
}

proof fn lemma_word_len_is_word(s: Seq<char>)
    ensures
        word_len(s) <= s.len(),
        forall|k: int| 0 <= k < word_len(s) ==> !is_space(#[trigger] s[k]),
        word_len(s) < s.len() ==> is_space(s[word_len(s) as int]),
    decreases s.len(),
{
    if s.len() > 0 && !is_space(s[0]) {
        let t = s.drop_first();
        lemma_word_len_is_word(t);
        assert forall|k: int| 0 <= k < word_len(s) implies !is_space(#[trigger] s[k]) by {
            if k > 0 {
                assert(t[k - 1] == s[k]);
            }
        }
        if word_len(s) < s.len() {
            assert(t[word_len(t) as int] == s[word_len(s) as int]);
        }
    }
}

/// Every word of a text is a word.
pub proof fn lemma_words_are_words(s: Seq<char>)
    ensures
        forall|i: int| 0 <= i < words(s).len() ==> is_word(#[trigger] words(s)[i]),
    decreases s.len(),
{
    if s.len() > 0 {
        if is_space(s[0]) {
            lemma_words_are_words(s.drop_first());
            assert(words(s) == words(s.drop_first()));
        } else {
            let n = word_len(s) as int;
            lemma_word_len_bound(s);
            lemma_word_len_is_word(s);
            lemma_words_are_words(s.skip(n));
            assert forall|i: int| 0 <= i < words(s).len() implies is_word(
                #[trigger] words(s)[i],
            ) by {
                if i > 0 {
                    assert(words(s)[i] == words(s.skip(n))[i - 1]);
                } else {
                    assert(words(s)[0] == s.take(n));
                    assert forall|k: int| 0 <= k < n implies !is_space(#[trigger] s.take(n)[k]) by {
                        assert(s.take(n)[k] == s[k]);
                    }
                }
            }
        }
    } else {
        assert(words(s).len() == 0);
    }
}

/// Whitespace between two texts keeps their words apart, whatever it is made of.
pub proof fn lemma_words_apart(a: Seq<char>, gap: Seq<char>, b: Seq<char>)
    requires
        blank(gap),
        gap.len() > 0 || a.len() == 0,
    ensures
        words(a + gap + b) == words(a) + words(b),
    decreases a.len() + gap.len(),
{
    let all = a + gap + b;
    if a.len() == 0 {
        if gap.len() == 0 {
            assert(all =~= b);
        } else {
            assert(all[0] == gap[0]);
            assert(all.drop_first() =~= a + gap.drop_first() + b);
            assert(blank(gap.drop_first())) by {
                assert forall|k: int| 0 <= k < gap.drop_first().len() implies is_space(
                    #[trigger] gap.drop_first()[k],
                ) by {
                    assert(gap.drop_first()[k] == gap[k + 1]);
                }
            }
            lemma_words_apart(a, gap.drop_first(), b);
        }
        assert(words(a) + words(b) =~= words(b));
    } else if is_space(a[0]) {
        assert(all[0] == a[0]);
        assert(all.drop_first() =~= a.drop_first() + gap + b);
        lemma_words_apart(a.drop_first(), gap, b);
    } else {
        let n = word_len(a);
        lemma_word_len_bound(a);
        lemma_word_len_is_word(a);
        assert forall|k: int| 0 <= k < n implies !is_space(#[trigger] all[k]) by {
            assert(all[k] == a[k]);
        }
        assert(n < a.len() ==> all[n as int] == a[n as int]);
        assert(n == a.len() ==> all[n as int] == gap[0]);
        lemma_word_len(all, n);
        assert(all[0] == a[0]);
        assert(all.take(n as int) =~= a.take(n as int));
        assert(all.skip(n as int) =~= a.skip(n as int) + gap + b);
        lemma_words_apart(a.skip(n as int), gap, b);
        assert(words(all) =~= words(a) + words(b));
    }
}

/// The words of words joined by spaces are those words.
pub proof fn lemma_words_of_joined(ws: Seq<Seq<char>>)
    requires
        forall|i: int| 0 <= i < ws.len() ==> is_word(#[trigger] ws[i]),
    ensures
        words(joined(ws, " "@)) == ws,
    decreases ws.len(),
{
    reveal_strlit(" ");
    if ws.len() > 0 {
        let w = ws[0];
        let rest = ws.drop_first();
        assert(ws =~= seq![w] + rest);
        assert(words(w) == seq![w]) by {
            lemma_word_len(w, w.len());
            assert(w.take(w.len() as int) =~= w);
            assert(w.skip(w.len() as int) =~= seq![]);
            assert(words(w.skip(w.len() as int)) =~= seq![]);
            assert(words(w) =~= seq![w]);
        }
        if rest.len() == 0 {
            assert(words(joined(ws, " "@)) =~= ws);
        } else {
            assert forall|i: int| 0 <= i < rest.len() implies is_word(#[trigger] rest[i]) by {
                assert(rest[i] == ws[i + 1]);
            }
            lemma_words_of_joined(rest);
            lemma_joined_first(w, rest, " "@);
            assert(blank(" "@));
            lemma_words_apart(w, " "@, joined(rest, " "@));
        }
    } else {
        assert(words(joined(ws, " "@)) =~= ws);
    }
}

// ---------------------------------------------------------------------------
// Numbers in text
// ---------------------------------------------------------------------------

/// The decimal form of a number is made of digits, and denotes the number.
pub proof fn lemma_decimal_denotes(n: nat)
    ensures
        decimal(n).len() > 0,
        all_digits(decimal(n)),
        digits_value(decimal(n)) == n,
    decreases n,
{
    reveal_with_fuel(digits_value, 2);
    if n >= 10 {
        lemma_decimal_denotes(n / 10);
        let init = decimal(n / 10);
        let all = decimal(n);
        assert(all =~= init.push(digit(n % 10)));
        assert(all.drop_last() =~= init);
        assert forall|i: int| 0 <= i < all.len() implies is_digit(#[trigger] all[i]) by {
            if i < init.len() {
                assert(init[i] == all[i]);
            }
        }
    } else {
        let all = decimal(n);
        assert(all =~= seq![digit(n)]);
        assert(all.drop_last() =~= seq![]);
    }
}

/// A text followed by `#` and a decimal number determines both.
pub proof fn lemma_tagged_text(a: Seq<char>, m: nat, b: Seq<char>, n: nat)
    requires
        a + "#"@ + decimal(m) == b + "#"@ + decimal(n),
    ensures
        a == b,
        m == n,
{
    reveal_strlit("#");
    lemma_decimal_denotes(m);
    lemma_decimal_denotes(n);
    let (x, y) = (a + "#"@ + decimal(m), b + "#"@ + decimal(n));
    assert(x.len() == a.len() + 1 + decimal(m).len());
    assert(y.len() == b.len() + 1 + decimal(n).len());
    assert(x[a.len() as int] == '#');
    assert(y[b.len() as int] == '#');
    if a.len() < b.len() {
        let k = b.len() - a.len() - 1;
        assert(x[b.len() as int] == decimal(m)[k]);
        assert(is_digit(decimal(m)[k]));
    } else if b.len() < a.len() {
        let k = a.len() - b.len() - 1;
        assert(y[a.len() as int] == decimal(n)[k]);
        assert(is_digit(decimal(n)[k]));
    } else {
        assert(a =~= x.take(a.len() as int));
        assert(b =~= y.take(a.len() as int));
        assert(decimal(m) =~= x.skip(a.len() as int + 1));
        assert(decimal(n) =~= y.skip(a.len() as int + 1));
    }
}

// ---------------------------------------------------------------------------
// What trimming, splitting and joining give
// ---------------------------------------------------------------------------

/// Is this what is left of a text without the whitespace around it: does it stand from `i` to `j`,
/// with nothing but whitespace before and behind it, and none at its ends?
pub open spec fn core_at(s: Seq<char>, i: int, j: int) -> bool {
    &&& 0 <= i <= j <= s.len()
    &&& forall|k: int| 0 <= k < i ==> is_space(#[trigger] s[k])
    &&& forall|k: int| j <= k < s.len() ==> is_space(#[trigger] s[k])
    &&& i < j ==> !is_space(s[i]) && !is_space(s[j - 1])
}

proof fn lemma_trimmed_start_at(s: Seq<char>, i: int)
    requires
        0 <= i <= s.len(),
        forall|k: int| 0 <= k < i ==> is_space(#[trigger] s[k]),
        i < s.len() ==> !is_space(s[i]),
    ensures
        trimmed_start(s) == s.skip(i),
    decreases s.len(),
{
    if i == 0 {
        assert(s.skip(0) =~= s);
    } else {
        let t = s.drop_first();
        assert(is_space(s[0]));
        assert forall|k: int| 0 <= k < i - 1 implies is_space(#[trigger] t[k]) by {
            assert(t[k] == s[k + 1]);
        }
        assert(i < s.len() ==> t[i - 1] == s[i]);
        lemma_trimmed_start_at(t, i - 1);
        assert(t.skip(i - 1) =~= s.skip(i));
    }
}

proof fn lemma_trimmed_end_at(s: Seq<char>, j: int)
    requires
        0 <= j <= s.len(),
        forall|k: int| j <= k < s.len() ==> is_space(#[trigger] s[k]),
        j > 0 ==> !is_space(s[j - 1]),
    ensures
        trimmed_end(s) == s.take(j),
    decreases s.len(),
{
    if j == s.len() {
        assert(s.take(j) =~= s);
    } else {
        let t = s.drop_last();
        assert(is_space(s[s.len() - 1]));
        assert forall|k: int| j <= k < t.len() implies is_space(#[trigger] t[k]) by {
            assert(t[k] == s[k]);
        }
        lemma_trimmed_end_at(t, j);
        assert(t.take(j) =~= s.take(j));
    }
}

/// Trimming leaves what stands between the whitespace around a text, in full and nothing else.
pub proof fn lemma_trimmed_at(s: Seq<char>, i: int, j: int)
    requires
        core_at(s, i, j),
    ensures
        trimmed(s) == s.subrange(i, j),
{
    if i == j {
        lemma_trimmed_start_at(s, s.len() as int);
        assert(s.skip(s.len() as int) =~= seq![]);
        assert(trimmed(s) =~= s.subrange(i, j));
    } else {
        lemma_trimmed_start_at(s, i);
        let t = s.skip(i);
        assert forall|k: int| j - i <= k < t.len() implies is_space(#[trigger] t[k]) by {
            assert(t[k] == s[k + i]);
        }
        assert(t[j - i - 1] == s[j - 1]);
        lemma_trimmed_end_at(t, j - i);
        assert(t.take(j - i) =~= s.subrange(i, j));
    }
}

/// Every text has a middle that trimming leaves. The results are where it starts and ends.
pub proof fn lemma_trimmed_core(s: Seq<char>) -> (w: (int, int))
    ensures
        core_at(s, w.0, w.1),
        trimmed(s) == s.subrange(w.0, w.1),
    decreases s.len(),
{
    if s.len() == 0 {
        lemma_trimmed_at(s, 0, 0);
        (0, 0)
    } else if is_space(s[0]) {
        let t = s.drop_first();
        let (i, j) = lemma_trimmed_core(t);
        assert forall|k: int| 0 <= k < i + 1 implies is_space(#[trigger] s[k]) by {
            if k > 0 {
                assert(t[k - 1] == s[k]);
            }
        }
        assert forall|k: int| j + 1 <= k < s.len() implies is_space(#[trigger] s[k]) by {
            assert(t[k - 1] == s[k]);
        }
        if i < j {
            assert(t[i] == s[i + 1] && t[j - 1] == s[j]);
        }
        lemma_trimmed_at(s, i + 1, j + 1);
        (i + 1, j + 1)
    } else if is_space(s.last()) {
        let t = s.drop_last();
        let (i, j) = lemma_trimmed_core(t);
        assert forall|k: int| 0 <= k < i implies is_space(#[trigger] s[k]) by {
            assert(t[k] == s[k]);
        }
        assert forall|k: int| j <= k < s.len() implies is_space(#[trigger] s[k]) by {
            if k < t.len() {
                assert(t[k] == s[k]);
            }
        }
        if i < j {
            assert(t[i] == s[i] && t[j - 1] == s[j - 1]);
        }
        lemma_trimmed_at(s, i, j);
        (i, j)
    } else {
        lemma_trimmed_at(s, 0, s.len() as int);
        (0, s.len() as int)
    }
}

/// Whitespace around a text does not show once it is trimmed.
pub proof fn lemma_trimmed_of_padded(a: Seq<char>, s: Seq<char>, b: Seq<char>)
    requires
        blank(a),
        blank(b),
    ensures
        trimmed(a + s + b) == trimmed(s),
{
    let (i, j) = lemma_trimmed_core(s);
    let all = a + s + b;
    let n = a.len() as int;
    assert forall|k: int| 0 <= k < n + i implies is_space(#[trigger] all[k]) by {
        if k < n {
            assert(all[k] == a[k]);
        } else {
            assert(all[k] == s[k - n]);
        }
    }
    assert forall|k: int| n + j <= k < all.len() implies is_space(#[trigger] all[k]) by {
        if k < n + s.len() {
            assert(all[k] == s[k - n]);
        } else {
            assert(all[k] == b[k - n - s.len()]);
        }
    }
    if i < j {
        assert(all[n + i] == s[i] && all[n + j - 1] == s[j - 1]);
    }
    lemma_trimmed_at(all, n + i, n + j);
    assert(all.subrange(n + i, n + j) =~= s.subrange(i, j));
}

/// Reading lines takes them off one by one: what stands before the first line end is a line, without
/// a carriage return at its end, and the rest is read by itself; a text without a line end is one
/// line as it stands, unless it is empty.
pub proof fn lemma_lines_one_by_one(a: Seq<char>, rest: Seq<char>)
    requires
        !a.contains('\n'),
    ensures
        text_lines(a + seq!['\n'] + rest) == seq![
            if a.len() > 0 && a.last() == '\r' {
                a.drop_last()
            } else {
                a
            },
        ] + text_lines(rest),
        a.len() > 0 ==> text_lines(a) == seq![a],
        text_lines(seq![]) == Seq::<Seq<char>>::empty(),
{
    let all = a + seq!['\n'] + rest;
    assert forall|k: int| 0 <= k < a.len() implies a[k] != '\n' by {
        assert(a.contains(a[k]));
    }
    lemma_position_is(all, '\n', a.len());
    lemma_position_is(a, '\n', a.len());
    assert(all.take(a.len() as int) =~= a);
    assert(all.skip(a.len() as int + 1) =~= rest);
    assert(text_lines(seq![]) =~= Seq::<Seq<char>>::empty());
}

/// Splitting takes pieces off one by one: what stands before the first separator is a piece, and
/// the rest is split by itself; a text without a separator is one piece.
pub proof fn lemma_pieces_one_by_one(a: Seq<char>, c: char, rest: Seq<char>)
    requires
        !a.contains(c),
    ensures
        pieces(a + seq![c] + rest, c) == seq![a] + pieces(rest, c),
        pieces(a, c) == seq![a],
        halves(a + seq![c] + rest, c) == Some((a, rest)),
        halves(a, c) is None,
{
    let all = a + seq![c] + rest;
    assert forall|k: int| 0 <= k < a.len() implies a[k] != c by {
        assert(a.contains(a[k]));
    }
    lemma_position_is(all, c, a.len());
    lemma_position_is(a, c, a.len());
    assert(all.take(a.len() as int) =~= a);
    assert(all.skip(a.len() as int + 1) =~= rest);
}

/// Joining puts the parts one behind the other with the separator between neighbours: a part more
/// is the separator and that part more.
pub proof fn lemma_joined_one_by_one(parts: Seq<Seq<char>>, x: Seq<char>, sep: Seq<char>)
    ensures
        parts.len() > 0 ==> joined(parts.push(x), sep) == joined(parts, sep) + sep + x,
        joined(seq![x], sep) == x,
        joined(seq![], sep) == Seq::<char>::empty(),
{
    assert(parts.push(x).drop_last() =~= parts);
    assert(joined(seq![], sep) =~= Seq::<char>::empty());
}

/// The lines of a text without carriage returns, joined again, are the text, but for a line end at
/// its end.
pub proof fn lemma_lines_rejoined(s: Seq<char>)
    requires
        !s.contains('\r'),
    ensures
        s.len() > 0 && s.last() == '\n' ==> joined(text_lines(s), seq!['\n']) == s.drop_last(),
        s.len() == 0 || s.last() != '\n' ==> joined(text_lines(s), seq!['\n']) == s,
        s.len() > 0 ==> text_lines(s).len() > 0,
    decreases s.len(),
{
    if s.len() == 0 {
        assert(joined(text_lines(s), seq!['\n']) =~= s);
    } else {
        let n = position_of(s, '\n') as int;
        lemma_position_of(s, '\n');
        if n < s.len() {
            let a = s.take(n);
            let rest = s.skip(n + 1);
            if a.len() > 0 && a.last() == '\r' {
                assert(s[n - 1] == '\r');
                assert(s.contains('\r'));
            }
            if rest.contains('\r') {
                let k = choose|k: int| 0 <= k < rest.len() && rest[k] == '\r';
                assert(s[k + n + 1] == '\r');
            }
            lemma_lines_rejoined(rest);
            let more = text_lines(rest);
            assert(text_lines(s) =~= seq![a] + more);
            if rest.len() == 0 {
                assert(more =~= seq![]);
                assert(text_lines(s) =~= seq![a]);
                assert(s.drop_last() =~= a);
            } else {
                lemma_joined_first(a, more, seq!['\n']);
                assert(rest.last() == s.last());
                assert(s =~= a + seq!['\n'] + rest);
                if s.last() == '\n' {
                    assert(s.drop_last() =~= a + seq!['\n'] + rest.drop_last());
                }
            }
        } else {
            assert(s[s.len() - 1] != '\n');
        }
    }
}

/// Putting letters in lower case moves the 26 ASCII capitals by 32 and changes nothing else.
pub proof fn lemma_ascii_lower_at(s: Seq<char>, i: int)
    requires
        0 <= i < s.len(),
    ensures
        ascii_lower(s).len() == s.len(),
        65 <= s[i] as int <= 90 ==> ascii_lower(s)[i] as int == s[i] as int + 32,
        !(65 <= s[i] as int <= 90) ==> ascii_lower(s)[i] == s[i],
{
}

/// Replacing a character changes each of its occurrences and nothing else.
pub proof fn lemma_replaced_at(s: Seq<char>, from: char, to: char, i: int)
    requires
        0 <= i < s.len(),
    ensures
        replaced(s, from, to).len() == s.len(),
        s[i] == from ==> replaced(s, from, to)[i] == to,
        s[i] != from ==> replaced(s, from, to)[i] == s[i],
{
}

/// The decimal form of a number has no digit to spare: it starts with a zero only where it is the
/// number 0; ten times a number and a digit is written by writing the digit behind the number.
pub proof fn lemma_decimal_form(n: nat, d: nat)
    requires
        d < 10,
    ensures
        n > 0 ==> decimal(n)[0] != '0',
        decimal(n).len() > 0,
        decimal(d).len() == 1,
        decimal(d)[0] as int == '0' as int + d,
        n > 0 ==> decimal(10 * n + d) == decimal(n) + decimal(d),
    decreases n,
{
    if n >= 10 {
        lemma_decimal_form(n / 10, d);
        assert(decimal(n)[0] == decimal(n / 10)[0]);
    }
    if n > 0 {
        assert((10 * n + d) / 10 == n);
        assert((10 * n + d) % 10 == d);
        assert(decimal(10 * n + d) =~= decimal(n) + decimal(d));
    }
}

/// A number is read back from its decimal form, with a `+` in front of it or without, as long as it
/// fits; a text with anything else in it, and an empty one, is no number.
pub proof fn lemma_number_read_back(n: nat, s: Seq<char>, i: int)
    ensures
        n <= usize::MAX ==> usize_of(decimal(n)) == Some(n as usize),
        n <= usize::MAX ==> usize_of(seq!['+'] + decimal(n)) == Some(n as usize),
        n > usize::MAX ==> usize_of(decimal(n)) is None,
        usize_of(seq![]) is None,
        0 <= i < s.len() && ((s[i] as int) < 48 || 57 < s[i] as int) && (i > 0 || s[i] != '+')
            ==> usize_of(s) is None,
        s.len() > 0 && usize_of(s) is None && s[0] != '+' && digits_value(s) <= usize::MAX
            ==> exists|k: int| 0 <= k < s.len() && (s[k] < '0' || '9' < #[trigger] s[k]),
{
    let d = decimal(n);
    lemma_decimal_denotes(n);
    assert(is_digit(d[0]));
    assert(without_plus(d) == d);
    assert((seq!['+'] + d).drop_first() =~= d);
    if 0 <= i < s.len() && ((s[i] as int) < 48 || 57 < s[i] as int) && (i > 0 || s[i] != '+') {
        let t = without_plus(s);
        let k = if s[0] == '+' {
            i - 1
        } else {
            i
        };
        assert(t[k] == s[i]);
        assert(!is_digit(t[k]));
    }
    if s.len() > 0 && usize_of(s) is None && s[0] != '+' && digits_value(s) <= usize::MAX {
        assert(!all_digits(s));
        let k = choose|k: int| 0 <= k < s.len() && !is_digit(#[trigger] s[k]);
        assert(s[k] < '0' || '9' < s[k]);
    }
}

/// What follows a prefix is what it was put in front of, and a text that is some other one within
/// the prefix has none.
pub proof fn lemma_after_prefix(prefix: Seq<char>, rest: Seq<char>, s: Seq<char>, i: int)
    ensures
        after_prefix(prefix + rest, prefix) == Some(rest),
        s.len() < prefix.len() ==> after_prefix(s, prefix) is None,
        0 <= i < prefix.len() && i < s.len() && s[i] != prefix[i] ==> after_prefix(s, prefix)
            is None,
        after_prefix(s, prefix) matches Some(r) ==> s == prefix + r,
{
    assert((prefix + rest).skip(prefix.len() as int) =~= rest);
    assert(prefix.is_prefix_of(prefix + rest));
    if prefix.is_prefix_of(s) {
        assert(s =~= prefix + s.skip(prefix.len() as int));
    }
}

/// Whitespace by its code points: the controls from the tab to the carriage return and the next
/// line, the spaces of every width, and the separators of lines and paragraphs.
pub proof fn lemma_space_points(c: char)
    ensures
        (c as int) < 9 ==> !is_space(c),
        9 <= c as int <= 13 ==> is_space(c),
        13 < c as int && (c as int) < 128 ==> (is_space(c) <==> c == ' '),
        128 <= c as int && (c as int) < 0x2000 ==> (is_space(c) <==> (c as int == 133 || c as int == 160
            || c as int == 5760)),
        0x2000 <= c as int ==> (is_space(c) <==> c as int <= 0x200a || c as int == 0x2028
            || c as int == 0x2029 || c as int == 0x202f || c as int == 0x205f || c as int == 0x3000),
{
}

/// Copies of a character are as many as asked for, and all that character.
pub proof fn lemma_repeated(c: char, n: nat, i: int)
    requires
        0 <= i < n,
    ensures
        repeated(c, n).len() == n,
        repeated(c, n)[i] == c,
{
}

} // verus!
