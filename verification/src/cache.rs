//! Content-addressed cache of per-file findings: keys, places and policy.
//!
//! A file-local rule's findings are a function of the identity path, the file's bytes, the
//! rule set, the grammar version, the language and the engine version, so they can be kept
//! under a key that hashes exactly that tuple. Anything that could change the result changes
//! the key: there is no invalidation to get wrong, only misses.
//!
//! Findings of rules that join across files are never cached: they depend on other files.
//!
//! Entries are plain JSON read back as findings, so whoever can write to the cache directory
//! can hide or inject findings. It is kept private to its owner.

use vstd::prelude::*;

use crate::fingerprint;
use crate::language;
use crate::path;
use crate::snapshot;
use crate::text;

verus! {

/// Default cache location, relative to the repository root or the scanned tree.
pub const DEFAULT_DIR: &'static str = ".crit/cache";

/// A findings cache.
#[derive(Debug)]
pub struct Cache {
    dir: String,
    /// Identity of the rules that run per file.
    ruleset_id: String,
    /// Identity of the fingerprint scheme in effect.
    scheme_id: String,
}

/// What a cache is set up with.
#[verifier::ext_equal]
pub struct CacheModel {
    pub dir: Seq<char>,
    pub ruleset_id: Seq<char>,
    pub scheme_id: Seq<char>,
}

impl View for Cache {
    type V = CacheModel;

    closed spec fn view(&self) -> CacheModel {
        CacheModel {
            dir: self.dir@,
            ruleset_id: self.ruleset_id@,
            scheme_id: self.scheme_id@,
        }
    }
}

/// What an optional cache is set up with.
pub open spec fn opt_cache(c: Option<Cache>) -> Option<CacheModel> {
    match c {
        Some(c) => Some(c@),
        None => None,
    }
}

/// Everything that the findings of a file depend on.
pub open spec fn key_parts(
    c: CacheModel,
    identity_path: Seq<char>,
    content_hash: Seq<char>,
    language: Seq<char>,
    grammar_version: Seq<char>,
) -> Seq<Seq<char>> {
    seq![
        "crit.cache/v1"@,
        snapshot::ENGINE_VERSION@,
        c.scheme_id,
        c.ruleset_id,
        identity_path,
        content_hash,
        language,
        grammar_version,
    ]
}

/// Can the key be split behind its first two bytes?
pub open spec fn splits(key: Seq<char>) -> bool {
    vstd::utf8::is_char_boundary(vstd::utf8::encode_utf8(key), 2)
}

/// The first two bytes of a key.
pub open spec fn key_head(key: Seq<char>) -> Seq<char> {
    vstd::utf8::decode_utf8(vstd::utf8::encode_utf8(key).subrange(0, 2))
}

/// A key behind its first two bytes.
pub open spec fn key_tail(key: Seq<char>) -> Seq<char> {
    let bytes = vstd::utf8::encode_utf8(key);
    vstd::utf8::decode_utf8(bytes.subrange(2, bytes.len() as int))
}

/// The directory of the entry with the given key.
pub open spec fn entry_dir(c: CacheModel, key: Seq<char>) -> Seq<char> {
    path::path_join(c.dir, key_head(key))
}

/// Where the entry with the given key is kept.
pub open spec fn entry_at(c: CacheModel, key: Seq<char>) -> Seq<char> {
    path::path_join(entry_dir(c, key), key_tail(key) + ".json"@)
}

/// The name under which an entry is written before it is moved into place.
pub open spec fn temp_name_of(key: Seq<char>, process: usize, writer: usize) -> Seq<char> {
    ".tmp-"@ + text::decimal(process as nat) + "-"@ + text::decimal(writer as nat) + "-"@ + key_tail(
        key,
    )
}

/// A hash is split into its first two characters and the rest.
pub proof fn lemma_hash_splits(bytes: Seq<u8>)
    requires
        bytes.len() > 1,
    ensures
        splits(fingerprint::hex(bytes)),
        key_head(fingerprint::hex(bytes)) == fingerprint::hex(bytes).take(2),
        key_tail(fingerprint::hex(bytes)) == fingerprint::hex(bytes).skip(2),
{
    let key = fingerprint::hex(bytes);
    fingerprint::lemma_hex_faithful(bytes, bytes);
    assert(vstd::utf8::is_ascii_chars(key)) by {
        assert forall|i: int| 0 <= i < key.len() implies '\0' <= #[trigger] key[i] <= '\u{7f}' by {}
    }
    lemma_ascii_splits(key);
}

proof fn lemma_ascii_splits(key: Seq<char>)
    requires
        vstd::utf8::is_ascii_chars(key),
        key.len() > 2,
    ensures
        splits(key),
        key_head(key) == key.take(2),
        key_tail(key) == key.skip(2),
{
    let bytes = vstd::utf8::encode_utf8(key);
    vstd::utf8::is_ascii_chars_encode_utf8(key);
    vstd::utf8::encode_utf8_valid_utf8(key);
    let b = bytes[2];
    assert(key[2] as u8 == b);
    assert(b < 128);
    assert(!vstd::utf8::is_continuation_byte(b));
    vstd::utf8::is_char_boundary_iff_not_is_continuation_byte(bytes, 2);
    let (head, tail) = (key.take(2), key.skip(2));
    assert(vstd::utf8::is_ascii_chars(head));
    assert(vstd::utf8::is_ascii_chars(tail));
    vstd::utf8::is_ascii_chars_encode_utf8(head);
    vstd::utf8::is_ascii_chars_encode_utf8(tail);
    let (eh, et) = (vstd::utf8::encode_utf8(head), vstd::utf8::encode_utf8(tail));
    assert(eh =~= bytes.subrange(0, 2)) by {
        assert forall|i: int| 0 <= i < 2 implies eh[i] == bytes[i] by {
            assert(head[i] == key[i]);
            assert(head[i] as u8 == eh[i]);
            assert(key[i] as u8 == bytes[i]);
        }
    }
    assert(et =~= bytes.subrange(2, bytes.len() as int)) by {
        assert forall|i: int| 0 <= i < et.len() implies et[i] == bytes[i + 2] by {
            assert(tail[i] == key[i + 2]);
            assert(tail[i] as u8 == et[i]);
            assert(key[i + 2] as u8 == bytes[i + 2]);
        }
    }
    vstd::utf8::encode_utf8_decode_utf8(head);
    vstd::utf8::encode_utf8_decode_utf8(tail);
}

fn split_key(key: &str) -> (r: (String, String))
    requires
        splits(key@),
    ensures
        r.0@ == key_head(key@),
        r.1@ == key_tail(key@),
{
    let (head, tail) = key.split_at(2);
    proof {
        vstd::utf8::encode_utf8_decode_utf8(head@);
        vstd::utf8::encode_utf8_decode_utf8(tail@);
    }
    (head.to_owned(), tail.to_owned())
}

impl Cache {
    /// A cache in a directory that is there already.
    pub fn open(dir: String, ruleset_id: String, scheme_id: String) -> (r: Cache)
        ensures
            r@ == (CacheModel {
                dir: dir@,
                ruleset_id: ruleset_id@,
                scheme_id: scheme_id@,
            }),
    {
        Cache { dir, ruleset_id, scheme_id }
    }

    /// The directory of the cache.
    pub fn dir(&self) -> (r: &String)
        ensures
            r@ == self@.dir,
    {
        &self.dir
    }

    /// The opening policy: `no_cache` disables, an explicit directory wins, and otherwise the
    /// default location is anchored at the repository root or the scanned tree. The anchor
    /// comes with whether it is a directory.
    pub fn open_default(
        no_cache: bool,
        explicit: Option<&str>,
        repo_root: Option<&str>,
        scan_anchor: Option<(&str, bool)>,
        ruleset_cache_id: String,
        scheme_id: String,
    ) -> (r: Option<Cache>)
        ensures
            opt_cache(r) == if no_cache {
                None
            } else {
                Some(
                    CacheModel {
                        dir: resolved_dir(
                            language::opt_str(explicit),
                            language::opt_str(repo_root),
                            opt_anchor(scan_anchor),
                        ),
                        ruleset_id: ruleset_cache_id@,
                        scheme_id: scheme_id@,
                    },
                )
            },
    {
        if no_cache {
            return None;
        }
        let dir = resolve_dir(explicit, repo_root, scan_anchor);
        Some(Cache::open(dir, ruleset_cache_id, scheme_id))
    }

    /// The cache key for one file. Everything the finding set depends on is hashed in; the
    /// identity path rather than the path on disk, so that scans of two checkouts share
    /// entries for identical content.
    pub fn key(
        &self,
        identity_path: &str,
        content_hash: &str,
        language: &str,
        grammar_version: &str,
    ) -> (r: String)
        ensures
            r@ == fingerprint::digest_of(
                key_parts(self@, identity_path@, content_hash@, language@, grammar_version@),
            ),
            r@.len() == 64,
            fingerprint::all_hex(r@),
            splits(r@),
    {
        let parts = vec![
            "crit.cache/v1",
            snapshot::ENGINE_VERSION,
            self.scheme_id.as_str(),
            self.ruleset_id.as_str(),
            identity_path,
            content_hash,
            language,
            grammar_version,
        ];
        assert(fingerprint::slices(parts@) =~= key_parts(
            self@,
            identity_path@,
            content_hash@,
            language@,
            grammar_version@,
        ));
        let r = fingerprint::sha256_parts(parts.as_slice());
        proof {
            let digest = fingerprint::sha256_digest(
                vstd::utf8::encode_utf8(
                    fingerprint::preimage(fingerprint::slices(parts@)),
                ),
            );
            assert(fingerprint::hex(digest).len() == 2 * digest.len());
            lemma_hash_splits(digest);
        }
        r
    }

    /// Where the entry with the given key is kept. Fanning out by the first two characters
    /// keeps directories small.
    pub fn entry_path(&self, key: &str) -> (r: String)
        requires
            splits(key@),
        ensures
            r@ == entry_at(self@, key@),
    {
        let (head, tail) = split_key(key);
        let dir = path::join(self.dir.as_str(), head.as_str());
        let mut name = tail;
        name.append(".json");
        path::join(dir.as_str(), name.as_str())
    }

    /// The directory of the entry with the given key.
    pub fn entry_dir(&self, key: &str) -> (r: String)
        requires
            splits(key@),
        ensures
            r@ == entry_dir(self@, key@),
    {
        let (head, _tail) = split_key(key);
        path::join(self.dir.as_str(), head.as_str())
    }

    /// The name under which an entry is written before it is moved into place: the process,
    /// a number per write and the key make it unique.
    pub fn temp_name(&self, key: &str, process: usize, writer: usize) -> (r: String)
        requires
            splits(key@),
        ensures
            r@ == temp_name_of(key@, process, writer),
    {
        let (_head, tail) = split_key(key);
        let mut out = ".tmp-".to_owned();
        out.append(text::decimal_string(process).as_str());
        out.append("-");
        out.append(text::decimal_string(writer).as_str());
        out.append("-");
        out.append(tail.as_str());
        out
    }
}

/// The text of an optional scan anchor.
pub open spec fn opt_anchor(anchor: Option<(&str, bool)>) -> Option<(Seq<char>, bool)> {
    match anchor {
        Some(a) => Some((a.0@, a.1)),
        None => None,
    }
}

/// The directory that a scan is anchored at: a directory itself, or the directory of a file.
pub open spec fn anchor_dir(anchor: Option<(Seq<char>, bool)>) -> Seq<char> {
    match anchor {
        Some((p, true)) => p,
        Some((p, false)) => match path::path_parent(p) {
            Some(d) => d,
            None => "."@,
        },
        None => "."@,
    }
}

/// The effective cache directory.
pub open spec fn resolved_dir(
    explicit: Option<Seq<char>>,
    repo_root: Option<Seq<char>>,
    scan_anchor: Option<(Seq<char>, bool)>,
) -> Seq<char> {
    match explicit {
        Some(d) => d,
        None => match repo_root {
            Some(root) => path::path_join(root, DEFAULT_DIR@),
            None => path::path_join(anchor_dir(scan_anchor), DEFAULT_DIR@),
        },
    }
}

/// The effective cache directory: an explicit one, else the default under the repository
/// root, else the default at the scanned tree (never the working directory as such).
pub fn resolve_dir(
    explicit: Option<&str>,
    repo_root: Option<&str>,
    scan_anchor: Option<(&str, bool)>,
) -> (r: String)
    ensures
        r@ == resolved_dir(
            language::opt_str(explicit),
            language::opt_str(repo_root),
            opt_anchor(scan_anchor),
        ),
{
    if let Some(d) = explicit {
        return d.to_owned();
    }
    if let Some(root) = repo_root {
        return path::join(root, DEFAULT_DIR);
    }
    let anchor = match scan_anchor {
        Some((p, is_dir)) => if is_dir {
            p.to_owned()
        } else {
            match path::parent(p) {
                Some(d) => d,
                None => ".".to_owned(),
            }
        },
        None => ".".to_owned(),
    };
    path::join(anchor.as_str(), DEFAULT_DIR)
}

/// Keys tell apart whatever the findings of a file depend on: two keys are equal only where
/// all inputs are equal or SHA-256 collides.
pub proof fn lemma_key_varies(
    c: CacheModel,
    identity_path: Seq<char>,
    content_hash: Seq<char>,
    language: Seq<char>,
    grammar_version: Seq<char>,
    other: CacheModel,
    other_path: Seq<char>,
    other_hash: Seq<char>,
    other_language: Seq<char>,
    other_version: Seq<char>,
)
    requires
        fingerprint::separable(
            key_parts(c, identity_path, content_hash, language, grammar_version),
        ),
        fingerprint::separable(
            key_parts(other, other_path, other_hash, other_language, other_version),
        ),
        fingerprint::digest_of(
            key_parts(c, identity_path, content_hash, language, grammar_version),
        ) == fingerprint::digest_of(
            key_parts(other, other_path, other_hash, other_language, other_version),
        ),
    ensures
        ({
            &&& c.scheme_id == other.scheme_id
            &&& c.ruleset_id == other.ruleset_id
            &&& identity_path == other_path
            &&& content_hash == other_hash
            &&& language == other_language
            &&& grammar_version == other_version
        }) || exists|x: Seq<u8>, y: Seq<u8>|
            #![trigger fingerprint::sha256_digest(x), fingerprint::sha256_digest(y)]
            x != y && fingerprint::sha256_digest(x) == fingerprint::sha256_digest(y),
{
    let p = key_parts(c, identity_path, content_hash, language, grammar_version);
    let q = key_parts(other, other_path, other_hash, other_language, other_version);
    if p == q {
        assert(p[2] == q[2] && p[3] == q[3] && p[4] == q[4]);
        assert(p[5] == q[5] && p[6] == q[6] && p[7] == q[7]);
    } else {
        fingerprint::lemma_digest_separates(p, q);
    }
}

/// An entry is kept below the cache's directory: in a directory with the first two characters of
/// its key for a name, under the rest of the key with `.json` behind it.
pub proof fn lemma_entry_kept_at(c: CacheModel, bytes: Seq<u8>)
    requires
        c.dir.len() > 0,
        bytes.len() > 1,
    ensures
        ({
            let key = fingerprint::hex(bytes);
            let below = path::path_parts(c.dir);
            &&& path::path_parts(entry_dir(c, key)) == below.push(path::Part::Name(key.take(2)))
            &&& path::path_parts(entry_at(c, key)) == below.push(
                path::Part::Name(key.take(2)),
            ).push(path::Part::Name(key.skip(2) + ".json"@))
        }),
{
    reveal_strlit(".json");
    reveal_strlit(".");
    reveal_strlit("..");
    let key = fingerprint::hex(bytes);
    lemma_hash_splits(bytes);
    fingerprint::lemma_hex_faithful(bytes, bytes);
    assert(key.len() == 2 * bytes.len());
    let head = key.take(2);
    let tail = key.skip(2) + ".json"@;
    assert forall|i: int| 0 <= i < key.len() implies #[trigger] key[i] != '/' && key[i] != '.' by {}
    assert(!head.contains('/')) by {
        if head.contains('/') {
            let i = choose|i: int| 0 <= i < head.len() && head[i] == '/';
            assert(key[i] == '/');
        }
    }
    assert(!tail.contains('/')) by {
        if tail.contains('/') {
            let i = choose|i: int| 0 <= i < tail.len() && tail[i] == '/';
            if i < key.len() - 2 {
                assert(key[i + 2] == '/');
            }
        }
    }
    assert(head[0] == key[0] && tail[0] == key[2]);
    assert(head != "."@ && head != ".."@) by {
        assert("."@[0] == '.' && ".."@[0] == '.');
    }
    assert(tail != "."@ && tail != ".."@);
    lemma_join_name(c.dir, head);
    lemma_join_name(entry_dir(c, key), tail);
}

proof fn lemma_join_name(dir: Seq<char>, name: Seq<char>)
    requires
        dir.len() > 0,
        path::plain_name(name),
    ensures
        path::path_parts(path::path_join(dir, name)) == path::path_parts(dir).push(
            path::Part::Name(name),
        ),
        path::path_join(dir, name).len() > 0,
{
    let names = seq![name];
    assert(path::plain_name(names[0]));
    path::lemma_joined_below(dir, names, seq![]);
    assert(text::joined(names, "/"@) == name);
    assert(path::path_parts(dir) + path::as_parts(names) =~= path::path_parts(dir).push(
        path::Part::Name(name),
    ));
}

/// Names for writing tell apart the process, the writer and the rest of the key.
pub proof fn lemma_temp_names_apart(
    key: Seq<char>,
    process: usize,
    writer: usize,
    other: Seq<char>,
    other_process: usize,
    other_writer: usize,
)
    requires
        temp_name_of(key, process, writer) == temp_name_of(other, other_process, other_writer),
    ensures
        process == other_process,
        writer == other_writer,
        key_tail(key) == key_tail(other),
{
    reveal_strlit("-");
    let (x, y) = (text::decimal(process as nat), text::decimal(other_process as nat));
    let (u, v) = (text::decimal(writer as nat), text::decimal(other_writer as nat));
    let a = x + "-"@ + (u + "-"@ + key_tail(key));
    let b = y + "-"@ + (v + "-"@ + key_tail(other));
    let n = ".tmp-"@.len() as int;
    assert(temp_name_of(key, process, writer) =~= ".tmp-"@ + a);
    assert(temp_name_of(other, other_process, other_writer) =~= ".tmp-"@ + b);
    assert(temp_name_of(key, process, writer).skip(n) =~= a);
    assert(temp_name_of(other, other_process, other_writer).skip(n) =~= b);
    lemma_number_before_dash(process as nat, u + "-"@ + key_tail(key), other_process as nat, v + "-"@
        + key_tail(other));
    lemma_number_before_dash(writer as nat, key_tail(key), other_writer as nat, key_tail(other));
}

proof fn lemma_number_before_dash(m: nat, s: Seq<char>, n: nat, t: Seq<char>)
    requires
        text::decimal(m) + "-"@ + s == text::decimal(n) + "-"@ + t,
    ensures
        m == n,
        s == t,
{
    reveal_strlit("-");
    let (x, y) = (text::decimal(m), text::decimal(n));
    let (a, b) = (x + "-"@ + s, y + "-"@ + t);
    text::lemma_decimal_denotes(m);
    text::lemma_decimal_denotes(n);
    if x.len() < y.len() {
        assert(a[x.len() as int] == '-');
        assert(b[x.len() as int] == y[x.len() as int]);
        assert(text::is_digit(y[x.len() as int]));
    }
    if y.len() < x.len() {
        assert(b[y.len() as int] == '-');
        assert(a[y.len() as int] == x[y.len() as int]);
        assert(text::is_digit(x[y.len() as int]));
    }
    assert(a.take(x.len() as int) =~= x);
    assert(b.take(y.len() as int) =~= y);
    assert(a.skip(x.len() as int + 1) =~= s);
    assert(b.skip(y.len() as int + 1) =~= t);
}

/// Where the cache is: an explicit directory as it is; otherwise below the root of the repository,
/// whatever is scanned; and without one below the scanned directory, or that of the scanned file.
pub proof fn lemma_cache_below(
    dir: Seq<char>,
    root: Option<Seq<char>>,
    anchor: Option<(Seq<char>, bool)>,
    at: Seq<char>,
)
    requires
        at.len() > 0,
    ensures
        resolved_dir(Some(dir), root, anchor) == dir,
        path::path_parts(resolved_dir(None, Some(at), anchor)) == path::path_parts(at).push(
            path::Part::Name(".crit"@),
        ).push(path::Part::Name("cache"@)),
        path::path_parts(resolved_dir(None, None, Some((at, true)))) == path::path_parts(at).push(
            path::Part::Name(".crit"@),
        ).push(path::Part::Name("cache"@)),
        path::path_parent(at) matches Some(d) ==> d.len() > 0 ==> path::path_parts(
            resolved_dir(None, None, Some((at, false))),
        ) == path::path_parts(at).drop_last().push(path::Part::Name(".crit"@)).push(
            path::Part::Name("cache"@),
        ),
        path::path_parts(resolved_dir(None, None, None)) == seq![
            path::Part::Current,
            path::Part::Name(".crit"@),
            path::Part::Name("cache"@),
        ],
{
    lemma_default_below(at);
    path::lemma_parent_lacks_last(at);
    if let Some(d) = path::path_parent(at) {
        if d.len() > 0 {
            lemma_default_below(d);
        }
    }
    reveal_strlit(".");
    lemma_default_below("."@);
    path::lemma_first_component("."@);
    assert(path::path_parts(resolved_dir(None, None, None)) =~= seq![
        path::Part::Current,
        path::Part::Name(".crit"@),
        path::Part::Name("cache"@),
    ]);
}

proof fn lemma_default_below(dir: Seq<char>)
    requires
        dir.len() > 0,
    ensures
        path::path_parts(path::path_join(dir, DEFAULT_DIR@)) == path::path_parts(dir).push(
            path::Part::Name(".crit"@),
        ).push(path::Part::Name("cache"@)),
{
    reveal_strlit(".crit/cache");
    reveal_strlit(".crit");
    reveal_strlit("cache");
    reveal_strlit("/");
    reveal_strlit(".");
    reveal_strlit("..");
    let names = seq![".crit"@, "cache"@];
    assert(names.drop_last() =~= seq![".crit"@]);
    assert(text::joined(names.drop_last(), "/"@) == ".crit"@);
    assert(text::joined(names, "/"@) == ".crit"@ + "/"@ + "cache"@);
    assert(DEFAULT_DIR@ == ".crit/cache"@);
    assert(".crit"@ + "/"@ + "cache"@ =~= ".crit/cache"@);
    assert forall|i: int| 0 <= i < names.len() implies path::plain_name(#[trigger] names[i]) by {}
    path::lemma_joined_below(dir, names, seq![]);
    assert(path::path_parts(dir) + path::as_parts(names) =~= path::path_parts(dir).push(
        path::Part::Name(".crit"@),
    ).push(path::Part::Name("cache"@)));
}

} // verus!
