//! Language registry: resolves a language id or a file extension to a grammar, compiled into
//! the program (bundled) or loaded at run time (dynamic). This is what makes the scanner
//! language-agnostic.

use tree_sitter::Language;
use vstd::prelude::*;

use crate::bundled;
use crate::bundled::BundledLanguage;
use crate::path;
use crate::syntax;
use crate::text;

verus! {

/// One resolvable language.
pub struct LanguageEntry {
    pub id: String,
    pub extensions: Vec<String>,
    pub description: String,
    /// Compiled into the program, rather than dynamically loaded?
    pub bundled: bool,
    language: Language,
}

/// What a language entry holds.
#[verifier::ext_equal]
pub struct EntryModel {
    pub id: Seq<char>,
    pub extensions: Seq<Seq<char>>,
    pub description: Seq<char>,
    pub bundled: bool,
    pub language: Language,
}

impl View for LanguageEntry {
    type V = EntryModel;

    closed spec fn view(&self) -> EntryModel {
        EntryModel {
            id: self.id@,
            extensions: text::texts(self.extensions@),
            description: self.description@,
            bundled: self.bundled,
            language: self.language,
        }
    }
}

/// What a list of language entries holds.
pub open spec fn entry_models(s: Seq<LanguageEntry>) -> Seq<EntryModel> {
    s.map_values(|e: LanguageEntry| e@)
}

/// The version of a grammar in text.
pub open spec fn grammar_text(language: Language) -> Seq<char> {
    text::decimal(syntax::abi_version_of(language) as nat)
}

impl LanguageEntry {
    /// The grammar.
    pub fn language(&self) -> (r: &Language)
        ensures
            *r == self@.language,
    {
        &self.language
    }

    /// The canonical id.
    pub fn id(&self) -> (r: &String)
        ensures
            r@ == self@.id,
    {
        &self.id
    }

    /// The file extensions, without their dots.
    pub fn extensions(&self) -> (r: &Vec<String>)
        ensures
            text::texts(r@) == self@.extensions,
    {
        &self.extensions
    }

    /// What the language is.
    pub fn description(&self) -> (r: &String)
        ensures
            r@ == self@.description,
    {
        &self.description
    }

    /// Is the grammar compiled into the program?
    pub fn is_bundled(&self) -> (r: bool)
        ensures
            r == self@.bundled,
    {
        self.bundled
    }

    /// The grammar's ABI version. Used as the grammar identity in snapshots: a grammar upgrade
    /// that changes node kinds bumps it.
    pub fn grammar_version(&self) -> (r: String)
        ensures
            r@ == grammar_text(self@.language),
    {
        text::decimal_string(syntax::abi_version(&self.language))
    }
}

/// A language that a configuration file registers.
#[derive(Debug)]
pub struct DynamicLanguage {
    /// Canonical id, such as `python`.
    pub id: String,
    /// Path to the compiled grammar.
    pub library: String,
    /// Exported entry point. Defaults to `tree_sitter_` and the id.
    pub symbol: Option<String>,
    pub extensions: Vec<String>,
    pub description: Option<String>,
}

/// The directory that relative library paths of a configuration file start from.
pub open spec fn base_of(config: Seq<char>) -> Seq<char> {
    match path::path_parent(config) {
        Some(p) => p,
        None => "."@,
    }
}

/// The directory that relative library paths of a configuration file start from.
pub fn config_base(config: &str) -> (r: String)
    ensures
        r@ == base_of(config@),
{
    match path::parent(config) {
        Some(p) => p,
        None => ".".to_owned(),
    }
}

impl DynamicLanguage {
    /// The library to load: a relative path starts from the configuration's directory.
    pub fn library_path(&self, base: &str) -> (r: String)
        ensures
            r@ == path::path_join(base@, self.library@),
    {
        path::join(base, self.library.as_str())
    }

    /// The entry point to look up in the library.
    pub fn entry_point(&self) -> (r: String)
        ensures
            r@ == match self.symbol {
                Some(s) => s@,
                None => "tree_sitter_"@ + self.id@,
            },
    {
        match &self.symbol {
            Some(s) => s.clone(),
            None => {
                let mut out = "tree_sitter_".to_owned();
                out.append(self.id.as_str());
                out
            },
        }
    }
}

/// The entry of a dynamically loaded language.
pub open spec fn dynamic_entry(lang: DynamicLanguage, language: Language) -> EntryModel {
    EntryModel {
        id: lang.id@,
        extensions: text::texts(lang.extensions@),
        description: match lang.description {
            Some(d) => d@,
            None => "dynamically loaded grammar '"@ + lang.id@ + "'"@,
        },
        bundled: false,
        language,
    }
}

/// The entry of a bundled language.
pub open spec fn bundled_entry(b: bundled::BundledModel, language: Language) -> EntryModel {
    EntryModel {
        id: b.id,
        extensions: b.extensions,
        description: b.description,
        bundled: true,
        language,
    }
}

/// The first of the entries from `i` on with the given id, or -1.
pub open spec fn entry_with_id(s: Seq<EntryModel>, i: int, id: Seq<char>) -> int
    decreases s.len() - i,
{
    if i < 0 || i >= s.len() {
        -1
    } else if s[i].id == id {
        i
    } else {
        entry_with_id(s, i + 1, id)
    }
}

/// Does a language own an extension, in any ASCII case?
pub open spec fn owns(e: EntryModel, ext: Seq<char>) -> bool {
    exists|k: int|
        0 <= k < e.extensions.len() && text::ascii_lower(#[trigger] e.extensions[k])
            == text::ascii_lower(ext)
}

/// The first of the entries from `i` on that owns an extension, or -1.
pub open spec fn owner_from(s: Seq<EntryModel>, i: int, ext: Seq<char>) -> int
    decreases s.len() - i,
{
    if i < 0 || i >= s.len() {
        -1
    } else if owns(s[i], ext) {
        i
    } else {
        owner_from(s, i + 1, ext)
    }
}

/// The error for an extension that two languages own.
pub open spec fn ambiguous(ext: Seq<char>, first: Seq<char>, second: Seq<char>) -> Seq<char> {
    "extension '."@ + ext + "' is claimed by multiple languages ('"@ + first + "', '"@ + second
        + "'); pass --language to disambiguate"@
}

/// Which entry a path's extension names: one, none, or an error where more than one does.
pub open spec fn found_by_path(s: Seq<EntryModel>, path: Seq<char>) -> Result<Option<int>, Seq<char>> {
    match path::path_extension(path) {
        None => Ok(None),
        Some(e) => {
            let ext = text::ascii_lower(e);
            let first = owner_from(s, 0, ext);
            let second = owner_from(s, first + 1, ext);
            if first < 0 {
                Ok(None)
            } else if second >= 0 {
                Err(ambiguous(ext, s[first].id, s[second].id))
            } else {
                Ok(Some(first))
            }
        },
    }
}

/// The error for an id that no language has.
pub open spec fn unknown_language(id: Seq<char>) -> Seq<char> {
    "unknown language id '"@ + id + "'"@
}

/// Which entry to use for a path: the one with the explicit id, or else by extension.
pub open spec fn resolved(
    s: Seq<EntryModel>,
    explicit: Option<Seq<char>>,
    path: Seq<char>,
) -> Result<Option<int>, Seq<char>> {
    match explicit {
        Some(id) => {
            let k = entry_with_id(s, 0, id);
            if k < 0 {
                Err(unknown_language(id))
            } else {
                Ok(Some(k))
            }
        },
        None => found_by_path(s, path),
    }
}

/// Some entry has the id of an entry: that one, or an earlier one.
pub proof fn lemma_entry_with_own_id(s: Seq<EntryModel>, k: int)
    requires
        0 <= k < s.len(),
    ensures
        0 <= entry_with_id(s, 0, s[k].id) <= k,
{
    lemma_entry_reached(s, 0, k);
}

proof fn lemma_entry_reached(s: Seq<EntryModel>, i: int, k: int)
    requires
        0 <= i <= k < s.len(),
    ensures
        i <= entry_with_id(s, i, s[k].id) <= k,
    decreases k - i,
{
    if s[i].id != s[k].id {
        lemma_entry_reached(s, i + 1, k);
    }
}

pub proof fn lemma_entry_with_id(s: Seq<EntryModel>, i: int, id: Seq<char>)
    requires
        0 <= i,
    ensures
        entry_with_id(s, i, id) == -1 || i <= entry_with_id(s, i, id) < s.len(),
        entry_with_id(s, i, id) >= 0 ==> s[entry_with_id(s, i, id)].id == id,
    decreases s.len() - i,
{
    if i < s.len() && s[i].id != id {
        lemma_entry_with_id(s, i + 1, id);
    }
}

fn owns_extension(e: &LanguageEntry, ext: &str) -> (r: bool)
    ensures
        r == owns(e@, ext@),
{
    let low = text::to_ascii_lowercase(ext);
    for k in 0..e.extensions.len()
        invariant
            low@ == text::ascii_lower(ext@),
            e@.extensions == text::texts(e.extensions@),
            forall|j: int|
                0 <= j < k ==> text::ascii_lower(#[trigger] e@.extensions[j]) != text::ascii_lower(
                    ext@,
                ),
    {
        let x = text::to_ascii_lowercase(e.extensions[k].as_str());
        assert(e@.extensions[k as int] == e.extensions@[k as int]@);
        if text::same(x.as_str(), low.as_str()) {
            return true;
        }
    }
    false
}

/// The languages at hand.
pub struct LanguageRegistry {
    entries: Vec<LanguageEntry>,
}

impl View for LanguageRegistry {
    type V = Seq<EntryModel>;

    closed spec fn view(&self) -> Seq<EntryModel> {
        entry_models(self.entries@)
    }
}

impl LanguageRegistry {
    /// A registry without languages.
    pub fn new() -> (r: Self)
        ensures
            r@ == Seq::<EntryModel>::empty(),
    {
        let r = LanguageRegistry { entries: Vec::new() };
        assert(r@ =~= Seq::<EntryModel>::empty());
        r
    }

    /// Register a bundled language with its grammar.
    pub fn add_bundled(&mut self, b: &BundledLanguage, language: Language)
        ensures
            final(self)@ == old(self)@.push(bundled_entry(b@, language)),
    {
        let ghost before = self@;
        let mut extensions: Vec<String> = Vec::new();
        for i in 0..b.extensions.len()
            invariant
                b@.extensions.len() == b.extensions@.len(),
                text::texts(extensions@) == b@.extensions.take(i as int),
        {
            let ghost done = text::texts(extensions@);
            extensions.push(b.extensions[i].to_owned());
            assert(text::texts(extensions@) =~= done.push(b@.extensions[i as int]));
            assert(text::texts(extensions@) =~= b@.extensions.take(i + 1));
        }
        assert(b@.extensions.take(b@.extensions.len() as int) =~= b@.extensions);
        self.entries.push(
            LanguageEntry {
                id: b.id.to_owned(),
                extensions,
                description: b.description.to_owned(),
                bundled: true,
                language,
            },
        );
        assert(self@ =~= before.push(bundled_entry(b@, language)));
    }

    /// Register a dynamically loaded language with its grammar.
    pub fn add_dynamic(&mut self, lang: DynamicLanguage, language: Language)
        ensures
            final(self)@ == old(self)@.push(dynamic_entry(lang, language)),
    {
        let ghost before = self@;
        let description = match lang.description {
            Some(d) => d,
            None => {
                let mut out = "dynamically loaded grammar '".to_owned();
                out.append(lang.id.as_str());
                out.append("'");
                out
            },
        };
        self.entries.push(
            LanguageEntry {
                id: lang.id,
                extensions: lang.extensions,
                description,
                bundled: false,
                language,
            },
        );
        assert(self@ =~= before.push(dynamic_entry(lang, language)));
    }

    /// All languages, in the order in which they were registered.
    pub fn entries(&self) -> (r: &Vec<LanguageEntry>)
        ensures
            entry_models(r@) == self@,
    {
        &self.entries
    }

    /// Are there no languages?
    pub fn is_empty(&self) -> (r: bool)
        ensures
            r == (self@.len() == 0),
    {
        self.entries.len() == 0
    }

    /// Where the language with the given id stands among the entries.
    pub fn position(&self, id: &str) -> (r: Option<usize>)
        ensures
            match r {
                Some(k) => k < self@.len() && k == entry_with_id(self@, 0, id@) && self@[k as int].id
                    == id@,
                None => entry_with_id(self@, 0, id@) == -1,
            },
    {
        proof {
            lemma_entry_with_id(self@, 0, id@);
        }
        assert(self@.len() == self.entries@.len());
        for i in 0..self.entries.len()
            invariant
                self@ == entry_models(self.entries@),
                self@.len() == self.entries@.len(),
                entry_with_id(self@, 0, id@) == entry_with_id(self@, i as int, id@),
        {
            assert(self@[i as int] == self.entries@[i as int]@);
            if text::same(self.entries[i].id.as_str(), id) {
                return Some(i);
            }
        }
        None
    }

    /// Look up a language by its canonical id.
    pub fn by_id(&self, id: &str) -> (r: Option<&LanguageEntry>)
        ensures
            match r {
                Some(e) => entry_with_id(self@, 0, id@) >= 0 && e@ == self@[entry_with_id(
                    self@,
                    0,
                    id@,
                )] && e@.id == id@,
                None => entry_with_id(self@, 0, id@) == -1,
            },
    {
        match self.position(id) {
            Some(k) => {
                assert(self@.len() == self.entries@.len());
                assert(self@[k as int] == self.entries@[k as int]@);
                Some(&self.entries[k])
            },
            None => None,
        }
    }

    fn owner(&self, from: usize, ext: &str) -> (r: Option<usize>)
        requires
            from <= self.entries@.len(),
        ensures
            match r {
                Some(k) => k < self.entries@.len() && k == owner_from(self@, from as int, ext@),
                None => owner_from(self@, from as int, ext@) == -1,
            },
    {
        for i in from..self.entries.len()
            invariant
                from <= self.entries@.len(),
                self@ == entry_models(self.entries@),
                owner_from(self@, from as int, ext@) == owner_from(self@, i as int, ext@),
        {
            assert(self@[i as int] == self.entries@[i as int]@);
            if owns_extension(&self.entries[i], ext) {
                return Some(i);
            }
        }
        None
    }

    fn find_by_path(&self, path: &str) -> (r: Result<Option<usize>, String>)
        ensures
            match r {
                Ok(Some(k)) => found_by_path(self@, path@) == Ok::<Option<int>, Seq<char>>(
                    Some(k as int),
                ) && k < self@.len(),
                Ok(None) => found_by_path(self@, path@) == Ok::<Option<int>, Seq<char>>(None),
                Err(m) => found_by_path(self@, path@) == Err::<Option<int>, Seq<char>>(m@),
            },
    {
        let ext = match path::extension(path) {
            Some(e) => text::to_ascii_lowercase(e.as_str()),
            None => {
                return Ok(None);
            },
        };
        let total: usize = self.entries.len();
        assert(self@.len() == total);
        let first = match self.owner(0, ext.as_str()) {
            Some(k) => k,
            None => {
                return Ok(None);
            },
        };
        assert(self@[first as int] == self.entries@[first as int]@);
        assert(first < total);
        match self.owner(first + 1, ext.as_str()) {
            Some(second) => {
                assert(self@[second as int] == self.entries@[second as int]@);
                let mut e = "extension '.".to_owned();
                e.append(ext.as_str());
                e.append("' is claimed by multiple languages ('");
                e.append(self.entries[first].id.as_str());
                e.append("', '");
                e.append(self.entries[second].id.as_str());
                e.append("'); pass --language to disambiguate");
                Err(e)
            },
            None => Ok(Some(first)),
        }
    }

    /// Resolve the language for a path by its file extension. It is an error if more than one
    /// language owns the extension.
    pub fn by_path(&self, path: &str) -> (r: Result<Option<&LanguageEntry>, String>)
        ensures
            match r {
                Ok(Some(e)) => found_by_path(self@, path@) matches Ok(Some(k)) && 0 <= k
                    < self@.len() && e@ == self@[k],
                Ok(None) => found_by_path(self@, path@) == Ok::<Option<int>, Seq<char>>(None),
                Err(m) => found_by_path(self@, path@) == Err::<Option<int>, Seq<char>>(m@),
            },
    {
        assert(self@.len() == self.entries@.len());
        match self.find_by_path(path) {
            Ok(Some(k)) => {
                assert(self@[k as int] == self.entries@[k as int]@);
                Ok(Some(&self.entries[k]))
            },
            Ok(None) => Ok(None),
            Err(e) => Err(e),
        }
    }

    /// Where the language to use for a path stands among the entries, given an optional
    /// explicit id.
    pub fn locate(&self, explicit: Option<&str>, path: &str) -> (r: Result<Option<usize>, String>)
        ensures
            match r {
                Ok(Some(k)) => resolved(self@, opt_str(explicit), path@) == Ok::<
                    Option<int>,
                    Seq<char>,
                >(Some(k as int)) && k < self@.len(),
                Ok(None) => resolved(self@, opt_str(explicit), path@) == Ok::<
                    Option<int>,
                    Seq<char>,
                >(None),
                Err(m) => resolved(self@, opt_str(explicit), path@) == Err::<
                    Option<int>,
                    Seq<char>,
                >(m@),
            },
    {
        if let Some(id) = explicit {
            return match self.position(id) {
                Some(k) => Ok(Some(k)),
                None => {
                    let mut e = "unknown language id '".to_owned();
                    e.append(id);
                    e.append("'");
                    Err(e)
                },
            };
        }
        self.find_by_path(path)
    }

    /// Resolve a language given an optional explicit id and a path.
    pub fn resolve(&self, explicit: Option<&str>, path: &str) -> (r: Result<
        Option<&LanguageEntry>,
        String,
    >)
        ensures
            match r {
                Ok(Some(e)) => resolved(self@, opt_str(explicit), path@) matches Ok(Some(k)) && 0
                    <= k < self@.len() && e@ == self@[k],
                Ok(None) => resolved(self@, opt_str(explicit), path@) == Ok::<
                    Option<int>,
                    Seq<char>,
                >(None),
                Err(m) => resolved(self@, opt_str(explicit), path@) == Err::<
                    Option<int>,
                    Seq<char>,
                >(m@),
            },
    {
        assert(self@.len() == self.entries@.len());
        match self.locate(explicit, path) {
            Ok(Some(k)) => {
                assert(self@[k as int] == self.entries@[k as int]@);
                Ok(Some(&self.entries[k]))
            },
            Ok(None) => Ok(None),
            Err(e) => Err(e),
        }
    }

    /// The entry at a position.
    pub fn entry(&self, k: usize) -> (r: &LanguageEntry)
        requires
            k < self@.len(),
        ensures
            r@ == self@[k as int],
    {
        assert(self@.len() == self.entries@.len());
        assert(self@[k as int] == self.entries@[k as int]@);
        &self.entries[k]
    }
}

/// The text of an optional string slice.
pub open spec fn opt_str(s: Option<&str>) -> Option<Seq<char>> {
    match s {
        Some(t) => Some(t@),
        None => None,
    }
}

/// The grammar versions of the registered ones among the first `n` languages.
pub open spec fn seen_version(s: Seq<EntryModel>, seen: Seq<Seq<char>>, n: nat, language: Seq<char>) -> Option<
    Seq<char>,
>
    decreases n,
{
    if n == 0 {
        None
    } else if seen[n - 1] == language && entry_with_id(s, 0, language) >= 0 {
        Some(grammar_text(s[entry_with_id(s, 0, language)].language))
    } else {
        seen_version(s, seen, (n - 1) as nat, language)
    }
}

// ---------------------------------------------------------------------------
// What resolving promises
// ---------------------------------------------------------------------------

proof fn lemma_owner_from(s: Seq<EntryModel>, i: int, ext: Seq<char>)
    requires
        0 <= i,
    ensures
        owner_from(s, i, ext) == -1 || i <= owner_from(s, i, ext) < s.len(),
        owner_from(s, i, ext) >= 0 ==> owns(s[owner_from(s, i, ext)], ext),
        forall|k: int|
            i <= k < s.len() && owns(#[trigger] s[k], ext) ==> 0 <= owner_from(s, i, ext) <= k,
    decreases s.len() - i,
{
    if i < s.len() && !owns(s[i], ext) {
        lemma_owner_from(s, i + 1, ext);
    }
}

/// Resolving by extension gives a language exactly when it is the only one that owns the
/// extension, and fails exactly when two or more do.
pub proof fn lemma_found_by_path(s: Seq<EntryModel>, path: Seq<char>, ext: Seq<char>)
    requires
        path::path_extension(path) == Some(ext),
    ensures
        forall|k: int|
            0 <= k < s.len() ==> (found_by_path(s, path) == Ok::<Option<int>, Seq<char>>(Some(k))
                <==> owns(#[trigger] s[k], text::ascii_lower(ext)) && forall|j: int|
                0 <= j < s.len() && owns(#[trigger] s[j], text::ascii_lower(ext)) ==> j == k),
        found_by_path(s, path) is Err <==> exists|i: int, j: int|
            #![trigger s[i], s[j]]
            0 <= i < j < s.len() && owns(s[i], text::ascii_lower(ext)) && owns(
                s[j],
                text::ascii_lower(ext),
            ),
{
    let e = text::ascii_lower(ext);
    let first = owner_from(s, 0, e);
    lemma_owner_from(s, 0, e);
    if first >= 0 {
        lemma_owner_from(s, first + 1, e);
        let second = owner_from(s, first + 1, e);
        if second >= 0 {
            assert(owns(s[first], e) && owns(s[second], e));
        }
    }
}

/// Are the texts the same but for the case of ASCII letters?
pub open spec fn same_but_case(a: Seq<char>, b: Seq<char>) -> bool {
    a.len() == b.len() && forall|i: int|
        0 <= i < a.len() ==> (#[trigger] a[i] == b[i] || (65 <= a[i] as int <= 90 && b[i] as int
            == a[i] as int + 32) || (65 <= b[i] as int <= 90 && a[i] as int == b[i] as int + 32))
}

proof fn lemma_same_but_case(a: Seq<char>, b: Seq<char>)
    ensures
        same_but_case(a, b) <==> text::ascii_lower(a) == text::ascii_lower(b),
{
    let (x, y) = (text::ascii_lower(a), text::ascii_lower(b));
    if x == y {
        assert(a.len() == x.len() && b.len() == y.len());
        assert forall|i: int| 0 <= i < a.len() implies (#[trigger] a[i] == b[i] || (65 <= a[i] as int
            <= 90 && b[i] as int == a[i] as int + 32) || (65 <= b[i] as int <= 90 && a[i] as int
            == b[i] as int + 32)) by {
            text::lemma_ascii_lower_at(a, i);
            text::lemma_ascii_lower_at(b, i);
            assert(x[i] == y[i]);
        }
    }
    if same_but_case(a, b) {
        assert forall|i: int| 0 <= i < x.len() implies x[i] == y[i] by {
            text::lemma_ascii_lower_at(a, i);
            text::lemma_ascii_lower_at(b, i);
            assert(a[i] == b[i] || true);
        }
        assert(x =~= y);
    }
}

/// A language owns an extension that is one of its own but for the case of letters.
pub proof fn lemma_owns_when(e: EntryModel, ext: Seq<char>)
    ensures
        owns(e, ext) <==> exists|k: int|
            0 <= k < e.extensions.len() && same_but_case(#[trigger] e.extensions[k], ext),
        owns(e, text::ascii_lower(ext)) == owns(e, ext),
{
    assert forall|k: int| 0 <= k < e.extensions.len() implies (same_but_case(
        #[trigger] e.extensions[k],
        ext,
    ) <==> text::ascii_lower(e.extensions[k]) == text::ascii_lower(ext)) by {
        lemma_same_but_case(e.extensions[k], ext);
    }
    if owns(e, ext) {
        let k = choose|k: int|
            0 <= k < e.extensions.len() && text::ascii_lower(#[trigger] e.extensions[k])
                == text::ascii_lower(ext);
        assert(same_but_case(e.extensions[k], ext));
    }
    if exists|k: int| 0 <= k < e.extensions.len() && same_but_case(#[trigger] e.extensions[k], ext) {
        let k = choose|k: int|
            0 <= k < e.extensions.len() && same_but_case(#[trigger] e.extensions[k], ext);
        assert(text::ascii_lower(e.extensions[k]) == text::ascii_lower(ext));
    }
    let low = text::ascii_lower(ext);
    assert(text::ascii_lower(low) =~= low) by {
        assert forall|i: int| 0 <= i < low.len() implies text::ascii_lower(low)[i] == low[i] by {
            text::lemma_ascii_lower_at(ext, i);
            text::lemma_ascii_lower_at(low, i);
        }
    }
}

/// Which language a path gets: with an id, the first language of that id, whatever the path is, or
/// an error that names the id; without one, none for a path without an extension.
pub proof fn lemma_resolved_by(s: Seq<EntryModel>, id: Seq<char>, path: Seq<char>, k: int)
    ensures
        0 <= k < s.len() && s[k].id == id && (forall|j: int|
            0 <= j < k ==> (#[trigger] s[j]).id != id) ==> resolved(s, Some(id), path) == Ok::<
            Option<int>,
            Seq<char>,
        >(Some(k)),
        (forall|j: int| 0 <= j < s.len() ==> (#[trigger] s[j]).id != id) ==> resolved(
            s,
            Some(id),
            path,
        ) == Err::<Option<int>, Seq<char>>("unknown language id '"@ + id + "'"@),
        path::path_extension(path) is None ==> resolved(s, None, path) == Ok::<
            Option<int>,
            Seq<char>,
        >(None),
{
    lemma_entry_with_id(s, 0, id);
    if 0 <= k < s.len() && s[k].id == id {
        lemma_entry_with_own_id(s, k);
    }
}

/// An extension in two languages is an error that names it and the first two of them.
pub proof fn lemma_ambiguity_named(s: Seq<EntryModel>, path: Seq<char>, ext: Seq<char>, i: int, j: int)
    requires
        path::path_extension(path) == Some(ext),
        0 <= i < j < s.len(),
        owns(s[i], ext),
        owns(s[j], ext),
        forall|k: int| 0 <= k < j && k != i ==> !owns(#[trigger] s[k], ext),
    ensures
        resolved(s, None, path) == Err::<Option<int>, Seq<char>>(
            "extension '."@ + text::ascii_lower(ext) + "' is claimed by multiple languages ('"@
                + s[i].id + "', '"@ + s[j].id + "'); pass --language to disambiguate"@,
        ),
{
    let e = text::ascii_lower(ext);
    assert forall|k: int| 0 <= k < s.len() implies owns(#[trigger] s[k], e) == owns(s[k], ext) by {
        lemma_owns_when(s[k], ext);
    }
    lemma_owner_is(s, 0, i, e);
    lemma_owner_is(s, i + 1, j, e);
}

proof fn lemma_owner_is(s: Seq<EntryModel>, from: int, k: int, ext: Seq<char>)
    requires
        0 <= from <= k < s.len(),
        owns(s[k], ext),
        forall|i: int| from <= i < k ==> !owns(#[trigger] s[i], ext),
    ensures
        owner_from(s, from, ext) == k,
    decreases k - from,
{
    if from < k {
        assert(!owns(s[from], ext));
        lemma_owner_is(s, from + 1, k, ext);
    }
}

/// What is registered is what is given: bundled languages are marked so and others are not, and one
/// without a description is described by its id.
pub proof fn lemma_registered_as_given(
    b: bundled::BundledModel,
    lang: DynamicLanguage,
    language: Language,
)
    ensures
        ({
            let (x, y) = (bundled_entry(b, language), dynamic_entry(lang, language));
            &&& x.id == b.id && x.extensions == b.extensions && x.description == b.description
            &&& x.bundled && x.language == language
            &&& y.id == lang.id@ && !y.bundled && y.language == language
            &&& y.extensions.len() == lang.extensions@.len()
            &&& forall|i: int|
                0 <= i < lang.extensions@.len() ==> y.extensions[i] == (
                #[trigger] lang.extensions@[i])@
            &&& lang.description is Some ==> y.description == lang.description->Some_0@
            &&& lang.description is None ==> y.description == "dynamically loaded grammar '"@
                + lang.id@ + "'"@
        }),
{
}

/// The grammar version of a language is recorded exactly where the language was seen and is
/// registered, and is then the version of its grammar.
pub proof fn lemma_seen_recorded(s: Seq<EntryModel>, seen: Seq<Seq<char>>, language: Seq<char>)
    ensures
        ({
            let k = entry_with_id(s, 0, language);
            let v = seen_version(s, seen, seen.len(), language);
            &&& v is Some <==> seen.contains(language) && exists|j: int|
                0 <= j < s.len() && (#[trigger] s[j]).id == language
            &&& v is Some ==> 0 <= k < s.len() && s[k].id == language && v->Some_0 == text::decimal(
                syntax::abi_version_of(s[k].language) as nat,
            )
        }),
{
    lemma_entry_with_id(s, 0, language);
    lemma_seen_upto(s, seen, seen.len(), language);
    if exists|j: int| 0 <= j < s.len() && (#[trigger] s[j]).id == language {
        let j = choose|j: int| 0 <= j < s.len() && (#[trigger] s[j]).id == language;
        lemma_entry_with_own_id(s, j);
    }
    if seen.contains(language) {
        let i = choose|i: int| 0 <= i < seen.len() && seen[i] == language;
        assert(seen[i] == language);
    }
}

proof fn lemma_seen_upto(s: Seq<EntryModel>, seen: Seq<Seq<char>>, n: nat, language: Seq<char>)
    requires
        n <= seen.len(),
    ensures
        seen_version(s, seen, n, language) is Some <==> entry_with_id(s, 0, language) >= 0
            && exists|i: int| 0 <= i < n && #[trigger] seen[i] == language,
        seen_version(s, seen, n, language) is Some ==> seen_version(s, seen, n, language)
            == Some(grammar_text(s[entry_with_id(s, 0, language)].language)),
    decreases n,
{
    if n > 0 {
        lemma_seen_upto(s, seen, (n - 1) as nat, language);
    }
}

} // verus!
