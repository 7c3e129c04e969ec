//! Finding and severity types shared across the engine and reporters.

use vstd::prelude::*;
use vstd::hash_map::StringHashMap;

use crate::git::DiffRelation;
use crate::path;
use crate::sort;
use crate::sort::PlaceKey;
use crate::text;

verus! {

/// Severity of a rule or finding, ordered from most to least severe.
#[derive(Debug, Clone, Copy, PartialEq, Eq, PartialOrd, Ord, Structural)]
pub enum Severity {
    Error,
    Warning,
    Info,
    Note,
}

/// The name of a severity.
pub open spec fn severity_text(s: Severity) -> Seq<char> {
    match s {
        Severity::Error => "error"@,
        Severity::Warning => "warning"@,
        Severity::Info => "info"@,
        Severity::Note => "note"@,
    }
}

/// The SARIF `level` of a severity.
pub open spec fn level_text(s: Severity) -> Seq<char> {
    match s {
        Severity::Error => "error"@,
        Severity::Warning => "warning"@,
        Severity::Info | Severity::Note => "note"@,
    }
}

/// The place of a severity in the order from most to least severe.
pub open spec fn severity_rank(s: Severity) -> int {
    match s {
        Severity::Error => 0,
        Severity::Warning => 1,
        Severity::Info => 2,
        Severity::Note => 3,
    }
}

/// The threshold that a word names: `Some(None)` never fails a run.
pub open spec fn threshold_of(s: Seq<char>) -> Option<Option<Severity>> {
    let t = text::ascii_lower(s);
    if t == "off"@ || t == "none"@ || t == "never"@ {
        Some(None)
    } else if t == "error"@ {
        Some(Some(Severity::Error))
    } else if t == "warning"@ || t == "warn"@ {
        Some(Some(Severity::Warning))
    } else if t == "info"@ {
        Some(Some(Severity::Info))
    } else if t == "note"@ {
        Some(Some(Severity::Note))
    } else {
        None
    }
}

impl Severity {
    /// SARIF `level` string for this severity.
    pub fn sarif_level(self) -> (r: &'static str)
        ensures
            r@ == level_text(self),
    {
        match self {
            Severity::Error => "error",
            Severity::Warning => "warning",
            Severity::Info | Severity::Note => "note",
        }
    }

    /// The name of this severity.
    pub fn as_str(self) -> (r: &'static str)
        ensures
            r@ == severity_text(self),
    {
        match self {
            Severity::Error => "error",
            Severity::Warning => "warning",
            Severity::Info => "info",
            Severity::Note => "note",
        }
    }

    /// Parse a severity from a threshold word, in any ASCII case. `off`, `none` and
    /// `never` never fail a run.
    pub fn parse_threshold(s: &str) -> (r: Option<Option<Severity>>)
        ensures
            r == threshold_of(s@),
    {
        let t = text::to_ascii_lowercase(s);
        let t = t.as_str();
        if text::same(t, "off") || text::same(t, "none") || text::same(t, "never") {
            Some(None)
        } else if text::same(t, "error") {
            Some(Some(Severity::Error))
        } else if text::same(t, "warning") || text::same(t, "warn") {
            Some(Some(Severity::Warning))
        } else if text::same(t, "info") {
            Some(Some(Severity::Info))
        } else if text::same(t, "note") {
            Some(Some(Severity::Note))
        } else {
            None
        }
    }

    fn rank(self) -> (r: u8)
        ensures
            r == severity_rank(self),
    {
        match self {
            Severity::Error => 0,
            Severity::Warning => 1,
            Severity::Info => 2,
            Severity::Note => 3,
        }
    }

    /// Is this severity at or above the threshold?
    pub fn reaches(self, threshold: Severity) -> (r: bool)
        ensures
            r == (severity_rank(self) <= severity_rank(threshold)),
    {
        self.rank() <= threshold.rank()
    }
}

/// A 1-based source position, as displayed to users and emitted in SARIF.
#[derive(Debug, Clone, Copy, PartialEq, Eq, Structural)]
pub struct Position {
    pub line: usize,
    pub column: usize,
}

/// A finding's relationship to a baseline snapshot, mirroring SARIF's
/// `result.baselineState` vocabulary.
#[derive(Debug, Clone, Copy, PartialEq, Eq, Structural)]
pub enum FindingState {
    /// Present at HEAD, absent from the baseline: introduced by this change.
    New,
    /// Present in both, and its surrounding context is the same.
    Unchanged,
    /// Present in both by fingerprint, but the surrounding source was edited.
    Updated,
    /// Present in the baseline, absent at HEAD: resolved by this change.
    Absent,
}

/// The SARIF `baselineState` of a state.
pub open spec fn state_text(s: FindingState) -> Seq<char> {
    match s {
        FindingState::New => "new"@,
        FindingState::Unchanged => "unchanged"@,
        FindingState::Updated => "updated"@,
        FindingState::Absent => "absent"@,
    }
}

impl FindingState {
    /// The SARIF 2.1.0 `baselineState` string.
    pub fn sarif_baseline_state(self) -> (r: &'static str)
        ensures
            r@ == state_text(self),
    {
        match self {
            FindingState::New => "new",
            FindingState::Unchanged => "unchanged",
            FindingState::Updated => "updated",
            FindingState::Absent => "absent",
        }
    }

    /// Is a finding in this state present in the code at HEAD? Absent ones are not, so
    /// they never fail a run.
    pub fn present_at_head(self) -> (r: bool)
        ensures
            r == (self != FindingState::Absent),
    {
        match self {
            FindingState::Absent => false,
            _ => true,
        }
    }
}

/// Why a finding is reported as newly flagged.
#[derive(Debug, Clone, Copy, PartialEq, Eq, Structural)]
pub enum NewCause {
    /// The code changed.
    Code,
    /// The rules, the engine or a grammar changed.
    Ruleset,
}

/// A single security finding produced by matching a rule against a file.
#[derive(Debug)]
pub struct Finding {
    pub rule_id: String,
    pub message: String,
    pub severity: Severity,
    pub language: String,
    pub file: String,
    /// 1-based start position.
    pub start: Position,
    /// 1-based end position (exclusive column).
    pub end: Position,
    /// The source line the finding starts on, for display.
    pub snippet: String,
    /// Stable, line-number-independent identity.
    pub fingerprint: String,
    /// The path-independent half of the identity.
    pub content_key: String,
    /// Hash of the surrounding source window; distinguishes unchanged from updated.
    pub context_hash: String,
    /// How many identical fingerprints precede this one in the sorted order.
    pub occurrence: usize,
    /// Relationship to the baseline, populated only when diffing.
    pub state: Option<FindingState>,
    /// Relationship to the lines of the change.
    pub diff_relation: Option<DiffRelation>,
    /// Why the finding is newly flagged, under a partitioned diff.
    pub new_cause: Option<NewCause>,
}

/// What a finding holds.
#[verifier::ext_equal]
pub struct FindingModel {
    pub rule_id: Seq<char>,
    pub message: Seq<char>,
    pub severity: Severity,
    pub language: Seq<char>,
    pub file: Seq<char>,
    pub start: Position,
    pub end: Position,
    pub snippet: Seq<char>,
    pub fingerprint: Seq<char>,
    pub content_key: Seq<char>,
    pub context_hash: Seq<char>,
    pub occurrence: usize,
    pub state: Option<FindingState>,
    pub diff_relation: Option<DiffRelation>,
    pub new_cause: Option<NewCause>,
}

impl View for Finding {
    type V = FindingModel;

    open spec fn view(&self) -> FindingModel {
        FindingModel {
            rule_id: self.rule_id@,
            message: self.message@,
            severity: self.severity,
            language: self.language@,
            file: self.file@,
            start: self.start,
            end: self.end,
            snippet: self.snippet@,
            fingerprint: self.fingerprint@,
            content_key: self.content_key@,
            context_hash: self.context_hash@,
            occurrence: self.occurrence,
            state: self.state,
            diff_relation: self.diff_relation,
            new_cause: self.new_cause,
        }
    }
}

impl Clone for Finding {
    fn clone(&self) -> (r: Self)
        ensures
            r == *self,
    {
        Finding {
            rule_id: self.rule_id.clone(),
            message: self.message.clone(),
            severity: self.severity,
            language: self.language.clone(),
            file: self.file.clone(),
            start: self.start,
            end: self.end,
            snippet: self.snippet.clone(),
            fingerprint: self.fingerprint.clone(),
            content_key: self.content_key.clone(),
            context_hash: self.context_hash.clone(),
            occurrence: self.occurrence,
            state: self.state,
            diff_relation: self.diff_relation,
            new_cause: self.new_cause,
        }
    }
}

/// What a list of findings holds.
pub open spec fn models(s: Seq<Finding>) -> Seq<FindingModel> {
    s.map_values(|f: Finding| f@)
}

/// A copy of a list of findings.
pub fn clone_findings(list: &Vec<Finding>) -> (r: Vec<Finding>)
    ensures
        r@ == list@,
{
    let mut out: Vec<Finding> = Vec::new();
    for i in 0..list.len()
        invariant
            out@ == list@.take(i as int),
    {
        out.push(list[i].clone());
    }
    assert(list@.take(list@.len() as int) =~= list@);
    out
}

// ---------------------------------------------------------------------------
// The canonical form of a finding set
// ---------------------------------------------------------------------------

/// Where a finding stands, for the canonical order.
pub open spec fn place(f: FindingModel) -> sort::Place {
    sort::Place {
        file: path::path_parts(f.file),
        start: f.start,
        end: f.end,
        rule_id: f.rule_id,
        occurrence: 0,
    }
}

/// Where findings stand, for the canonical order.
pub open spec fn places(s: Seq<FindingModel>) -> Seq<sort::Place> {
    s.map_values(|f: FindingModel| place(f))
}

/// The findings in canonical order: by file, start, end and rule. Findings in one place
/// keep their order.
pub open spec fn sorted(s: Seq<FindingModel>) -> Seq<FindingModel> {
    sort::arranged(s, sort::stable_order(places(s)))
}

/// The findings without those that stand where the one before them stands.
pub open spec fn deduped(s: Seq<FindingModel>) -> Seq<FindingModel>
    decreases s.len(),
{
    if s.len() == 0 {
        s
    } else {
        let kept = deduped(s.drop_last());
        if kept.len() > 0 && place(kept.last()) == place(s.last()) {
            kept
        } else {
            kept.push(s.last())
        }
    }
}

/// How often a text occurs in a list.
pub open spec fn count_of(list: Seq<Seq<char>>, x: Seq<char>) -> nat
    decreases list.len(),
{
    if list.len() == 0 {
        0
    } else {
        count_of(list.drop_last(), x) + if list.last() == x {
            1nat
        } else {
            0nat
        }
    }
}

/// The fingerprints of findings.
pub open spec fn fingerprints(s: Seq<FindingModel>) -> Seq<Seq<char>> {
    s.map_values(|f: FindingModel| f.fingerprint)
}

/// The finding with another occurrence number.
pub open spec fn with_occurrence(f: FindingModel, n: nat) -> FindingModel {
    FindingModel { occurrence: n as usize, ..f }
}

/// The findings, each numbered by how many with its fingerprint precede it.
pub open spec fn numbered(s: Seq<FindingModel>) -> Seq<FindingModel> {
    Seq::new(
        s.len(),
        |i: int| with_occurrence(s[i], count_of(fingerprints(s).take(i), s[i].fingerprint)),
    )
}

/// The canonical form of a finding set: sorted, without positional duplicates, and
/// numbered among equal fingerprints.
pub open spec fn finalized(s: Seq<FindingModel>) -> Seq<FindingModel> {
    numbered(deduped(sorted(s)))
}

/// Does the table hold how often each text occurs in the list?
pub open spec fn tallies(table: Map<Seq<char>, usize>, list: Seq<Seq<char>>) -> bool {
    forall|x: Seq<char>|
        #![trigger count_of(list, x)]
        count_of(list, x) == if table.contains_key(x) {
            table[x] as nat
        } else {
            0nat
        }
}

pub proof fn lemma_count_of_bound(list: Seq<Seq<char>>, x: Seq<char>)
    ensures
        count_of(list, x) <= list.len(),
    decreases list.len(),
{
    if list.len() > 0 {
        lemma_count_of_bound(list.drop_last(), x);
    }
}

/// The number that the table holds for a text, which is then one higher.
pub fn next_number(table: &mut StringHashMap<usize>, x: &str) -> (n: usize)
    requires
        old(table)@.contains_key(x@) ==> old(table)@[x@] < usize::MAX,
    ensures
        n == if old(table)@.contains_key(x@) {
            old(table)@[x@]
        } else {
            0
        },
        final(table)@ == old(table)@.insert(x@, (n + 1) as usize),
{
    let n: usize = match table.get(x) {
        Some(n) => *n,
        None => 0,
    };
    table.insert(x.to_owned(), n + 1);
    n
}

fn place_key(f: &Finding) -> (r: PlaceKey)
    ensures
        r@ == place(f@),
{
    PlaceKey {
        file: path::components(f.file.as_str()),
        start: f.start,
        end: f.end,
        rule_id: f.rule_id.clone(),
        occurrence: 0,
    }
}

/// The findings in canonical order.
pub fn sorted_findings(findings: &Vec<Finding>) -> (r: Vec<Finding>)
    ensures
        models(r@) == sorted(models(findings@)),
{
    let ghost ms = models(findings@);
    let mut keys: Vec<PlaceKey> = Vec::new();
    for i in 0..findings.len()
        invariant
            ms == models(findings@),
            sort::places(keys@) == places(ms.take(i as int)),
    {
        let ghost before = sort::places(keys@);
        keys.push(place_key(&findings[i]));
        assert(sort::places(keys@) =~= before.push(place(ms[i as int])));
        assert(sort::places(keys@) =~= places(ms.take(i + 1)));
    }
    assert(ms.take(ms.len() as int) =~= ms);
    assert(keys@.len() == sort::places(keys@).len());
    let ord = sort::sorted_positions(&keys);
    let mut out: Vec<Finding> = Vec::new();
    for i in 0..ord.len()
        invariant
            ms == models(findings@),
            forall|k: int| 0 <= k < ord@.len() ==> #[trigger] ord@[k] < findings@.len(),
            models(out@) == sort::arranged(ms, sort::as_ints(ord@).take(i as int)),
    {
        let ghost before = models(out@);
        out.push(findings[ord[i]].clone());
        assert(models(out@) =~= before.push(ms[ord@[i as int] as int]));
        assert(models(out@) =~= sort::arranged(ms, sort::as_ints(ord@).take(i + 1)));
    }
    assert(sort::as_ints(ord@).take(ord@.len() as int) =~= sort::as_ints(ord@));
    out
}

fn same_place(a: &Finding, b: &Finding) -> (r: bool)
    ensures
        r == (place(a@) == place(b@)),
{
    let c = sort::compare_keys(&place_key(a), &place_key(b));
    proof {
        sort::lemma_compare_place_antisymmetric(place(a@), place(b@));
    }
    c == 0
}

fn dedup(findings: Vec<Finding>) -> (r: Vec<Finding>)
    ensures
        models(r@) == deduped(models(findings@)),
{
    let ghost ms = models(findings@);
    let mut out: Vec<Finding> = Vec::new();
    for i in 0..findings.len()
        invariant
            ms == models(findings@),
            models(out@) == deduped(ms.take(i as int)),
    {
        assert(ms.take(i + 1).drop_last() =~= ms.take(i as int));
        assert(models(out@).len() == out@.len());
        assert(out@.len() > 0 ==> models(out@).last() == out@.last()@);
        if out.len() == 0 || !same_place(&out[out.len() - 1], &findings[i]) {
            let ghost before = models(out@);
            out.push(findings[i].clone());
            assert(models(out@) =~= before.push(ms[i as int]));
        }
    }
    assert(ms.take(ms.len() as int) =~= ms);
    out
}

fn number(findings: Vec<Finding>) -> (r: Vec<Finding>)
    ensures
        models(r@) == numbered(models(findings@)),
{
    let ghost ms = models(findings@);
    let ghost fps = fingerprints(ms);
    let mut table: StringHashMap<usize> = StringHashMap::new();
    let mut out: Vec<Finding> = Vec::new();
    for i in 0..findings.len()
        invariant
            ms == models(findings@),
            fps == fingerprints(ms),
            tallies(table@, fps.take(i as int)),
            models(out@) == numbered(ms).take(i as int),
    {
        let ghost before = table@;
        let ghost done = models(out@);
        proof {
            assert(findings@[i as int].fingerprint@ == fps[i as int]);
            lemma_count_of_bound(fps.take(i as int), fps[i as int]);
            assert(fps.take(i + 1).drop_last() =~= fps.take(i as int));
        }
        let n = next_number(&mut table, findings[i].fingerprint.as_str());
        let mut f = findings[i].clone();
        f.occurrence = n;
        out.push(f);
        proof {
            assert(fps[i as int] == findings@[i as int].fingerprint@);
            assert(models(out@) =~= done.push(numbered(ms)[i as int]));
            assert(numbered(ms).take(i + 1) =~= numbered(ms).take(i as int).push(
                numbered(ms)[i as int],
            ));
            assert forall|x: Seq<char>| #[trigger]
                count_of(fps.take(i + 1), x) == if table@.contains_key(x) {
                    table@[x] as nat
                } else {
                    0nat
                } by {
                let c = count_of(fps.take(i as int), x);
                lemma_count_of_bound(fps.take(i as int), x);
            }
        }
    }
    assert(numbered(ms).take(ms.len() as int) =~= numbered(ms));
    out
}

/// Canonicalize a scan's raw findings into the deterministic form the rest of the pipeline
/// relies on: sorted by file, start, end and rule; without findings that one rule reports
/// twice for one place; and each numbered by how many with its fingerprint precede it, so
/// that identical matches stay individually addressable.
pub fn finalize(findings: &mut Vec<Finding>)
    ensures
        models(final(findings)@) == finalized(models(old(findings)@)),
{
    let out = number(dedup(sorted_findings(findings)));
    *findings = out;
}

// ---------------------------------------------------------------------------
// What the canonical form keeps
// ---------------------------------------------------------------------------

/// Does each finding stand before the ones after it?
pub open spec fn strictly_ordered(s: Seq<FindingModel>) -> bool {
    forall|i: int, j: int|
        #![trigger s[i], s[j]]
        0 <= i < j < s.len() ==> sort::compare_place(place(s[i]), place(s[j])) < 0
}

/// Does no finding stand before one ahead of it?
pub open spec fn weakly_ordered(s: Seq<FindingModel>) -> bool {
    forall|i: int, j: int|
        #![trigger s[i], s[j]]
        0 <= i < j < s.len() ==> sort::compare_place(place(s[i]), place(s[j])) <= 0
}

/// Is no two findings' fingerprint and occurrence number the same?
pub open spec fn uniquely_identified(s: Seq<FindingModel>) -> bool {
    forall|i: int, j: int|
        #![trigger s[i], s[j]]
        0 <= i < j < s.len() ==> s[i].fingerprint != s[j].fingerprint || s[i].occurrence
            != s[j].occurrence
}

proof fn lemma_sorted_is_ordered(s: Seq<FindingModel>)
    ensures
        weakly_ordered(sorted(s)),
        sorted(s).len() == s.len(),
        sorted(s).to_multiset() == s.to_multiset(),
{
    let keys = places(s);
    let ord = sort::stable_order(keys);
    sort::lemma_stable_order(keys);
    sort::lemma_arranged_same_items(s, keys);
    let r = sorted(s);
    assert forall|i: int, j: int|
        #![trigger r[i], r[j]]
        0 <= i < j < r.len() implies sort::compare_place(place(r[i]), place(r[j])) <= 0 by {
        assert(r[i] == s[ord[i]] && r[j] == s[ord[j]]);
        assert(sort::compare_place(keys[ord[i]], keys[ord[j]]) <= 0);
    }
}

proof fn lemma_deduped(s: Seq<FindingModel>)
    requires
        weakly_ordered(s),
    ensures
        strictly_ordered(deduped(s)),
        deduped(s).len() <= s.len(),
        s.len() > 0 ==> deduped(s).len() > 0 && place(deduped(s).last()) == place(s.last()),
        forall|i: int| 0 <= i < deduped(s).len() ==> s.contains(#[trigger] deduped(s)[i]),
        forall|k: int|
            0 <= k < s.len() ==> places(deduped(s)).contains(#[trigger] place(s[k])),
    decreases s.len(),
{
    if s.len() > 0 {
        let init = s.drop_last();
        let kept = deduped(init);
        let r = deduped(s);
        assert(weakly_ordered(init)) by {
            assert forall|i: int, j: int|
                #![trigger init[i], init[j]]
                0 <= i < j < init.len() implies sort::compare_place(place(init[i]), place(init[j]))
                <= 0 by {
                assert(init[i] == s[i] && init[j] == s[j]);
            }
        }
        lemma_deduped(init);
        assert forall|i: int| 0 <= i < kept.len() implies s.contains(#[trigger] kept[i]) by {
            let k = choose|k: int| 0 <= k < init.len() && init[k] == kept[i];
            assert(s[k] == kept[i]);
        }
        assert(s.contains(s.last()));
        if kept.len() > 0 && place(kept.last()) == place(s.last()) {
            assert(places(r)[r.len() - 1] == place(s.last()));
        } else {
            assert forall|i: int, j: int|
                #![trigger r[i], r[j]]
                0 <= i < j < r.len() implies sort::compare_place(place(r[i]), place(r[j])) < 0 by {
                if j == r.len() - 1 {
                    let (a, b, c) = (place(r[i]), place(kept.last()), place(s.last()));
                    assert(init.last() == s[s.len() - 2]);
                    assert(sort::compare_place(place(s[s.len() - 2]), place(s[s.len() - 1])) <= 0);
                    assert(sort::compare_place(b, c) <= 0);
                    sort::lemma_compare_place_antisymmetric(b, c);
                    sort::lemma_compare_place_antisymmetric(a, b);
                    sort::lemma_compare_place_antisymmetric(a, c);
                    if i < kept.len() - 1 {
                        assert(kept[i] == r[i]);
                        assert(sort::compare_place(place(kept[i]), place(kept[kept.len() - 1]))
                            < 0);
                        sort::lemma_compare_place_transitive(a, b, c);
                        if a == c {
                            sort::lemma_compare_place_antisymmetric(c, b);
                        }
                    }
                } else {
                    assert(kept[i] == r[i] && kept[j] == r[j]);
                }
            }
            assert(places(r)[r.len() - 1] == place(s.last()));
        }
        assert forall|k: int| 0 <= k < s.len() implies places(r).contains(
            #[trigger] place(s[k]),
        ) by {
            if k < init.len() {
                assert(init[k] == s[k]);
                assert(places(kept).contains(place(init[k])));
                let i = choose|i: int|
                    0 <= i < places(kept).len() && places(kept)[i] == place(s[k]);
                assert(places(r)[i] == place(s[k]));
            }
        }
    }
}

proof fn lemma_strict_is_deduped(s: Seq<FindingModel>)
    requires
        strictly_ordered(s),
    ensures
        deduped(s) == s,
    decreases s.len(),
{
    if s.len() > 0 {
        let init = s.drop_last();
        assert(strictly_ordered(init)) by {
            assert forall|i: int, j: int|
                #![trigger init[i], init[j]]
                0 <= i < j < init.len() implies sort::compare_place(place(init[i]), place(init[j]))
                < 0 by {
                assert(init[i] == s[i] && init[j] == s[j]);
            }
        }
        lemma_strict_is_deduped(init);
        if init.len() > 0 {
            assert(sort::compare_place(place(s[s.len() - 2]), place(s[s.len() - 1])) < 0);
            sort::lemma_compare_place_antisymmetric(place(init.last()), place(s.last()));
        }
        assert(init.push(s.last()) =~= s);
    }
}

/// Of two equal texts in a list, fewer equal ones stand before the first than before the
/// second.
pub proof fn lemma_count_of_increases(list: Seq<Seq<char>>, i: int, j: int)
    requires
        0 <= i < j <= list.len(),
    ensures
        count_of(list.take(i), list[i]) < count_of(list.take(j), list[i]),
    decreases j - i,
{
    assert(list.take(j).drop_last() =~= list.take(j - 1));
    if j - 1 > i {
        lemma_count_of_increases(list, i, j - 1);
    }
}

/// Numbering makes every finding individually addressable: no two share their fingerprint
/// and their occurrence number.
pub proof fn lemma_numbered_unique(s: Seq<FindingModel>)
    requires
        s.len() <= usize::MAX,
    ensures
        uniquely_identified(numbered(s)),
{
    let r = numbered(s);
    let fps = fingerprints(s);
    assert forall|i: int, j: int|
        #![trigger r[i], r[j]]
        0 <= i < j < r.len() implies r[i].fingerprint != r[j].fingerprint || r[i].occurrence
        != r[j].occurrence by {
        if fps[i] == fps[j] {
            lemma_count_of_increases(fps, i, j);
            lemma_count_of_bound(fps.take(i), fps[i]);
            lemma_count_of_bound(fps.take(j), fps[j]);
        }
    }
}

/// The canonical form is strictly ordered by file, start, end and rule, its findings have
/// pairwise different identities, and it reports exactly the places of the raw findings.
pub proof fn lemma_finalized(s: Seq<FindingModel>)
    requires
        s.len() <= usize::MAX,
    ensures
        strictly_ordered(finalized(s)),
        uniquely_identified(finalized(s)),
        finalized(s).len() <= s.len(),
        forall|i: int|
            0 <= i < finalized(s).len() ==> places(s).contains(place(#[trigger] finalized(s)[i])),
        forall|k: int| 0 <= k < s.len() ==> places(finalized(s)).contains(#[trigger] place(s[k])),
{
    let t = sorted(s);
    let d = deduped(t);
    let r = finalized(s);
    lemma_sorted_is_ordered(s);
    lemma_deduped(t);
    lemma_numbered_unique(d);
    assert(places(r) =~= places(d));
    assert forall|i: int, j: int|
        #![trigger r[i], r[j]]
        0 <= i < j < r.len() implies sort::compare_place(place(r[i]), place(r[j])) < 0 by {
        assert(place(r[i]) == place(d[i]) && place(r[j]) == place(d[j]));
    }
    broadcast use vstd::seq_lib::group_to_multiset_ensures;

    assert forall|i: int| 0 <= i < r.len() implies places(s).contains(
        place(#[trigger] r[i]),
    ) by {
        assert(t.contains(d[i]));
        assert(s.to_multiset().count(d[i]) > 0);
        let k = choose|k: int| 0 <= k < s.len() && s[k] == d[i];
        assert(places(s)[k] == place(r[i]));
    }
    assert forall|k: int| 0 <= k < s.len() implies places(r).contains(#[trigger] place(s[k])) by {
        assert(s.contains(s[k]));
        assert(t.to_multiset().count(s[k]) > 0);
        let i = choose|i: int| 0 <= i < t.len() && t[i] == s[k];
        assert(places(d).contains(place(t[i])));
    }
}

/// Does no other finding stand where one stands?
pub open spec fn distinct_places(s: Seq<FindingModel>) -> bool {
    forall|i: int, j: int|
        #![trigger s[i], s[j]]
        0 <= i < j < s.len() ==> place(s[i]) != place(s[j])
}

/// The canonical form of findings at different places holds them all, arranged and numbered.
pub proof fn lemma_finalized_distinct(s: Seq<FindingModel>)
    requires
        distinct_places(s),
    ensures
        finalized(s) == numbered(sorted(s)),
        finalized(s).len() == s.len(),
{
    let keys = places(s);
    let ord = sort::stable_order(keys);
    sort::lemma_stable_order(keys);
    let r = sorted(s);
    assert forall|i: int, j: int|
        #![trigger r[i], r[j]]
        0 <= i < j < r.len() implies sort::compare_place(place(r[i]), place(r[j])) < 0 by {
        let (a, b) = (ord[i], ord[j]);
        assert(a != b);
        assert(sort::compare_place(keys[a], keys[b]) <= 0);
        assert(place(s[a]) != place(s[b])) by {
            if a < b {
                assert(place(s[a]) != place(s[b]));
            } else {
                assert(place(s[b]) != place(s[a]));
            }
        }
        sort::lemma_compare_place_antisymmetric(keys[a], keys[b]);
    }
    lemma_strict_is_deduped(r);
}

/// The canonical form is its own canonical form.
pub proof fn lemma_finalized_idempotent(s: Seq<FindingModel>)
    ensures
        finalized(finalized(s)) == finalized(s),
{
    let d = deduped(sorted(s));
    let r = finalized(s);
    lemma_sorted_is_ordered(s);
    lemma_deduped(sorted(s));
    assert forall|i: int, j: int|
        #![trigger r[i], r[j]]
        0 <= i < j < r.len() implies sort::compare_place(place(r[i]), place(r[j])) < 0 by {
        assert(place(r[i]) == place(d[i]) && place(r[j]) == place(d[j]));
    }
    let keys = places(r);
    assert forall|i: int, j: int|
        #![trigger keys[i], keys[j]]
        0 <= i < j < keys.len() implies sort::compare_place(keys[i], keys[j]) <= 0 by {
        assert(keys[i] == place(r[i]) && keys[j] == place(r[j]));
    }
    sort::lemma_order_of_sorted(keys, keys.len());
    assert(sorted(r) =~= r);
    lemma_strict_is_deduped(r);
    assert(fingerprints(r) =~= fingerprints(d));
    assert(numbered(r) =~= r);
}

// ---------------------------------------------------------------------------
// What the canonical form holds
// ---------------------------------------------------------------------------

/// Is some finding of a list, none of them behind it, at the place of a finding?
pub open spec fn placed_before(s: Seq<FindingModel>, w: Seq<int>, k: int) -> bool {
    exists|i: int| 0 <= i < w.len() && #[trigger] w[i] <= k && place(s[w[i]]) == place(s[k])
}

/// The canonical form holds raw findings, changed in nothing but their occurrence number: for each
/// place the first raw finding there, and none twice. The result names the raw finding that each is.
pub proof fn lemma_canonical_findings_raw(s: Seq<FindingModel>) -> (w: Seq<int>)
    ensures
        ({
            let r = finalized(s);
            &&& w.len() == r.len()
            &&& w.no_duplicates()
            &&& forall|i: int|
                0 <= i < w.len() ==> 0 <= #[trigger] w[i] < s.len() && r[i] == (FindingModel {
                    occurrence: r[i].occurrence,
                    ..s[w[i]]
                })
            &&& forall|k: int| 0 <= k < s.len() ==> #[trigger] placed_before(s, w, k)
        }),
{
    let keys = places(s);
    let ord = sort::stable_order(keys);
    sort::lemma_stable_order(keys);
    let t = sorted(s);
    let d = deduped(t);
    let v = lemma_deduped_firsts(t);
    let w = Seq::new(v.len(), |i: int| ord[v[i]]);
    let r = finalized(s);
    assert forall|i: int| 0 <= i < w.len() implies 0 <= #[trigger] w[i] < s.len() && r[i] == (
    FindingModel { occurrence: r[i].occurrence, ..s[w[i]] }) by {
        assert(0 <= v[i] < t.len());
        assert(0 <= ord[v[i]] < s.len());
        assert(d[i] == t[v[i]]);
    }
    assert(w.no_duplicates()) by {
        assert forall|i: int, j: int| 0 <= i < w.len() && 0 <= j < w.len() && i != j implies w[i]
            != w[j] by {
            if i < j {
                assert(v[i] < v[j]);
            } else {
                assert(v[j] < v[i]);
            }
            assert(ord[v[i]] != ord[v[j]]);
        }
    }
    assert forall|k: int| 0 <= k < s.len() implies #[trigger] placed_before(s, w, k) by {
        sort::lemma_permutation_covers(ord, s.len(), k);
        let x = choose|x: int| 0 <= x < ord.len() && ord[x] == k;
        assert(placed_before(t, v, x));
        let i = choose|i: int|
            0 <= i < v.len() && #[trigger] v[i] <= x && place(t[v[i]]) == place(t[x]);
        lemma_earlier_raw(s, v[i], x);
        assert(w[i] == ord[v[i]]);
        assert(w[i] <= k);
    }
    w
}

proof fn lemma_earlier_raw(s: Seq<FindingModel>, a: int, b: int)
    requires
        0 <= a <= b < s.len(),
        place(sorted(s)[a]) == place(sorted(s)[b]),
    ensures
        ({
            let ord = sort::stable_order(places(s));
            ord[a] <= ord[b] && place(s[ord[a]]) == place(s[ord[b]]) && 0 <= ord[a] < s.len()
        }),
{
    let keys = places(s);
    let ord = sort::stable_order(keys);
    sort::lemma_stable_order(keys);
    assert(sorted(s)[a] == s[ord[a]] && sorted(s)[b] == s[ord[b]]);
    if a < b {
        sort::lemma_compare_place_antisymmetric(keys[ord[a]], keys[ord[b]]);
    }
}

proof fn lemma_deduped_firsts(t: Seq<FindingModel>) -> (v: Seq<int>)
    ensures
        ({
            let d = deduped(t);
            &&& v.len() == d.len()
            &&& forall|i: int, j: int| #![trigger v[i], v[j]] 0 <= i < j < v.len() ==> v[i] < v[j]
            &&& forall|i: int|
                0 <= i < v.len() ==> 0 <= #[trigger] v[i] < t.len() && d[i] == t[v[i]]
            &&& forall|x: int| 0 <= x < t.len() ==> #[trigger] placed_before(t, v, x)
        }),
    decreases t.len(),
{
    if t.len() == 0 {
        seq![]
    } else {
        let n = t.len() as int;
        let init = t.drop_last();
        let u = lemma_deduped_firsts(init);
        let kept = deduped(init);
        let held = kept.len() > 0 && place(kept.last()) == place(t.last());
        let v = if held {
            u
        } else {
            u.push(n - 1)
        };
        assert forall|i: int| 0 <= i < v.len() implies 0 <= #[trigger] v[i] < n && deduped(t)[i]
            == t[v[i]] by {
            if i < u.len() {
                assert(v[i] == u[i]);
                assert(kept[i] == init[u[i]]);
            }
        }
        assert forall|x: int| 0 <= x < n implies #[trigger] placed_before(t, v, x) by {
            if x < n - 1 {
                assert(placed_before(init, u, x));
                let i = choose|i: int|
                    0 <= i < u.len() && #[trigger] u[i] <= x && place(init[u[i]]) == place(init[x]);
                assert(v[i] == u[i]);
                assert(init[u[i]] == t[v[i]] && init[x] == t[x]);
            } else if held {
                let i = u.len() - 1;
                assert(kept[i] == init[u[i]]);
                assert(v[i] <= x);
            } else {
                assert(v[u.len() as int] == x);
            }
        }
        v
    }
}

/// Findings with one fingerprint are numbered from 0 in their order: the first of them has 0, and
/// each later one has one more than the one before it.
pub proof fn lemma_numbered_in_turn(s: Seq<FindingModel>, i: int, j: int)
    requires
        s.len() <= usize::MAX,
        0 <= j < finalized(s).len(),
        -1 <= i < j,
        i >= 0 ==> finalized(s)[i].fingerprint == finalized(s)[j].fingerprint,
        forall|k: int|
            i < k < j ==> (#[trigger] finalized(s)[k]).fingerprint != finalized(s)[j].fingerprint,
    ensures
        finalized(s)[j].occurrence == if i >= 0 {
            finalized(s)[i].occurrence + 1
        } else {
            0
        },
{
    let d = deduped(sorted(s));
    let r = finalized(s);
    let fps = fingerprints(d);
    let x = r[j].fingerprint;
    lemma_finalized(s);
    assert(fps.len() == r.len());
    assert forall|k: int| i + 1 <= k < j implies #[trigger] fps[k] != x by {
        assert(r[k].fingerprint == d[k].fingerprint);
    }
    assert(r[j].fingerprint == d[j].fingerprint);
    lemma_count_gap(fps, i + 1, j, x);
    if i >= 0 {
        assert(fps.take(i + 1).drop_last() =~= fps.take(i));
        assert(r[i].fingerprint == d[i].fingerprint);
        assert(fps[i] == x);
        lemma_count_of_bound(fps.take(i), x);
    } else {
        assert(fps.take(0) =~= seq![]);
    }
    lemma_count_of_bound(fps.take(j), x);
}

proof fn lemma_count_gap(list: Seq<Seq<char>>, i: int, j: int, x: Seq<char>)
    requires
        0 <= i <= j <= list.len(),
        forall|k: int| i <= k < j ==> #[trigger] list[k] != x,
    ensures
        count_of(list.take(j), x) == count_of(list.take(i), x),
    decreases j - i,
{
    if i < j {
        lemma_count_gap(list, i, j - 1, x);
        assert(list.take(j).drop_last() =~= list.take(j - 1));
        assert(list[j - 1] != x);
    }
}

/// Severities are named by their words, in any case for a threshold, where `warn` is short for a
/// warning and three words turn failing off; no other word is one.
pub proof fn lemma_threshold_words(word: Seq<char>, s: Severity)
    ensures
        threshold_of(severity_text(s)) == Some(Some(s)),
        threshold_of(text::ascii_lower(word)) == threshold_of(word),
        threshold_of(word) == Some(Some(s)) ==> text::ascii_lower(word) == severity_text(s) || s
            == Severity::Warning && text::ascii_lower(word) == "warn"@,
        text::ascii_lower(word) == "warn"@ ==> threshold_of(word) == Some(Some(Severity::Warning)),
        threshold_of(word) == Some(None::<Severity>) <==> text::ascii_lower(word) == "off"@
            || text::ascii_lower(word) == "none"@ || text::ascii_lower(word) == "never"@,
        severity_text(Severity::Error) == "error"@,
        severity_text(Severity::Warning) == "warning"@,
        severity_text(Severity::Info) == "info"@,
        severity_text(Severity::Note) == "note"@,
{
    reveal_strlit("error");
    reveal_strlit("warning");
    reveal_strlit("warn");
    reveal_strlit("info");
    reveal_strlit("note");
    reveal_strlit("off");
    reveal_strlit("none");
    reveal_strlit("never");
    let t = text::ascii_lower(word);
    assert(text::ascii_lower(t) =~= t);
    let u = severity_text(s);
    assert(text::ascii_lower(u) =~= u);
    assert("none"@[0] == 'n' && "note"@[2] == 't' && "none"@[2] == 'n');
    assert("error"@[0] == 'e' && "never"@[0] == 'n');
    assert("info"@[0] == 'i' && "warn"@[0] == 'w');
}

/// The words of severities and states: each severity has its own, a log has one level for what is
/// less than a warning, and the states have the words that a log has for them.
pub proof fn lemma_words_said(s: Severity, t: Severity, a: FindingState, b: FindingState)
    ensures
        severity_text(Severity::Error) == "error"@ && severity_text(Severity::Warning) == "warning"@,
        severity_text(Severity::Info) == "info"@ && severity_text(Severity::Note) == "note"@,
        severity_text(s) == severity_text(t) ==> s == t,
        level_text(s) == "error"@ <==> s == Severity::Error,
        level_text(s) == "warning"@ <==> s == Severity::Warning,
        level_text(s) == "note"@ <==> s == Severity::Info || s == Severity::Note,
        state_text(a) == "new"@ <==> a == FindingState::New,
        state_text(a) == "unchanged"@ <==> a == FindingState::Unchanged,
        state_text(a) == "updated"@ <==> a == FindingState::Updated,
        state_text(a) == "absent"@ <==> a == FindingState::Absent,
        state_text(a) == state_text(b) ==> a == b,
{
    reveal_strlit("error");
    reveal_strlit("warning");
    reveal_strlit("info");
    reveal_strlit("note");
    reveal_strlit("new");
    reveal_strlit("unchanged");
    reveal_strlit("updated");
    reveal_strlit("absent");
    assert("error"@.len() == 5 && "warning"@.len() == 7);
    assert("info"@[0] == 'i' && "note"@[0] == 'n');
    assert("new"@.len() == 3 && "unchanged"@.len() == 9 && "updated"@.len() == 7
        && "absent"@.len() == 6);
}

/// Severities from most to least severe.
pub proof fn lemma_severity_order()
    ensures
        severity_rank(Severity::Error) < severity_rank(Severity::Warning) < severity_rank(
            Severity::Info,
        ) < severity_rank(Severity::Note),
{
}

} // verus!
