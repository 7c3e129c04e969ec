//! Differential analysis: what changed between a baseline snapshot and the current finding
//! set.
//!
//! Correctness is defined at the level of findings, never lines:
//!
//! ```text
//! new = findings(HEAD) − findings(BASE)   // compared by (fingerprint, occurrence)
//! ```
//!
//! over the complete tree at each ref. Line information only annotates.

use vstd::prelude::*;
use vstd::hash_map::StringHashMap;

use crate::finding;
use crate::finding::{Finding, FindingState, NewCause};
use crate::fingerprint;
use crate::git;
use crate::git::DiffSpec;
use crate::path;
use crate::snapshot;
use crate::snapshot::{Snapshot, SnapshotFinding};
use crate::sort;
use crate::sort::PlaceKey;
use crate::text;

verus! {

/// What a report should include. The reported set is the union of the requested modes.
#[derive(Debug, Clone, Copy, PartialEq, Eq, Structural)]
pub enum DiffMode {
    /// Everything present at HEAD.
    All,
    /// Only findings introduced by this change.
    New,
    /// Only findings resolved by this change.
    Fixed,
    /// Only findings whose surrounding source was edited but which persist.
    Updated,
}

/// The mode that a word names, in any ASCII case.
pub open spec fn mode_of(s: Seq<char>) -> Option<DiffMode> {
    let t = text::ascii_lower(s);
    if t == "all"@ {
        Some(DiffMode::All)
    } else if t == "new"@ {
        Some(DiffMode::New)
    } else if t == "fixed"@ || t == "absent"@ {
        Some(DiffMode::Fixed)
    } else if t == "updated"@ {
        Some(DiffMode::Updated)
    } else {
        None
    }
}

/// Why a word names no mode.
pub open spec fn unknown_mode(s: Seq<char>) -> Seq<char> {
    "unknown diff mode '"@ + text::ascii_lower(s) + "' (expected all|new|fixed|updated)"@
}

/// Does a finding in the given state fall into the mode?
pub open spec fn admits(mode: DiffMode, state: FindingState) -> bool {
    match mode {
        DiffMode::All => state != FindingState::Absent,
        DiffMode::New => state == FindingState::New,
        DiffMode::Fixed => state == FindingState::Absent,
        DiffMode::Updated => state == FindingState::Updated,
    }
}

impl DiffMode {
    /// The mode that a word names, in any ASCII case.
    pub fn from_str(s: &str) -> (r: Result<Self, String>)
        ensures
            match r {
                Ok(m) => mode_of(s@) == Some(m),
                Err(e) => mode_of(s@) is None && e@ == unknown_mode(s@),
            },
    {
        let lower = text::to_ascii_lowercase(s);
        let t = lower.as_str();
        if text::same(t, "all") {
            Ok(DiffMode::All)
        } else if text::same(t, "new") {
            Ok(DiffMode::New)
        } else if text::same(t, "fixed") || text::same(t, "absent") {
            Ok(DiffMode::Fixed)
        } else if text::same(t, "updated") {
            Ok(DiffMode::Updated)
        } else {
            let mut e = "unknown diff mode '".to_owned();
            e.append(t);
            e.append("' (expected all|new|fixed|updated)");
            Err(e)
        }
    }

    /// Does a finding in the given state fall into this single mode?
    pub fn admits(self, state: FindingState) -> (r: bool)
        ensures
            r == admits(self, state),
    {
        match self {
            DiffMode::All => state.present_at_head(),
            DiffMode::New => state == FindingState::New,
            DiffMode::Fixed => state == FindingState::Absent,
            DiffMode::Updated => state == FindingState::Updated,
        }
    }
}

/// Tally of finding states, for summaries and gating.
#[derive(Debug, Clone, Copy, PartialEq, Eq, Structural)]
pub struct Counts {
    pub new: usize,
    pub unchanged: usize,
    pub updated: usize,
    pub fixed: usize,
}

/// The complete annotated finding set of a diff: every HEAD finding with its state, and the
/// findings of the baseline that are no longer there.
#[derive(Debug)]
pub struct DiffOutcome {
    /// All findings, each with its state, in deterministic order.
    pub annotated: Vec<Finding>,
}

// ---------------------------------------------------------------------------
// Identity keys
// ---------------------------------------------------------------------------

/// The last of the first `n` stored findings with the given identity, or -1.
pub open spec fn last_with(
    base: Seq<snapshot::StoredModel>,
    n: nat,
    fingerprint: Seq<char>,
    occurrence: usize,
) -> int
    decreases n,
{
    if n == 0 {
        -1
    } else if base[n - 1].fingerprint == fingerprint && base[n - 1].occurrence == occurrence {
        n - 1
    } else {
        last_with(base, (n - 1) as nat, fingerprint, occurrence)
    }
}

/// Does some stored finding have the given identity?
pub open spec fn has_stored(
    base: Seq<snapshot::StoredModel>,
    fingerprint: Seq<char>,
    occurrence: usize,
) -> bool {
    last_with(base, base.len(), fingerprint, occurrence) >= 0
}

/// Does some finding have the given identity?
pub open spec fn has_finding(
    head: Seq<finding::FindingModel>,
    fingerprint: Seq<char>,
    occurrence: usize,
) -> bool {
    exists|i: int|
        0 <= i < head.len() && (#[trigger] head[i]).fingerprint == fingerprint && head[i].occurrence
            == occurrence
}

/// One text for a fingerprint and an occurrence number.
pub open spec fn key_text(fingerprint: Seq<char>, occurrence: usize) -> Seq<char> {
    fingerprint + "#"@ + text::decimal(occurrence as nat)
}

pub(crate) fn key_of(fingerprint: &str, occurrence: usize) -> (r: String)
    ensures
        r@ == key_text(fingerprint@, occurrence),
{
    let mut out = fingerprint.to_owned();
    out.append("#");
    out.append(text::decimal_string(occurrence).as_str());
    out
}

/// Does the table lead from each identity to the last of the first `n` findings that has it?
spec fn indexes(
    table: Map<Seq<char>, usize>,
    base: Seq<snapshot::StoredModel>,
    n: nat,
) -> bool {
    forall|fp: Seq<char>, occ: usize|
        #![trigger last_with(base, n, fp, occ)]
        last_with(base, n, fp, occ) == if table.contains_key(key_text(fp, occ)) {
            table[key_text(fp, occ)] as int
        } else {
            -1
        }
}

proof fn lemma_last_with(
    base: Seq<snapshot::StoredModel>,
    n: nat,
    fingerprint: Seq<char>,
    occurrence: usize,
)
    requires
        n <= base.len(),
    ensures
        -1 <= last_with(base, n, fingerprint, occurrence) < n,
        last_with(base, n, fingerprint, occurrence) >= 0 ==> {
            let k = last_with(base, n, fingerprint, occurrence);
            base[k].fingerprint == fingerprint && base[k].occurrence == occurrence
        },
        forall|i: int|
            0 <= i < n && (#[trigger] base[i]).fingerprint == fingerprint && base[i].occurrence
                == occurrence ==> last_with(base, n, fingerprint, occurrence) >= i,
    decreases n,
{
    if n > 0 {
        lemma_last_with(base, (n - 1) as nat, fingerprint, occurrence);
    }
}

fn index_stored(base: &Vec<SnapshotFinding>) -> (r: StringHashMap<usize>)
    ensures
        indexes(r@, snapshot::stored_models(base@), base@.len()),
{
    let ghost ms = snapshot::stored_models(base@);
    let mut table: StringHashMap<usize> = StringHashMap::new();
    for i in 0..base.len()
        invariant
            ms == snapshot::stored_models(base@),
            indexes(table@, ms, i as nat),
    {
        let ghost before = table@;
        table.insert(key_of(base[i].fingerprint.as_str(), base[i].occurrence), i);
        proof {
            let here = key_text(ms[i as int].fingerprint, ms[i as int].occurrence);
            assert forall|fp: Seq<char>, occ: usize|
                #![trigger last_with(ms, (i + 1) as nat, fp, occ)]
                last_with(ms, (i + 1) as nat, fp, occ) == if table@.contains_key(
                    key_text(fp, occ),
                ) {
                    table@[key_text(fp, occ)] as int
                } else {
                    -1
                } by {
                assert(last_with(ms, i as nat, fp, occ) == if before.contains_key(
                    key_text(fp, occ),
                ) {
                    before[key_text(fp, occ)] as int
                } else {
                    -1
                });
                if key_text(fp, occ) == here {
                    text::lemma_tagged_text(
                        fp,
                        occ as nat,
                        ms[i as int].fingerprint,
                        ms[i as int].occurrence as nat,
                    );
                }
            }
        }
    }
    table
}

/// Does the table hold the identities of the first `n` findings, and no others?
spec fn marks(table: Map<Seq<char>, bool>, head: Seq<finding::FindingModel>, n: int) -> bool {
    forall|fp: Seq<char>, occ: usize| #[trigger]
        has_finding(head.take(n), fp, occ) == table.contains_key(key_text(fp, occ))
}

fn mark_findings(head: &Vec<Finding>) -> (r: StringHashMap<bool>)
    ensures
        forall|fp: Seq<char>, occ: usize| #[trigger]
            has_finding(finding::models(head@), fp, occ) == r@.contains_key(key_text(fp, occ)),
{
    let ghost ms = finding::models(head@);
    let mut table: StringHashMap<bool> = StringHashMap::new();
    for i in 0..head.len()
        invariant
            ms == finding::models(head@),
            marks(table@, ms, i as int),
    {
        let ghost before = table@;
        table.insert(key_of(head[i].fingerprint.as_str(), head[i].occurrence), true);
        proof {
            let f = ms[i as int];
            let here = key_text(f.fingerprint, f.occurrence);
            assert forall|fp: Seq<char>, occ: usize| #[trigger]
                has_finding(ms.take(i + 1), fp, occ) == table@.contains_key(key_text(fp, occ)) by {
                assert(has_finding(ms.take(i as int), fp, occ) == before.contains_key(
                    key_text(fp, occ),
                ));
                if key_text(fp, occ) == here {
                    text::lemma_tagged_text(fp, occ as nat, f.fingerprint, f.occurrence as nat);
                    assert(ms.take(i + 1)[i as int] == f);
                } else if has_finding(ms.take(i + 1), fp, occ) {
                    let k = choose|k: int|
                        0 <= k < i + 1 && (#[trigger] ms.take(i + 1)[k]).fingerprint == fp
                            && ms.take(i + 1)[k].occurrence == occ;
                    assert(k < i);
                    assert(ms.take(i as int)[k] == ms.take(i + 1)[k]);
                } else if has_finding(ms.take(i as int), fp, occ) {
                    let k = choose|k: int|
                        0 <= k < i && (#[trigger] ms.take(i as int)[k]).fingerprint == fp
                            && ms.take(i as int)[k].occurrence == occ;
                    assert(ms.take(i + 1)[k] == ms.take(i as int)[k]);
                }
            }
        }
    }
    assert(ms.take(ms.len() as int) =~= ms);
    table
}

// ---------------------------------------------------------------------------
// Differencing
// ---------------------------------------------------------------------------

/// The state of a finding against a baseline: it is new where no stored finding has its
/// identity, unchanged where the one that has it has its context too, and updated otherwise.
pub open spec fn state_against(
    f: finding::FindingModel,
    base: Seq<snapshot::StoredModel>,
) -> FindingState {
    let k = last_with(base, base.len(), f.fingerprint, f.occurrence);
    if k < 0 {
        FindingState::New
    } else if base[k].context_hash == f.context_hash {
        FindingState::Unchanged
    } else {
        FindingState::Updated
    }
}

/// The finding in the given state.
pub open spec fn with_state(f: finding::FindingModel, state: FindingState) -> finding::FindingModel {
    finding::FindingModel { state: Some(state), ..f }
}

/// The findings, each with its state against a baseline.
pub open spec fn classified(
    head: Seq<finding::FindingModel>,
    base: Seq<snapshot::StoredModel>,
) -> Seq<finding::FindingModel> {
    head.map_values(|f: finding::FindingModel| with_state(f, state_against(f, base)))
}

/// The stored findings whose identity no finding has, as absent findings.
pub open spec fn gone(
    base: Seq<snapshot::StoredModel>,
    head: Seq<finding::FindingModel>,
) -> Seq<finding::FindingModel>
    decreases base.len(),
{
    if base.len() == 0 {
        seq![]
    } else {
        let rest = gone(base.drop_last(), head);
        let b = base.last();
        if has_finding(head, b.fingerprint, b.occurrence) {
            rest
        } else {
            rest.push(with_state(snapshot::rebuilt(b), FindingState::Absent))
        }
    }
}

/// Where an annotated finding stands: its place, then its occurrence number.
pub open spec fn annotated_place(f: finding::FindingModel) -> sort::Place {
    sort::Place { occurrence: f.occurrence, ..finding::place(f) }
}

/// Where annotated findings stand.
pub open spec fn annotated_places(s: Seq<finding::FindingModel>) -> Seq<sort::Place> {
    s.map_values(|f: finding::FindingModel| annotated_place(f))
}

/// Annotated findings in deterministic order.
pub open spec fn in_order(s: Seq<finding::FindingModel>) -> Seq<finding::FindingModel> {
    sort::arranged(s, sort::stable_order(annotated_places(s)))
}

/// The annotated finding set of a diff.
pub open spec fn difference(
    head: Seq<finding::FindingModel>,
    base: Seq<snapshot::StoredModel>,
) -> Seq<finding::FindingModel> {
    in_order(classified(head, base) + gone(base, head))
}

/// Every finding as a new one.
pub open spec fn as_new(head: Seq<finding::FindingModel>) -> Seq<finding::FindingModel> {
    head.map_values(|f: finding::FindingModel| with_state(f, FindingState::New))
}

/// The finding with the reason why it is newly flagged: the code where it is new, the rule
/// set where it was there before but the old baseline did not know it.
pub open spec fn with_cause(
    f: finding::FindingModel,
    base_old: Seq<snapshot::StoredModel>,
) -> finding::FindingModel {
    match f.state {
        Some(FindingState::New) => finding::FindingModel { new_cause: Some(NewCause::Code), ..f },
        Some(FindingState::Unchanged) | Some(FindingState::Updated) => if has_stored(
            base_old,
            f.fingerprint,
            f.occurrence,
        ) {
            f
        } else {
            finding::FindingModel { new_cause: Some(NewCause::Ruleset), ..f }
        },
        _ => f,
    }
}

/// The annotated finding set of a partitioned diff.
pub open spec fn partitioned(
    head: Seq<finding::FindingModel>,
    base_old: Seq<snapshot::StoredModel>,
    base_now: Seq<snapshot::StoredModel>,
) -> Seq<finding::FindingModel> {
    difference(head, base_now).map_values(|f: finding::FindingModel| with_cause(f, base_old))
}

/// Is the finding in the code at HEAD? Only an absent one is not.
pub open spec fn at_head(f: finding::FindingModel) -> bool {
    f.state != Some(FindingState::Absent)
}

/// The finding with its relationship to the lines of a change, where it is at HEAD.
pub open spec fn with_relation(f: finding::FindingModel, diff: git::DiffModel) -> finding::FindingModel {
    if at_head(f) {
        finding::FindingModel {
            diff_relation: Some(
                git::related(
                    diff,
                    fingerprint::path_identity(f.file),
                    f.start.line,
                    f.end.line,
                ),
            ),
            ..f
        }
    } else {
        f
    }
}

/// The findings with their relationships to the lines of a change.
pub open spec fn attributed(s: Seq<finding::FindingModel>, diff: git::DiffModel) -> Seq<
    finding::FindingModel,
> {
    s.map_values(|f: finding::FindingModel| with_relation(f, diff))
}

/// How many findings are in the given state.
pub open spec fn count_state(s: Seq<finding::FindingModel>, state: FindingState) -> nat
    decreases s.len(),
{
    if s.len() == 0 {
        0
    } else {
        count_state(s.drop_last(), state) + if s.last().state == Some(state) {
            1nat
        } else {
            0nat
        }
    }
}

/// Does some requested mode admit the finding's state? A finding without one is always
/// admitted.
pub open spec fn admitted(f: finding::FindingModel, modes: Seq<DiffMode>) -> bool {
    match f.state {
        Some(state) => exists|i: int| 0 <= i < modes.len() && admits(#[trigger] modes[i], state),
        None => true,
    }
}

/// Is the finding reported under the modes? The mode for new findings also admits those that
/// a rules change surfaced.
pub open spec fn reportable(f: finding::FindingModel, modes: Seq<DiffMode>) -> bool {
    admitted(f, modes) || (f.new_cause == Some(NewCause::Ruleset) && modes.contains(DiffMode::New))
}

/// The findings reported under the modes.
pub open spec fn reported(s: Seq<finding::FindingModel>, modes: Seq<DiffMode>) -> Seq<
    finding::FindingModel,
> {
    s.filter(|f: finding::FindingModel| reportable(f, modes))
}

fn annotated_key(f: &Finding) -> (r: PlaceKey)
    ensures
        r@ == annotated_place(f@),
{
    PlaceKey {
        file: path::components(f.file.as_str()),
        start: f.start,
        end: f.end,
        rule_id: f.rule_id.clone(),
        occurrence: f.occurrence,
    }
}

/// Annotated findings in deterministic order. Absent findings carry positions from the
/// baseline, so one order serves all.
fn sort_annotated(findings: &Vec<Finding>) -> (r: Vec<Finding>)
    ensures
        finding::models(r@) == in_order(finding::models(findings@)),
{
    let ghost ms = finding::models(findings@);
    let mut keys: Vec<PlaceKey> = Vec::new();
    for i in 0..findings.len()
        invariant
            ms == finding::models(findings@),
            sort::places(keys@) == annotated_places(ms.take(i as int)),
    {
        let ghost before = sort::places(keys@);
        keys.push(annotated_key(&findings[i]));
        assert(sort::places(keys@) =~= before.push(annotated_place(ms[i as int])));
        assert(sort::places(keys@) =~= annotated_places(ms.take(i + 1)));
    }
    assert(ms.take(ms.len() as int) =~= ms);
    assert(keys@.len() == sort::places(keys@).len());
    let ord = sort::sorted_positions(&keys);
    let mut out: Vec<Finding> = Vec::new();
    for i in 0..ord.len()
        invariant
            ms == finding::models(findings@),
            forall|k: int| 0 <= k < ord@.len() ==> #[trigger] ord@[k] < findings@.len(),
            finding::models(out@) == sort::arranged(ms, sort::as_ints(ord@).take(i as int)),
    {
        let ghost before = finding::models(out@);
        out.push(findings[ord[i]].clone());
        assert(finding::models(out@) =~= before.push(ms[ord@[i as int] as int]));
        assert(finding::models(out@) =~= sort::arranged(ms, sort::as_ints(ord@).take(i + 1)));
    }
    assert(sort::as_ints(ord@).take(ord@.len() as int) =~= sort::as_ints(ord@));
    out
}

impl DiffOutcome {
    /// Diff a canonical HEAD finding set against a baseline: every HEAD finding is new,
    /// unchanged or updated, and stored findings that no HEAD finding matches are absent.
    pub fn diff(head: Vec<Finding>, baseline: &Snapshot) -> (r: Self)
        ensures
            finding::models(r.annotated@) == difference(
                finding::models(head@),
                baseline@.findings,
            ),
    {
        let ghost ms = finding::models(head@);
        let ghost base = baseline@.findings;
        let index = index_stored(&baseline.findings);
        let marked = mark_findings(&head);
        let mut all: Vec<Finding> = Vec::new();
        for i in 0..head.len()
            invariant
                ms == finding::models(head@),
                base == snapshot::stored_models(baseline.findings@),
                indexes(index@, base, base.len()),
                finding::models(all@) == classified(ms.take(i as int), base),
        {
            let ghost before = finding::models(all@);
            let mut f = head[i].clone();
            proof {
                lemma_last_with(base, base.len(), f.fingerprint@, f.occurrence);
            }
            let key = key_of(f.fingerprint.as_str(), f.occurrence);
            f.state = Some(
                match index.get(key.as_str()) {
                    Some(k) => {
                        assert(base[*k as int] == baseline.findings@[*k as int]@);
                        if text::same(
                            baseline.findings[*k].context_hash.as_str(),
                            f.context_hash.as_str(),
                        ) {
                            FindingState::Unchanged
                        } else {
                            FindingState::Updated
                        }
                    },
                    None => FindingState::New,
                },
            );
            all.push(f);
            assert(finding::models(all@) =~= before.push(
                with_state(ms[i as int], state_against(ms[i as int], base)),
            ));
            assert(finding::models(all@) =~= classified(ms.take(i + 1), base));
        }
        assert(ms.take(ms.len() as int) =~= ms);
        let ghost kept = classified(ms, base);
        assert(kept =~= kept + gone(base.take(0), ms));
        for i in 0..baseline.findings.len()
            invariant
                ms == finding::models(head@),
                base == snapshot::stored_models(baseline.findings@),
                forall|fp: Seq<char>, occ: usize| #[trigger]
                    has_finding(ms, fp, occ) == marked@.contains_key(key_text(fp, occ)),
                finding::models(all@) == kept + gone(base.take(i as int), ms),
        {
            let b = &baseline.findings[i];
            let ghost before = finding::models(all@);
            assert(base.take(i + 1).drop_last() =~= base.take(i as int));
            assert(base.take(i + 1).last() == b@);
            assert(has_finding(ms, b.fingerprint@, b.occurrence) == marked@.contains_key(
                key_text(b.fingerprint@, b.occurrence),
            ));
            let key = key_of(b.fingerprint.as_str(), b.occurrence);
            if !marked.contains_key(key.as_str()) {
                let mut fixed = b.to_finding();
                fixed.state = Some(FindingState::Absent);
                all.push(fixed);
                assert(finding::models(all@) =~= before.push(
                    with_state(snapshot::rebuilt(b@), FindingState::Absent),
                ));
            }
            assert(finding::models(all@) =~= kept + gone(base.take(i + 1), ms));
        }
        assert(base.take(base.len() as int) =~= base);
        DiffOutcome { annotated: sort_annotated(&all) }
    }

    /// Treat every HEAD finding as new, for the case that no baseline is available: report
    /// loudly rather than silently nothing.
    pub fn all_new(head: Vec<Finding>) -> (r: Self)
        ensures
            finding::models(r.annotated@) == in_order(as_new(finding::models(head@))),
    {
        let ghost ms = finding::models(head@);
        let mut all: Vec<Finding> = Vec::new();
        for i in 0..head.len()
            invariant
                ms == finding::models(head@),
                finding::models(all@) == as_new(ms.take(i as int)),
        {
            let ghost before = finding::models(all@);
            let mut f = head[i].clone();
            f.state = Some(FindingState::New);
            all.push(f);
            assert(finding::models(all@) =~= before.push(
                with_state(ms[i as int], FindingState::New),
            ));
            assert(finding::models(all@) =~= as_new(ms.take(i + 1)));
        }
        assert(ms.take(ms.len() as int) =~= ms);
        DiffOutcome { annotated: sort_annotated(&all) }
    }

    /// Partitioned diff, for a mismatch with the base source at hand: `base_now` is the base
    /// tree scanned with the current rules, `base_old` the supplied baseline.
    ///
    /// States are computed against `base_now`, so that new means new because the code
    /// changed. Findings that were there before but that `base_old` does not know were
    /// surfaced by a rules or engine change.
    pub fn diff_partitioned(head: Vec<Finding>, base_old: &Snapshot, base_now: &Snapshot) -> (r: Self)
        ensures
            finding::models(r.annotated@) == partitioned(
                finding::models(head@),
                base_old@.findings,
                base_now@.findings,
            ),
    {
        let ghost old_base = base_old@.findings;
        let outcome = Self::diff(head, base_now);
        let ghost ms = finding::models(outcome.annotated@);
        let known = index_stored(&base_old.findings);
        let mut all: Vec<Finding> = Vec::new();
        for i in 0..outcome.annotated.len()
            invariant
                ms == finding::models(outcome.annotated@),
                old_base == snapshot::stored_models(base_old.findings@),
                indexes(known@, old_base, old_base.len()),
                finding::models(all@) == ms.take(i as int).map_values(
                    |f: finding::FindingModel| with_cause(f, old_base),
                ),
        {
            let ghost before = finding::models(all@);
            let mut f = outcome.annotated[i].clone();
            proof {
                lemma_last_with(old_base, old_base.len(), f.fingerprint@, f.occurrence);
            }
            match f.state {
                Some(FindingState::New) => {
                    f.new_cause = Some(NewCause::Code);
                },
                Some(FindingState::Unchanged) | Some(FindingState::Updated) => {
                    let key = key_of(f.fingerprint.as_str(), f.occurrence);
                    if !known.contains_key(key.as_str()) {
                        f.new_cause = Some(NewCause::Ruleset);
                    }
                },
                _ => {},
            }
            all.push(f);
            assert(finding::models(all@) =~= before.push(with_cause(ms[i as int], old_base)));
            assert(finding::models(all@) =~= ms.take(i + 1).map_values(
                |f: finding::FindingModel| with_cause(f, old_base),
            ));
        }
        assert(ms.take(ms.len() as int) =~= ms);
        DiffOutcome { annotated: all }
    }

    /// Annotate every finding at HEAD with its relationship to the lines of a change. Never
    /// filters anything.
    pub fn attribute(&mut self, diff: &DiffSpec)
        ensures
            finding::models(final(self).annotated@) == attributed(
                finding::models(old(self).annotated@),
                diff@,
            ),
    {
        let ghost ms = finding::models(self.annotated@);
        let mut all: Vec<Finding> = Vec::new();
        for i in 0..self.annotated.len()
            invariant
                ms == finding::models(self.annotated@),
                finding::models(all@) == attributed(ms.take(i as int), diff@),
        {
            let ghost before = finding::models(all@);
            let mut f = self.annotated[i].clone();
            let present = match f.state {
                Some(s) => s.present_at_head(),
                None => true,
            };
            if present {
                let path = fingerprint::identity_path(f.file.as_str());
                f.diff_relation = Some(diff.relation(path.as_str(), f.start.line, f.end.line));
            }
            all.push(f);
            assert(finding::models(all@) =~= before.push(with_relation(ms[i as int], diff@)));
            assert(finding::models(all@) =~= attributed(ms.take(i + 1), diff@));
        }
        assert(ms.take(ms.len() as int) =~= ms);
        self.annotated = all;
    }

    /// How many findings are in each state.
    pub fn counts(&self) -> (r: Counts)
        ensures
            r.new == count_state(finding::models(self.annotated@), FindingState::New),
            r.unchanged == count_state(finding::models(self.annotated@), FindingState::Unchanged),
            r.updated == count_state(finding::models(self.annotated@), FindingState::Updated),
            r.fixed == count_state(finding::models(self.annotated@), FindingState::Absent),
    {
        let ghost ms = finding::models(self.annotated@);
        let mut c = Counts { new: 0, unchanged: 0, updated: 0, fixed: 0 };
        for i in 0..self.annotated.len()
            invariant
                ms == finding::models(self.annotated@),
                c.new == count_state(ms.take(i as int), FindingState::New),
                c.unchanged == count_state(ms.take(i as int), FindingState::Unchanged),
                c.updated == count_state(ms.take(i as int), FindingState::Updated),
                c.fixed == count_state(ms.take(i as int), FindingState::Absent),
                c.new <= i,
                c.unchanged <= i,
                c.updated <= i,
                c.fixed <= i,
        {
            assert(ms.take(i + 1).drop_last() =~= ms.take(i as int));
            assert(ms.take(i + 1).last() == self.annotated@[i as int]@);
            match self.annotated[i].state {
                Some(FindingState::New) => {
                    c.new = c.new + 1;
                },
                Some(FindingState::Unchanged) => {
                    c.unchanged = c.unchanged + 1;
                },
                Some(FindingState::Updated) => {
                    c.updated = c.updated + 1;
                },
                Some(FindingState::Absent) => {
                    c.fixed = c.fixed + 1;
                },
                None => {},
            }
        }
        assert(ms.take(ms.len() as int) =~= ms);
        c
    }

    /// The subset to report under the requested modes (their union). The mode for new
    /// findings also admits those that a rules change surfaced.
    pub fn reported(&self, modes: &[DiffMode]) -> (r: Vec<Finding>)
        ensures
            finding::models(r@) == reported(finding::models(self.annotated@), modes@),
    {
        reveal(Seq::filter);
        let ghost ms = finding::models(self.annotated@);
        let ghost keep = |f: finding::FindingModel| reportable(f, modes@);
        let mut out: Vec<Finding> = Vec::new();
        for i in 0..self.annotated.len()
            invariant
                ms == finding::models(self.annotated@),
                keep == (|f: finding::FindingModel| reportable(f, modes@)),
                finding::models(out@) == ms.take(i as int).filter(keep),
        {
            reveal(Seq::filter);
            let f = &self.annotated[i];
            assert(ms.take(i + 1).drop_last() =~= ms.take(i as int));
            assert(ms.take(i + 1).last() == f@);
            if is_reportable(f, modes) {
                let ghost before = finding::models(out@);
                out.push(f.clone());
                assert(finding::models(out@) =~= before.push(f@));
            }
        }
        assert(ms.take(ms.len() as int) =~= ms);
        out
    }
}

/// Does some requested mode admit the finding's state?
pub fn is_admitted(f: &Finding, modes: &[DiffMode]) -> (r: bool)
    ensures
        r == admitted(f@, modes@),
{
    match f.state {
        None => true,
        Some(state) => {
            for i in 0..modes.len()
                invariant
                    f.state == Some(state),
                    forall|k: int| 0 <= k < i ==> !admits(#[trigger] modes@[k], state),
            {
                if modes[i].admits(state) {
                    assert(admits(modes@[i as int], state));
                    return true;
                }
            }
            false
        },
    }
}

fn wants_new(modes: &[DiffMode]) -> (r: bool)
    ensures
        r == modes@.contains(DiffMode::New),
{
    for i in 0..modes.len()
        invariant
            forall|k: int| 0 <= k < i ==> modes@[k] != DiffMode::New,
    {
        if modes[i] == DiffMode::New {
            assert(modes@[i as int] == DiffMode::New);
            return true;
        }
    }
    false
}

fn is_reportable(f: &Finding, modes: &[DiffMode]) -> (r: bool)
    ensures
        r == reportable(f@, modes@),
{
    is_admitted(f, modes) || (f.new_cause == Some(NewCause::Ruleset) && wants_new(modes))
}

// ---------------------------------------------------------------------------
// What differencing keeps
// ---------------------------------------------------------------------------

/// What decides a state: a finding is new exactly when no stored finding has its identity,
/// and findings that agree in identity and context have one state, wherever they stand.
pub proof fn lemma_state_by_identity(
    f: finding::FindingModel,
    g: finding::FindingModel,
    base: Seq<snapshot::StoredModel>,
)
    ensures
        state_against(f, base) == FindingState::New <==> !exists|k: int|
            0 <= k < base.len() && (#[trigger] base[k]).fingerprint == f.fingerprint
                && base[k].occurrence == f.occurrence,
        state_against(f, base) != FindingState::Absent,
        f.fingerprint == g.fingerprint && f.occurrence == g.occurrence && f.context_hash
            == g.context_hash ==> state_against(f, base) == state_against(g, base),
{
    lemma_last_with(base, base.len(), f.fingerprint, f.occurrence);
    let k = last_with(base, base.len(), f.fingerprint, f.occurrence);
    if k >= 0 {
        assert(base[k].fingerprint == f.fingerprint && base[k].occurrence == f.occurrence);
    }
}

/// A diff loses nothing and invents nothing: it holds every HEAD finding once with its state,
/// and every stored finding that none of them matches once as absent.
pub proof fn lemma_difference_complete(
    head: Seq<finding::FindingModel>,
    base: Seq<snapshot::StoredModel>,
)
    ensures
        difference(head, base).to_multiset() == (classified(head, base) + gone(
            base,
            head,
        )).to_multiset(),
        difference(head, base).len() == head.len() + gone(base, head).len(),
{
    let all = classified(head, base) + gone(base, head);
    sort::lemma_arranged_same_items(all, annotated_places(all));
}

proof fn lemma_gone_items(
    base: Seq<snapshot::StoredModel>,
    head: Seq<finding::FindingModel>,
)
    ensures
        gone(base, head).len() <= base.len(),
        forall|i: int|
            0 <= i < gone(base, head).len() ==> {
                &&& (#[trigger] gone(base, head)[i]).state == Some(FindingState::Absent)
                &&& !has_finding(head, gone(base, head)[i].fingerprint, gone(base, head)[i].occurrence)
            },
        forall|k: int|
            0 <= k < base.len() && !has_finding(
                head,
                (#[trigger] base[k]).fingerprint,
                base[k].occurrence,
            ) ==> gone(base, head).contains(
                with_state(snapshot::rebuilt(base[k]), FindingState::Absent),
            ),
    decreases base.len(),
{
    if base.len() > 0 {
        let init = base.drop_last();
        lemma_gone_items(init, head);
        let before = gone(init, head);
        let r = gone(base, head);
        assert forall|i: int| 0 <= i < r.len() implies {
            &&& (#[trigger] r[i]).state == Some(FindingState::Absent)
            &&& !has_finding(head, r[i].fingerprint, r[i].occurrence)
        } by {
            if i < before.len() {
                assert(before[i] == r[i]);
            }
        }
        assert forall|k: int|
            0 <= k < base.len() && !has_finding(
                head,
                (#[trigger] base[k]).fingerprint,
                base[k].occurrence,
            ) implies r.contains(
            with_state(snapshot::rebuilt(base[k]), FindingState::Absent),
        ) by {
            let x = with_state(snapshot::rebuilt(base[k]), FindingState::Absent);
            if k < init.len() {
                assert(init[k] == base[k]);
                assert(before.contains(x));
                let i = choose|i: int| 0 <= i < before.len() && before[i] == x;
                assert(r[i] == x);
            } else {
                assert(r[r.len() - 1] == x);
            }
        }
    }
}

/// A finding is absent in a diff exactly when it stands for a stored finding whose identity
/// no HEAD finding has; every other finding of the diff is at HEAD.
pub proof fn lemma_difference_states(
    head: Seq<finding::FindingModel>,
    base: Seq<snapshot::StoredModel>,
)
    ensures
        forall|i: int|
            0 <= i < difference(head, base).len() ==> (#[trigger] difference(
                head,
                base,
            )[i]).state is Some,
        forall|i: int|
            0 <= i < difference(head, base).len() && (#[trigger] difference(head, base)[i]).state
                == Some(FindingState::Absent) ==> !has_finding(
                head,
                difference(head, base)[i].fingerprint,
                difference(head, base)[i].occurrence,
            ),
        forall|k: int|
            0 <= k < base.len() && !has_finding(
                head,
                (#[trigger] base[k]).fingerprint,
                base[k].occurrence,
            ) ==> difference(head, base).contains(
                with_state(snapshot::rebuilt(base[k]), FindingState::Absent),
            ),
        forall|k: int|
            0 <= k < head.len() ==> difference(head, base).contains(
                with_state(#[trigger] head[k], state_against(head[k], base)),
            ),
{
    let kept = classified(head, base);
    let lost = gone(base, head);
    let all = kept + lost;
    let d = difference(head, base);
    lemma_gone_items(base, head);
    lemma_difference_complete(head, base);
    broadcast use vstd::seq_lib::group_to_multiset_ensures;

    assert forall|x: finding::FindingModel| d.contains(x) <==> all.contains(x) by {
        assert(d.to_multiset().count(x) == all.to_multiset().count(x));
    }
    assert forall|i: int| 0 <= i < d.len() implies {
        &&& (#[trigger] d[i]).state is Some
        &&& d[i].state == Some(FindingState::Absent) ==> !has_finding(
            head,
            d[i].fingerprint,
            d[i].occurrence,
        )
    } by {
        assert(d.contains(d[i]));
        let k = choose|k: int| 0 <= k < all.len() && all[k] == d[i];
        if k < kept.len() {
            assert(all[k] == kept[k]);
            lemma_state_by_identity(head[k], head[k], base);
        } else {
            assert(all[k] == lost[k - kept.len()]);
        }
    }
    assert forall|k: int|
        0 <= k < base.len() && !has_finding(
            head,
            (#[trigger] base[k]).fingerprint,
            base[k].occurrence,
        ) implies d.contains(with_state(snapshot::rebuilt(base[k]), FindingState::Absent)) by {
        let x = with_state(snapshot::rebuilt(base[k]), FindingState::Absent);
        let i = choose|i: int| 0 <= i < lost.len() && lost[i] == x;
        assert(all[kept.len() + i] == x);
    }
    assert forall|k: int| 0 <= k < head.len() implies d.contains(
        with_state(#[trigger] head[k], state_against(head[k], base)),
    ) by {
        assert(all[k] == kept[k]);
    }
}

/// A finding set diffed against its own snapshot: nothing is new, updated or gone.
pub proof fn lemma_self_diff(head: Seq<finding::FindingModel>)
    requires
        finding::uniquely_identified(head),
    ensures
        gone(snapshot::stored_all(head), head).len() == 0,
        forall|i: int|
            0 <= i < head.len() ==> state_against(#[trigger] head[i], snapshot::stored_all(head))
                == FindingState::Unchanged,
        difference(head, snapshot::stored_all(head)).len() == head.len(),
{
    let base = snapshot::stored_all(head);
    lemma_gone_items(base, head);
    lemma_nothing_gone(base, head);
    assert forall|i: int| 0 <= i < head.len() implies state_against(#[trigger] head[i], base)
        == FindingState::Unchanged by {
        lemma_last_with(base, base.len(), head[i].fingerprint, head[i].occurrence);
        let k = last_with(base, base.len(), head[i].fingerprint, head[i].occurrence);
        assert(base[i] == snapshot::stored(head[i]));
        assert(base[k] == snapshot::stored(head[k]));
        if k != i {
            assert(head[k].fingerprint == head[i].fingerprint);
        }
    }
    lemma_difference_complete(head, base);
}

proof fn lemma_nothing_gone(base: Seq<snapshot::StoredModel>, head: Seq<finding::FindingModel>)
    requires
        forall|k: int|
            0 <= k < base.len() ==> has_finding(
                head,
                (#[trigger] base[k]).fingerprint,
                base[k].occurrence,
            ) || exists|i: int| 0 <= i < head.len() && #[trigger] snapshot::stored(head[i]) == base[k],
    ensures
        gone(base, head).len() == 0,
    decreases base.len(),
{
    if base.len() > 0 {
        let init = base.drop_last();
        assert forall|k: int| 0 <= k < init.len() implies has_finding(
            head,
            (#[trigger] init[k]).fingerprint,
            init[k].occurrence,
        ) || exists|i: int| 0 <= i < head.len() && #[trigger] snapshot::stored(head[i])
            == init[k] by {
            assert(init[k] == base[k]);
        }
        lemma_nothing_gone(init, head);
        let b = base[base.len() - 1];
        if !has_finding(head, b.fingerprint, b.occurrence) {
            let i = choose|i: int| 0 <= i < head.len() && #[trigger] snapshot::stored(head[i]) == b;
            assert(head[i].fingerprint == b.fingerprint && head[i].occurrence == b.occurrence);
        }
    }
}

proof fn lemma_count_state_multiset(
    a: Seq<finding::FindingModel>,
    b: Seq<finding::FindingModel>,
    state: FindingState,
)
    requires
        a.to_multiset() == b.to_multiset(),
    ensures
        count_state(a, state) == count_state(b, state),
    decreases a.len(),
{
    broadcast use vstd::seq_lib::group_to_multiset_ensures;

    if a.len() == 0 {
        assert(b.len() == b.to_multiset().len());
        assert(a.len() == a.to_multiset().len());
    } else {
        let x = a.last();
        let init = a.drop_last();
        assert(a.contains(x)) by {
            assert(a[a.len() - 1] == x);
        }
        assert(b.to_multiset().count(x) > 0);
        let k = choose|k: int| 0 <= k < b.len() && b[k] == x;
        let rest = b.remove(k);
        vstd::seq_lib::to_multiset_remove(a, a.len() - 1);
        vstd::seq_lib::to_multiset_remove(b, k);
        assert(a.remove(a.len() - 1) =~= init);
        assert(init.to_multiset() =~= rest.to_multiset());
        lemma_count_state_multiset(init, rest, state);
        lemma_count_state_remove(b, k, state);
    }
}

proof fn lemma_count_state_remove(s: Seq<finding::FindingModel>, k: int, state: FindingState)
    requires
        0 <= k < s.len(),
    ensures
        count_state(s, state) == count_state(s.remove(k), state) + if s[k].state == Some(state) {
            1nat
        } else {
            0nat
        },
    decreases s.len(),
{
    if k == s.len() - 1 {
        assert(s.remove(k) =~= s.drop_last());
    } else {
        lemma_count_state_remove(s.drop_last(), k, state);
        assert(s.remove(k).drop_last() =~= s.drop_last().remove(k));
        assert(s.remove(k).last() == s.last());
    }
}

proof fn lemma_count_state_sum(s: Seq<finding::FindingModel>)
    requires
        forall|i: int| 0 <= i < s.len() ==> (#[trigger] s[i]).state is Some,
    ensures
        count_state(s, FindingState::New) + count_state(s, FindingState::Unchanged) + count_state(
            s,
            FindingState::Updated,
        ) + count_state(s, FindingState::Absent) == s.len(),
    decreases s.len(),
{
    if s.len() > 0 {
        let init = s.drop_last();
        assert forall|i: int| 0 <= i < init.len() implies (#[trigger] init[i]).state is Some by {
            assert(init[i] == s[i]);
        }
        lemma_count_state_sum(init);
        match s[s.len() - 1].state->Some_0 {
            FindingState::New => {},
            FindingState::Unchanged => {},
            FindingState::Updated => {},
            FindingState::Absent => {},
        }
    }
}

proof fn lemma_count_state_none(s: Seq<finding::FindingModel>, state: FindingState)
    requires
        forall|i: int| 0 <= i < s.len() ==> (#[trigger] s[i]).state != Some(state),
    ensures
        count_state(s, state) == 0,
    decreases s.len(),
{
    if s.len() > 0 {
        let init = s.drop_last();
        assert forall|i: int| 0 <= i < init.len() implies (#[trigger] init[i]).state
            != Some(state) by {
            assert(init[i] == s[i]);
        }
        lemma_count_state_none(init, state);
        assert(s[s.len() - 1].state != Some(state));
    }
}

proof fn lemma_count_state_split(
    a: Seq<finding::FindingModel>,
    b: Seq<finding::FindingModel>,
    state: FindingState,
)
    ensures
        count_state(a + b, state) == count_state(a, state) + count_state(b, state),
    decreases b.len(),
{
    if b.len() == 0 {
        assert(a + b =~= a);
    } else {
        lemma_count_state_split(a, b.drop_last(), state);
        assert((a + b).drop_last() =~= a + b.drop_last());
        assert((a + b).last() == b.last());
    }
}

/// The counts of a diff add up: new, unchanged and updated findings are the HEAD findings,
/// and the fixed ones are the stored findings that none of them matches.
pub proof fn lemma_difference_counts(
    head: Seq<finding::FindingModel>,
    base: Seq<snapshot::StoredModel>,
)
    ensures
        count_state(difference(head, base), FindingState::New) + count_state(
            difference(head, base),
            FindingState::Unchanged,
        ) + count_state(difference(head, base), FindingState::Updated) == head.len(),
        count_state(difference(head, base), FindingState::Absent) == gone(base, head).len(),
{
    let kept = classified(head, base);
    let lost = gone(base, head);
    let d = difference(head, base);
    lemma_difference_complete(head, base);
    lemma_difference_states(head, base);
    lemma_gone_items(base, head);
    lemma_count_state_multiset(d, kept + lost, FindingState::Absent);
    lemma_count_state_split(kept, lost, FindingState::Absent);
    assert forall|i: int| 0 <= i < kept.len() implies (#[trigger] kept[i]).state
        != Some(FindingState::Absent) by {
        lemma_state_by_identity(head[i], head[i], base);
    }
    lemma_count_state_none(kept, FindingState::Absent);
    lemma_count_state_sum(lost);
    assert forall|i: int| 0 <= i < lost.len() implies (#[trigger] lost[i]).state
        != Some(FindingState::New) && lost[i].state != Some(FindingState::Unchanged)
        && lost[i].state != Some(FindingState::Updated) by {}
    lemma_count_state_none(lost, FindingState::New);
    lemma_count_state_none(lost, FindingState::Unchanged);
    lemma_count_state_none(lost, FindingState::Updated);
    lemma_count_state_sum(d);
}

/// A partitioned diff has the states of the diff against the rescanned base, and a finding
/// that it lays at the door of the rule set is never new.
pub proof fn lemma_partition(
    head: Seq<finding::FindingModel>,
    base_old: Seq<snapshot::StoredModel>,
    base_now: Seq<snapshot::StoredModel>,
)
    requires
        forall|i: int| 0 <= i < head.len() ==> (#[trigger] head[i]).new_cause is None,
    ensures
        partitioned(head, base_old, base_now).len() == difference(head, base_now).len(),
        forall|i: int|
            #![trigger partitioned(head, base_old, base_now)[i]]
            0 <= i < difference(head, base_now).len() ==> {
                let f = partitioned(head, base_old, base_now)[i];
                &&& f.state == difference(head, base_now)[i].state
                &&& f.new_cause == Some(NewCause::Code) <==> f.state == Some(FindingState::New)
                &&& f.new_cause == Some(NewCause::Ruleset) ==> f.state != Some(FindingState::New)
                    && at_head(f) && !has_stored(base_old, f.fingerprint, f.occurrence)
            },
{
    let d = difference(head, base_now);
    let kept = classified(head, base_now);
    let lost = gone(base_now, head);
    let all = kept + lost;
    lemma_difference_complete(head, base_now);
    lemma_difference_states(head, base_now);
    broadcast use vstd::seq_lib::group_to_multiset_ensures;

    lemma_gone_causes(base_now, head);
    assert forall|i: int| 0 <= i < d.len() implies (#[trigger] d[i]).new_cause is None by {
        assert(d.contains(d[i]));
        assert(d.to_multiset().count(d[i]) > 0);
        let k = choose|k: int| 0 <= k < all.len() && all[k] == d[i];
        if k < kept.len() {
            assert(all[k] == kept[k]);
            assert(head[k].new_cause is None);
        } else {
            assert(all[k] == lost[k - kept.len()]);
        }
    }
    assert forall|i: int|
        #![trigger partitioned(head, base_old, base_now)[i]]
        0 <= i < d.len() implies {
        let f = partitioned(head, base_old, base_now)[i];
        &&& f.state == d[i].state
        &&& f.new_cause == Some(NewCause::Code) <==> f.state == Some(FindingState::New)
        &&& f.new_cause == Some(NewCause::Ruleset) ==> f.state != Some(FindingState::New) && at_head(
            f,
        ) && !has_stored(base_old, f.fingerprint, f.occurrence)
    } by {
        assert(d[i].new_cause is None);
        assert(d[i].state is Some);
    }
}

proof fn lemma_gone_causes(base: Seq<snapshot::StoredModel>, head: Seq<finding::FindingModel>)
    ensures
        forall|i: int|
            0 <= i < gone(base, head).len() ==> (#[trigger] gone(base, head)[i]).new_cause is None,
    decreases base.len(),
{
    if base.len() > 0 {
        lemma_gone_causes(base.drop_last(), head);
        let before = gone(base.drop_last(), head);
        assert forall|i: int| 0 <= i < gone(base, head).len() implies (#[trigger] gone(
            base,
            head,
        )[i]).new_cause is None by {
            if i < before.len() {
                assert(gone(base, head)[i] == before[i]);
            }
        }
    }
}

/// Attribution annotates and never filters: nothing but the relation changes.
pub proof fn lemma_attribution_only_annotates(s: Seq<finding::FindingModel>, diff: git::DiffModel)
    ensures
        attributed(s, diff).len() == s.len(),
        forall|i: int|
            #![trigger attributed(s, diff)[i]]
            0 <= i < s.len() ==> attributed(s, diff)[i] == (finding::FindingModel {
                diff_relation: attributed(s, diff)[i].diff_relation,
                ..s[i]
            }),
{
}
/// Attribution never filters: what is reported with it is what is reported without it.
pub proof fn lemma_attribution_never_filters(
    s: Seq<finding::FindingModel>,
    d: git::DiffModel,
    modes: Seq<DiffMode>,
)
    ensures
        reported(attributed(s, d), modes) == attributed(reported(s, modes), d),
    decreases s.len(),
{
    reveal(Seq::filter);
    let keep = |f: finding::FindingModel| reportable(f, modes);
    let all = attributed(s, d);
    if s.len() == 0 {
        assert(all.filter(keep) =~= attributed(s.filter(keep), d));
    } else {
        let init = s.drop_last();
        lemma_attribution_never_filters(init, d, modes);
        assert(all.drop_last() =~= attributed(init, d));
        assert(all.last() == with_relation(s.last(), d));
        assert(reportable(all.last(), modes) == reportable(s.last(), modes));
        if reportable(s.last(), modes) {
            assert(all.filter(keep) == attributed(init, d).filter(keep).push(all.last()));
            assert(s.filter(keep) == init.filter(keep).push(s.last()));
            assert(attributed(init.filter(keep).push(s.last()), d) =~= attributed(
                init.filter(keep),
                d,
            ).push(with_relation(s.last(), d)));
        } else {
            assert(all.filter(keep) == attributed(init, d).filter(keep));
            assert(s.filter(keep) == init.filter(keep));
        }
    }
}
proof fn lemma_states_against_arranged(
    head: Seq<finding::FindingModel>,
    base: Seq<snapshot::StoredModel>,
    w: Seq<int>,
)
    requires
        finding::uniquely_identified(head),
        base.len() == head.len(),
        sort::is_permutation(w, head.len()),
        forall|i: int|
            0 <= i < head.len() ==> base[#[trigger] w[i]] == snapshot::stored(head[i]),
    ensures
        gone(base, head).len() == 0,
        forall|i: int|
            0 <= i < head.len() ==> state_against(#[trigger] head[i], base)
                == FindingState::Unchanged,
{
    assert forall|k: int| #![trigger base[k]] 0 <= k < base.len() implies exists|i: int|
        0 <= i < head.len() && #[trigger] snapshot::stored(head[i]) == base[k] by {
        sort::lemma_permutation_covers(w, head.len(), k);
        let i = w.index_of(k);
        assert(w[i] == k);
        assert(base[w[i]] == snapshot::stored(head[i]));
    }
    lemma_gone_items(base, head);
    lemma_nothing_gone(base, head);
    assert forall|i: int| 0 <= i < head.len() implies state_against(#[trigger] head[i], base)
        == FindingState::Unchanged by {
        lemma_last_with(base, base.len(), head[i].fingerprint, head[i].occurrence);
        let k = last_with(base, base.len(), head[i].fingerprint, head[i].occurrence);
        assert(base[w[i]] == snapshot::stored(head[i]));
        let m = choose|m: int|
            0 <= m < head.len() && #[trigger] snapshot::stored(head[m]) == base[k];
        if m != i {
            assert(head[m].fingerprint == head[i].fingerprint);
        }
    }
}

proof fn lemma_difference_unchanged(
    head: Seq<finding::FindingModel>,
    base: Seq<snapshot::StoredModel>,
)
    requires
        gone(base, head).len() == 0,
        forall|i: int|
            0 <= i < head.len() ==> state_against(#[trigger] head[i], base)
                == FindingState::Unchanged,
    ensures
        difference(head, base).len() == head.len(),
        forall|i: int|
            0 <= i < head.len() ==> (#[trigger] difference(head, base)[i]).state == Some(
                FindingState::Unchanged,
            ),
{
    lemma_difference_complete(head, base);
    let all = classified(head, base) + gone(base, head);
    let keys = annotated_places(all);
    let ord = sort::stable_order(keys);
    sort::lemma_stable_order(keys);
    let d = difference(head, base);
    assert forall|i: int| 0 <= i < d.len() implies (#[trigger] d[i]).state == Some(
        FindingState::Unchanged,
    ) by {
        assert(d[i] == all[ord[i]]);
        assert(all[ord[i]] == classified(head, base)[ord[i]]);
        assert(state_against(head[ord[i]], base) == FindingState::Unchanged);
    }
}

/// Renames alone change nothing: a baseline that follows them, diffed with the findings of a
/// tree in which nothing else changed, leaves every finding unchanged, and none new or gone.
/// Files that come to share a path are to hold their findings at different places.
pub proof fn lemma_renames_read_unchanged(
    renames: Seq<(Seq<char>, Seq<char>)>,
    s: Seq<finding::FindingModel>,
)
    requires
        s.len() <= usize::MAX,
        finding::distinct_places(s),
        finding::distinct_places(snapshot::all_after_renames(renames, s)),
        snapshot::renamable(renames, s),
    ensures
        ({
            let base = snapshot::stored_all(finding::finalized(s));
            let head = finding::finalized(snapshot::all_after_renames(renames, s));
            let d = difference(head, snapshot::remapped(renames, base));
            &&& d.len() == s.len()
            &&& forall|i: int|
                0 <= i < d.len() ==> (#[trigger] d[i]).state == Some(FindingState::Unchanged)
        }),
{
    let base = snapshot::remapped(renames, snapshot::stored_all(finding::finalized(s)));
    let head = finding::finalized(snapshot::all_after_renames(renames, s));
    let w = snapshot::lemma_remap_as_if_fresh(renames, s);
    finding::lemma_finalized(snapshot::all_after_renames(renames, s));
    lemma_states_against_arranged(head, base, w);
    lemma_difference_unchanged(head, base);
}

// ---------------------------------------------------------------------------
// What a diff says of every finding
// ---------------------------------------------------------------------------

/// Do a finding and a stored finding have one identity?
pub open spec fn same_identity(f: finding::FindingModel, b: snapshot::StoredModel) -> bool {
    f.fingerprint == b.fingerprint && f.occurrence == b.occurrence
}

/// Does no other stored finding have the identity of one?
pub open spec fn stored_apart(base: Seq<snapshot::StoredModel>) -> bool {
    forall|i: int, j: int|
        #![trigger base[i], base[j]]
        0 <= i < j < base.len() ==> base[i].fingerprint != base[j].fingerprint
            || base[i].occurrence != base[j].occurrence
}

/// A finding is new where no stored finding has its identity; where one has it, the finding is
/// unchanged if their contexts agree, and updated if they do not.
pub proof fn lemma_state_told(
    f: finding::FindingModel,
    base: Seq<snapshot::StoredModel>,
    k: int,
)
    requires
        stored_apart(base),
    ensures
        (forall|j: int| 0 <= j < base.len() ==> !same_identity(f, #[trigger] base[j]))
            ==> state_against(f, base) == FindingState::New,
        0 <= k < base.len() && same_identity(f, base[k]) ==> state_against(f, base) == (if f.context_hash
            == base[k].context_hash {
            FindingState::Unchanged
        } else {
            FindingState::Updated
        }),
{
    lemma_last_with(base, base.len(), f.fingerprint, f.occurrence);
    let m = last_with(base, base.len(), f.fingerprint, f.occurrence);
    if m >= 0 {
        assert(same_identity(f, base[m]));
        if 0 <= k < base.len() && same_identity(f, base[k]) && k != m {
            assert(base[k].fingerprint == base[m].fingerprint);
        }
    }
}

/// Does some finding have the identity of a stored one?
pub open spec fn still_found(head: Seq<finding::FindingModel>, b: snapshot::StoredModel) -> bool {
    exists|i: int| 0 <= i < head.len() && same_identity(#[trigger] head[i], b)
}

proof fn lemma_still_found(head: Seq<finding::FindingModel>, b: snapshot::StoredModel)
    ensures
        still_found(head, b) <==> has_finding(head, b.fingerprint, b.occurrence),
{
    if still_found(head, b) {
        let i = choose|i: int| 0 <= i < head.len() && same_identity(#[trigger] head[i], b);
        assert(head[i].fingerprint == b.fingerprint && head[i].occurrence == b.occurrence);
    }
    if has_finding(head, b.fingerprint, b.occurrence) {
        let i = choose|i: int|
            0 <= i < head.len() && (#[trigger] head[i]).fingerprint == b.fingerprint
                && head[i].occurrence == b.occurrence;
        assert(same_identity(head[i], b));
    }
}

proof fn lemma_gone_listed(
    base: Seq<snapshot::StoredModel>,
    head: Seq<finding::FindingModel>,
) -> (w: Seq<int>)
    ensures
        w.len() == gone(base, head).len(),
        forall|i: int, j: int| #![trigger w[i], w[j]] 0 <= i < j < w.len() ==> w[i] < w[j],
        forall|k: int|
            0 <= k < base.len() && !still_found(head, #[trigger] base[k]) <==> w.contains(k),
        forall|i: int|
            0 <= i < w.len() ==> gone(base, head)[i] == with_state(
                snapshot::rebuilt(base[#[trigger] w[i]]),
                FindingState::Absent,
            ),
    decreases base.len(),
{
    if base.len() == 0 {
        seq![]
    } else {
        let init = base.drop_last();
        let m = init.len() as int;
        let v = lemma_gone_listed(init, head);
        lemma_still_found(head, base.last());
        assert forall|i: int| 0 <= i < v.len() implies 0 <= #[trigger] v[i] < m && base[v[i]]
            == init[v[i]] by {
            assert(v.contains(v[i]));
        }
        if still_found(head, base.last()) {
            assert forall|k: int|
                0 <= k < base.len() && !still_found(head, #[trigger] base[k])
                    <==> v.contains(k) by {
                if 0 <= k < m {
                    assert(init[k] == base[k]);
                }
                if v.contains(k) {
                    let i = choose|i: int| 0 <= i < v.len() && v[i] == k;
                    assert(0 <= v[i] < m);
                }
            }
            v
        } else {
            let w = v.push(m);
            assert forall|k: int|
                0 <= k < base.len() && !still_found(head, #[trigger] base[k])
                    <==> w.contains(k) by {
                if 0 <= k < m {
                    assert(init[k] == base[k]);
                }
                if v.contains(k) {
                    let i = choose|i: int| 0 <= i < v.len() && v[i] == k;
                    assert(w[i] == k);
                }
                if w.contains(k) && k != m {
                    let i = choose|i: int| 0 <= i < w.len() && w[i] == k;
                    assert(v[i] == k);
                    assert(v.contains(k));
                }
                assert(w[m - m + v.len()] == m);
            }
            assert forall|i: int| 0 <= i < w.len() implies gone(base, head)[i] == with_state(
                snapshot::rebuilt(base[#[trigger] w[i]]),
                FindingState::Absent,
            ) by {
                if i < v.len() {
                    assert(w[i] == v[i]);
                }
            }
            w
        }
    }
}

/// A diff accounts for every finding: it holds each HEAD finding once, changed in nothing but its
/// state, and each stored finding whose identity none of them has once, as absent; and it holds
/// them by file, start, end, rule and occurrence. The result says for each finding of the diff
/// whether it is at HEAD, and which finding there or in the baseline it is.
pub proof fn lemma_diff_accounts(
    head: Seq<finding::FindingModel>,
    base: Seq<snapshot::StoredModel>,
) -> (w: Seq<(bool, int)>)
    ensures
        ({
            let d = difference(head, base);
            &&& w.len() == d.len()
            &&& w.no_duplicates()
            &&& forall|k: int| 0 <= k < head.len() <==> #[trigger] w.contains((true, k))
            &&& forall|k: int|
                0 <= k < base.len() && !still_found(head, #[trigger] base[k]) <==> w.contains(
                    (false, k),
                )
            &&& forall|i: int|
                0 <= i < w.len() ==> {
                    let (present, k) = #[trigger] w[i];
                    &&& present ==> d[i].state is Some && d[i].state != Some(FindingState::Absent)
                        && d[i].state == Some(state_against(head[k], base)) && d[i] == (
                    finding::FindingModel { state: d[i].state, ..head[k] })
                    &&& !present ==> d[i].state == Some(FindingState::Absent) && snapshot::stored(
                        d[i],
                    ) == base[k]
                }
            &&& forall|i: int, j: int|
                #![trigger d[i], d[j]]
                0 <= i < j < d.len() ==> sort::compare_place(
                    annotated_place(d[i]),
                    annotated_place(d[j]),
                ) <= 0
        }),
{
    let kept = classified(head, base);
    let lost = gone(base, head);
    let all = kept + lost;
    let d = difference(head, base);
    let keys = annotated_places(all);
    let ord = sort::stable_order(keys);
    sort::lemma_stable_order(keys);
    let v = lemma_gone_listed(base, head);
    let n = head.len() as int;
    let w = Seq::new(
        d.len(),
        |i: int|
            if ord[i] < n {
                (true, ord[i])
            } else {
                (false, v[ord[i] - n])
            },
    );
    assert forall|i: int| 0 <= i < d.len() implies d[i] == all[#[trigger] ord[i]] && 0 <= ord[i]
        < all.len() by {}
    assert(w.no_duplicates()) by {
        assert forall|i: int, j: int| 0 <= i < w.len() && 0 <= j < w.len() && i != j implies w[i]
            != w[j] by {
            assert(ord[i] != ord[j]);
            if ord[i] >= n && ord[j] >= n {
                let (x, y) = (ord[i] - n, ord[j] - n);
                if x < y {
                    assert(v[x] < v[y]);
                } else {
                    assert(v[y] < v[x]);
                }
            }
        }
    }
    assert forall|k: int| 0 <= k < head.len() <==> #[trigger] w.contains((true, k)) by {
        if 0 <= k < n {
            sort::lemma_permutation_covers(ord, all.len(), k);
            let i = choose|i: int| 0 <= i < ord.len() && ord[i] == k;
            assert(w[i] == (true, k));
        }
        if w.contains((true, k)) {
            let i = choose|i: int| 0 <= i < w.len() && w[i] == (true, k);
            assert(ord[i] < n);
        }
    }
    assert forall|k: int|
        0 <= k < base.len() && !still_found(head, #[trigger] base[k]) <==> w.contains(
            (false, k),
        ) by {
        if v.contains(k) {
            let x = choose|x: int| 0 <= x < v.len() && v[x] == k;
            sort::lemma_permutation_covers(ord, all.len(), n + x);
            let i = choose|i: int| 0 <= i < ord.len() && ord[i] == n + x;
            assert(w[i] == (false, k));
        }
        if w.contains((false, k)) {
            let i = choose|i: int| 0 <= i < w.len() && w[i] == (false, k);
            assert(v[ord[i] - n] == k);
            assert(v.contains(k));
        }
    }
    assert forall|i: int| 0 <= i < w.len() implies {
        let (present, k) = #[trigger] w[i];
        &&& present ==> d[i].state is Some && d[i].state != Some(FindingState::Absent) && d[i].state
            == Some(state_against(head[k], base)) && d[i] == (finding::FindingModel {
            state: d[i].state,
            ..head[k]
        })
        &&& !present ==> d[i].state == Some(FindingState::Absent) && snapshot::stored(d[i])
            == base[k]
    } by {
        let x = ord[i];
        if x < n {
            assert(all[x] == kept[x]);
            lemma_state_by_identity(head[x], head[x], base);
        } else {
            assert(all[x] == lost[x - n]);
            assert(lost[x - n] == with_state(
                snapshot::rebuilt(base[v[x - n]]),
                FindingState::Absent,
            ));
            snapshot::lemma_stored_rebuilt(base[v[x - n]]);
        }
    }
    assert forall|i: int, j: int|
        #![trigger d[i], d[j]]
        0 <= i < j < d.len() implies sort::compare_place(
        annotated_place(d[i]),
        annotated_place(d[j]),
    ) <= 0 by {
        assert(keys[ord[i]] == annotated_place(d[i]));
        assert(keys[ord[j]] == annotated_place(d[j]));
    }
    w
}

/// Which mode a word names does not hang on its case, and each mode has its word; the mode for
/// fixed findings has two.
pub proof fn lemma_mode_words(s: Seq<char>)
    ensures
        mode_of(s) == Some(DiffMode::All) <==> text::ascii_lower(s) == "all"@,
        mode_of(s) == Some(DiffMode::New) <==> text::ascii_lower(s) == "new"@,
        mode_of(s) == Some(DiffMode::Updated) <==> text::ascii_lower(s) == "updated"@,
        mode_of(s) == Some(DiffMode::Fixed) <==> text::ascii_lower(s) == "fixed"@
            || text::ascii_lower(s) == "absent"@,
{
    reveal_strlit("all");
    reveal_strlit("new");
    reveal_strlit("fixed");
    reveal_strlit("absent");
    reveal_strlit("updated");
    assert("all"@[0] == 'a' && "new"@[0] == 'n' && "fixed"@[0] == 'f' && "updated"@[0] == 'u');
    assert("absent"@.len() == 6 && "all"@.len() == 3);
}

/// Each state is in the code or fixed, never both; and what is new or updated is in the code, and
/// not both.
pub proof fn lemma_modes_divide(state: FindingState)
    ensures
        admits(DiffMode::Fixed, state) <==> state == FindingState::Absent,
        admits(DiffMode::All, state) <==> !admits(DiffMode::Fixed, state),
        admits(DiffMode::New, state) ==> admits(DiffMode::All, state) && !admits(
            DiffMode::Updated,
            state,
        ),
        admits(DiffMode::Updated, state) ==> admits(DiffMode::All, state),
        admits(DiffMode::All, state) && !admits(DiffMode::New, state) && !admits(
            DiffMode::Updated,
            state,
        ) <==> state == FindingState::Unchanged,
        admits(DiffMode::New, FindingState::New),
        admits(DiffMode::Updated, FindingState::Updated),
{
}

/// What a change says of a finding: one in the code is on an added line exactly where one of its
/// lines is in an added-line range of its file, and in an unchanged file exactly where no entry of
/// the change is its file's; of one that is gone nothing is said.
pub proof fn lemma_attributed_by_lines(
    s: Seq<finding::FindingModel>,
    diff: git::DiffModel,
    i: int,
)
    requires
        0 <= i < s.len(),
        s[i].start.line <= s[i].end.line,
        git::listed_once(diff.changed),
        git::ranges_ordered(diff.changed),
    ensures
        ({
            let (f, r) = (s[i], attributed(s, diff)[i].diff_relation);
            let p = git::forward(fingerprint::path_identity(f.file));
            let gone = f.state == Some(FindingState::Absent);
            &&& gone ==> r == f.diff_relation
            &&& !gone ==> r is Some
            &&& !gone ==> (r == Some(git::DiffRelation::InUnchangedFile) <==> forall|k: int|
                0 <= k < diff.changed.len() ==> (#[trigger] diff.changed[k]).path != p)
            &&& !gone ==> (r == Some(git::DiffRelation::OnAddedLine) <==> exists|
                k: int,
                j: int,
                line: int,
            | #[trigger]
                git::entry_holds(diff, p, k, j, line) && f.start.line <= line <= f.end.line)
        }),
{
    git::lemma_relation_by_entries(
        diff,
        fingerprint::path_identity(s[i].file),
        s[i].start.line,
        s[i].end.line,
    );
}

/// Is the finding asked for? Everything is for everything in the code, and each other mode for its
/// state; what a rules change surfaced is asked for with what is new, and what has no state always.
pub open spec fn asked_for(f: finding::FindingModel, modes: Seq<DiffMode>) -> bool {
    ||| f.state is None
    ||| modes.contains(DiffMode::All) && f.state != Some(FindingState::Absent)
    ||| modes.contains(DiffMode::New) && (f.state == Some(FindingState::New) || f.new_cause == Some(
        NewCause::Ruleset,
    ))
    ||| modes.contains(DiffMode::Fixed) && f.state == Some(FindingState::Absent)
    ||| modes.contains(DiffMode::Updated) && f.state == Some(FindingState::Updated)
}

proof fn lemma_reportable_asked(f: finding::FindingModel, modes: Seq<DiffMode>)
    ensures
        reportable(f, modes) <==> asked_for(f, modes),
{
    if let Some(state) = f.state {
        if admitted(f, modes) {
            let i = choose|i: int| 0 <= i < modes.len() && admits(#[trigger] modes[i], state);
            assert(modes.contains(modes[i]));
        }
        if asked_for(f, modes) {
            assert forall|m: DiffMode| modes.contains(m) && admits(m, state) implies admitted(
                f,
                modes,
            ) by {
                let i = choose|i: int| 0 <= i < modes.len() && modes[i] == m;
                assert(admits(modes[i], state));
            }
            assert(modes.contains(DiffMode::All) ==> admits(DiffMode::All, state) ==> admitted(
                f,
                modes,
            ));
            assert(modes.contains(DiffMode::New) ==> admits(DiffMode::New, state) ==> admitted(
                f,
                modes,
            ));
            assert(modes.contains(DiffMode::Fixed) ==> admits(DiffMode::Fixed, state) ==> admitted(
                f,
                modes,
            ));
            assert(modes.contains(DiffMode::Updated) ==> admits(DiffMode::Updated, state)
                ==> admitted(f, modes));
        }
    }
}

/// What is reported is every finding that is asked for, each once, in order and as it is, and no
/// other.
pub proof fn lemma_reported_exactly(s: Seq<finding::FindingModel>, modes: Seq<DiffMode>) -> (w: Seq<
    int,
>)
    ensures
        w.len() == reported(s, modes).len(),
        forall|k: int|
            0 <= k < w.len() ==> 0 <= #[trigger] w[k] < s.len() && reported(s, modes)[k] == s[w[k]],
        forall|k: int, l: int| 0 <= k < l < w.len() ==> #[trigger] w[k] < #[trigger] w[l],
        forall|i: int|
            0 <= i < s.len() ==> (w.contains(i) <==> asked_for(#[trigger] s[i], modes)),
    decreases s.len(),
{
    reveal(Seq::filter);
    if s.len() == 0 {
        seq![]
    } else {
        let init = s.drop_last();
        let n = init.len() as int;
        let before = lemma_reported_exactly(init, modes);
        lemma_reportable_asked(s[n], modes);
        let keep = |f: finding::FindingModel| reportable(f, modes);
        assert forall|i: int| 0 <= i < n implies (before.contains(i) <==> asked_for(
            #[trigger] s[i],
            modes,
        )) by {
            assert(init[i] == s[i]);
        }
        if asked_for(s[n], modes) {
            let w = before.push(n);
            assert(s.filter(keep) == init.filter(keep).push(s[n]));
            assert forall|i: int| 0 <= i < s.len() implies (w.contains(i) <==> asked_for(
                #[trigger] s[i],
                modes,
            )) by {
                if i < n {
                    if before.contains(i) {
                        let k = choose|k: int| 0 <= k < before.len() && before[k] == i;
                        assert(w[k] == i);
                    }
                    if w.contains(i) {
                        let k = choose|k: int| 0 <= k < w.len() && w[k] == i;
                        assert(before[k] == i);
                    }
                } else {
                    assert(w[before.len() as int] == i);
                }
            }
            assert forall|k: int| 0 <= k < w.len() implies 0 <= #[trigger] w[k] < s.len()
                && reported(s, modes)[k] == s[w[k]] by {
                if k < before.len() {
                    assert(w[k] == before[k]);
                    assert(reported(init, modes)[k] == init[before[k]]);
                }
            }
            w
        } else {
            assert(s.filter(keep) == init.filter(keep));
            assert(!before.contains(n));
            assert forall|k: int| 0 <= k < before.len() implies reported(s, modes)[k]
                == s[#[trigger] before[k]] by {
                assert(reported(init, modes)[k] == init[before[k]]);
            }
            before
        }
    }
}

/// Why a finding is newly flagged: the code where it is new; the rules where it is in the code and
/// not new, and the old baseline has no finding with its fingerprint and number; and nothing else
/// of it changes.
pub proof fn lemma_cause_told(f: finding::FindingModel, base_old: Seq<snapshot::StoredModel>)
    requires
        f.new_cause is None,
        f.state is Some,
    ensures
        ({
            let c = with_cause(f, base_old).new_cause;
            let known = exists|k: int|
                0 <= k < base_old.len() && same_identity(f, #[trigger] base_old[k]);
            &&& c == Some(NewCause::Code) <==> f.state == Some(FindingState::New)
            &&& c == Some(NewCause::Ruleset) <==> f.state != Some(FindingState::New) && f.state
                != Some(FindingState::Absent) && !known
            &&& with_cause(f, base_old) == finding::FindingModel { new_cause: c, ..f }
        }),
{
    lemma_last_with(base_old, base_old.len(), f.fingerprint, f.occurrence);
    let at = last_with(base_old, base_old.len(), f.fingerprint, f.occurrence);
    if at >= 0 {
        assert(same_identity(f, base_old[at]));
    }
}

/// The tally of a state is the number of findings in it.
pub proof fn lemma_state_tally(s: Seq<finding::FindingModel>, state: FindingState)
    ensures
        count_state(s, state) == s.filter(
            |f: finding::FindingModel| f.state == Some(state),
        ).len(),
    decreases s.len(),
{
    reveal(Seq::filter);
    if s.len() > 0 {
        lemma_state_tally(s.drop_last(), state);
    }
}

/// Where there is nothing to compare with, every finding is new, and nothing else of it changes.
pub proof fn lemma_all_as_new(head: Seq<finding::FindingModel>, i: int)
    requires
        0 <= i < head.len(),
    ensures
        as_new(head).len() == head.len(),
        as_new(head)[i] == (finding::FindingModel { state: Some(FindingState::New), ..head[i] }),
{
}

} // verus!
