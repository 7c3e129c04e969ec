//! The decisions of a run: what to compare with, what to do about a baseline that does not
//! match, what to render, and when to fail.

use vstd::prelude::*;

use crate::diff;
use crate::diff::{DiffMode, DiffOutcome};
use crate::engine::ScanReport;
use crate::finding;
use crate::finding::{clone_findings, Finding, FindingState, NewCause, Severity};
use crate::git;
use crate::git::DiffSpec;
use crate::report::human;
use crate::report::human::{render_human, render_human_diff};
use crate::report::json;
use crate::report::sarif;
use crate::report::sarif::render_sarif;
use crate::report::Format;
use crate::rule;
use crate::rule::Rule;
use crate::snapshot;
use crate::snapshot::{Mismatch, Snapshot};
use crate::sort;
use crate::text;

verus! {

// ---------------------------------------------------------------------------
// Options
// ---------------------------------------------------------------------------

/// What to do when the identity of a baseline's rules, engine or grammars differs from that of
/// the current scan.
#[derive(Debug, Clone, Copy, PartialEq, Eq, Structural)]
pub enum MismatchPolicy {
    Fail,
    Warn,
    Partition,
    RescanBase,
}

/// The policy that a word names, in any ASCII case.
pub open spec fn policy_of(s: Seq<char>) -> Option<MismatchPolicy> {
    let t = text::ascii_lower(s);
    if t == "fail"@ {
        Some(MismatchPolicy::Fail)
    } else if t == "warn"@ {
        Some(MismatchPolicy::Warn)
    } else if t == "partition"@ {
        Some(MismatchPolicy::Partition)
    } else if t == "rescan-base"@ || t == "rescan_base"@ {
        Some(MismatchPolicy::RescanBase)
    } else {
        None
    }
}

/// What is said of a word that names no policy.
pub open spec fn unknown_policy(s: Seq<char>) -> Seq<char> {
    "unknown --on-baseline-mismatch '"@ + text::ascii_lower(s)
        + "' (expected fail|warn|partition|rescan-base)"@
}

impl MismatchPolicy {
    /// The policy that a word names, in any ASCII case.
    pub fn from_str(s: &str) -> (r: Result<Self, String>)
        ensures
            match r {
                Ok(p) => policy_of(s@) == Some(p),
                Err(e) => policy_of(s@) is None && e@ == unknown_policy(s@),
            },
    {
        let lower = text::to_ascii_lowercase(s);
        let t = lower.as_str();
        if text::same(t, "fail") {
            Ok(MismatchPolicy::Fail)
        } else if text::same(t, "warn") {
            Ok(MismatchPolicy::Warn)
        } else if text::same(t, "partition") {
            Ok(MismatchPolicy::Partition)
        } else if text::same(t, "rescan-base") || text::same(t, "rescan_base") {
            Ok(MismatchPolicy::RescanBase)
        } else {
            let mut e = "unknown --on-baseline-mismatch '".to_owned();
            e.append(t);
            e.append("' (expected fail|warn|partition|rescan-base)");
            Err(e)
        }
    }
}

/// The modes that words name, or what is said of the first that names none.
pub open spec fn modes_of(words: Seq<Seq<char>>) -> Result<Seq<DiffMode>, Seq<char>>
    decreases words.len(),
{
    if words.len() == 0 {
        Ok(seq![])
    } else {
        match modes_of(words.drop_last()) {
            Err(e) => Err(e),
            Ok(ms) => match diff::mode_of(words.last()) {
                Some(m) => Ok(ms.push(m)),
                None => Err(diff::unknown_mode(words.last())),
            },
        }
    }
}

/// The requested modes; without any, everything present at HEAD is reported.
pub open spec fn requested_modes(words: Seq<Seq<char>>) -> Result<Seq<DiffMode>, Seq<char>> {
    if words.len() == 0 {
        Ok(seq![DiffMode::All])
    } else {
        modes_of(words)
    }
}

proof fn lemma_modes_stop(words: Seq<Seq<char>>, i: int)
    requires
        0 <= i <= words.len(),
        modes_of(words.take(i)) is Err,
    ensures
        modes_of(words) == modes_of(words.take(i)),
    decreases words.len() - i,
{
    if i < words.len() {
        assert(words.take(i + 1).drop_last() =~= words.take(i));
        lemma_modes_stop(words, i + 1);
    } else {
        assert(words.take(i) =~= words);
    }
}

/// The modes that words name; without any, everything present at HEAD is reported.
pub fn parse_diff_modes(raw: &Vec<String>) -> (r: Result<Vec<DiffMode>, String>)
    ensures
        match r {
            Ok(ms) => requested_modes(text::texts(raw@)) == Ok::<Seq<DiffMode>, Seq<char>>(ms@),
            Err(e) => requested_modes(text::texts(raw@)) == Err::<Seq<DiffMode>, Seq<char>>(e@),
        },
{
    let mut out: Vec<DiffMode> = Vec::new();
    if raw.len() == 0 {
        out.push(DiffMode::All);
        assert(out@ =~= seq![DiffMode::All]);
        return Ok(out);
    }
    let ghost words = text::texts(raw@);
    assert(out@ =~= seq![]);
    assert(words.take(0) =~= seq![]);
    for i in 0..raw.len()
        invariant
            words == text::texts(raw@),
            words.len() > 0,
            modes_of(words.take(i as int)) == Ok::<Seq<DiffMode>, Seq<char>>(out@),
    {
        assert(words.take(i + 1).drop_last() =~= words.take(i as int));
        assert(words.take(i + 1).last() == raw@[i as int]@);
        match DiffMode::from_str(raw[i].as_str()) {
            Ok(m) => {
                out.push(m);
            },
            Err(e) => {
                proof {
                    lemma_modes_stop(words, i + 1);
                }
                return Err(e);
            },
        }
    }
    assert(words.take(raw@.len() as int) =~= words);
    Ok(out)
}

/// Where the baseline of a differential run comes from.
#[derive(Debug, Clone)]
pub enum BaselineSource {
    /// The base is scanned.
    Scan,
    /// A snapshot file.
    File(String),
    /// A snapshot file that is made from a scan of the base where it is missing.
    Cache(String),
}

/// Is this the source that a word names?
pub open spec fn source_named(s: Seq<char>, source: BaselineSource) -> bool {
    if s == "scan"@ {
        source is Scan
    } else {
        match (text::after_prefix(s, "file:"@), text::after_prefix(s, "cache:"@)) {
            (Some(p), _) => source matches BaselineSource::File(q) && q@ == p,
            (None, Some(p)) => source matches BaselineSource::Cache(q) && q@ == p,
            (None, None) => false,
        }
    }
}

/// Does a word name a source?
pub open spec fn names_source(s: Seq<char>) -> bool {
    s == "scan"@ || text::after_prefix(s, "file:"@) is Some || text::after_prefix(
        s,
        "cache:"@,
    ) is Some
}

/// What is said of a word that names no source.
pub open spec fn unknown_source(s: Seq<char>) -> Seq<char> {
    "unknown --baseline-source '"@ + s + "' (expected scan|file:<path>|cache:<path>)"@
}

/// The snapshot file that a source reads its baseline from, given whether the file that it
/// names is there.
pub open spec fn source_read(source: BaselineSource, present: bool) -> Option<Seq<char>> {
    match source {
        BaselineSource::Scan => None,
        BaselineSource::File(p) => Some(p@),
        BaselineSource::Cache(p) => if present {
            Some(p@)
        } else {
            None
        },
    }
}

/// The snapshot file that a source keeps a scan of the base in, given whether the file that it
/// names is there.
pub open spec fn source_kept(source: BaselineSource, present: bool) -> Option<Seq<char>> {
    match source {
        BaselineSource::Cache(p) => if present {
            None
        } else {
            Some(p@)
        },
        _ => None,
    }
}

impl BaselineSource {
    /// The snapshot file to read the baseline from, and the one to keep a scan of the base in,
    /// given whether the file that the source names is there.
    pub fn files(self, present: bool) -> (r: (Option<String>, Option<String>))
        ensures
            text::opt_text(r.0) == source_read(self, present),
            text::opt_text(r.1) == source_kept(self, present),
    {
        match self {
            BaselineSource::Scan => (None, None),
            BaselineSource::File(p) => (Some(p), None),
            BaselineSource::Cache(p) => if present {
                (Some(p), None)
            } else {
                (None, Some(p))
            },
        }
    }

    /// The source that a word names: `scan`, `file:` and a path, or `cache:` and a path.
    pub fn from_str(s: &str) -> (r: Result<Self, String>)
        ensures
            match r {
                Ok(source) => source_named(s@, source),
                Err(e) => !names_source(s@) && e@ == unknown_source(s@),
            },
    {
        if text::same(s, "scan") {
            return Ok(BaselineSource::Scan);
        }
        if let Some(p) = text::strip_prefix(s, "file:") {
            return Ok(BaselineSource::File(p));
        }
        if let Some(p) = text::strip_prefix(s, "cache:") {
            return Ok(BaselineSource::Cache(p));
        }
        let mut e = "unknown --baseline-source '".to_owned();
        e.append(s);
        e.append("' (expected scan|file:<path>|cache:<path>)");
        Err(e)
    }
}

// ---------------------------------------------------------------------------
// What to compare with
// ---------------------------------------------------------------------------

/// What a run compares its findings with.
#[derive(Debug, Clone, Copy, PartialEq, Eq, Structural)]
pub enum BaselinePlan {
    /// Nothing: the run is not differential.
    NoDiff,
    /// The snapshot that was given.
    Given,
    /// A scan of the base.
    ScanBase,
    /// There is nothing to compare with: every finding counts as new.
    AllNew,
}

/// What a run has to compare with.
#[derive(Debug, Clone, Copy, PartialEq, Eq, Structural)]
pub struct Baselines {
    /// A snapshot was given.
    pub given: bool,
    /// A base was named.
    pub base_named: bool,
    /// The source of the base is at hand.
    pub base_at_hand: bool,
}

/// Does a run ask for a diff? It does with a baseline or a base, where only new findings may
/// fail it, and with any mode but the one for everything.
pub open spec fn wants_diff(b: Baselines, fail_on_new: bool, modes: Seq<DiffMode>) -> bool {
    b.given || b.base_named || fail_on_new || exists|i: int|
        0 <= i < modes.len() && #[trigger] modes[i] != DiffMode::All
}

/// What a run compares with: a given baseline before a scan of the base, and where it asks for
/// a diff without either, nothing, so that it never silently reports no new finding.
pub open spec fn planned(b: Baselines, fail_on_new: bool, modes: Seq<DiffMode>) -> BaselinePlan {
    if !wants_diff(b, fail_on_new, modes) {
        BaselinePlan::NoDiff
    } else if b.given {
        BaselinePlan::Given
    } else if b.base_named && b.base_at_hand {
        BaselinePlan::ScanBase
    } else {
        BaselinePlan::AllNew
    }
}

/// What a run compares its findings with.
pub fn baseline_plan(b: Baselines, fail_on_new: bool, modes: &[DiffMode]) -> (r: BaselinePlan)
    ensures
        r == planned(b, fail_on_new, modes@),
{
    if b.given {
        return BaselinePlan::Given;
    }
    if b.base_named {
        return if b.base_at_hand {
            BaselinePlan::ScanBase
        } else {
            BaselinePlan::AllNew
        };
    }
    if fail_on_new {
        return BaselinePlan::AllNew;
    }
    for i in 0..modes.len()
        invariant
            !b.given,
            !b.base_named,
            !fail_on_new,
            forall|k: int| 0 <= k < i ==> #[trigger] modes@[k] == DiffMode::All,
    {
        if modes[i] != DiffMode::All {
            assert(modes@[i as int] != DiffMode::All);
            return BaselinePlan::AllNew;
        }
    }
    BaselinePlan::NoDiff
}

/// The warning of a run that asks for a diff and has nothing to compare with.
pub fn all_new_warning() -> (r: &'static str)
    ensures
        r@
            == "--diff-mode/--fail-on-new set without --baseline; treating every finding as new"@,
{
    "--diff-mode/--fail-on-new set without --baseline; treating every finding as new"
}

// ---------------------------------------------------------------------------
// A baseline that does not match
// ---------------------------------------------------------------------------

/// What to do about a baseline.
#[derive(Debug)]
pub enum MismatchAction {
    /// It matches: compare with it.
    Compare,
    /// Refuse, with this error.
    Refuse(String),
    /// Compare with it, with this warning.
    Warn(String),
    /// Scan the base anew and tell code from rules, with this note.
    Partition(String),
    /// Scan the base anew and compare with that, with this note.
    Rescan(String),
}

/// What to do about a baseline.
#[verifier::ext_equal]
pub enum ActionModel {
    Compare,
    Refuse(Seq<char>),
    Warn(Seq<char>),
    Partition(Seq<char>),
    Rescan(Seq<char>),
}

impl View for MismatchAction {
    type V = ActionModel;

    open spec fn view(&self) -> ActionModel {
        match self {
            MismatchAction::Compare => ActionModel::Compare,
            MismatchAction::Refuse(s) => ActionModel::Refuse(s@),
            MismatchAction::Warn(s) => ActionModel::Warn(s@),
            MismatchAction::Partition(s) => ActionModel::Partition(s@),
            MismatchAction::Rescan(s) => ActionModel::Rescan(s@),
        }
    }
}

/// The mismatches in words.
pub open spec fn mismatch_summary(s: Seq<snapshot::MismatchModel>) -> Seq<char> {
    text::joined(s.map_values(|m: snapshot::MismatchModel| snapshot::mismatch_text(m)), "; "@)
}

/// What is said of mismatches, with what is done about them.
pub open spec fn about_mismatch(s: Seq<snapshot::MismatchModel>, what: Seq<char>) -> Seq<char> {
    "baseline mismatch ("@ + mismatch_summary(s) + "); "@ + what
}

/// What is said where a policy needs the base source and there is none.
pub open spec fn degraded(policy: Seq<char>) -> Seq<char> {
    "'"@ + policy
        + "' needs the base source (--diff-base inside a git repository); falling back to 'warn' and diffing anyway"@
}

/// What to do about a baseline. One that matches is compared with. Of one that does not, the
/// policy decides; without the base source the two policies that need it degrade to a
/// warning.
pub open spec fn mismatch_action(
    policy: MismatchPolicy,
    s: Seq<snapshot::MismatchModel>,
    has_base: bool,
) -> ActionModel {
    if s.len() == 0 {
        ActionModel::Compare
    } else {
        match policy {
            MismatchPolicy::Fail => ActionModel::Refuse(
                about_mismatch(s, "refusing to diff (--on-baseline-mismatch fail)"@),
            ),
            MismatchPolicy::Warn => ActionModel::Warn(
                about_mismatch(
                    s,
                    "diffing anyway — 'new' findings may include ruleset/grammar-induced ones"@,
                ),
            ),
            MismatchPolicy::Partition => if has_base {
                ActionModel::Partition(
                    about_mismatch(s, "rescanning base to partition new findings"@),
                )
            } else {
                ActionModel::Warn(about_mismatch(s, degraded("partition"@)))
            },
            MismatchPolicy::RescanBase => if has_base {
                ActionModel::Rescan(
                    about_mismatch(s, "rescanning base to replace the baseline"@),
                )
            } else {
                ActionModel::Warn(about_mismatch(s, degraded("rescan-base"@)))
            },
        }
    }
}

fn summarize(mismatches: &Vec<Mismatch>) -> (r: String)
    ensures
        r@ == mismatch_summary(snapshot::mismatch_models(mismatches@)),
{
    let ghost all = snapshot::mismatch_models(mismatches@).map_values(
        |m: snapshot::MismatchModel| snapshot::mismatch_text(m),
    );
    let mut words: Vec<String> = Vec::new();
    for i in 0..mismatches.len()
        invariant
            all == snapshot::mismatch_models(mismatches@).map_values(
                |m: snapshot::MismatchModel| snapshot::mismatch_text(m),
            ),
            text::texts(words@) == all.take(i as int),
    {
        let ghost before = text::texts(words@);
        let word = mismatches[i].describe();
        let ghost added = word@;
        words.push(word);
        assert(text::texts(words@) =~= before.push(added));
        assert(all.take(i + 1) =~= before.push(all[i as int]));
    }
    assert(all.take(all.len() as int) =~= all);
    text::join(&words, "; ")
}

fn mismatch_note(mismatches: &Vec<Mismatch>, what: &str) -> (r: String)
    ensures
        r@ == about_mismatch(snapshot::mismatch_models(mismatches@), what@),
{
    let mut out = "baseline mismatch (".to_owned();
    out.append(summarize(mismatches).as_str());
    out.append("); ");
    out.append(what);
    out
}

fn degraded_note(policy: &str) -> (r: String)
    ensures
        r@ == degraded(policy@),
{
    let mut out = "'".to_owned();
    out.append(policy);
    out.append(
        "' needs the base source (--diff-base inside a git repository); falling back to 'warn' and diffing anyway",
    );
    out
}

/// What to do about a baseline, given how it differs from the current scan.
pub fn resolve_mismatch(
    policy: MismatchPolicy,
    mismatches: &Vec<Mismatch>,
    has_base: bool,
) -> (r: MismatchAction)
    ensures
        r@ == mismatch_action(policy, snapshot::mismatch_models(mismatches@), has_base),
{
    if mismatches.len() == 0 {
        return MismatchAction::Compare;
    }
    match policy {
        MismatchPolicy::Fail => MismatchAction::Refuse(
            mismatch_note(mismatches, "refusing to diff (--on-baseline-mismatch fail)"),
        ),
        MismatchPolicy::Warn => MismatchAction::Warn(
            mismatch_note(
                mismatches,
                "diffing anyway — 'new' findings may include ruleset/grammar-induced ones",
            ),
        ),
        MismatchPolicy::Partition => if has_base {
            MismatchAction::Partition(
                mismatch_note(mismatches, "rescanning base to partition new findings"),
            )
        } else {
            MismatchAction::Warn(mismatch_note(mismatches, degraded_note("partition").as_str()))
        },
        MismatchPolicy::RescanBase => if has_base {
            MismatchAction::Rescan(
                mismatch_note(mismatches, "rescanning base to replace the baseline"),
            )
        } else {
            MismatchAction::Warn(mismatch_note(mismatches, degraded_note("rescan-base").as_str()))
        },
    }
}
// ---------------------------------------------------------------------------
// Comparing
// ---------------------------------------------------------------------------

/// What the findings of a run are compared with.
#[derive(Debug)]
pub enum Comparison {
    /// Nothing: every finding is new.
    AllNew,
    /// A baseline.
    Against(Snapshot),
    /// A baseline of other rules, and the base as the current rules see it.
    Partitioned { before: Snapshot, now: Snapshot },
}

/// The stored findings under the names that the change left their files with.
pub open spec fn followed(
    change: Option<git::DiffModel>,
    s: Seq<snapshot::StoredModel>,
) -> Seq<snapshot::StoredModel> {
    match change {
        Some(d) => snapshot::remapped(d.renames, s),
        None => s,
    }
}

/// The findings of a run with their states, before their relation to the change.
pub open spec fn compared(
    head: Seq<finding::FindingModel>,
    comparison: Comparison,
    change: Option<git::DiffModel>,
) -> Seq<finding::FindingModel> {
    match comparison {
        Comparison::AllNew => diff::in_order(diff::as_new(head)),
        Comparison::Against(base) => diff::difference(head, followed(change, base@.findings)),
        Comparison::Partitioned { before, now } => diff::partitioned(
            head,
            followed(change, before@.findings),
            followed(change, now@.findings),
        ),
    }
}

/// The findings of a run with their states and their relation to the change.
pub open spec fn outcome_of(
    head: Seq<finding::FindingModel>,
    comparison: Comparison,
    change: Option<git::DiffModel>,
) -> Seq<finding::FindingModel> {
    match change {
        Some(d) => diff::attributed(compared(head, comparison, change), d),
        None => compared(head, comparison, change),
    }
}

/// What a change holds, where there is one.
pub open spec fn change_of(change: Option<&DiffSpec>) -> Option<git::DiffModel> {
    match change {
        Some(d) => Some(d@),
        None => None,
    }
}

fn follow(base: Snapshot, change: Option<&DiffSpec>) -> (r: Snapshot)
    ensures
        r@.findings == followed(change_of(change), base@.findings),
{
    let mut base = base;
    if let Some(d) = change {
        let _ = base.remap_renames(d.renames().as_slice());
    }
    base
}

/// Compare the findings of a run: baselines first follow the renames of the change, and the
/// findings then get their relation to it.
pub fn run_diff(findings: Vec<Finding>, comparison: Comparison, change: Option<&DiffSpec>) -> (r:
    DiffOutcome)
    ensures
        finding::models(r.annotated@) == outcome_of(
            finding::models(findings@),
            comparison,
            change_of(change),
        ),
{
    let mut outcome = match comparison {
        Comparison::AllNew => DiffOutcome::all_new(findings),
        Comparison::Against(base) => {
            let base = follow(base, change);
            DiffOutcome::diff(findings, &base)
        },
        Comparison::Partitioned { before, now } => {
            let before = follow(before, change);
            let now = follow(now, change);
            DiffOutcome::diff_partitioned(findings, &before, &now)
        },
    };
    if let Some(d) = change {
        outcome.attribute(d);
    }
    outcome
}

/// The findings of a run that compares with nothing, with their relation to the change.
pub open spec fn related_to(
    findings: Seq<finding::FindingModel>,
    change: Option<git::DiffModel>,
) -> Seq<finding::FindingModel> {
    match change {
        Some(d) => diff::attributed(findings, d),
        None => findings,
    }
}

/// Give the findings of a run that compares with nothing their relation to the change.
pub fn relate(findings: Vec<Finding>, change: Option<&DiffSpec>) -> (r: Vec<Finding>)
    ensures
        finding::models(r@) == related_to(finding::models(findings@), change_of(change)),
{
    match change {
        Some(d) => {
            let mut plain = DiffOutcome { annotated: findings };
            plain.attribute(d);
            plain.annotated
        },
        None => findings,
    }
}

// ---------------------------------------------------------------------------
// When to fail
// ---------------------------------------------------------------------------

/// Is a severity at or above a threshold?
pub open spec fn severe(sev: Severity, threshold: Severity) -> bool {
    finding::severity_rank(sev) <= finding::severity_rank(threshold)
}

/// Does a finding of a diff fail a run? It is in the code, a requested mode admits its
/// state, it is new where only new ones count, and it is severe enough. What a rules change
/// surfaced is reported beside the new findings, and does not count as one.
pub open spec fn gates(
    f: finding::FindingModel,
    modes: Seq<DiffMode>,
    fail_on_new: bool,
    threshold: Severity,
) -> bool {
    &&& diff::admitted(f, modes)
    &&& f.state != Some(FindingState::Absent)
    &&& fail_on_new ==> f.state == Some(FindingState::New)
    &&& severe(f.severity, threshold)
}

/// Does some finding of a diff fail a run?
pub open spec fn any_gates(
    s: Seq<finding::FindingModel>,
    modes: Seq<DiffMode>,
    fail_on_new: bool,
    threshold: Severity,
) -> bool {
    exists|i: int| 0 <= i < s.len() && gates(#[trigger] s[i], modes, fail_on_new, threshold)
}

/// Is some finding severe enough?
pub open spec fn any_severe(s: Seq<finding::FindingModel>, threshold: Severity) -> bool {
    exists|i: int| 0 <= i < s.len() && severe((#[trigger] s[i]).severity, threshold)
}

/// Does a run fail? Never without a threshold; with a diff where one of its findings gates,
/// and else where any finding is severe enough.
pub open spec fn fails(
    threshold: Option<Severity>,
    outcome: Option<Seq<finding::FindingModel>>,
    findings: Seq<finding::FindingModel>,
    modes: Seq<DiffMode>,
    fail_on_new: bool,
) -> bool {
    match (threshold, outcome) {
        (None, _) => false,
        (Some(t), Some(s)) => any_gates(s, modes, fail_on_new, t),
        (Some(t), None) => any_severe(findings, t),
    }
}

/// The findings of an outcome, where there is one.
pub open spec fn outcome_models(outcome: Option<&DiffOutcome>) -> Option<
    Seq<finding::FindingModel>,
> {
    match outcome {
        Some(o) => Some(finding::models(o.annotated@)),
        None => None,
    }
}

fn is_gating(f: &Finding, modes: &[DiffMode], fail_on_new: bool, threshold: Severity) -> (r: bool)
    ensures
        r == gates(f@, modes@, fail_on_new, threshold),
{
    diff::is_admitted(f, modes) && f.state != Some(FindingState::Absent) && (!fail_on_new
        || f.state == Some(FindingState::New)) && f.severity.reaches(threshold)
}

/// Does a run fail?
pub fn tripped(
    threshold: Option<Severity>,
    outcome: Option<&DiffOutcome>,
    findings: &Vec<Finding>,
    modes: &[DiffMode],
    fail_on_new: bool,
) -> (r: bool)
    ensures
        r == fails(
            threshold,
            outcome_models(outcome),
            finding::models(findings@),
            modes@,
            fail_on_new,
        ),
{
    let t = match threshold {
        Some(t) => t,
        None => {
            return false;
        },
    };
    match outcome {
        Some(o) => {
            let ghost ms = finding::models(o.annotated@);
            for i in 0..o.annotated.len()
                invariant
                    threshold == Some(t),
                    outcome == Some(o),
                    ms == finding::models(o.annotated@),
                    forall|k: int| 0 <= k < i ==> !gates(#[trigger] ms[k], modes@, fail_on_new, t),
            {
                assert(ms[i as int] == o.annotated@[i as int]@);
                if is_gating(&o.annotated[i], modes, fail_on_new, t) {
                    assert(any_gates(ms, modes@, fail_on_new, t));
                    return true;
                }
            }
            false
        },
        None => {
            let ghost ms = finding::models(findings@);
            for i in 0..findings.len()
                invariant
                    threshold == Some(t),
                    outcome is None,
                    ms == finding::models(findings@),
                    forall|k: int| 0 <= k < i ==> !severe((#[trigger] ms[k]).severity, t),
            {
                assert(ms[i as int] == findings@[i as int]@);
                if findings[i].severity.reaches(t) {
                    return true;
                }
            }
            false
        },
    }
}

// ---------------------------------------------------------------------------
// What to render
// ---------------------------------------------------------------------------

/// What a run puts out.
#[derive(Debug)]
pub enum Rendered {
    /// A finished text.
    Text(String),
    /// These findings as JSON.
    Json(Vec<Finding>),
    /// The complete snapshot as JSON.
    Snapshot,
}

/// What a run puts out.
#[verifier::ext_equal]
pub enum RenderedModel {
    Text(Seq<char>),
    Json(Seq<finding::FindingModel>),
    Snapshot,
}

impl View for Rendered {
    type V = RenderedModel;

    open spec fn view(&self) -> RenderedModel {
        match self {
            Rendered::Text(s) => RenderedModel::Text(s@),
            Rendered::Json(s) => RenderedModel::Json(finding::models(s@)),
            Rendered::Snapshot => RenderedModel::Snapshot,
        }
    }
}

/// The findings that a run reports: those of a diff that the modes admit, or else all.
pub open spec fn shown(
    findings: Seq<finding::FindingModel>,
    outcome: Option<Seq<finding::FindingModel>>,
    modes: Seq<DiffMode>,
) -> Seq<finding::FindingModel> {
    match outcome {
        Some(s) => diff::reported(s, modes),
        None => findings,
    }
}

/// The tally of states in a diff.
pub open spec fn tallied(s: Seq<finding::FindingModel>, c: diff::Counts) -> bool {
    &&& c.new == diff::count_state(s, FindingState::New)
    &&& c.unchanged == diff::count_state(s, FindingState::Unchanged)
    &&& c.updated == diff::count_state(s, FindingState::Updated)
    &&& c.fixed == diff::count_state(s, FindingState::Absent)
}

/// Can a run be rendered for people? Only a finding without a column cannot.
pub open spec fn renderable(
    findings: Seq<finding::FindingModel>,
    outcome: Option<Seq<finding::FindingModel>>,
    modes: Seq<DiffMode>,
) -> bool {
    match outcome {
        Some(s) => human::shown_placeable(diff::reported(s, modes)),
        None => human::all_placeable(findings),
    }
}

/// Is `r` the report in the requested format? A snapshot is always the full set, never a
/// subset of a diff.
pub open spec fn rendered_as(
    r: RenderedModel,
    format: Format,
    findings: Seq<finding::FindingModel>,
    scanned: usize,
    skipped: usize,
    rules: Seq<rule::RuleModel>,
    outcome: Option<Seq<finding::FindingModel>>,
    modes: Seq<DiffMode>,
    color: bool,
) -> bool {
    let s = shown(findings, outcome, modes);
    match format {
        Format::Snapshot => r == RenderedModel::Snapshot,
        Format::Json => r == RenderedModel::Json(s),
        Format::Sarif => r == RenderedModel::Text(json::pretty_json(sarif::sarif(s, rules))),
        Format::Human => match outcome {
            None => r == RenderedModel::Text(
                human::blocks(s, color) + human::summary(s, scanned, skipped),
            ),
            Some(all) => exists|c: diff::Counts| #[trigger]
                tallied(all, c) && r == RenderedModel::Text(
                    human::human_diff(s, c, scanned, skipped, color),
                ),
        },
    }
}

/// Can a run be rendered for people?
pub fn can_render(findings: &Vec<Finding>, outcome: Option<&DiffOutcome>, modes: &[DiffMode]) -> (r:
    bool)
    ensures
        r == renderable(finding::models(findings@), outcome_models(outcome), modes@),
{
    match outcome {
        Some(o) => human::can_render_human_diff(o.reported(modes).as_slice()),
        None => human::can_render_human(findings.as_slice()),
    }
}

/// Render the report in the requested format, differential when diffing.
pub fn render(
    format: Format,
    report: &ScanReport,
    rules: &[Rule],
    outcome: Option<&DiffOutcome>,
    modes: &[DiffMode],
    color: bool,
) -> (r: Rendered)
    requires
        format == Format::Human ==> renderable(
            report@.findings,
            outcome_models(outcome),
            modes@,
        ),
    ensures
        rendered_as(
            r@,
            format,
            report@.findings,
            report.files_scanned,
            report.files_skipped,
            rule::rule_models(rules@),
            outcome_models(outcome),
            modes@,
            color,
        ),
{
    if format == Format::Snapshot {
        return Rendered::Snapshot;
    }
    match outcome {
        Some(o) => {
            let reported = o.reported(modes);
            match format {
                Format::Human => {
                    let c = o.counts();
                    assert(tallied(finding::models(o.annotated@), c));
                    Rendered::Text(
                        render_human_diff(
                            reported.as_slice(),
                            c,
                            report.files_scanned,
                            report.files_skipped,
                            color,
                        ),
                    )
                },
                Format::Sarif => Rendered::Text(render_sarif(reported.as_slice(), rules)),
                _ => Rendered::Json(reported),
            }
        },
        None => match format {
            Format::Human => Rendered::Text(
                render_human(
                    report.findings.as_slice(),
                    report.files_scanned,
                    report.files_skipped,
                    color,
                ),
            ),
            Format::Sarif => Rendered::Text(render_sarif(report.findings.as_slice(), rules)),
            _ => {
                let copies = clone_findings(&report.findings);
                Rendered::Json(copies)
            },
        },
    }
}

// ---------------------------------------------------------------------------
// Laws
// ---------------------------------------------------------------------------

/// A finding that is gone never fails a run, whatever is asked for.
pub proof fn lemma_fixed_never_gates(
    f: finding::FindingModel,
    modes: Seq<DiffMode>,
    fail_on_new: bool,
    threshold: Severity,
)
    requires
        f.state == Some(FindingState::Absent),
    ensures
        !gates(f, modes, fail_on_new, threshold),
{
}

/// What a rules change surfaced in old code never fails a run that only new findings may fail, or
/// that reports nothing but what the change introduced or fixed.
pub proof fn lemma_ruleset_never_gates_new(
    head: Seq<finding::FindingModel>,
    base_old: Seq<snapshot::StoredModel>,
    base_now: Seq<snapshot::StoredModel>,
    i: int,
    modes: Seq<DiffMode>,
    fail_on_new: bool,
    threshold: Severity,
)
    requires
        0 <= i < diff::partitioned(head, base_old, base_now).len(),
        diff::partitioned(head, base_old, base_now)[i].new_cause == Some(NewCause::Ruleset),
        fail_on_new || forall|k: int|
            0 <= k < modes.len() ==> #[trigger] modes[k] == DiffMode::New || modes[k]
                == DiffMode::Fixed,
    ensures
        !gates(
            diff::partitioned(head, base_old, base_now)[i],
            modes,
            fail_on_new,
            threshold,
        ),
{
    let g = diff::difference(head, base_now)[i];
    let f = diff::partitioned(head, base_old, base_now)[i];
    assert(f == diff::with_cause(g, base_old));
    diff::lemma_difference_states(head, base_now);
    assert(g.state is Some);
    assert(f.state != Some(FindingState::New));
}

/// Every finding that fails a run is among those that the run reports.
pub proof fn lemma_gating_is_reported(
    s: Seq<finding::FindingModel>,
    i: int,
    modes: Seq<DiffMode>,
    fail_on_new: bool,
    threshold: Severity,
)
    requires
        0 <= i < s.len(),
        gates(s[i], modes, fail_on_new, threshold),
    ensures
        diff::reported(s, modes).contains(s[i]),
    decreases s.len(),
{
    reveal(Seq::filter);
    let keep = |f: finding::FindingModel| diff::reportable(f, modes);
    let init = s.drop_last();
    if i == s.len() - 1 {
        assert(s.filter(keep) == init.filter(keep).push(s.last()));
        assert(s.filter(keep)[init.filter(keep).len() as int] == s[i]);
    } else {
        lemma_gating_is_reported(init, i, modes, fail_on_new, threshold);
        assert(init[i] == s[i]);
        let k = choose|k: int|
            0 <= k < init.filter(keep).len() && init.filter(keep)[k] == s[i];
        assert(s.filter(keep)[k] == s[i]);
    }
}

/// A lower bar fails whatever a higher one fails.
pub proof fn lemma_threshold_monotone(
    outcome: Option<Seq<finding::FindingModel>>,
    findings: Seq<finding::FindingModel>,
    modes: Seq<DiffMode>,
    fail_on_new: bool,
    high: Severity,
    low: Severity,
)
    requires
        severe(high, low),
        fails(Some(high), outcome, findings, modes, fail_on_new),
    ensures
        fails(Some(low), outcome, findings, modes, fail_on_new),
{
    match outcome {
        Some(s) => {
            let i = choose|i: int|
                0 <= i < s.len() && gates(#[trigger] s[i], modes, fail_on_new, high);
            assert(gates(s[i], modes, fail_on_new, low));
        },
        None => {
            let i = choose|i: int|
                0 <= i < findings.len() && severe((#[trigger] findings[i]).severity, high);
            assert(severe(findings[i].severity, low));
        },
    }
}

/// Every finding of a run that compares with nothing is new, so a run without a baseline
/// never passes over one silently.
pub proof fn lemma_without_baseline_all_new(
    head: Seq<finding::FindingModel>,
    change: Option<git::DiffModel>,
    i: int,
)
    requires
        0 <= i < outcome_of(head, Comparison::AllNew, change).len(),
    ensures
        outcome_of(head, Comparison::AllNew, change)[i].state == Some(FindingState::New),
        outcome_of(head, Comparison::AllNew, change).len() == head.len(),
{
    let new = diff::as_new(head);
    let keys = diff::annotated_places(new);
    sort::lemma_stable_order(keys);
    assert(keys.len() == head.len());
    assert(diff::in_order(new)[i] == new[sort::stable_order(keys)[i]]);
}

/// Is a severity as bad as another, or worse? Errors are worst, then warnings, then infos, then
/// notes.
pub open spec fn at_least(sev: Severity, bar: Severity) -> bool {
    match bar {
        Severity::Error => sev == Severity::Error,
        Severity::Warning => sev == Severity::Error || sev == Severity::Warning,
        Severity::Info => sev != Severity::Note,
        Severity::Note => true,
    }
}

/// Does a state count towards failing a run under the requested modes? What is gone never does;
/// what is at HEAD does where the mode for everything or the one for its state is requested, and
/// where only new findings may fail the run, only if it is new.
pub open spec fn counts(state: Option<FindingState>, modes: Seq<DiffMode>, only_new: bool) -> bool {
    match state {
        None => !only_new,
        Some(FindingState::Absent) => false,
        Some(FindingState::New) => modes.contains(DiffMode::All) || modes.contains(DiffMode::New),
        Some(FindingState::Unchanged) => !only_new && modes.contains(DiffMode::All),
        Some(FindingState::Updated) => !only_new && (modes.contains(DiffMode::All)
            || modes.contains(DiffMode::Updated)),
    }
}

proof fn lemma_gates_counts(
    f: finding::FindingModel,
    modes: Seq<DiffMode>,
    only_new: bool,
    bar: Severity,
)
    ensures
        gates(f, modes, only_new, bar) <==> counts(f.state, modes, only_new) && at_least(
            f.severity,
            bar,
        ),
{
    if let Some(state) = f.state {
        if diff::admitted(f, modes) {
            let i = choose|i: int| 0 <= i < modes.len() && diff::admits(#[trigger] modes[i], state);
            assert(modes.contains(modes[i]));
        }
        assert forall|m: DiffMode| #[trigger] modes.contains(m) && diff::admits(
            m,
            state,
        ) implies diff::admitted(f, modes) by {
            let i = choose|i: int| 0 <= i < modes.len() && modes[i] == m;
            assert(diff::admits(modes[i], state));
        }
        assert(modes.contains(DiffMode::All) || !modes.contains(DiffMode::All));
        assert(modes.contains(DiffMode::New) || !modes.contains(DiffMode::New));
        assert(modes.contains(DiffMode::Updated) || !modes.contains(DiffMode::Updated));
    }
}

/// When a run fails: never without a threshold; without a diff where any finding is as bad as the
/// threshold; and with a diff where some finding that counts is as bad as the threshold. So every
/// new, unchanged or updated finding whose state is asked for fails a run that it is bad enough for.
pub proof fn lemma_when_a_run_fails(
    threshold: Option<Severity>,
    outcome: Option<Seq<finding::FindingModel>>,
    findings: Seq<finding::FindingModel>,
    modes: Seq<DiffMode>,
    only_new: bool,
)
    ensures
        threshold is None ==> !fails(threshold, outcome, findings, modes, only_new),
        threshold is Some && outcome is None ==> (fails(
            threshold,
            outcome,
            findings,
            modes,
            only_new,
        ) <==> exists|i: int|
            0 <= i < findings.len() && at_least(
                (#[trigger] findings[i]).severity,
                threshold->Some_0,
            )),
        threshold is Some && outcome is Some ==> (fails(
            threshold,
            outcome,
            findings,
            modes,
            only_new,
        ) <==> exists|i: int|
            0 <= i < outcome->Some_0.len() && counts(
                (#[trigger] outcome->Some_0[i]).state,
                modes,
                only_new,
            ) && at_least(outcome->Some_0[i].severity, threshold->Some_0)),
{
    if let (Some(bar), Some(s)) = (threshold, outcome) {
        if any_gates(s, modes, only_new, bar) {
            let i = choose|i: int|
                0 <= i < s.len() && gates(#[trigger] s[i], modes, only_new, bar);
            lemma_gates_counts(s[i], modes, only_new, bar);
            assert(counts(s[i].state, modes, only_new));
        }
        if exists|i: int|
            0 <= i < s.len() && counts((#[trigger] s[i]).state, modes, only_new) && at_least(
                s[i].severity,
                bar,
            ) {
            let i = choose|i: int|
                0 <= i < s.len() && counts((#[trigger] s[i]).state, modes, only_new) && at_least(
                    s[i].severity,
                    bar,
                );
            lemma_gates_counts(s[i], modes, only_new, bar);
            assert(gates(s[i], modes, only_new, bar));
        }
    }
    if let (Some(bar), None) = (threshold, outcome) {
        if any_severe(findings, bar) {
            let i = choose|i: int|
                0 <= i < findings.len() && severe((#[trigger] findings[i]).severity, bar);
            assert(at_least(findings[i].severity, bar));
        }
        if exists|i: int| 0 <= i < findings.len() && at_least((#[trigger] findings[i]).severity, bar) {
            let i = choose|i: int|
                0 <= i < findings.len() && at_least((#[trigger] findings[i]).severity, bar);
            assert(severe(findings[i].severity, bar));
        }
    }
}

/// The outcome of a comparison holds every HEAD finding, with its severity and a state in which it
/// is at HEAD, and besides them only findings that are gone. The results say where each HEAD
/// finding is in the outcome, and which HEAD finding each part of the outcome is, if any.
pub proof fn lemma_outcome_keeps_head(
    head: Seq<finding::FindingModel>,
    comparison: Comparison,
    change: Option<git::DiffModel>,
) -> (w: (Seq<int>, Seq<int>))
    ensures
        ({
            let s = outcome_of(head, comparison, change);
            &&& w.0.len() == head.len()
            &&& w.1.len() == s.len()
            &&& forall|k: int|
                0 <= k < head.len() ==> {
                    let i = #[trigger] w.0[k];
                    0 <= i < s.len() && w.1[i] == k
                }
            &&& forall|i: int|
                0 <= i < s.len() ==> {
                    let k = #[trigger] w.1[i];
                    &&& s[i].state is Some
                    &&& s[i].state == Some(FindingState::Absent) <==> k < 0
                    &&& k >= 0 ==> k < head.len() && w.0[k] == i && s[i].severity
                        == head[k].severity && s[i].fingerprint == head[k].fingerprint
                        && s[i].occurrence == head[k].occurrence && s[i].message == head[k].message
                        && s[i].file == head[k].file && s[i].start == head[k].start && s[i].end
                        == head[k].end
                }
        }),
{
    let s = outcome_of(head, comparison, change);
    let plain = compared(head, comparison, change);
    match comparison {
        Comparison::AllNew => {
            let new = diff::as_new(head);
            let keys = diff::annotated_places(new);
            let ord = sort::stable_order(keys);
            sort::lemma_stable_order(keys);
            let at = Seq::new(head.len(), |k: int| ord.index_of(k));
            assert forall|k: int| 0 <= k < head.len() implies 0 <= #[trigger] at[k] < ord.len()
                && ord[at[k]] == k by {
                sort::lemma_permutation_covers(ord, head.len(), k);
            }
            assert forall|i: int| 0 <= i < s.len() implies 0 <= #[trigger] ord[i] < head.len()
                && at[ord[i]] == i && plain[i] == new[ord[i]] by {
                assert(ord[at[ord[i]]] == ord[i]);
            }
            (at, ord)
        },
        _ => {
            let base = match comparison {
                Comparison::Against(b) => followed(change, b@.findings),
                Comparison::Partitioned { before, now } => followed(change, now@.findings),
                Comparison::AllNew => seq![],
            };
            let d = diff::difference(head, base);
            let v = diff::lemma_diff_accounts(head, base);
            let of = Seq::new(
                d.len(),
                |i: int|
                    if v[i].0 {
                        v[i].1
                    } else {
                        -1
                    },
            );
            let at = Seq::new(head.len(), |k: int| v.index_of((true, k)));
            assert forall|k: int| 0 <= k < head.len() implies 0 <= #[trigger] at[k] < d.len()
                && v[at[k]] == (true, k) by {
                assert(v.contains((true, k)));
            }
            assert(plain.len() == d.len());
            assert forall|i: int| 0 <= i < s.len() implies {
                let k = #[trigger] of[i];
                &&& s[i].state is Some
                &&& s[i].state == Some(FindingState::Absent) <==> k < 0
                &&& k >= 0 ==> k < head.len() && at[k] == i && s[i].severity == head[k].severity
                    && s[i].fingerprint == head[k].fingerprint && s[i].occurrence
                    == head[k].occurrence && s[i].message == head[k].message && s[i].file
                    == head[k].file && s[i].start == head[k].start && s[i].end == head[k].end
            } by {
                assert(v.contains(v[i]));
                if v[i].0 {
                    let k = v[i].1;
                    assert(v.contains((true, k)));
                    assert(v[at[k]] == v[i]);
                }
            }
            (at, of)
        },
    }
}

/// Under the mode for everything, where not only new findings may fail it, a run with a diff fails
/// exactly when a run without one fails over the same findings, whatever it is compared with.
pub proof fn lemma_diff_fails_as_without(
    threshold: Option<Severity>,
    head: Seq<finding::FindingModel>,
    comparison: Comparison,
    change: Option<git::DiffModel>,
    modes: Seq<DiffMode>,
)
    requires
        modes.contains(DiffMode::All),
    ensures
        fails(threshold, Some(outcome_of(head, comparison, change)), head, modes, false) <==> fails(
            threshold,
            None,
            head,
            modes,
            false,
        ),
{
    let s = outcome_of(head, comparison, change);
    let (at, of) = lemma_outcome_keeps_head(head, comparison, change);
    lemma_when_a_run_fails(threshold, Some(s), head, modes, false);
    lemma_when_a_run_fails(threshold, None, head, modes, false);
    if let Some(bar) = threshold {
        if fails(threshold, None, head, modes, false) {
            let k = choose|k: int| 0 <= k < head.len() && at_least((#[trigger] head[k]).severity, bar);
            let i = at[k];
            assert(of[i] == k);
            assert(counts(s[i].state, modes, false));
        }
        if fails(threshold, Some(s), head, modes, false) {
            let i = choose|i: int|
                0 <= i < s.len() && counts((#[trigger] s[i]).state, modes, false) && at_least(
                    s[i].severity,
                    bar,
                );
            let k = of[i];
            assert(at_least(head[k].severity, bar));
        }
    }
}

/// A run that only new findings may fail fails only where it would fail anyway, and does so
/// exactly where some finding of the diff that is new, and asked for, is bad enough.
pub proof fn lemma_only_new_may_fail(
    bar: Severity,
    s: Seq<finding::FindingModel>,
    findings: Seq<finding::FindingModel>,
    modes: Seq<DiffMode>,
)
    ensures
        fails(Some(bar), Some(s), findings, modes, true) ==> fails(
            Some(bar),
            Some(s),
            findings,
            modes,
            false,
        ),
        fails(Some(bar), Some(s), findings, modes, true) <==> (modes.contains(DiffMode::All)
            || modes.contains(DiffMode::New)) && exists|i: int|
            0 <= i < s.len() && (#[trigger] s[i]).state == Some(FindingState::New) && at_least(
                s[i].severity,
                bar,
            ),
{
    lemma_when_a_run_fails(Some(bar), Some(s), findings, modes, true);
    lemma_when_a_run_fails(Some(bar), Some(s), findings, modes, false);
    if fails(Some(bar), Some(s), findings, modes, true) {
        let i = choose|i: int|
            0 <= i < s.len() && counts((#[trigger] s[i]).state, modes, true) && at_least(
                s[i].severity,
                bar,
            );
        assert(counts(s[i].state, modes, false));
        assert(s[i].state == Some(FindingState::New));
    }
    if (modes.contains(DiffMode::All) || modes.contains(DiffMode::New)) && exists|i: int|
        0 <= i < s.len() && (#[trigger] s[i]).state == Some(FindingState::New) && at_least(
            s[i].severity,
            bar,
        ) {
        let i = choose|i: int|
            0 <= i < s.len() && (#[trigger] s[i]).state == Some(FindingState::New) && at_least(
                s[i].severity,
                bar,
            );
        assert(counts(s[i].state, modes, true));
    }
}

/// What a run compares with, case by case: a given snapshot always; a scan of the base where no
/// snapshot is given and a base is named and at hand; nothing at all where the run neither gives
/// nor names one, may fail for any finding and asks for everything; and otherwise nothing, with
/// every finding new.
pub proof fn lemma_plan_when(b: Baselines, fail_on_new: bool, modes: Seq<DiffMode>)
    ensures
        planned(b, fail_on_new, modes) == BaselinePlan::Given <==> b.given,
        planned(b, fail_on_new, modes) == BaselinePlan::ScanBase <==> !b.given && b.base_named
            && b.base_at_hand,
        planned(b, fail_on_new, modes) == BaselinePlan::NoDiff <==> !b.given && !b.base_named
            && !fail_on_new && !modes.contains(DiffMode::New) && !modes.contains(DiffMode::Fixed)
            && !modes.contains(DiffMode::Updated),
        !b.given && b.base_named && !b.base_at_hand ==> planned(b, fail_on_new, modes)
            == BaselinePlan::AllNew,
{
    if exists|i: int| 0 <= i < modes.len() && #[trigger] modes[i] != DiffMode::All {
        let i = choose|i: int| 0 <= i < modes.len() && #[trigger] modes[i] != DiffMode::All;
        assert(modes.contains(modes[i]));
    }
    assert forall|m: DiffMode| modes.contains(m) && m != DiffMode::All implies exists|i: int|
        0 <= i < modes.len() && #[trigger] modes[i] != DiffMode::All by {
        let i = choose|i: int| 0 <= i < modes.len() && modes[i] == m;
        assert(modes[i] != DiffMode::All);
    }
}

/// The modes that a run asks for are those of its words, one for one, and everything without a
/// word. Where a word names none, the first such word is complained of.
pub proof fn lemma_modes_asked(words: Seq<Seq<char>>)
    ensures
        words.len() == 0 ==> requested_modes(words) == Ok::<Seq<DiffMode>, Seq<char>>(
            seq![DiffMode::All],
        ),
        requested_modes(words) is Ok <==> forall|i: int|
            0 <= i < words.len() ==> diff::mode_of(#[trigger] words[i]) is Some,
        words.len() > 0 ==> (requested_modes(words) matches Ok(ms) ==> ms.len() == words.len()
            && forall|i: int|
            0 <= i < words.len() ==> diff::mode_of(#[trigger] words[i]) == Some(ms[i])),
        requested_modes(words) matches Err(e) ==> exists|k: int|
            0 <= k < words.len() && diff::mode_of(#[trigger] words[k]) is None && e
                == "unknown diff mode '"@ + text::ascii_lower(words[k])
                + "' (expected all|new|fixed|updated)"@ && forall|i: int|
                0 <= i < k ==> diff::mode_of(#[trigger] words[i]) is Some,
{
    lemma_modes_one_by_one(words);
}

proof fn lemma_modes_one_by_one(words: Seq<Seq<char>>)
    ensures
        modes_of(words) is Ok <==> forall|i: int|
            0 <= i < words.len() ==> diff::mode_of(#[trigger] words[i]) is Some,
        modes_of(words) matches Ok(ms) ==> ms.len() == words.len() && forall|i: int|
            0 <= i < words.len() ==> diff::mode_of(#[trigger] words[i]) == Some(ms[i]),
        modes_of(words) matches Err(e) ==> exists|k: int|
            0 <= k < words.len() && diff::mode_of(#[trigger] words[k]) is None && e
                == diff::unknown_mode(words[k]) && forall|i: int|
                0 <= i < k ==> diff::mode_of(#[trigger] words[i]) is Some,
    decreases words.len(),
{
    if words.len() > 0 {
        let init = words.drop_last();
        let n = init.len() as int;
        lemma_modes_one_by_one(init);
        assert forall|i: int| 0 <= i < n implies init[i] == words[i] by {}
        if modes_of(init) is Ok {
            assert forall|i: int| 0 <= i < n implies diff::mode_of(#[trigger] words[i]) is Some by {
                assert(init[i] == words[i]);
            }
            if diff::mode_of(words[n]) is Some {
                let ms = modes_of(words)->Ok_0;
                assert forall|i: int| 0 <= i < words.len() implies diff::mode_of(
                    #[trigger] words[i],
                ) == Some(ms[i]) by {
                    if i < n {
                        assert(init[i] == words[i]);
                    }
                }
            }
        } else {
            let e = modes_of(init)->Err_0;
            let k = choose|k: int|
                0 <= k < init.len() && diff::mode_of(#[trigger] init[k]) is None && e
                    == diff::unknown_mode(init[k]) && forall|i: int|
                    0 <= i < k ==> diff::mode_of(#[trigger] init[i]) is Some;
            assert(words[k] == init[k]);
            assert forall|i: int| 0 <= i < k implies diff::mode_of(#[trigger] words[i]) is Some by {
                assert(init[i] == words[i]);
            }
        }
    }
}

/// The word for a snapshot file is `file:` and the path, whatever the path is, and that for one that
/// is made where it is missing is `cache:` and the path.
pub proof fn lemma_source_words(p: Seq<char>, source: BaselineSource)
    ensures
        source_named("file:"@ + p, source) <==> (source matches BaselineSource::File(q) && q@ == p),
        source_named("cache:"@ + p, source) <==> (source matches BaselineSource::Cache(q) && q@ == p),
        source_named("scan"@, source) <==> source is Scan,
        names_source("file:"@ + p) && names_source("cache:"@ + p) && names_source("scan"@),
        !names_source(p) ==> !source_named(p, source),
{
    reveal_strlit("file:");
    reveal_strlit("cache:");
    reveal_strlit("scan");
    let (f, c) = ("file:"@ + p, "cache:"@ + p);
    assert(f[0] == 'f' && c[0] == 'c' && "scan"@[0] == 's');
    text::lemma_after_prefix("file:"@, p, c, 0);
    text::lemma_after_prefix("cache:"@, p, f, 0);
}

/// A snapshot file is read where it is asked for or there already, and a scan of the base is kept
/// exactly where a cache is asked for and not there yet: never both, and neither for a plain scan.
pub proof fn lemma_source_files(source: BaselineSource, present: bool)
    ensures
        source_read(source, present) is Some <==> source is File || (source is Cache && present),
        source_kept(source, present) is Some <==> source is Cache && !present,
        source matches BaselineSource::File(p) ==> source_read(source, present) == Some(p@),
        source matches BaselineSource::Cache(p) ==> present ==> source_read(source, present)
            == Some(p@),
        source matches BaselineSource::Cache(p) ==> !present ==> source_kept(source, present)
            == Some(p@),
{
}

/// Which policy a word names does not hang on its case, and each policy has its word; the one for
/// scanning the base anew has two.
pub proof fn lemma_policy_words(s: Seq<char>)
    ensures
        policy_of(s) == Some(MismatchPolicy::Fail) <==> text::ascii_lower(s) == "fail"@,
        policy_of(s) == Some(MismatchPolicy::Warn) <==> text::ascii_lower(s) == "warn"@,
        policy_of(s) == Some(MismatchPolicy::Partition) <==> text::ascii_lower(s) == "partition"@,
        policy_of(s) == Some(MismatchPolicy::RescanBase) <==> text::ascii_lower(s)
            == "rescan-base"@ || text::ascii_lower(s) == "rescan_base"@,
{
    reveal_strlit("fail");
    reveal_strlit("warn");
    reveal_strlit("partition");
    reveal_strlit("rescan-base");
    reveal_strlit("rescan_base");
    assert("fail"@[0] == 'f' && "warn"@[0] == 'w' && "partition"@[0] == 'p');
    assert("rescan-base"@[0] == 'r' && "rescan_base"@[0] == 'r');
}

/// What is done about a baseline: one that matches is compared with, whatever the policy. One that
/// does not is refused under the policy to fail, and only there; it is compared with under the
/// policy to warn, and under the two others where the base is not at hand; where it is, the base is
/// scanned anew, to tell code from rules under the one and in the baseline's place under the other.
/// What is said names every mismatch.
pub proof fn lemma_mismatch_handled(
    policy: MismatchPolicy,
    s: Seq<snapshot::MismatchModel>,
    has_base: bool,
)
    ensures
        ({
            let a = mismatch_action(policy, s, has_base);
            let named = "baseline mismatch ("@ + text::joined(
                s.map_values(|m: snapshot::MismatchModel| snapshot::mismatch_text(m)),
                "; "@,
            ) + "); "@;
            &&& a is Compare <==> s.len() == 0
            &&& a is Refuse <==> s.len() > 0 && policy == MismatchPolicy::Fail
            &&& a is Partition <==> s.len() > 0 && policy == MismatchPolicy::Partition && has_base
            &&& a is Rescan <==> s.len() > 0 && policy == MismatchPolicy::RescanBase && has_base
            &&& a is Warn <==> s.len() > 0 && (policy == MismatchPolicy::Warn || (!has_base && policy
                != MismatchPolicy::Fail))
            &&& a matches ActionModel::Refuse(e) ==> named.is_prefix_of(e)
            &&& a matches ActionModel::Warn(e) ==> named.is_prefix_of(e)
            &&& a matches ActionModel::Partition(e) ==> named.is_prefix_of(e)
            &&& a matches ActionModel::Rescan(e) ==> named.is_prefix_of(e)
        }),
{
}

/// A mismatch in words holds what the baseline has, an arrow, and what the scan has.
pub proof fn lemma_mismatch_in_words(m: snapshot::MismatchModel)
    ensures
        match m {
            snapshot::MismatchModel::Ruleset { base, current } => snapshot::mismatch_text(m)
                == "ruleset changed ("@ + base + " → "@ + current + ")"@,
            snapshot::MismatchModel::Engine { base, current } => snapshot::mismatch_text(m)
                == "engine version changed ("@ + base + " → "@ + current + ")"@,
            snapshot::MismatchModel::Grammar { language, base, current } => snapshot::mismatch_text(
                m,
            ) == "grammar '"@ + language + "' changed ("@ + base + " → "@ + current + ")"@,
        },
{
}

/// What the findings of a run are compared with, once it is known: the baseline under the names
/// that the change gave its files, and the relation of each finding to the change on top, where
/// there is a change; nothing is left out on that account.
pub proof fn lemma_compared_then_related(
    head: Seq<finding::FindingModel>,
    base: Snapshot,
    d: git::DiffModel,
    i: int,
)
    ensures
        ({
            let against = Comparison::Against(base);
            let moved = diff::difference(head, snapshot::remapped(d.renames, base@.findings));
            let out = outcome_of(head, against, Some(d));
            &&& out.len() == moved.len()
            &&& 0 <= i < out.len() ==> out[i] == (finding::FindingModel {
                diff_relation: out[i].diff_relation,
                ..moved[i]
            })
            &&& 0 <= i < out.len() && moved[i].state != Some(FindingState::Absent)
                ==> out[i].diff_relation is Some
            &&& outcome_of(head, against, None) == diff::difference(head, base@.findings)
        }),
        related_to(head, None) == head,
        related_to(head, Some(d)).len() == head.len(),
        0 <= i < head.len() ==> related_to(head, Some(d))[i] == (finding::FindingModel {
            diff_relation: related_to(head, Some(d))[i].diff_relation,
            ..head[i]
        }),
{
}

/// A report holds what a diff is asked for, or all findings where there is no diff, in every format
/// but that of a snapshot, which is asked for elsewhere.
pub proof fn lemma_report_shows(
    r: RenderedModel,
    findings: Seq<finding::FindingModel>,
    outcome: Option<Seq<finding::FindingModel>>,
    modes: Seq<DiffMode>,
    scanned: usize,
    skipped: usize,
    rules: Seq<rule::RuleModel>,
    color: bool,
)
    requires
        rendered_as(
            r,
            Format::Json,
            findings,
            scanned,
            skipped,
            rules,
            outcome,
            modes,
            color,
        ),
    ensures
        outcome is None ==> r == RenderedModel::Json(findings),
        outcome matches Some(all) ==> (r matches RenderedModel::Json(shown) && forall|
            f: finding::FindingModel,
        | #[trigger]
            shown.contains(f) <==> all.contains(f) && diff::asked_for(f, modes)),
{
    if let Some(all) = outcome {
        let s = diff::reported(all, modes);
        let w = diff::lemma_reported_exactly(all, modes);
        assert forall|f: finding::FindingModel| #[trigger]
            s.contains(f) <==> all.contains(f) && diff::asked_for(f, modes) by {
            if s.contains(f) {
                let k = choose|k: int| 0 <= k < s.len() && s[k] == f;
                assert(all[w[k]] == f);
                assert(w.contains(w[k]));
            }
            if all.contains(f) && diff::asked_for(f, modes) {
                let i = choose|i: int| 0 <= i < all.len() && all[i] == f;
                assert(w.contains(i));
                let k = choose|k: int| 0 <= k < w.len() && w[k] == i;
                assert(s[k] == f);
            }
        }
    }
}

} // verus!
