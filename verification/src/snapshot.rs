//! The persisted snapshot: the complete, fingerprinted finding set of one scan of one tree,
//! plus the provenance needed to decide whether two snapshots are comparable.
//!
//! One format serves both directions: every scan can emit it, and a later scan takes it as
//! the baseline.

use vstd::prelude::*;
use vstd::hash_map::StringHashMap;

use crate::finding;
use crate::finding::{Finding, Position, Severity};
use crate::fingerprint;
use crate::git;
use crate::grammars;
use crate::grammars::GrammarVersions;
use crate::language;
use crate::language::LanguageRegistry;
use crate::path;
use crate::rule;
use crate::rule::Rule;
use crate::sort;
use crate::sort::PlaceKey;
use crate::text;

verus! {

/// Current snapshot schema id. Emitted into every snapshot and checked on load.
pub const SCHEMA: &'static str = "crit.snapshot/v1";

/// The version of this engine.
pub const ENGINE_VERSION: &'static str = "0.1.0";

// ---------------------------------------------------------------------------
// The snapshot document
// ---------------------------------------------------------------------------

/// Version-control provenance of a snapshot.
#[derive(Debug)]
pub struct Vcs {
    pub system: String,
    pub commit: String,
    /// The symbolic ref, such as `refs/heads/main`.
    pub reference: String,
}

/// What a provenance record holds.
#[verifier::ext_equal]
pub struct VcsModel {
    pub system: Seq<char>,
    pub commit: Seq<char>,
    pub reference: Seq<char>,
}

impl View for Vcs {
    type V = VcsModel;

    open spec fn view(&self) -> VcsModel {
        VcsModel {
            system: self.system@,
            commit: self.commit@,
            reference: self.reference@,
        }
    }
}

/// What an optional provenance record holds.
pub open spec fn opt_vcs(v: Option<Vcs>) -> Option<VcsModel> {
    match v {
        Some(v) => Some(v@),
        None => None,
    }
}

/// One finding as stored in a snapshot. Positions are kept for display but never take part
/// in identity.
#[derive(Debug)]
pub struct SnapshotFinding {
    pub fingerprint: String,
    /// Path-independent identity half; enables rename remapping. Empty in old snapshots.
    pub content_key: String,
    pub rule_id: String,
    pub severity: Severity,
    pub language: String,
    pub file: String,
    pub start: Position,
    pub end: Position,
    pub context_hash: String,
    pub occurrence: usize,
}

/// What a stored finding holds.
#[verifier::ext_equal]
pub struct StoredModel {
    pub fingerprint: Seq<char>,
    pub content_key: Seq<char>,
    pub rule_id: Seq<char>,
    pub severity: Severity,
    pub language: Seq<char>,
    pub file: Seq<char>,
    pub start: Position,
    pub end: Position,
    pub context_hash: Seq<char>,
    pub occurrence: usize,
}

impl View for SnapshotFinding {
    type V = StoredModel;

    open spec fn view(&self) -> StoredModel {
        StoredModel {
            fingerprint: self.fingerprint@,
            content_key: self.content_key@,
            rule_id: self.rule_id@,
            severity: self.severity,
            language: self.language@,
            file: self.file@,
            start: self.start,
            end: self.end,
            context_hash: self.context_hash@,
            occurrence: self.occurrence,
        }
    }
}

/// What a list of stored findings holds.
pub open spec fn stored_models(s: Seq<SnapshotFinding>) -> Seq<StoredModel> {
    s.map_values(|f: SnapshotFinding| f@)
}

/// What a snapshot keeps of a finding.
pub open spec fn stored(f: finding::FindingModel) -> StoredModel {
    StoredModel {
        fingerprint: f.fingerprint,
        content_key: f.content_key,
        rule_id: f.rule_id,
        severity: f.severity,
        language: f.language,
        file: f.file,
        start: f.start,
        end: f.end,
        context_hash: f.context_hash,
        occurrence: f.occurrence,
    }
}

/// The message of a finding that is no longer there.
pub open spec fn resolved_message(rule_id: Seq<char>) -> Seq<char> {
    "resolved finding for rule '"@ + rule_id + "'"@
}

/// The finding that a stored one stands for. There is no source to read, so the snippet is
/// empty and the message is made from the rule id.
pub open spec fn rebuilt(s: StoredModel) -> finding::FindingModel {
    finding::FindingModel {
        rule_id: s.rule_id,
        message: resolved_message(s.rule_id),
        severity: s.severity,
        language: s.language,
        file: s.file,
        start: s.start,
        end: s.end,
        snippet: seq![],
        fingerprint: s.fingerprint,
        content_key: s.content_key,
        context_hash: s.context_hash,
        occurrence: s.occurrence,
        state: None,
        diff_relation: None,
        new_cause: None,
    }
}

/// Storing a rebuilt finding gives back what was stored.
pub proof fn lemma_stored_rebuilt(s: StoredModel)
    ensures
        stored(rebuilt(s)) == s,
{
}

impl SnapshotFinding {
    /// What a snapshot keeps of a finding.
    pub fn from_finding(f: &Finding) -> (r: Self)
        ensures
            r@ == stored(f@),
    {
        SnapshotFinding {
            fingerprint: f.fingerprint.clone(),
            content_key: f.content_key.clone(),
            rule_id: f.rule_id.clone(),
            severity: f.severity,
            language: f.language.clone(),
            file: f.file.clone(),
            start: f.start,
            end: f.end,
            context_hash: f.context_hash.clone(),
            occurrence: f.occurrence,
        }
    }

    /// Rebuild a finding from stored data, to surface findings that are no longer there.
    pub fn to_finding(&self) -> (r: Finding)
        ensures
            r@ == rebuilt(self@),
    {
        let mut message = "resolved finding for rule '".to_owned();
        message.append(self.rule_id.as_str());
        message.append("'");
        Finding {
            rule_id: self.rule_id.clone(),
            message,
            severity: self.severity,
            language: self.language.clone(),
            file: self.file.clone(),
            start: self.start,
            end: self.end,
            snippet: String::new(),
            fingerprint: self.fingerprint.clone(),
            content_key: self.content_key.clone(),
            context_hash: self.context_hash.clone(),
            occurrence: self.occurrence,
            state: None,
            diff_relation: None,
            new_cause: None,
        }
    }
}

/// The snapshot document.
#[derive(Debug)]
pub struct Snapshot {
    pub schema: String,
    pub engine_version: String,
    /// Hash over what the rules match; the rule-set identity used for comparability.
    pub ruleset_id: String,
    pub grammar_versions: GrammarVersions,
    pub vcs: Option<Vcs>,
    pub findings: Vec<SnapshotFinding>,
    pub suppressions: Vec<String>,
}

/// What a snapshot holds.
#[verifier::ext_equal]
pub struct SnapshotModel {
    pub schema: Seq<char>,
    pub engine_version: Seq<char>,
    pub ruleset_id: Seq<char>,
    pub grammar_versions: Seq<(Seq<char>, Seq<char>)>,
    pub vcs: Option<VcsModel>,
    pub findings: Seq<StoredModel>,
    pub suppressions: Seq<Seq<char>>,
}

impl View for Snapshot {
    type V = SnapshotModel;

    open spec fn view(&self) -> SnapshotModel {
        SnapshotModel {
            schema: self.schema@,
            engine_version: self.engine_version@,
            ruleset_id: self.ruleset_id@,
            grammar_versions: self.grammar_versions@,
            vcs: opt_vcs(self.vcs),
            findings: stored_models(self.findings@),
            suppressions: text::texts(self.suppressions@),
        }
    }
}

/// The engine's version string, as recorded in and checked against snapshots.
pub fn engine_version() -> (r: String)
    ensures
        r@ == ENGINE_VERSION@,
{
    ENGINE_VERSION.to_owned()
}

/// What a snapshot keeps of findings.
pub open spec fn stored_all(s: Seq<finding::FindingModel>) -> Seq<StoredModel> {
    s.map_values(|f: finding::FindingModel| stored(f))
}

/// Is a snapshot of a fingerprint scheme without content keys? Nothing in it could ever
/// match.
pub open spec fn incompatible_scheme(s: Seq<StoredModel>) -> bool {
    s.len() > 0 && forall|i: int| 0 <= i < s.len() ==> (#[trigger] s[i]).content_key.len() == 0
}

/// Why a snapshot is refused as a baseline; none if it is accepted.
pub open spec fn refusal(path: Seq<char>, s: SnapshotModel) -> Option<Seq<char>> {
    if s.schema != SCHEMA@ {
        Some(
            "baseline snapshot "@ + path + " has schema '"@ + s.schema
                + "', but this build understands '"@ + SCHEMA@
                + "'; re-generate the baseline or upgrade crit"@,
        )
    } else if incompatible_scheme(s.findings) {
        Some(
            "baseline snapshot "@ + path + " was produced by crit "@ + s.engine_version
                + " using an incompatible fingerprint scheme; regenerate it with --emit-snapshot, or pass --diff-base to derive one by rescanning the base ref"@,
        )
    } else {
        None
    }
}

/// One reason a baseline is not identity-identical to the current scan.
#[derive(Debug)]
pub enum Mismatch {
    Ruleset { base: String, current: String },
    Engine { base: String, current: String },
    Grammar { language: String, base: String, current: String },
}

/// What a mismatch holds.
#[verifier::ext_equal]
pub enum MismatchModel {
    Ruleset { base: Seq<char>, current: Seq<char> },
    Engine { base: Seq<char>, current: Seq<char> },
    Grammar { language: Seq<char>, base: Seq<char>, current: Seq<char> },
}

impl View for Mismatch {
    type V = MismatchModel;

    open spec fn view(&self) -> MismatchModel {
        match self {
            Mismatch::Ruleset { base, current } => MismatchModel::Ruleset {
                base: base@,
                current: current@,
            },
            Mismatch::Engine { base, current } => MismatchModel::Engine {
                base: base@,
                current: current@,
            },
            Mismatch::Grammar { language, base, current } => MismatchModel::Grammar {
                language: language@,
                base: base@,
                current: current@,
            },
        }
    }
}

/// What a list of mismatches holds.
pub open spec fn mismatch_models(s: Seq<Mismatch>) -> Seq<MismatchModel> {
    s.map_values(|m: Mismatch| m@)
}

/// A mismatch in words.
pub open spec fn mismatch_text(m: MismatchModel) -> Seq<char> {
    match m {
        MismatchModel::Ruleset { base, current } => "ruleset changed ("@ + base + " → "@ + current
            + ")"@,
        MismatchModel::Engine { base, current } => "engine version changed ("@ + base + " → "@
            + current + ")"@,
        MismatchModel::Grammar { language, base, current } => "grammar '"@ + language
            + "' changed ("@ + base + " → "@ + current + ")"@,
    }
}

impl Mismatch {
    /// The mismatch in words.
    pub fn describe(&self) -> (r: String)
        ensures
            r@ == mismatch_text(self@),
    {
        let mut out = String::new();
        match self {
            Mismatch::Ruleset { base, current } => {
                out.append("ruleset changed (");
                out.append(base.as_str());
                out.append(" → ");
                out.append(current.as_str());
                out.append(")");
            },
            Mismatch::Engine { base, current } => {
                out.append("engine version changed (");
                out.append(base.as_str());
                out.append(" → ");
                out.append(current.as_str());
                out.append(")");
            },
            Mismatch::Grammar { language, base, current } => {
                out.append("grammar '");
                out.append(language.as_str());
                out.append("' changed (");
                out.append(base.as_str());
                out.append(" → ");
                out.append(current.as_str());
                out.append(")");
            },
        }
        assert(out@ =~= mismatch_text(self@));
        out
    }
}

/// The mismatch of one grammar that the current scan relied on, if there is one.
pub open spec fn grammar_mismatch(
    base: Seq<(Seq<char>, Seq<char>)>,
    current: (Seq<char>, Seq<char>),
) -> Option<MismatchModel> {
    match grammars::version_of(base, current.0) {
        Some(v) => if v == current.1 {
            None
        } else {
            Some(
                MismatchModel::Grammar { language: current.0, base: v, current: current.1 },
            )
        },
        None => Some(
            MismatchModel::Grammar { language: current.0, base: "(absent)"@, current: current.1 },
        ),
    }
}

/// The mismatches of the grammars that the current scan relied on.
pub open spec fn grammar_mismatches(
    base: Seq<(Seq<char>, Seq<char>)>,
    current: Seq<(Seq<char>, Seq<char>)>,
) -> Seq<MismatchModel>
    decreases current.len(),
{
    if current.len() == 0 {
        seq![]
    } else {
        let rest = grammar_mismatches(base, current.drop_last());
        match grammar_mismatch(base, current.last()) {
            Some(m) => rest.push(m),
            None => rest,
        }
    }
}

/// Why a baseline is not identity-identical to a scan with the given rule set and grammars.
pub open spec fn mismatches(
    base: SnapshotModel,
    ruleset_id: Seq<char>,
    grammars: Seq<(Seq<char>, Seq<char>)>,
) -> Seq<MismatchModel> {
    let ruleset = if base.ruleset_id != ruleset_id {
        seq![MismatchModel::Ruleset { base: base.ruleset_id, current: ruleset_id }]
    } else {
        seq![]
    };
    let engine = if base.engine_version != ENGINE_VERSION@ {
        seq![MismatchModel::Engine { base: base.engine_version, current: ENGINE_VERSION@ }]
    } else {
        seq![]
    };
    ruleset + engine + grammar_mismatches(base.grammar_versions, grammars)
}

impl Snapshot {
    /// Build a snapshot from the canonical finding set of a scan.
    pub fn from_findings(
        findings: &[Finding],
        ruleset_id: String,
        grammar_versions: GrammarVersions,
        vcs: Option<Vcs>,
    ) -> (r: Self)
        ensures
            r@ == (SnapshotModel {
                schema: SCHEMA@,
                engine_version: ENGINE_VERSION@,
                ruleset_id: ruleset_id@,
                grammar_versions: grammar_versions@,
                vcs: opt_vcs(vcs),
                findings: stored_all(finding::models(findings@)),
                suppressions: seq![],
            }),
    {
        let ghost ms = finding::models(findings@);
        let mut kept: Vec<SnapshotFinding> = Vec::new();
        for i in 0..findings.len()
            invariant
                ms == finding::models(findings@),
                stored_models(kept@) == stored_all(ms.take(i as int)),
        {
            let ghost before = stored_models(kept@);
            kept.push(SnapshotFinding::from_finding(&findings[i]));
            assert(stored_models(kept@) =~= before.push(stored(ms[i as int])));
            assert(stored_models(kept@) =~= stored_all(ms.take(i + 1)));
        }
        assert(ms.take(ms.len() as int) =~= ms);
        let none: Vec<String> = Vec::new();
        assert(text::texts(none@) =~= seq![]);
        Snapshot {
            schema: SCHEMA.to_owned(),
            engine_version: engine_version(),
            ruleset_id,
            grammar_versions,
            vcs,
            findings: kept,
            suppressions: none,
        }
    }

    /// Accept a snapshot read from `path` as a baseline, or say why it is refused: its schema
    /// is not understood, or none of its findings has a content key, so that no fingerprint
    /// in it could ever match.
    pub fn load(path: &str, parsed: Snapshot) -> (r: Result<Snapshot, String>)
        ensures
            match r {
                Ok(s) => s == parsed && refusal(path@, parsed@) is None,
                Err(e) => refusal(path@, parsed@) == Some(e@),
            },
    {
        if !text::same(parsed.schema.as_str(), SCHEMA) {
            let mut e = "baseline snapshot ".to_owned();
            e.append(path);
            e.append(" has schema '");
            e.append(parsed.schema.as_str());
            e.append("', but this build understands '");
            e.append(SCHEMA);
            e.append("'; re-generate the baseline or upgrade crit");
            return Err(e);
        }
        let ghost all = stored_models(parsed.findings@);
        let mut keyed = parsed.findings.len() == 0;
        for i in 0..parsed.findings.len()
            invariant
                all == stored_models(parsed.findings@),
                keyed == (parsed.findings@.len() == 0 || exists|k: int|
                    0 <= k < i && (#[trigger] all[k]).content_key.len() > 0),
        {
            if !parsed.findings[i].content_key.as_str().is_empty() {
                assert(all[i as int].content_key.len() > 0);
                keyed = true;
            } else {
                assert(all[i as int].content_key.len() == 0);
            }
        }
        assert(keyed == !incompatible_scheme(all));
        if !keyed {
            let mut e = "baseline snapshot ".to_owned();
            e.append(path);
            e.append(" was produced by crit ");
            e.append(parsed.engine_version.as_str());
            e.append(
                " using an incompatible fingerprint scheme; regenerate it with --emit-snapshot, or pass --diff-base to derive one by rescanning the base ref",
            );
            return Err(e);
        }
        Ok(parsed)
    }

    /// Compare this baseline's identity against the current scan's. An empty result means
    /// that the two are directly comparable; any entry says why what is new since the
    /// baseline might conflate code changes with rule-set, engine or grammar changes. Only
    /// grammars that the current scan relied on are compared.
    pub fn comparability(
        &self,
        current_ruleset_id: &str,
        current_grammars: &GrammarVersions,
    ) -> (r: Vec<Mismatch>)
        ensures
            mismatch_models(r@) == mismatches(self@, current_ruleset_id@, current_grammars@),
    {
        let mut out: Vec<Mismatch> = Vec::new();
        if !text::same(self.ruleset_id.as_str(), current_ruleset_id) {
            out.push(
                Mismatch::Ruleset {
                    base: self.ruleset_id.clone(),
                    current: current_ruleset_id.to_owned(),
                },
            );
        }
        let current_engine = engine_version();
        if !text::same(self.engine_version.as_str(), current_engine.as_str()) {
            out.push(
                Mismatch::Engine { base: self.engine_version.clone(), current: current_engine },
            );
        }
        let ghost head = mismatch_models(out@);
        let grammars = current_grammars.entries();
        let ghost cur = current_grammars@;
        let ghost base = self.grammar_versions@;
        assert(head =~= head + grammar_mismatches(base, cur.take(0)));
        for i in 0..grammars.len()
            invariant
                cur == grammars::version_pairs(grammars@),
                base == self.grammar_versions@,
                mismatch_models(out@) == head + grammar_mismatches(base, cur.take(i as int)),
        {
            let lang = &grammars[i].language;
            let version = &grammars[i].version;
            let ghost before = mismatch_models(out@);
            assert(cur.take(i + 1).drop_last() =~= cur.take(i as int));
            assert(cur[i as int] == (lang@, version@));
            match self.grammar_versions.get(lang.as_str()) {
                Some(v) => {
                    if !text::same(v.as_str(), version.as_str()) {
                        out.push(
                            Mismatch::Grammar {
                                language: lang.clone(),
                                base: v.clone(),
                                current: version.clone(),
                            },
                        );
                        assert(mismatch_models(out@) =~= before.push(
                            MismatchModel::Grammar {
                                language: lang@,
                                base: v@,
                                current: version@,
                            },
                        ));
                    }
                },
                None => {
                    out.push(
                        Mismatch::Grammar {
                            language: lang.clone(),
                            base: "(absent)".to_owned(),
                            current: version.clone(),
                        },
                    );
                    assert(mismatch_models(out@) =~= before.push(
                        MismatchModel::Grammar {
                            language: lang@,
                            base: "(absent)"@,
                            current: version@,
                        },
                    ));
                },
            }
            assert(mismatch_models(out@) =~= head + grammar_mismatches(base, cur.take(i + 1)));
        }
        assert(cur.take(cur.len() as int) =~= cur);
        assert(mismatch_models(out@) =~= mismatches(self@, current_ruleset_id@, cur));
        out
    }
}

// ---------------------------------------------------------------------------
// Renames
// ---------------------------------------------------------------------------

/// The new path of a renamed file: the last rename of its old path counts.
pub open spec fn renamed(renames: Seq<(Seq<char>, Seq<char>)>, old: Seq<char>) -> Option<Seq<char>>
    decreases renames.len(),
{
    if renames.len() == 0 {
        None
    } else if renames.last().0 == old {
        Some(renames.last().1)
    } else {
        renamed(renames.drop_last(), old)
    }
}

/// Does a rename move the finding? Without a content key its fingerprint could not be
/// recomposed.
pub open spec fn moves(renames: Seq<(Seq<char>, Seq<char>)>, f: StoredModel) -> bool {
    renamed(renames, fingerprint::path_identity(f.file)) is Some && f.content_key.len() > 0
}

/// The finding under the new path of its file.
pub open spec fn moved(renames: Seq<(Seq<char>, Seq<char>)>, f: StoredModel) -> StoredModel {
    if moves(renames, f) {
        let path = renamed(renames, fingerprint::path_identity(f.file))->Some_0;
        StoredModel {
            file: path,
            fingerprint: fingerprint::composed(fingerprint::path_identity(path), f.content_key),
            ..f
        }
    } else {
        f
    }
}

/// The findings under the new paths of their files.
pub open spec fn moved_all(renames: Seq<(Seq<char>, Seq<char>)>, s: Seq<StoredModel>) -> Seq<
    StoredModel,
> {
    s.map_values(|f: StoredModel| moved(renames, f))
}

/// How many findings the renames move.
pub open spec fn move_count(renames: Seq<(Seq<char>, Seq<char>)>, s: Seq<StoredModel>) -> nat
    decreases s.len(),
{
    if s.len() == 0 {
        0
    } else {
        move_count(renames, s.drop_last()) + if moves(renames, s.last()) {
            1nat
        } else {
            0nat
        }
    }
}

/// Where a stored finding stands, for the canonical order.
pub open spec fn stored_place(f: StoredModel) -> sort::Place {
    sort::Place {
        file: path::path_parts(f.file),
        start: f.start,
        end: f.end,
        rule_id: f.rule_id,
        occurrence: 0,
    }
}

/// Where stored findings stand.
pub open spec fn stored_places(s: Seq<StoredModel>) -> Seq<sort::Place> {
    s.map_values(|f: StoredModel| stored_place(f))
}

/// The fingerprints of stored findings.
pub open spec fn stored_fingerprints(s: Seq<StoredModel>) -> Seq<Seq<char>> {
    s.map_values(|f: StoredModel| f.fingerprint)
}

/// How many findings with the fingerprint of the `i`-th precede it in canonical order.
pub open spec fn canonical_number(s: Seq<StoredModel>, i: int) -> nat {
    let ord = sort::stable_order(stored_places(s));
    finding::count_of(
        sort::arranged(stored_fingerprints(s), ord).take(sort::rank_in(ord, i)),
        s[i].fingerprint,
    )
}

/// The findings, each numbered by how many with its fingerprint precede it in canonical
/// order.
pub open spec fn renumbered(s: Seq<StoredModel>) -> Seq<StoredModel> {
    Seq::new(
        s.len(),
        |i: int| StoredModel { occurrence: canonical_number(s, i) as usize, ..s[i] },
    )
}

/// The findings after the renames.
pub open spec fn remapped(renames: Seq<(Seq<char>, Seq<char>)>, s: Seq<StoredModel>) -> Seq<
    StoredModel,
> {
    if move_count(renames, s) == 0 {
        s
    } else {
        renumbered(moved_all(renames, s))
    }
}

proof fn lemma_move_count(renames: Seq<(Seq<char>, Seq<char>)>, s: Seq<StoredModel>)
    ensures
        move_count(renames, s) <= s.len(),
        move_count(renames, s) == 0 <==> forall|i: int|
            0 <= i < s.len() ==> !moves(renames, #[trigger] s[i]),
    decreases s.len(),
{
    if s.len() > 0 {
        let init = s.drop_last();
        lemma_move_count(renames, init);
        assert forall|i: int| 0 <= i < init.len() implies init[i] == s[i] by {}
        if move_count(renames, s) == 0 {
            assert forall|i: int| 0 <= i < s.len() implies !moves(renames, #[trigger] s[i]) by {
                if i < init.len() {
                    assert(init[i] == s[i]);
                }
            }
        } else if moves(renames, s.last()) {
            assert(moves(renames, s[s.len() - 1]));
        } else {
            let k = choose|k: int| 0 <= k < init.len() && moves(renames, #[trigger] init[k]);
            assert(moves(renames, s[k]));
        }
    }
}

fn find_rename<'a>(renames: &'a [(String, String)], old: &str) -> (r: Option<&'a String>)
    ensures
        match r {
            Some(n) => renamed(git::pairs(renames@), old@) == Some(n@),
            None => renamed(git::pairs(renames@), old@) is None,
        },
{
    let ghost all = git::pairs(renames@);
    let mut k: usize = renames.len();
    assert(all.take(k as int) =~= all);
    while k > 0
        invariant
            k <= renames@.len(),
            all == git::pairs(renames@),
            renamed(all, old@) == renamed(all.take(k as int), old@),
        decreases k,
    {
        assert(all.take(k as int).drop_last() =~= all.take(k - 1));
        assert(all[k - 1] == (renames@[k - 1].0@, renames@[k - 1].1@));
        if text::same(renames[k - 1].0.as_str(), old) {
            return Some(&renames[k - 1].1);
        }
        k = k - 1;
    }
    None
}

fn stored_key(f: &SnapshotFinding) -> (r: PlaceKey)
    ensures
        r@ == stored_place(f@),
{
    PlaceKey {
        file: path::components(f.file.as_str()),
        start: f.start,
        end: f.end,
        rule_id: f.rule_id.clone(),
        occurrence: 0,
    }
}

/// Number the findings among equal fingerprints, in canonical order.
fn renumber(findings: &mut Vec<SnapshotFinding>)
    ensures
        stored_models(final(findings)@) == renumbered(stored_models(old(findings)@)),
{
    let ghost ms = stored_models(findings@);
    let n = findings.len();
    let mut keys: Vec<PlaceKey> = Vec::new();
    for i in 0..n
        invariant
            ms == stored_models(findings@),
            n == findings@.len(),
            sort::places(keys@) == stored_places(ms.take(i as int)),
    {
        let ghost before = sort::places(keys@);
        keys.push(stored_key(&findings[i]));
        assert(sort::places(keys@) =~= before.push(stored_place(ms[i as int])));
        assert(sort::places(keys@) =~= stored_places(ms.take(i + 1)));
    }
    assert(ms.take(ms.len() as int) =~= ms);
    assert(keys@.len() == sort::places(keys@).len());
    let order = sort::sorted_positions(&keys);
    let ghost ord = sort::stable_order(stored_places(ms));
    let ghost fps = sort::arranged(stored_fingerprints(ms), ord);
    proof {
        sort::lemma_stable_order(stored_places(ms));
        assert(ord == sort::as_ints(order@));
    }
    let mut table: StringHashMap<usize> = StringHashMap::new();
    for k in 0..order.len()
        invariant
            ms.len() == n,
            findings@.len() == n,
            ord == sort::as_ints(order@),
            order@.len() == n,
            ord == sort::stable_order(stored_places(ms)),
            sort::is_permutation(ord, n as nat),
            fps == sort::arranged(stored_fingerprints(ms), ord),
            finding::tallies(table@, fps.take(k as int)),
            forall|j: int|
                k <= j < n ==> findings@[#[trigger] ord[j]]@ == ms[ord[j]],
            forall|j: int|
                0 <= j < k ==> findings@[#[trigger] ord[j]]@ == renumbered(ms)[ord[j]],
    {
        let i = order[k];
        let ghost before = table@;
        let ghost prev = findings@;
        proof {
            assert(ord[k as int] == i);
            assert(findings@[ord[k as int]]@ == ms[ord[k as int]]);
            assert(fps[k as int] == ms[i as int].fingerprint);
            finding::lemma_count_of_bound(fps.take(k as int), fps[k as int]);
            assert(fps.take(k + 1).drop_last() =~= fps.take(k as int));
        }
        let number = finding::next_number(&mut table, findings[i].fingerprint.as_str());
        findings[i].occurrence = number;
        proof {
            assert(sort::rank_in(ord, i as int) == k) by {
                let r = ord.index_of(i as int);
                assert(ord[k as int] == i);
                assert(0 <= r < ord.len() && ord[r] == i);
            }
            assert(findings@[i as int]@ == renumbered(ms)[i as int]);
            assert forall|j: int| k + 1 <= j < n implies findings@[#[trigger] ord[j]]@
                == ms[ord[j]] by {
                assert(ord[j] != ord[k as int]);
                assert(prev[ord[j]]@ == ms[ord[j]]);
            }
            assert forall|j: int| 0 <= j < k + 1 implies findings@[#[trigger] ord[j]]@
                == renumbered(ms)[ord[j]] by {
                if j < k {
                    assert(ord[j] != ord[k as int]);
                    assert(prev[ord[j]]@ == renumbered(ms)[ord[j]]);
                }
            }
            assert forall|x: Seq<char>| #[trigger]
                finding::count_of(fps.take(k + 1), x) == if table@.contains_key(x) {
                    table@[x] as nat
                } else {
                    0nat
                } by {
                let c = finding::count_of(fps.take(k as int), x);
                finding::lemma_count_of_bound(fps.take(k as int), x);
            }
        }
    }
    proof {
        assert forall|i: int| 0 <= i < n implies findings@[i]@ == renumbered(ms)[i] by {
            sort::lemma_permutation_covers(ord, n as nat, i);
            let j = choose|j: int| 0 <= j < ord.len() && ord[j] == i;
            assert(findings@[ord[j]]@ == renumbered(ms)[ord[j]]);
        }
        assert(stored_models(findings@) =~= renumbered(ms));
    }
}

impl Snapshot {
    /// Apply file renames to this baseline: each affected finding's path is rewritten and its
    /// fingerprint recomposed from its content key under the new path, so that a renamed but
    /// unchanged finding matches its counterpart. Findings without a content key stay as
    /// they are. The result is how many findings were moved.
    ///
    /// Recomposition can merge the findings of two files under one path, so occurrences are
    /// then numbered anew in canonical order.
    pub fn remap_renames(&mut self, renames: &[(String, String)]) -> (r: usize)
        ensures
            r == move_count(git::pairs(renames@), old(self)@.findings),
            final(self)@ == (SnapshotModel {
                findings: remapped(git::pairs(renames@), old(self)@.findings),
                ..old(self)@
            }),
    {
        let ghost all = git::pairs(renames@);
        let ghost ms = stored_models(self.findings@);
        let ghost start = self@;
        let n = self.findings.len();
        let mut count: usize = 0;
        for i in 0..n
            invariant
                all == git::pairs(renames@),
                ms.len() == n,
                self.findings@.len() == n,
                self@ == (SnapshotModel { findings: self@.findings, ..start }),
                count == move_count(all, ms.take(i as int)),
                forall|j: int| 0 <= j < i ==> #[trigger] self.findings@[j]@ == moved(all, ms[j]),
                forall|j: int| i <= j < n ==> #[trigger] self.findings@[j]@ == ms[j],
        {
            let ghost prev = self.findings@;
            assert(ms.take(i + 1).drop_last() =~= ms.take(i as int));
            assert(self.findings@[i as int]@ == ms[i as int]);
            proof {
                lemma_move_count(all, ms.take(i as int));
            }
            let key = fingerprint::identity_path(self.findings[i].file.as_str());
            if let Some(new_path) = find_rename(renames, key.as_str()) {
                if !self.findings[i].content_key.as_str().is_empty() {
                    let identity = fingerprint::identity_path(new_path.as_str());
                    let fp = fingerprint::compose(
                        identity.as_str(),
                        self.findings[i].content_key.as_str(),
                    );
                    self.findings[i].file = new_path.clone();
                    self.findings[i].fingerprint = fp;
                    count = count + 1;
                    assert(self.findings@[i as int]@ == moved(all, ms[i as int]));
                }
            }
            proof {
                assert forall|j: int| 0 <= j < i + 1 implies #[trigger] self.findings@[j]@
                    == moved(all, ms[j]) by {
                    if j < i {
                        assert(prev[j]@ == moved(all, ms[j]));
                    }
                }
                assert forall|j: int| i + 1 <= j < n implies #[trigger] self.findings@[j]@
                    == ms[j] by {
                    assert(prev[j]@ == ms[j]);
                }
            }
        }
        assert(ms.take(ms.len() as int) =~= ms);
        assert(stored_models(self.findings@) =~= moved_all(all, ms));
        if count > 0 {
            renumber(&mut self.findings);
        } else {
            proof {
                lemma_move_count(all, ms);
                assert(moved_all(all, ms) =~= ms);
            }
        }
        count
    }
}

// ---------------------------------------------------------------------------
// What comparing and remapping keep
// ---------------------------------------------------------------------------

proof fn lemma_grammar_mismatches_empty(
    base: Seq<(Seq<char>, Seq<char>)>,
    current: Seq<(Seq<char>, Seq<char>)>,
)
    ensures
        grammar_mismatches(base, current).len() == 0 <==> forall|i: int|
            0 <= i < current.len() ==> grammars::version_of(base, (#[trigger] current[i]).0) == Some(
                current[i].1,
            ),
    decreases current.len(),
{
    if current.len() > 0 {
        let init = current.drop_last();
        lemma_grammar_mismatches_empty(base, init);
        if grammar_mismatches(base, current).len() == 0 {
            assert forall|i: int| 0 <= i < current.len() implies grammars::version_of(
                base,
                (#[trigger] current[i]).0,
            ) == Some(current[i].1) by {
                if i < init.len() {
                    assert(init[i] == current[i]);
                }
            }
        } else if grammar_mismatch(base, current.last()) is Some {
            assert(grammars::version_of(base, current[current.len() - 1].0) != Some(current.last().1));
        } else {
            let i = choose|i: int|
                0 <= i < init.len() && grammars::version_of(base, (#[trigger] init[i]).0) != Some(init[i].1);
            assert(current[i] == init[i]);
        }
    }
}

/// A baseline is comparable exactly when it has the scan's rule set, this engine's version,
/// and the version of every grammar that the scan relied on.
pub proof fn lemma_comparable(
    base: SnapshotModel,
    ruleset_id: Seq<char>,
    grammars: Seq<(Seq<char>, Seq<char>)>,
)
    ensures
        mismatches(base, ruleset_id, grammars).len() == 0 <==> {
            &&& base.ruleset_id == ruleset_id
            &&& base.engine_version == ENGINE_VERSION@
            &&& forall|i: int|
                0 <= i < grammars.len() ==> grammars::version_of(
                    base.grammar_versions,
                    (#[trigger] grammars[i]).0,
                ) == Some(grammars[i].1)
        },
{
    lemma_grammar_mismatches_empty(base.grammar_versions, grammars);
}

/// A scan is comparable with the snapshot that it emits itself.
pub proof fn lemma_self_comparable(s: SnapshotModel)
    requires
        s.engine_version == ENGINE_VERSION@,
        grammars::ascending(s.grammar_versions),
    ensures
        mismatches(s, s.ruleset_id, s.grammar_versions).len() == 0,
{
    lemma_comparable(s, s.ruleset_id, s.grammar_versions);
    let g = s.grammar_versions;
    assert forall|i: int| 0 <= i < g.len() implies grammars::version_of(g, (#[trigger] g[i]).0) == Some(
        g[i].1,
    ) by {
        grammars::lemma_version_of(g, g[i].0);
    }
}

/// Do no two stored findings share their fingerprint and their occurrence number?
pub open spec fn uniquely_stored(s: Seq<StoredModel>) -> bool {
    forall|i: int, j: int|
        #![trigger s[i], s[j]]
        0 <= i < j < s.len() ==> s[i].fingerprint != s[j].fingerprint || s[i].occurrence
            != s[j].occurrence
}

/// What a moved finding's fingerprint is: that of a finding with the same content at a path
/// that has the identity of the new one.
pub proof fn lemma_moved_as_if_fresh(
    renames: Seq<(Seq<char>, Seq<char>)>,
    f: StoredModel,
    fresh: finding::FindingModel,
)
    requires
        moves(renames, f),
        fingerprint::path_identity(
            renamed(renames, fingerprint::path_identity(f.file))->Some_0,
        ) == fingerprint::path_identity(fresh.file),
        fresh.content_key == f.content_key,
        fresh.fingerprint == fingerprint::composed(
            fingerprint::path_identity(fresh.file),
            fresh.content_key,
        ),
    ensures
        moved(renames, f).fingerprint == fresh.fingerprint,
{
}

/// Renames that name none of the files leave the findings as they are.
pub proof fn lemma_remap_elsewhere(renames: Seq<(Seq<char>, Seq<char>)>, s: Seq<StoredModel>)
    requires
        forall|i: int|
            0 <= i < s.len() ==> renamed(
                renames,
                fingerprint::path_identity((#[trigger] s[i]).file),
            ) is None,
    ensures
        remapped(renames, s) == s,
        move_count(renames, s) == 0,
{
    lemma_move_count(renames, s);
}

/// Numbering in canonical order makes every stored finding individually addressable.
pub proof fn lemma_renumbered_unique(s: Seq<StoredModel>)
    requires
        s.len() <= usize::MAX,
    ensures
        uniquely_stored(renumbered(s)),
{
    let r = renumbered(s);
    let keys = stored_places(s);
    let fps = stored_fingerprints(s);
    let ord = sort::stable_order(keys);
    let items = sort::arranged(fps, ord);
    sort::lemma_stable_order(keys);
    assert forall|i: int, j: int|
        #![trigger r[i], r[j]]
        0 <= i < j < r.len() implies r[i].fingerprint != r[j].fingerprint || r[i].occurrence
        != r[j].occurrence by {
        if s[i].fingerprint == s[j].fingerprint {
            sort::lemma_rank_order(keys, j, i);
            sort::lemma_rank_order(keys, i, j);
            let (a, b) = (sort::rank_in(ord, i), sort::rank_in(ord, j));
            assert(ord[a] == i && ord[b] == j);
            assert(items[a] == fps[i] && items[b] == fps[j]);
            finding::lemma_count_of_bound(items.take(a), fps[i]);
            finding::lemma_count_of_bound(items.take(b), fps[i]);
            if a < b {
                finding::lemma_count_of_increases(items, a, b);
            } else {
                assert(b < a);
                finding::lemma_count_of_increases(items, b, a);
            }
        }
    }
}

/// Remapping keeps what differencing relies on: no two findings share their fingerprint and
/// their occurrence number.
pub proof fn lemma_remapped_unique(renames: Seq<(Seq<char>, Seq<char>)>, s: Seq<StoredModel>)
    requires
        s.len() <= usize::MAX,
        uniquely_stored(s),
    ensures
        uniquely_stored(remapped(renames, s)),
{
    lemma_renumbered_unique(moved_all(renames, s));
}

/// A group of equal fingerprints that gains no finding from another group is numbered as it
/// was before the renames, where a fingerprint stands for one file and one content key.
pub proof fn lemma_remap_keeps_numbers(
    renames: Seq<(Seq<char>, Seq<char>)>,
    s: Seq<StoredModel>,
    i: int,
)
    requires
        0 <= i < s.len(),
        forall|j: int|
            0 <= j < s.len() && (#[trigger] s[j]).fingerprint == s[i].fingerprint ==> s[j].file
                == s[i].file && s[j].content_key == s[i].content_key,
        forall|j: int|
            0 <= j < s.len() && moved(renames, #[trigger] s[j]).fingerprint == moved(
                renames,
                s[i],
            ).fingerprint ==> s[j].fingerprint == s[i].fingerprint,
    ensures
        canonical_number(moved_all(renames, s), i) == canonical_number(s, i),
{
    let t = moved_all(renames, s);
    let (kt, ks) = (stored_places(t), stored_places(s));
    let (ft, fs) = (stored_fingerprints(t), stored_fingerprints(s));
    sort::lemma_count_before(kt, ft, i, t[i].fingerprint);
    sort::lemma_count_before(ks, fs, i, s[i].fingerprint);
    let a = sort::equals_before(kt, ft, i, t[i].fingerprint);
    let b = sort::equals_before(ks, fs, i, s[i].fingerprint);
    assert forall|j: int| a.contains(j) <==> b.contains(j) by {
        if 0 <= j < s.len() {
            assert(t[j] == moved(renames, s[j]));
            if s[j].fingerprint == s[i].fingerprint {
                // One file before and after, so the rest of the place decides.
                assert(t[j].file == t[i].file);
                assert(t[j].fingerprint == t[i].fingerprint);
                path::lemma_compare_parts_antisymmetric(ks[j].file, ks[i].file);
                path::lemma_compare_parts_antisymmetric(kt[j].file, kt[i].file);
            }
        }
    }
    assert(a =~= b);
}

/// Is the stored finding what is kept of `f`, but for its occurrence number?
spec fn stored_but_number(s: StoredModel, f: finding::FindingModel) -> bool {
    s == StoredModel { occurrence: s.occurrence, ..stored(f) }
}

/// Numbering what is kept of findings in canonical form, in whatever order, gives them their
/// numbers.
proof fn lemma_renumbered_arranged(
    s: Seq<StoredModel>,
    head: Seq<finding::FindingModel>,
    w: Seq<int>,
)
    requires
        head.len() <= usize::MAX,
        finding::finalized(head) == head,
        s.len() == head.len(),
        sort::is_permutation(w, s.len()),
        forall|i: int| 0 <= i < head.len() ==> stored_but_number(s[#[trigger] w[i]], head[i]),
    ensures
        forall|i: int|
            0 <= i < head.len() ==> renumbered(s)[#[trigger] w[i]] == stored(head[i]),
{
    let d = finding::deduped(finding::sorted(head));
    let keys = stored_places(s);
    finding::lemma_finalized(head);
    assert forall|i: int, j: int|
        #![trigger w[i], w[j]]
        0 <= i < j < w.len() implies sort::compare_place(keys[w[i]], keys[w[j]]) < 0 by {
        assert(keys[w[i]] == finding::place(head[i]) && keys[w[j]] == finding::place(head[j]));
    }
    sort::lemma_strict_order_unique(keys, w);
    assert(finding::numbered(d) == head);
    let fps = sort::arranged(stored_fingerprints(s), w);
    assert forall|i: int| 0 <= i < head.len() implies fps[i] == d[i].fingerprint by {
        assert(stored_but_number(s[w[i]], head[i]));
        assert(head[i] == finding::numbered(d)[i]);
    }
    assert(fps =~= finding::fingerprints(d));
    assert forall|i: int| 0 <= i < head.len() implies renumbered(s)[#[trigger] w[i]] == stored(
        head[i],
    ) by {
        assert(w.contains(w[i]));
        assert(sort::rank_in(w, w[i]) == i);
        assert(head[i] == finding::numbered(d)[i]);
        assert(stored_but_number(s[w[i]], head[i]));
    }
}

/// The finding as it is in a file under another path.
pub open spec fn under_path(f: finding::FindingModel, path: Seq<char>) -> finding::FindingModel {
    finding::FindingModel {
        file: path,
        fingerprint: fingerprint::composed(fingerprint::path_identity(path), f.content_key),
        ..f
    }
}

/// The finding as it is after the renames, where nothing else changed.
pub open spec fn after_renames(
    renames: Seq<(Seq<char>, Seq<char>)>,
    f: finding::FindingModel,
) -> finding::FindingModel {
    match renamed(renames, fingerprint::path_identity(f.file)) {
        Some(path) => under_path(f, path),
        None => f,
    }
}

/// The findings as they are after the renames, where nothing else changed.
pub open spec fn all_after_renames(
    renames: Seq<(Seq<char>, Seq<char>)>,
    s: Seq<finding::FindingModel>,
) -> Seq<finding::FindingModel> {
    s.map_values(|f: finding::FindingModel| after_renames(renames, f))
}

/// Does every finding in a renamed file have a content key?
pub open spec fn renamable(
    renames: Seq<(Seq<char>, Seq<char>)>,
    s: Seq<finding::FindingModel>,
) -> bool {
    forall|i: int|
        0 <= i < s.len() && renamed(
            renames,
            fingerprint::path_identity((#[trigger] s[i]).file),
        ) is Some ==> s[i].content_key.len() > 0
}

/// A snapshot that follows the renames holds exactly what a snapshot after the renames would
/// hold, where nothing else changed. The result says where it holds each finding.
pub proof fn lemma_remap_as_if_fresh(
    renames: Seq<(Seq<char>, Seq<char>)>,
    s: Seq<finding::FindingModel>,
) -> (w: Seq<int>)
    requires
        s.len() <= usize::MAX,
        finding::distinct_places(s),
        finding::distinct_places(all_after_renames(renames, s)),
        renamable(renames, s),
    ensures
        ({
            let base = remapped(renames, stored_all(finding::finalized(s)));
            let head = finding::finalized(all_after_renames(renames, s));
            &&& base.len() == s.len()
            &&& head.len() == s.len()
            &&& sort::is_permutation(w, s.len())
            &&& forall|i: int| 0 <= i < s.len() ==> base[#[trigger] w[i]] == stored(head[i])
        }),
{
    let n = s.len();
    let t = all_after_renames(renames, s);
    let before = finding::finalized(s);
    let head = finding::finalized(t);
    let base = stored_all(before);
    let all = moved_all(renames, base);
    let p = sort::stable_order(finding::places(s));
    let q = sort::stable_order(finding::places(t));
    finding::lemma_finalized_distinct(s);
    finding::lemma_finalized_distinct(t);
    finding::lemma_finalized_idempotent(s);
    finding::lemma_finalized_idempotent(t);
    sort::lemma_stable_order(finding::places(s));
    sort::lemma_stable_order(finding::places(t));
    let w = Seq::new(n, |i: int| p.index_of(q[i]));
    assert forall|i: int| 0 <= i < n implies 0 <= #[trigger] w[i] < n && p[w[i]] == q[i] by {
        sort::lemma_permutation_covers(p, n, q[i]);
    }
    assert(w.no_duplicates()) by {
        assert forall|i: int, j: int| 0 <= i < n && 0 <= j < n && i != j implies w[i] != w[j] by {
            assert(q[i] != q[j]);
            assert(p[w[i]] == q[i] && p[w[j]] == q[j]);
        }
    }
    assert forall|i: int| 0 <= i < n implies stored_but_number(
        all[#[trigger] w[i]],
        head[i],
    ) by {
        let f = s[q[i]];
        assert(p[w[i]] == q[i]);
        assert(before[w[i]] == finding::with_occurrence(f, before[w[i]].occurrence as nat));
        assert(head[i] == finding::with_occurrence(t[q[i]], head[i].occurrence as nat));
        assert(t[q[i]] == after_renames(renames, f));
    }
    lemma_renumbered_arranged(all, head, w);
    if move_count(renames, base) == 0 {
        lemma_move_count(renames, base);
        assert(all =~= base);
        let same = Seq::new(n, |i: int| i);
        assert forall|i: int| 0 <= i < n implies stored_but_number(
            base[#[trigger] same[i]],
            before[i],
        ) by {}
        lemma_renumbered_arranged(base, before, same);
        assert forall|i: int| 0 <= i < n implies renumbered(base)[i] == base[i] by {
            assert(same[i] == i);
        }
        assert(renumbered(base) =~= base);
    }
    w
}

// ---------------------------------------------------------------------------
// Rule-set identity
// ---------------------------------------------------------------------------

/// What of a rule decides which findings exist and where they anchor: its id, severity,
/// languages, match capture and query.
pub open spec fn semantic_parts(r: rule::RuleModel) -> Seq<Seq<char>> {
    seq![
        r.id,
        finding::severity_text(r.severity),
        text::joined(r.languages, ","@),
        r.match_capture,
        match rule::query_text(r) {
            Ok(q) => q,
            Err(e) => "<uncompilable:"@ + e + ">"@,
        },
    ]
}

/// What of a rule decides the findings as they are reported: also its message, which is
/// copied into them.
pub open spec fn behavioral_parts(r: rule::RuleModel) -> Seq<Seq<char>> {
    semantic_parts(r).push(r.message)
}

/// The semantic parts of rules, in their order.
pub open spec fn all_semantic(rules: Seq<rule::RuleModel>) -> Seq<Seq<char>>
    decreases rules.len(),
{
    if rules.len() == 0 {
        seq!["crit.ruleset/v2"@]
    } else {
        all_semantic(rules.drop_last()) + semantic_parts(rules.last())
    }
}

/// The behavioral parts of rules, in their order.
pub open spec fn all_behavioral(rules: Seq<rule::RuleModel>) -> Seq<Seq<char>>
    decreases rules.len(),
{
    if rules.len() == 0 {
        seq!["crit.ruleset-cache/v1"@]
    } else {
        all_behavioral(rules.drop_last()) + behavioral_parts(rules.last())
    }
}

/// The identity of a rule set for comparing snapshots.
pub open spec fn semantic_id(rules: Seq<rule::RuleModel>) -> Seq<char> {
    "sha256:"@ + fingerprint::digest_of(all_semantic(rules))
}

/// The identity of a rule set for caching findings.
pub open spec fn behavioral_id(rules: Seq<rule::RuleModel>) -> Seq<char> {
    "sha256:"@ + fingerprint::digest_of(all_behavioral(rules))
}

/// The rules whose findings depend on one file alone, in their order.
pub open spec fn file_local(rules: Seq<rule::RuleModel>) -> Seq<rule::RuleModel> {
    rules.filter(|r: rule::RuleModel| !(r.matcher is CrossFile))
}

fn push_semantic_identity(parts: &mut Vec<String>, r: &Rule)
    ensures
        text::texts(final(parts)@) == text::texts(old(parts)@) + semantic_parts(r@),
{
    let ghost before = text::texts(parts@);
    parts.push(r.id.clone());
    parts.push(r.severity.as_str().to_owned());
    parts.push(text::join(&r.languages, ","));
    parts.push(r.match_capture.clone());
    let query = match r.query_source() {
        Ok(q) => q,
        Err(e) => {
            let mut out = "<uncompilable:".to_owned();
            out.append(e.as_str());
            out.append(">");
            out
        },
    };
    parts.push(query);
    assert(text::texts(parts@) =~= before + semantic_parts(r@));
}

/// Is it `sha256:` and 64 lowercase hexadecimal digits?
pub open spec fn hash_formed(id: Seq<char>) -> bool {
    &&& id.len() == 71
    &&& id.take(7) == "sha256:"@
    &&& fingerprint::all_hex(id.skip(7))
}

fn hash_parts(parts: &Vec<String>) -> (r: String)
    ensures
        r@ == "sha256:"@ + fingerprint::digest_of(text::texts(parts@)),
        hash_formed(r@),
{
    let mut refs: Vec<&str> = Vec::new();
    for i in 0..parts.len()
        invariant
            fingerprint::slices(refs@) == text::texts(parts@).take(i as int),
    {
        let ghost before = fingerprint::slices(refs@);
        refs.push(parts[i].as_str());
        assert(fingerprint::slices(refs@) =~= before.push(parts@[i as int]@));
        assert(fingerprint::slices(refs@) =~= text::texts(parts@).take(i + 1));
    }
    assert(text::texts(parts@).take(parts@.len() as int) =~= text::texts(parts@));
    let mut out = "sha256:".to_owned();
    let digest = fingerprint::sha256_parts(refs.as_slice());
    out.append(digest.as_str());
    proof {
        reveal_strlit("sha256:");
        assert(out@.take(7) =~= "sha256:"@);
        assert(out@.skip(7) =~= digest@);
    }
    out
}

/// Stable hash over the rule set's semantic identity: everything that determines which
/// findings exist and where they anchor. This is the rule-set identity of a snapshot.
pub fn ruleset_id(rules: &[Rule]) -> (r: String)
    ensures
        r@ == semantic_id(rule::rule_models(rules@)),
        r@.len() == 71,
        hash_formed(r@),
{
    let ghost ms = rule::rule_models(rules@);
    let mut parts: Vec<String> = Vec::new();
    parts.push("crit.ruleset/v2".to_owned());
    assert(text::texts(parts@) =~= all_semantic(ms.take(0)));
    for i in 0..rules.len()
        invariant
            ms == rule::rule_models(rules@),
            text::texts(parts@) == all_semantic(ms.take(i as int)),
    {
        assert(ms.take(i + 1).drop_last() =~= ms.take(i as int));
        assert(ms.take(i + 1).last() == rules@[i as int]@);
        push_semantic_identity(&mut parts, &rules[i]);
    }
    assert(ms.take(ms.len() as int) =~= ms);
    hash_parts(&parts)
}

/// Stable hash over the rule set's full behavioral identity: the semantic identity plus the
/// messages, which are copied into findings. This is the cache-key component: a reworded
/// message must miss the cache although the finding set is unchanged.
pub fn ruleset_cache_id(rules: &[Rule]) -> (r: String)
    ensures
        r@ == behavioral_id(rule::rule_models(rules@)),
        r@.len() == 71,
        hash_formed(r@),
{
    let ghost ms = rule::rule_models(rules@);
    let mut parts: Vec<String> = Vec::new();
    parts.push("crit.ruleset-cache/v1".to_owned());
    assert(text::texts(parts@) =~= all_behavioral(ms.take(0)));
    for i in 0..rules.len()
        invariant
            ms == rule::rule_models(rules@),
            text::texts(parts@) == all_behavioral(ms.take(i as int)),
    {
        let ghost before = text::texts(parts@);
        assert(ms.take(i + 1).drop_last() =~= ms.take(i as int));
        assert(ms.take(i + 1).last() == rules@[i as int]@);
        push_semantic_identity(&mut parts, &rules[i]);
        let ghost middle = text::texts(parts@);
        parts.push(rules[i].message.clone());
        assert(text::texts(parts@) =~= middle.push(rules@[i as int].message@));
        assert(text::texts(parts@) =~= before + behavioral_parts(rules@[i as int]@));
    }
    assert(ms.take(ms.len() as int) =~= ms);
    hash_parts(&parts)
}

/// The cache identity of the rules that run file by file. Rules that join findings across
/// files are outside it, since their findings are never cached.
pub fn file_local_cache_id(rules: &[Rule]) -> (r: String)
    ensures
        r@ == behavioral_id(file_local(rule::rule_models(rules@))),
        r@.len() == 71,
        hash_formed(r@),
{
    reveal(Seq::filter);
    let ghost ms = rule::rule_models(rules@);
    let ghost keep = |r: rule::RuleModel| !(r.matcher is CrossFile);
    let mut parts: Vec<String> = Vec::new();
    parts.push("crit.ruleset-cache/v1".to_owned());
    assert(text::texts(parts@) =~= all_behavioral(ms.take(0).filter(keep)));
    for i in 0..rules.len()
        invariant
            ms == rule::rule_models(rules@),
            keep == (|r: rule::RuleModel| !(r.matcher is CrossFile)),
            text::texts(parts@) == all_behavioral(ms.take(i as int).filter(keep)),
    {
        reveal(Seq::filter);
        let ghost before = text::texts(parts@);
        let ghost kept = ms.take(i as int).filter(keep);
        assert(ms.take(i + 1).drop_last() =~= ms.take(i as int));
        assert(ms.take(i + 1).last() == rules@[i as int]@);
        if !rules[i].is_cross_file() {
            push_semantic_identity(&mut parts, &rules[i]);
            let ghost middle = text::texts(parts@);
            parts.push(rules[i].message.clone());
            assert(text::texts(parts@) =~= middle.push(rules@[i as int].message@));
            assert(text::texts(parts@) =~= before + behavioral_parts(rules@[i as int]@));
            assert(kept.push(rules@[i as int]@).drop_last() =~= kept);
        }
    }
    assert(ms.take(ms.len() as int) =~= ms);
    hash_parts(&parts)
}

/// Do the rules differ at most in what describes them: message, name, description, references
/// and CWE?
pub open spec fn described_otherwise(a: rule::RuleModel, b: rule::RuleModel) -> bool {
    a == rule::RuleModel {
        message: a.message,
        name: a.name,
        description: a.description,
        references: a.references,
        cwe: a.cwe,
        ..b
    }
}

/// Rewording what describes the rules, the message among it, leaves the rule-set identity of
/// snapshots as it is.
pub proof fn lemma_description_not_semantic(a: Seq<rule::RuleModel>, b: Seq<rule::RuleModel>)
    requires
        a.len() == b.len(),
        forall|i: int| 0 <= i < a.len() ==> described_otherwise(#[trigger] a[i], b[i]),
    ensures
        semantic_id(a) == semantic_id(b),
{
    lemma_semantic_same(a, b);
}

proof fn lemma_semantic_same(a: Seq<rule::RuleModel>, b: Seq<rule::RuleModel>)
    requires
        a.len() == b.len(),
        forall|i: int| 0 <= i < a.len() ==> described_otherwise(#[trigger] a[i], b[i]),
    ensures
        all_semantic(a) == all_semantic(b),
    decreases a.len(),
{
    if a.len() > 0 {
        let (p, q) = (a.drop_last(), b.drop_last());
        assert forall|i: int| 0 <= i < p.len() implies described_otherwise(
            #[trigger] p[i],
            q[i],
        ) by {
            assert(p[i] == a[i] && q[i] == b[i]);
        }
        lemma_semantic_same(p, q);
        assert(described_otherwise(a[a.len() - 1], b[a.len() - 1]));
    }
}

/// Rewording what describes the rules, but not their messages, leaves the cache identity as it
/// is.
pub proof fn lemma_description_not_behavioral(a: Seq<rule::RuleModel>, b: Seq<rule::RuleModel>)
    requires
        a.len() == b.len(),
        forall|i: int|
            0 <= i < a.len() ==> described_otherwise(#[trigger] a[i], b[i]) && a[i].message
                == b[i].message,
    ensures
        behavioral_id(a) == behavioral_id(b),
{
    lemma_behavioral_same(a, b);
}

proof fn lemma_behavioral_same(a: Seq<rule::RuleModel>, b: Seq<rule::RuleModel>)
    requires
        a.len() == b.len(),
        forall|i: int|
            0 <= i < a.len() ==> described_otherwise(#[trigger] a[i], b[i]) && a[i].message
                == b[i].message,
    ensures
        all_behavioral(a) == all_behavioral(b),
    decreases a.len(),
{
    if a.len() > 0 {
        let (p, q) = (a.drop_last(), b.drop_last());
        assert forall|i: int| 0 <= i < p.len() implies described_otherwise(#[trigger] p[i], q[i])
            && p[i].message == q[i].message by {
            assert(p[i] == a[i] && q[i] == b[i]);
        }
        lemma_behavioral_same(p, q);
        assert(described_otherwise(a[a.len() - 1], b[a.len() - 1]));
    }
}

/// Does no language hold a comma?
pub open spec fn listable(languages: Seq<Seq<char>>) -> bool {
    forall|i: int| 0 <= i < languages.len() ==> !(#[trigger] languages[i]).contains(',')
}

/// Is no language named? An empty list and one empty name are written alike.
pub open spec fn nameless(languages: Seq<Seq<char>>) -> bool {
    languages.len() == 0 || languages == seq![Seq::<char>::empty()]
}

proof fn lemma_listed_languages(a: Seq<Seq<char>>, b: Seq<Seq<char>>)
    requires
        listable(a),
        listable(b),
        text::joined(a, ","@) == text::joined(b, ","@),
    ensures
        a == b || nameless(a) && nameless(b),
{
    reveal_strlit(",");
    assert(","@ =~= seq![',']);
    let none = Seq::<char>::empty();
    text::lemma_position_of(none, ',');
    assert(text::pieces(none, ',') =~= seq![none]);
    if a.len() > 0 {
        text::lemma_pieces_of_joined(a, ',');
    }
    if b.len() > 0 {
        text::lemma_pieces_of_joined(b, ',');
    }
    assert(a.len() == 0 ==> text::joined(a, ","@) =~= none);
    assert(b.len() == 0 ==> text::joined(b, ","@) =~= none);
    if a.len() == 0 && b.len() == 0 {
        assert(a =~= b);
    }
}

proof fn lemma_severity_texts(a: finding::Severity, b: finding::Severity)
    requires
        finding::severity_text(a) == finding::severity_text(b),
    ensures
        a == b,
{
    reveal_strlit("error");
    reveal_strlit("warning");
    reveal_strlit("info");
    reveal_strlit("note");
    let (s, t) = (finding::severity_text(a), finding::severity_text(b));
    assert(s[0] == t[0]);
}

/// Are the two rules the same in what decides which findings exist and where they anchor, but
/// for languages with a comma and for a query that reads like the mark of one that fails?
pub open spec fn same_semantics(a: rule::RuleModel, b: rule::RuleModel) -> bool {
    &&& a.id == b.id
    &&& a.severity == b.severity
    &&& listable(a.languages) && listable(b.languages) ==> a.languages == b.languages || nameless(
        a.languages,
    ) && nameless(b.languages)
    &&& a.match_capture == b.match_capture
    &&& (rule::query_text(a) is Ok <==> rule::query_text(b) is Ok) ==> rule::query_text(a)
        == rule::query_text(b)
}

proof fn lemma_same_parts_same_semantics(a: rule::RuleModel, b: rule::RuleModel)
    requires
        semantic_parts(a) == semantic_parts(b),
    ensures
        same_semantics(a, b),
{
    let (p, q) = (semantic_parts(a), semantic_parts(b));
    assert(p[0] == q[0] && p[1] == q[1] && p[2] == q[2] && p[3] == q[3] && p[4] == q[4]);
    lemma_severity_texts(a.severity, b.severity);
    if let (Err(e), Err(f)) = (rule::query_text(a), rule::query_text(b)) {
        let n = "<uncompilable:"@.len() as int;
        assert(p[4].len() == q[4].len());
        assert(e =~= p[4].subrange(n, n + e.len()));
        assert(f =~= q[4].subrange(n, n + f.len()));
    }
    if listable(a.languages) && listable(b.languages) {
        lemma_listed_languages(a.languages, b.languages);
    }
}

proof fn lemma_semantic_len(a: Seq<rule::RuleModel>)
    ensures
        all_semantic(a).len() == 1 + 5 * a.len(),
    decreases a.len(),
{
    if a.len() > 0 {
        lemma_semantic_len(a.drop_last());
    }
}

/// What is hashed for snapshots tells rule sets apart: equal lists of parts come from as many
/// rules, with equal parts each.
pub proof fn lemma_semantic_parts_determined(a: Seq<rule::RuleModel>, b: Seq<rule::RuleModel>)
    requires
        all_semantic(a) == all_semantic(b),
    ensures
        a.len() == b.len(),
        forall|i: int|
            0 <= i < a.len() ==> semantic_parts(#[trigger] a[i]) == semantic_parts(b[i])
                && same_semantics(a[i], b[i]),
    decreases a.len(),
{
    lemma_semantic_len(a);
    lemma_semantic_len(b);
    if a.len() > 0 {
        let (p, q) = (a.drop_last(), b.drop_last());
        let n = all_semantic(p).len() as int;
        lemma_semantic_len(p);
        lemma_semantic_len(q);
        assert(all_semantic(p) =~= all_semantic(a).take(n));
        assert(all_semantic(q) =~= all_semantic(b).take(n));
        assert(semantic_parts(a.last()) =~= all_semantic(a).skip(n));
        assert(semantic_parts(b.last()) =~= all_semantic(b).skip(n));
        lemma_same_parts_same_semantics(a.last(), b.last());
        lemma_semantic_parts_determined(p, q);
        assert forall|i: int| 0 <= i < a.len() implies semantic_parts(#[trigger] a[i])
            == semantic_parts(b[i]) && same_semantics(a[i], b[i]) by {
            if i < p.len() {
                assert(p[i] == a[i] && q[i] == b[i]);
            }
        }
    }
}

/// A rule set that drops or adds a rule, or changes one in what decides its findings, has
/// another rule-set identity, unless SHA-256 gives two different byte strings one digest.
pub proof fn lemma_semantic_id_separates(a: Seq<rule::RuleModel>, b: Seq<rule::RuleModel>)
    requires
        fingerprint::separable(all_semantic(a)),
        fingerprint::separable(all_semantic(b)),
        a.len() != b.len() || exists|i: int|
            0 <= i < a.len() && !same_semantics(#[trigger] a[i], b[i]),
        semantic_id(a) == semantic_id(b),
    ensures
        ({
            let x = vstd::utf8::encode_utf8(fingerprint::preimage(all_semantic(a)));
            let y = vstd::utf8::encode_utf8(fingerprint::preimage(all_semantic(b)));
            x != y && fingerprint::sha256_digest(x) == fingerprint::sha256_digest(y)
        }),
{
    let (p, q) = (all_semantic(a), all_semantic(b));
    if p == q {
        lemma_semantic_parts_determined(a, b);
    }
    let n = "sha256:"@.len() as int;
    assert(fingerprint::digest_of(p) =~= semantic_id(a).skip(n));
    assert(fingerprint::digest_of(q) =~= semantic_id(b).skip(n));
    fingerprint::lemma_digest_separates(p, q);
}

proof fn lemma_behavioral_len(a: Seq<rule::RuleModel>)
    ensures
        all_behavioral(a).len() == 1 + 6 * a.len(),
    decreases a.len(),
{
    if a.len() > 0 {
        lemma_behavioral_len(a.drop_last());
    }
}

/// What is hashed for the cache tells rule sets apart: equal lists of parts come from as many
/// rules, with equal parts each, the message among them.
pub proof fn lemma_behavioral_parts_determined(
    a: Seq<rule::RuleModel>,
    b: Seq<rule::RuleModel>,
)
    requires
        all_behavioral(a) == all_behavioral(b),
    ensures
        a.len() == b.len(),
        forall|i: int|
            0 <= i < a.len() ==> behavioral_parts(#[trigger] a[i]) == behavioral_parts(b[i])
                && a[i].message == b[i].message,
    decreases a.len(),
{
    lemma_behavioral_len(a);
    lemma_behavioral_len(b);
    if a.len() > 0 {
        let (p, q) = (a.drop_last(), b.drop_last());
        let n = all_behavioral(p).len() as int;
        lemma_behavioral_len(p);
        lemma_behavioral_len(q);
        assert(all_behavioral(p) =~= all_behavioral(a).take(n));
        assert(all_behavioral(q) =~= all_behavioral(b).take(n));
        assert(behavioral_parts(a.last()) =~= all_behavioral(a).skip(n));
        assert(behavioral_parts(b.last()) =~= all_behavioral(b).skip(n));
        assert(behavioral_parts(a.last())[5] == behavioral_parts(b.last())[5]);
        lemma_behavioral_parts_determined(p, q);
        assert forall|i: int| 0 <= i < a.len() implies behavioral_parts(#[trigger] a[i])
            == behavioral_parts(b[i]) && a[i].message == b[i].message by {
            if i < p.len() {
                assert(p[i] == a[i] && q[i] == b[i]);
            }
        }
    }
}

/// Changing a rule that joins findings across files leaves the cache identity of the rules
/// that run file by file as it is.
pub proof fn lemma_cross_file_not_cached(a: Seq<rule::RuleModel>, i: int, other: rule::RuleModel)
    requires
        0 <= i < a.len(),
        a[i].matcher is CrossFile,
        other.matcher is CrossFile,
    ensures
        behavioral_id(file_local(a.update(i, other))) == behavioral_id(file_local(a)),
{
    lemma_file_local_update(a, i, other);
}

proof fn lemma_file_local_update(a: Seq<rule::RuleModel>, i: int, other: rule::RuleModel)
    requires
        0 <= i < a.len(),
        a[i].matcher is CrossFile,
        other.matcher is CrossFile,
    ensures
        file_local(a.update(i, other)) == file_local(a),
    decreases a.len(),
{
    reveal(Seq::filter);
    let b = a.update(i, other);
    if i == a.len() - 1 {
        assert(b.drop_last() =~= a.drop_last());
    } else {
        lemma_file_local_update(a.drop_last(), i, other);
        assert(b.drop_last() =~= a.drop_last().update(i, other));
        assert(b.last() == a.last());
    }
}

// ---------------------------------------------------------------------------
// Grammar identity
// ---------------------------------------------------------------------------

/// The grammar versions of the languages a scan touched, where they are registered.
pub fn grammar_versions(registry: &LanguageRegistry, languages_seen: &Vec<String>) -> (r: GrammarVersions)
    ensures
        grammars::ascending(r@),
        forall|l: Seq<char>|
            #![trigger grammars::version_of(r@, l)]
            grammars::version_of(r@, l) == language::seen_version(
                registry@,
                text::texts(languages_seen@),
                languages_seen@.len(),
                l,
            ),
{
    let ghost seen = text::texts(languages_seen@);
    let mut out = GrammarVersions::new();
    for i in 0..languages_seen.len()
        invariant
            seen == text::texts(languages_seen@),
            grammars::ascending(out@),
            forall|l: Seq<char>|
                #![trigger grammars::version_of(out@, l)]
                grammars::version_of(out@, l) == language::seen_version(registry@, seen, i as nat, l),
    {
        let lang = &languages_seen[i];
        assert(seen[i as int] == lang@);
        let ghost before = out@;
        if let Some(entry) = registry.by_id(lang.as_str()) {
            out.insert(lang.clone(), entry.grammar_version());
        }
        proof {
            assert forall|l: Seq<char>|
                #![trigger grammars::version_of(out@, l)]
                grammars::version_of(out@, l) == language::seen_version(
                    registry@,
                    seen,
                    (i + 1) as nat,
                    l,
                ) by {
                assert(grammars::version_of(before, l) == language::seen_version(
                    registry@,
                    seen,
                    i as nat,
                    l,
                ));
            }
        }
    }
    out
}

/// Is it the stored finding of a finding? All that tells findings apart and where they are is in
/// it, as it was.
pub open spec fn keeps(s: StoredModel, f: finding::FindingModel) -> bool {
    &&& s.fingerprint == f.fingerprint
    &&& s.content_key == f.content_key
    &&& s.context_hash == f.context_hash
    &&& s.occurrence == f.occurrence
    &&& s.rule_id == f.rule_id
    &&& s.severity == f.severity
    &&& s.language == f.language
    &&& s.file == f.file
    &&& s.start == f.start
    &&& s.end == f.end
}

/// A snapshot keeps every finding, in order and as it was, and what is rebuilt from it is the
/// finding again: with an empty snippet, a message that names the rule, and nothing said yet of
/// how it compares.
pub proof fn lemma_every_finding_kept(s: Seq<finding::FindingModel>, i: int)
    requires
        0 <= i < s.len(),
    ensures
        stored_all(s).len() == s.len(),
        keeps(stored_all(s)[i], s[i]),
        keeps(stored_all(s)[i], rebuilt(stored_all(s)[i])),
        rebuilt(stored_all(s)[i]).message == "resolved finding for rule '"@ + s[i].rule_id + "'"@,
        rebuilt(stored_all(s)[i]).snippet.len() == 0,
        rebuilt(stored_all(s)[i]).state is None,
        rebuilt(stored_all(s)[i]).diff_relation is None,
        rebuilt(stored_all(s)[i]).new_cause is None,
{
}

/// A snapshot is taken as a baseline exactly where it has this schema, and a finding with a content
/// key or none at all; what refuses it names the file, and the schema or the version that the
/// snapshot has.
pub proof fn lemma_when_refused(path: Seq<char>, s: SnapshotModel)
    ensures
        refusal(path, s) is None <==> s.schema == "crit.snapshot/v1"@ && (s.findings.len() == 0
            || exists|i: int| 0 <= i < s.findings.len() && (#[trigger] s.findings[i]).content_key != ""@),
        refusal(path, s) matches Some(e) ==> s.schema == "crit.snapshot/v1"@ ==> (
        "baseline snapshot "@ + path + " was produced by crit "@ + s.engine_version).is_prefix_of(e),
        refusal(path, s) matches Some(e) ==> s.schema != "crit.snapshot/v1"@ ==> (
        "baseline snapshot "@ + path + " has schema '"@ + s.schema
            + "', but this build understands 'crit.snapshot/v1'"@).is_prefix_of(e),
{
    reveal_strlit("");
    if s.schema == SCHEMA@ && s.findings.len() > 0 {
        if exists|i: int|
            0 <= i < s.findings.len() && (#[trigger] s.findings[i]).content_key != ""@ {
            let i = choose|i: int|
                0 <= i < s.findings.len() && (#[trigger] s.findings[i]).content_key != ""@;
            if s.findings[i].content_key.len() == 0 {
                assert(s.findings[i].content_key =~= ""@);
            }
        }
        if !incompatible_scheme(s.findings) {
            let i = choose|i: int|
                0 <= i < s.findings.len() && (#[trigger] s.findings[i]).content_key.len() != 0;
            assert(s.findings[i].content_key != ""@);
        }
    }
    if s.schema != SCHEMA@ {
        reveal_strlit("', but this build understands '");
        reveal_strlit("', but this build understands 'crit.snapshot/v1'");
        reveal_strlit("'; re-generate the baseline or upgrade crit");
        reveal_strlit("crit.snapshot/v1");
        let said = "baseline snapshot "@ + path + " has schema '"@ + s.schema;
        let named = "', but this build understands '"@ + SCHEMA@
            + "'; re-generate the baseline or upgrade crit"@;
        assert("', but this build understands 'crit.snapshot/v1'"@.is_prefix_of(named));
        assert(refusal(path, s)->Some_0 =~= said + named);
    }
}

/// Does a baseline record the version of a language?
pub open spec fn recorded(
    base: Seq<(Seq<char>, Seq<char>)>,
    language: Seq<char>,
    version: Seq<char>,
) -> bool {
    exists|k: int| 0 <= k < base.len() && #[trigger] base[k] == (language, version)
}

/// Is it the mismatch for a language whose version is not the one that the baseline records?
pub open spec fn grammar_off(
    m: MismatchModel,
    base: Seq<(Seq<char>, Seq<char>)>,
    language: Seq<char>,
    version: Seq<char>,
) -> bool {
    m matches MismatchModel::Grammar { language: l, base: b, current: c } && l == language && c
        == version && (recorded(base, language, b) || (b == "(absent)"@ && forall|v: Seq<char>|
        !#[trigger] recorded(base, language, v)))
}

/// A baseline is off in its rule set where it has another, then in its engine where that is of
/// another version, and then in each grammar of the scan, in order, whose version it does not
/// record; and in nothing else. Each mismatch gives what the baseline has and what the scan has.
pub proof fn lemma_every_mismatch_listed(
    base: SnapshotModel,
    ruleset_id: Seq<char>,
    grammars: Seq<(Seq<char>, Seq<char>)>,
) -> (w: Seq<int>)
    requires
        grammars::ascending(base.grammar_versions),
    ensures
        ({
            let ms = mismatches(base, ruleset_id, grammars);
            let r: int = if base.ruleset_id != ruleset_id {
                1
            } else {
                0
            };
            let e: int = if base.engine_version != ENGINE_VERSION@ {
                1
            } else {
                0
            };
            &&& ms.len() == r + e + w.len()
            &&& r == 1 ==> ms[0] == (MismatchModel::Ruleset {
                base: base.ruleset_id,
                current: ruleset_id,
            })
            &&& e == 1 ==> ms[r] == (MismatchModel::Engine {
                base: base.engine_version,
                current: ENGINE_VERSION@,
            })
            &&& forall|k: int|
                0 <= k < w.len() ==> 0 <= #[trigger] w[k] < grammars.len() && grammar_off(
                    ms[r + e + k],
                    base.grammar_versions,
                    grammars[w[k]].0,
                    grammars[w[k]].1,
                )
            &&& forall|k: int, l: int| 0 <= k < l < w.len() ==> #[trigger] w[k] < #[trigger] w[l]
            &&& forall|i: int|
                0 <= i < grammars.len() ==> (w.contains(i) <==> !recorded(
                    base.grammar_versions,
                    (#[trigger] grammars[i]).0,
                    grammars[i].1,
                ))
        }),
{
    lemma_grammars_off(base.grammar_versions, grammars)
}

proof fn lemma_grammars_off(
    base: Seq<(Seq<char>, Seq<char>)>,
    current: Seq<(Seq<char>, Seq<char>)>,
) -> (w: Seq<int>)
    requires
        grammars::ascending(base),
    ensures
        w.len() == grammar_mismatches(base, current).len(),
        forall|k: int|
            0 <= k < w.len() ==> 0 <= #[trigger] w[k] < current.len() && grammar_off(
                grammar_mismatches(base, current)[k],
                base,
                current[w[k]].0,
                current[w[k]].1,
            ),
        forall|k: int, l: int| 0 <= k < l < w.len() ==> #[trigger] w[k] < #[trigger] w[l],
        forall|i: int|
            0 <= i < current.len() ==> (w.contains(i) <==> !recorded(
                base,
                (#[trigger] current[i]).0,
                current[i].1,
            )),
    decreases current.len(),
{
    if current.len() == 0 {
        seq![]
    } else {
        let init = current.drop_last();
        let n = init.len() as int;
        let before = lemma_grammars_off(base, init);
        let (language, version) = current[n];
        lemma_recorded_is(base, language, version);
        assert forall|k: int| 0 <= k < before.len() implies init[#[trigger] before[k]]
            == current[before[k]] by {}
        assert forall|i: int| 0 <= i < n implies (before.contains(i) <==> !recorded(
            base,
            (#[trigger] current[i]).0,
            current[i].1,
        )) by {
            assert(init[i] == current[i]);
        }
        if recorded(base, language, version) {
            assert(!before.contains(n));
            before
        } else {
            let w = before.push(n);
            let m = grammar_mismatch(base, current.last())->Some_0;
            assert(grammar_off(m, base, language, version)) by {
                if let Some(v) = grammars::version_of(base, language) {
                    lemma_recorded_is(base, language, v);
                    assert(recorded(base, language, v));
                } else {
                    assert forall|v: Seq<char>| !#[trigger] recorded(base, language, v) by {
                        lemma_recorded_is(base, language, v);
                    }
                }
            }
            assert forall|i: int| 0 <= i < current.len() implies (w.contains(i) <==> !recorded(
                base,
                (#[trigger] current[i]).0,
                current[i].1,
            )) by {
                if i < n {
                    if before.contains(i) {
                        let k = choose|k: int| 0 <= k < before.len() && before[k] == i;
                        assert(w[k] == i);
                    }
                    if w.contains(i) {
                        let k = choose|k: int| 0 <= k < w.len() && w[k] == i;
                        assert(before[k] == i);
                    }
                } else {
                    assert(w[before.len() as int] == i);
                }
            }
            w
        }
    }
}

proof fn lemma_recorded_is(
    base: Seq<(Seq<char>, Seq<char>)>,
    language: Seq<char>,
    version: Seq<char>,
)
    requires
        grammars::ascending(base),
    ensures
        recorded(base, language, version) <==> grammars::version_of(base, language) == Some(
            version,
        ),
{
    grammars::lemma_version_of(base, language);
    if recorded(base, language, version) {
        let k = choose|k: int| 0 <= k < base.len() && #[trigger] base[k] == (language, version);
        assert(base[k].0 == language);
    }
    if grammars::version_of(base, language) == Some(version) {
        assert(base.contains((language, version)));
        let k = choose|k: int| 0 <= k < base.len() && base[k] == (language, version);
        assert(base[k] == (language, version));
    }
}

/// A renamed file has the path that the last rename of its old one gives.
pub proof fn lemma_last_rename_counts(
    renames: Seq<(Seq<char>, Seq<char>)>,
    old: Seq<char>,
    k: int,
)
    ensures
        0 <= k < renames.len() && renames[k].0 == old && (forall|j: int|
            k < j < renames.len() ==> (#[trigger] renames[j]).0 != old) ==> renamed(renames, old)
            == Some(renames[k].1),
        renamed(renames, old) is None <==> forall|j: int|
            0 <= j < renames.len() ==> (#[trigger] renames[j]).0 != old,
    decreases renames.len(),
{
    if renames.len() > 0 {
        let init = renames.drop_last();
        lemma_last_rename_counts(init, old, k);
        assert forall|j: int| 0 <= j < init.len() implies init[j] == renames[j] by {}
        assert(renames.last() == renames[renames.len() - 1]);
        if renames.last().0 != old {
            if renamed(init, old) is None {
                assert forall|j: int| 0 <= j < renames.len() implies (#[trigger] renames[j]).0
                    != old by {
                    if j < init.len() {
                        assert(init[j].0 != old);
                    }
                }
            } else {
                let j = choose|j: int| 0 <= j < init.len() && (#[trigger] init[j]).0 == old;
                assert(renames[j].0 == old);
            }
            if 0 <= k < renames.len() && renames[k].0 == old && (forall|j: int|
                k < j < renames.len() ==> (#[trigger] renames[j]).0 != old) {
                assert forall|j: int| k < j < init.len() implies (#[trigger] init[j]).0 != old by {
                    assert(renames[j].0 != old);
                }
                assert(init[k] == renames[k]);
            }
        } else if 0 <= k < renames.len() - 1 {
            assert(renames[renames.len() - 1].0 == old);
        }
    }
}

/// A rename gives a finding in its file the new path and the fingerprint of its content there, and
/// changes neither anything else of it nor any other finding; findings may be numbered anew where
/// one of them moved.
pub proof fn lemma_rename_touches(
    renames: Seq<(Seq<char>, Seq<char>)>,
    s: Seq<StoredModel>,
    i: int,
)
    requires
        0 <= i < s.len(),
    ensures
        remapped(renames, s).len() == s.len(),
        ({
            let (a, b) = (s[i], remapped(renames, s)[i]);
            let to = renamed(renames, fingerprint::path_identity(a.file));
            &&& a.content_key == b.content_key
            &&& a.context_hash == b.context_hash
            &&& a.rule_id == b.rule_id
            &&& a.severity == b.severity
            &&& a.language == b.language
            &&& a.start == b.start
            &&& a.end == b.end
            &&& to is None || a.content_key.len() == 0 ==> b.file == a.file && b.fingerprint
                == a.fingerprint
            &&& to is Some && a.content_key.len() > 0 ==> b.file == to->Some_0 && b.fingerprint
                == fingerprint::composed(fingerprint::path_identity(b.file), a.content_key)
        }),
        (forall|k: int|
            0 <= k < s.len() ==> renamed(
                renames,
                fingerprint::path_identity((#[trigger] s[k]).file),
            ) is None || s[k].content_key.len() == 0) ==> remapped(renames, s) == s,
{
    lemma_move_count(renames, s);
    if move_count(renames, s) == 0 {
        assert(!moves(renames, s[i]));
    } else {
        let k = choose|k: int| 0 <= k < s.len() && moves(renames, #[trigger] s[k]);
        assert(moves(renames, s[k]));
    }
}

} // verus!
