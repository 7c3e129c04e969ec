//! The scanning engine: parse a file, run every applicable rule's query, and turn matches
//! into findings.

use tree_sitter::{Language, Query, Tree};
use vstd::prelude::*;

use crate::cache;
use crate::cache::Cache;
use crate::compile;
use crate::crossfile;
use crate::crossfile::CrossPass;
use crate::finding;
use crate::finding::{clone_findings, Finding};
use crate::fingerprint;
use crate::git;
use crate::language;
use crate::language::LanguageRegistry;
use crate::matching;
use crate::matching::SourceFile;
use crate::order;
use crate::path;
use crate::rule;
use crate::rule::{Matcher, Rule};
use crate::snapshot;
use crate::syntax;
use crate::syntax::ParseFailure;
use crate::text;

verus! {

// ---------------------------------------------------------------------------
// Scan reports
// ---------------------------------------------------------------------------

/// A file that a scan visited, and its language.
#[derive(Debug)]
pub struct Visit {
    pub path: String,
    pub language: String,
}

/// Summary of a scan.
#[derive(Debug)]
pub struct ScanReport {
    pub findings: Vec<Finding>,
    pub files_scanned: usize,
    pub files_skipped: usize,
    /// Of the scanned files, how many were served from the findings cache.
    pub files_cached: usize,
    /// Language ids that were resolved during the scan, in ascending order, each once.
    pub languages_seen: Vec<String>,
    /// Every file the scan visited with its language, those served from the cache included,
    /// in ascending order, each once. The cross-file pass walks exactly this set.
    pub visited: Vec<Visit>,
}

/// What a scan report holds.
#[verifier::ext_equal]
pub struct ReportModel {
    pub findings: Seq<finding::FindingModel>,
    pub files_scanned: usize,
    pub files_skipped: usize,
    pub files_cached: usize,
    pub languages_seen: Seq<Seq<char>>,
    pub visited: Seq<(Seq<char>, Seq<char>)>,
}

/// The paths and languages of visits.
pub open spec fn visit_pairs(s: Seq<Visit>) -> Seq<(Seq<char>, Seq<char>)> {
    s.map_values(|v: Visit| (v.path@, v.language@))
}

impl View for ScanReport {
    type V = ReportModel;

    open spec fn view(&self) -> ReportModel {
        ReportModel {
            findings: finding::models(self.findings@),
            files_scanned: self.files_scanned,
            files_skipped: self.files_skipped,
            files_cached: self.files_cached,
            languages_seen: text::texts(self.languages_seen@),
            visited: visit_pairs(self.visited@),
        }
    }
}

/// The ascending list with `x` in it, once.
pub open spec fn with_text(s: Seq<Seq<char>>, x: Seq<char>) -> Seq<Seq<char>>
    decreases s.len(),
{
    if s.len() == 0 {
        seq![x]
    } else if order::compare_text(x, s[0]) < 0 {
        seq![x] + s
    } else if order::compare_text(x, s[0]) == 0 {
        s
    } else {
        seq![s[0]] + with_text(s.drop_first(), x)
    }
}

/// Visits by path, component by component, then by language.
pub open spec fn compare_visit(a: (Seq<char>, Seq<char>), b: (Seq<char>, Seq<char>)) -> int {
    order::lexical(
        path::compare_parts(path::path_parts(a.0), path::path_parts(b.0)),
        order::compare_text(a.1, b.1),
    )
}

/// The ascending list with the visit in it, once.
pub open spec fn with_visit(s: Seq<(Seq<char>, Seq<char>)>, x: (Seq<char>, Seq<char>)) -> Seq<
    (Seq<char>, Seq<char>),
>
    decreases s.len(),
{
    if s.len() == 0 {
        seq![x]
    } else if compare_visit(x, s[0]) < 0 {
        seq![x] + s
    } else if compare_visit(x, s[0]) == 0 {
        s
    } else {
        seq![s[0]] + with_visit(s.drop_first(), x)
    }
}

proof fn lemma_with_text_at(s: Seq<Seq<char>>, x: Seq<char>, p: int)
    requires
        0 <= p <= s.len(),
        forall|i: int| 0 <= i < p ==> order::compare_text(x, #[trigger] s[i]) > 0,
        p < s.len() ==> order::compare_text(x, s[p]) <= 0,
    ensures
        with_text(s, x) == if p < s.len() && order::compare_text(x, s[p]) == 0 {
            s
        } else {
            s.insert(p, x)
        },
    decreases s.len(),
{
    if p == 0 {
        if s.len() == 0 {
            assert(seq![x] =~= s.insert(0, x));
        } else {
            assert(seq![x] + s =~= s.insert(0, x));
        }
    } else {
        let rest = s.drop_first();
        assert(order::compare_text(x, s[0]) > 0);
        assert forall|i: int| 0 <= i < p - 1 implies order::compare_text(x, #[trigger] rest[i])
            > 0 by {
            assert(rest[i] == s[i + 1]);
        }
        assert(p < s.len() ==> rest[p - 1] == s[p]);
        lemma_with_text_at(rest, x, p - 1);
        assert(seq![s[0]] + rest =~= s);
        assert(seq![s[0]] + rest.insert(p - 1, x) =~= s.insert(p, x));
    }
}

proof fn lemma_with_visit_at(s: Seq<(Seq<char>, Seq<char>)>, x: (Seq<char>, Seq<char>), p: int)
    requires
        0 <= p <= s.len(),
        forall|i: int| 0 <= i < p ==> compare_visit(x, #[trigger] s[i]) > 0,
        p < s.len() ==> compare_visit(x, s[p]) <= 0,
    ensures
        with_visit(s, x) == if p < s.len() && compare_visit(x, s[p]) == 0 {
            s
        } else {
            s.insert(p, x)
        },
    decreases s.len(),
{
    if p == 0 {
        if s.len() == 0 {
            assert(seq![x] =~= s.insert(0, x));
        } else {
            assert(seq![x] + s =~= s.insert(0, x));
        }
    } else {
        let rest = s.drop_first();
        assert(compare_visit(x, s[0]) > 0);
        assert forall|i: int| 0 <= i < p - 1 implies compare_visit(x, #[trigger] rest[i]) > 0 by {
            assert(rest[i] == s[i + 1]);
        }
        assert(p < s.len() ==> rest[p - 1] == s[p]);
        lemma_with_visit_at(rest, x, p - 1);
        assert(seq![s[0]] + rest =~= s);
        assert(seq![s[0]] + rest.insert(p - 1, x) =~= s.insert(p, x));
    }
}

fn insert_text(list: &mut Vec<String>, x: &str)
    ensures
        text::texts(final(list)@) == with_text(text::texts(old(list)@), x@),
{
    let ghost all = text::texts(list@);
    let mut p: usize = 0;
    let mut c: i8 = 1;
    while p < list.len() && c > 0
        invariant
            p <= list@.len(),
            all == text::texts(list@),
            forall|i: int| 0 <= i < p ==> order::compare_text(x@, #[trigger] all[i]) > 0,
            c <= 0 ==> p < list@.len() && c == order::compare_text(x@, all[p as int]),
        decreases
                list@.len() - p,
                if c > 0 {
                    1int
                } else {
                    0int
                },
    {
        c = order::compare_strings(x, list[p].as_str());
        assert(all[p as int] == list@[p as int]@);
        if c > 0 {
            p = p + 1;
        }
    }
    proof {
        lemma_with_text_at(all, x@, p as int);
    }
    if c != 0 {
        list.insert(p, x.to_owned());
        assert(text::texts(list@) =~= all.insert(p as int, x@));
    }
}

fn compare_visits(a_path: &str, a_language: &str, b: &Visit) -> (r: i8)
    ensures
        r == compare_visit((a_path@, a_language@), (b.path@, b.language@)),
{
    let x = path::components(a_path);
    let y = path::components(b.path.as_str());
    let c = path::compare_components(&x, &y);
    if c != 0 {
        return c;
    }
    order::compare_strings(a_language, b.language.as_str())
}

fn insert_visit(list: &mut Vec<Visit>, path: &str, language: &str)
    ensures
        visit_pairs(final(list)@) == with_visit(visit_pairs(old(list)@), (path@, language@)),
{
    let ghost all = visit_pairs(list@);
    let ghost x = (path@, language@);
    let mut p: usize = 0;
    let mut c: i8 = 1;
    while p < list.len() && c > 0
        invariant
            p <= list@.len(),
            all == visit_pairs(list@),
            x == (path@, language@),
            forall|i: int| 0 <= i < p ==> compare_visit(x, #[trigger] all[i]) > 0,
            c <= 0 ==> p < list@.len() && c == compare_visit(x, all[p as int]),
        decreases
                list@.len() - p,
                if c > 0 {
                    1int
                } else {
                    0int
                },
    {
        c = compare_visits(path, language, &list[p]);
        assert(all[p as int] == (list@[p as int].path@, list@[p as int].language@));
        if c > 0 {
            p = p + 1;
        }
    }
    proof {
        lemma_with_visit_at(all, x, p as int);
    }
    if c != 0 {
        list.insert(p, Visit { path: path.to_owned(), language: language.to_owned() });
        assert(visit_pairs(list@) =~= all.insert(p as int, x));
    }
}

/// The report after one more skipped file.
pub open spec fn skipped(r: ReportModel) -> ReportModel {
    ReportModel { files_skipped: (r.files_skipped + 1) as usize, ..r }
}

/// The report after one more scanned file.
pub open spec fn scanned(
    r: ReportModel,
    path: Seq<char>,
    language: Seq<char>,
    findings: Seq<finding::FindingModel>,
    cached: bool,
) -> ReportModel {
    ReportModel {
        findings: r.findings + findings,
        files_scanned: (r.files_scanned + 1) as usize,
        files_skipped: r.files_skipped,
        files_cached: if cached {
            (r.files_cached + 1) as usize
        } else {
            r.files_cached
        },
        languages_seen: with_text(r.languages_seen, language),
        visited: with_visit(r.visited, (path, language)),
    }
}

impl ScanReport {
    /// The report of a scan that has seen nothing yet.
    pub fn new() -> (r: Self)
        ensures
            r@ == (ReportModel {
                findings: seq![],
                files_scanned: 0,
                files_skipped: 0,
                files_cached: 0,
                languages_seen: seq![],
                visited: seq![],
            }),
    {
        let r = ScanReport {
            findings: Vec::new(),
            files_scanned: 0,
            files_skipped: 0,
            files_cached: 0,
            languages_seen: Vec::new(),
            visited: Vec::new(),
        };
        assert(finding::models(r.findings@) =~= seq![]);
        assert(text::texts(r.languages_seen@) =~= seq![]);
        assert(visit_pairs(r.visited@) =~= seq![]);
        r
    }

    fn push_findings(&mut self, new: Vec<Finding>)
        ensures
            final(self)@ == (ReportModel {
                findings: old(self)@.findings + finding::models(new@),
                ..old(self)@
            }),
    {
        let ghost before = finding::models(self.findings@);
        let ghost added = finding::models(new@);
        let mut new = new;
        self.findings.append(&mut new);
        assert(finding::models(self.findings@) =~= before + added);
    }

    fn record(&mut self, path: &str, language: &str, findings: Vec<Finding>, cached: bool)
        requires
            old(self).files_scanned < usize::MAX,
            old(self).files_cached < usize::MAX,
        ensures
            final(self)@ == scanned(
                old(self)@,
                path@,
                language@,
                finding::models(findings@),
                cached,
            ),
    {
        self.push_findings(findings);
        insert_text(&mut self.languages_seen, language);
        insert_visit(&mut self.visited, path, language);
        self.files_scanned = self.files_scanned + 1;
        if cached {
            self.files_cached = self.files_cached + 1;
        }
    }
}

impl Default for ScanReport {
    fn default() -> (r: Self)
        ensures
            r@ == (ReportModel {
                findings: seq![],
                files_scanned: 0,
                files_skipped: 0,
                files_cached: 0,
                languages_seen: seq![],
                visited: seq![],
            }),
    {
        ScanReport::new()
    }
}

// ---------------------------------------------------------------------------
// Compiled rules
// ---------------------------------------------------------------------------

/// A rule whose query has been compiled for one specific language.
pub struct CompiledRule {
    pub rule_idx: usize,
    pub query: Query,
    /// Number of the capture marking the finding, if the query has a capture of that name.
    pub match_capture_ix: Option<u32>,
}

/// A cross-file rule's queries compiled for one language.
pub struct CompiledCrossRule {
    pub rule_idx: usize,
    pub source: Query,
    /// The link capture in the source query.
    pub source_link_ix: u32,
    pub sink: Query,
    /// The link capture in the sink query.
    pub sink_link_ix: u32,
    /// Capture marking the finding node in the sink query, if there is one.
    pub sink_match_ix: Option<u32>,
}

/// What compiling a rule for a language comes to.
pub enum Compiled<T> {
    /// The rule does not run on the language in this way.
    Skipped,
    /// The rule is compiled.
    Ready(T),
    /// The rule is left out, with a warning.
    Warned(Seq<char>),
}

/// What compiling a rule that runs file by file comes to.
pub open spec fn compiled_rule(
    language: Language,
    lang_id: Seq<char>,
    r: rule::RuleModel,
    rule_idx: usize,
) -> Compiled<CompiledRule> {
    if !rule::applies(r.languages, lang_id) || r.matcher is CrossFile {
        Compiled::Skipped
    } else {
        match rule::query_text(r) {
            Err(e) => Compiled::Warned("rule '"@ + r.id + "': "@ + e),
            Ok(q) => match syntax::query_of(language, q) {
                Ok(query) => Compiled::Ready(
                    CompiledRule {
                        rule_idx,
                        query,
                        match_capture_ix: syntax::capture_number(query, r.match_capture),
                    },
                ),
                Err(e) => Compiled::Warned(
                    "rule '"@ + r.id + "' does not compile for language '"@ + lang_id + "': "@
                        + syntax::query_error_text(e),
                ),
            },
        }
    }
}

/// What compiling the two queries of a cross-file rule comes to.
pub open spec fn compiled_queries(
    language: Language,
    source: Seq<char>,
    sink: Seq<char>,
    match_capture: Seq<char>,
    rule_idx: usize,
) -> Result<CompiledCrossRule, Seq<char>> {
    match (syntax::query_of(language, source), syntax::query_of(language, sink)) {
        (Err(e), _) => Err("source: "@ + syntax::query_error_text(e)),
        (_, Err(e)) => Err("sink: "@ + syntax::query_error_text(e)),
        (Ok(source_q), Ok(sink_q)) => match (
            syntax::capture_number(source_q, crossfile::LINK_CAPTURE@),
            syntax::capture_number(sink_q, crossfile::LINK_CAPTURE@),
        ) {
            (None, _) => Err("source query has no @link capture"@),
            (_, None) => Err("sink query has no @link capture"@),
            (Some(source_link_ix), Some(sink_link_ix)) => Ok(
                CompiledCrossRule {
                    rule_idx,
                    source: source_q,
                    source_link_ix,
                    sink: sink_q,
                    sink_link_ix,
                    sink_match_ix: syntax::capture_number(sink_q, match_capture),
                },
            ),
        },
    }
}

/// What compiling a cross-file rule comes to.
pub open spec fn compiled_cross_rule(
    language: Language,
    lang_id: Seq<char>,
    r: rule::RuleModel,
    rule_idx: usize,
) -> Compiled<CompiledCrossRule> {
    if !rule::applies(r.languages, lang_id) {
        Compiled::Skipped
    } else {
        match r.matcher {
            rule::MatcherModel::CrossFile { source, sink } => match compiled_queries(
                language,
                source,
                sink,
                r.match_capture,
                rule_idx,
            ) {
                Ok(c) => Compiled::Ready(c),
                Err(e) => Compiled::Warned(
                    "cross-file rule '"@ + r.id + "' does not compile for language '"@ + lang_id
                        + "': "@ + e,
                ),
            },
            _ => Compiled::Skipped,
        }
    }
}

/// The compiled ones among the first `n` rules.
pub open spec fn compiled_rules(
    language: Language,
    lang_id: Seq<char>,
    rules: Seq<rule::RuleModel>,
    n: nat,
) -> Seq<CompiledRule>
    decreases n,
{
    if n == 0 {
        seq![]
    } else {
        let before = compiled_rules(language, lang_id, rules, (n - 1) as nat);
        match compiled_rule(language, lang_id, rules[n - 1], (n - 1) as usize) {
            Compiled::Ready(c) => before.push(c),
            _ => before,
        }
    }
}

/// The warnings about the first `n` rules.
pub open spec fn compile_warnings(
    language: Language,
    lang_id: Seq<char>,
    rules: Seq<rule::RuleModel>,
    n: nat,
) -> Seq<Seq<char>>
    decreases n,
{
    if n == 0 {
        seq![]
    } else {
        let before = compile_warnings(language, lang_id, rules, (n - 1) as nat);
        match compiled_rule(language, lang_id, rules[n - 1], (n - 1) as usize) {
            Compiled::Warned(w) => before.push(w),
            _ => before,
        }
    }
}

/// The compiled cross-file ones among the first `n` rules.
pub open spec fn compiled_cross_rules(
    language: Language,
    lang_id: Seq<char>,
    rules: Seq<rule::RuleModel>,
    n: nat,
) -> Seq<CompiledCrossRule>
    decreases n,
{
    if n == 0 {
        seq![]
    } else {
        let before = compiled_cross_rules(language, lang_id, rules, (n - 1) as nat);
        match compiled_cross_rule(language, lang_id, rules[n - 1], (n - 1) as usize) {
            Compiled::Ready(c) => before.push(c),
            _ => before,
        }
    }
}

/// The warnings about the cross-file ones among the first `n` rules.
pub open spec fn cross_warnings(
    language: Language,
    lang_id: Seq<char>,
    rules: Seq<rule::RuleModel>,
    n: nat,
) -> Seq<Seq<char>>
    decreases n,
{
    if n == 0 {
        seq![]
    } else {
        let before = cross_warnings(language, lang_id, rules, (n - 1) as nat);
        match compiled_cross_rule(language, lang_id, rules[n - 1], (n - 1) as usize) {
            Compiled::Warned(w) => before.push(w),
            _ => before,
        }
    }
}

/// Compile the rules that run file by file for a language, skipping with a warning those
/// whose query is not valid for the grammar.
fn compile_rules(language: &Language, lang_id: &str, rules: &[Rule]) -> (r: (
    Vec<CompiledRule>,
    Vec<String>,
))
    ensures
        r.0@ == compiled_rules(*language, lang_id@, rule::rule_models(rules@), rules@.len()),
        text::texts(r.1@) == compile_warnings(
            *language,
            lang_id@,
            rule::rule_models(rules@),
            rules@.len(),
        ),
{
    let ghost ms = rule::rule_models(rules@);
    let mut items: Vec<CompiledRule> = Vec::new();
    let mut warnings: Vec<String> = Vec::new();
    assert(text::texts(warnings@) =~= seq![]);
    for rule_idx in 0..rules.len()
        invariant
            ms == rule::rule_models(rules@),
            items@ == compiled_rules(*language, lang_id@, ms, rule_idx as nat),
            text::texts(warnings@) == compile_warnings(*language, lang_id@, ms, rule_idx as nat),
    {
        let rule = &rules[rule_idx];
        assert(ms[rule_idx as int] == rule@);
        let ghost warned = text::texts(warnings@);
        if rule.applies_to(lang_id) && !rule.is_cross_file() {
            match rule.query_source() {
                Err(e) => {
                    let mut w = "rule '".to_owned();
                    w.append(rule.id.as_str());
                    w.append("': ");
                    w.append(e.as_str());
                    let ghost model = w@;
                    warnings.push(w);
                    assert(text::texts(warnings@) =~= warned.push(model));
                },
                Ok(q) => match syntax::new_query(language, q.as_str()) {
                    Ok(query) => {
                        let match_capture_ix = syntax::capture_index(
                            &query,
                            rule.match_capture.as_str(),
                        );
                        items.push(CompiledRule { rule_idx, query, match_capture_ix });
                    },
                    Err(e) => {
                        // Most commonly a node kind that this grammar variant lacks.
                        let mut w = "rule '".to_owned();
                        w.append(rule.id.as_str());
                        w.append("' does not compile for language '");
                        w.append(lang_id);
                        w.append("': ");
                        w.append(syntax::describe_query_error(&e).as_str());
                        let ghost model = w@;
                        warnings.push(w);
                        assert(text::texts(warnings@) =~= warned.push(model));
                    },
                },
            }
        }
    }
    (items, warnings)
}

fn compile_queries(
    language: &Language,
    source: &str,
    sink: &str,
    match_capture: &str,
    rule_idx: usize,
) -> (r: Result<CompiledCrossRule, String>)
    ensures
        match r {
            Ok(c) => compiled_queries(*language, source@, sink@, match_capture@, rule_idx) == Ok::<
                CompiledCrossRule,
                Seq<char>,
            >(c),
            Err(e) => compiled_queries(*language, source@, sink@, match_capture@, rule_idx)
                == Err::<CompiledCrossRule, Seq<char>>(e@),
        },
{
    let source_q = match syntax::new_query(language, source) {
        Ok(q) => q,
        Err(e) => {
            let mut out = "source: ".to_owned();
            out.append(syntax::describe_query_error(&e).as_str());
            return Err(out);
        },
    };
    let sink_q = match syntax::new_query(language, sink) {
        Ok(q) => q,
        Err(e) => {
            let mut out = "sink: ".to_owned();
            out.append(syntax::describe_query_error(&e).as_str());
            return Err(out);
        },
    };
    let source_link_ix = match syntax::capture_index(&source_q, crossfile::LINK_CAPTURE) {
        Some(ix) => ix,
        None => {
            return Err("source query has no @link capture".to_owned());
        },
    };
    let sink_link_ix = match syntax::capture_index(&sink_q, crossfile::LINK_CAPTURE) {
        Some(ix) => ix,
        None => {
            return Err("sink query has no @link capture".to_owned());
        },
    };
    let sink_match_ix = syntax::capture_index(&sink_q, match_capture);
    Ok(
        CompiledCrossRule {
            rule_idx,
            source: source_q,
            source_link_ix,
            sink: sink_q,
            sink_link_ix,
            sink_match_ix,
        },
    )
}

/// Compile the cross-file rules for a language.
fn compile_cross_rules(language: &Language, lang_id: &str, rules: &[Rule]) -> (r: (
    Vec<CompiledCrossRule>,
    Vec<String>,
))
    ensures
        r.0@ == compiled_cross_rules(
            *language,
            lang_id@,
            rule::rule_models(rules@),
            rules@.len(),
        ),
        text::texts(r.1@) == cross_warnings(
            *language,
            lang_id@,
            rule::rule_models(rules@),
            rules@.len(),
        ),
{
    let ghost ms = rule::rule_models(rules@);
    let mut items: Vec<CompiledCrossRule> = Vec::new();
    let mut warnings: Vec<String> = Vec::new();
    assert(text::texts(warnings@) =~= seq![]);
    for rule_idx in 0..rules.len()
        invariant
            ms == rule::rule_models(rules@),
            items@ == compiled_cross_rules(*language, lang_id@, ms, rule_idx as nat),
            text::texts(warnings@) == cross_warnings(*language, lang_id@, ms, rule_idx as nat),
    {
        let rule = &rules[rule_idx];
        assert(ms[rule_idx as int] == rule@);
        let ghost warned = text::texts(warnings@);
        if rule.applies_to(lang_id) {
            if let Matcher::CrossFile { source, sink } = &rule.matcher {
                match compile_queries(
                    language,
                    source.as_str(),
                    sink.as_str(),
                    rule.match_capture.as_str(),
                    rule_idx,
                ) {
                    Ok(c) => {
                        items.push(c);
                    },
                    Err(e) => {
                        let mut w = "cross-file rule '".to_owned();
                        w.append(rule.id.as_str());
                        w.append("' does not compile for language '");
                        w.append(lang_id);
                        w.append("': ");
                        w.append(e.as_str());
                        let ghost model = w@;
                        warnings.push(w);
                        assert(text::texts(warnings@) =~= warned.push(model));
                    },
                }
            }
        }
    }
    (items, warnings)
}

proof fn lemma_compiled_indices(
    language: Language,
    lang_id: Seq<char>,
    rules: Seq<rule::RuleModel>,
    n: nat,
)
    requires
        n <= rules.len() <= usize::MAX,
    ensures
        forall|i: int|
            0 <= i < compiled_rules(language, lang_id, rules, n).len() ==> (
            #[trigger] compiled_rules(language, lang_id, rules, n)[i]).rule_idx < n,
    decreases n,
{
    if n > 0 {
        lemma_compiled_indices(language, lang_id, rules, (n - 1) as nat);
        let before = compiled_rules(language, lang_id, rules, (n - 1) as nat);
        let all = compiled_rules(language, lang_id, rules, n);
        assert forall|i: int| 0 <= i < all.len() implies (#[trigger] all[i]).rule_idx < n by {
            if i < before.len() {
                assert(all[i] == before[i]);
            }
        }
    }
}

proof fn lemma_cross_indices(
    language: Language,
    lang_id: Seq<char>,
    rules: Seq<rule::RuleModel>,
    n: nat,
)
    requires
        n <= rules.len() <= usize::MAX,
    ensures
        forall|i: int|
            0 <= i < compiled_cross_rules(language, lang_id, rules, n).len() ==> (
            #[trigger] compiled_cross_rules(language, lang_id, rules, n)[i]).rule_idx < n,
    decreases n,
{
    if n > 0 {
        lemma_cross_indices(language, lang_id, rules, (n - 1) as nat);
        let before = compiled_cross_rules(language, lang_id, rules, (n - 1) as nat);
        let all = compiled_cross_rules(language, lang_id, rules, n);
        assert forall|i: int| 0 <= i < all.len() implies (#[trigger] all[i]).rule_idx < n by {
            if i < before.len() {
                assert(all[i] == before[i]);
            }
        }
    }
}

// ---------------------------------------------------------------------------
// The findings of a file
// ---------------------------------------------------------------------------

/// The findings of the first `n` compiled rules in a parsed file; none at all where a match
/// does not lie in the source.
pub open spec fn tree_findings(
    rules: Seq<rule::RuleModel>,
    compiled: Seq<CompiledRule>,
    tree: Tree,
    file: matching::FileModel,
    n: nat,
) -> Option<Seq<finding::FindingModel>>
    decreases n,
{
    if n == 0 {
        Some(seq![])
    } else {
        let c = compiled[n - 1];
        let matches = syntax::matches_of(c.query, tree, file.source);
        match (
            tree_findings(rules, compiled, tree, file, (n - 1) as nat),
            matching::findings_of(
                rules[c.rule_idx as int],
                file,
                matches,
                c.match_capture_ix,
                matches.len(),
            ),
        ) {
            (Some(before), Some(here)) => Some(before + here),
            _ => None,
        }
    }
}

proof fn lemma_tree_findings_stop(
    rules: Seq<rule::RuleModel>,
    compiled: Seq<CompiledRule>,
    tree: Tree,
    file: matching::FileModel,
    i: nat,
    n: nat,
)
    requires
        i <= n,
        tree_findings(rules, compiled, tree, file, i) is None,
    ensures
        tree_findings(rules, compiled, tree, file, n) is None,
    decreases n - i,
{
    if i < n {
        lemma_tree_findings_stop(rules, compiled, tree, file, i, (n - 1) as nat);
    }
}

/// The error for a file that has no syntax tree.
pub open spec fn parse_error(failure: ParseFailure, lang_id: Seq<char>, path: Seq<char>) -> Seq<char> {
    match failure {
        ParseFailure::Language => "setting language '"@ + lang_id + "'"@,
        ParseFailure::Parse => "parsing "@ + path,
    }
}

/// The error for a match that does not lie in the source.
pub open spec fn stray_match(path: Seq<char>) -> Seq<char> {
    "a match in "@ + path + " does not lie in its source"@
}

/// The findings of the rules that run file by file, in a file in the language of an entry,
/// where the rules are compiled for `grammar`. The findings carry `id_path`; errors name `path`.
pub open spec fn file_findings(
    rules: Seq<rule::RuleModel>,
    grammar: Language,
    entry: language::EntryModel,
    path: Seq<char>,
    id_path: Seq<char>,
    source: Seq<u8>,
) -> Result<Seq<finding::FindingModel>, Seq<char>> {
    match syntax::parsed(entry.language, source) {
        Err(failure) => Err(parse_error(failure, entry.id, path)),
        Ok(tree) => {
            let file = matching::FileModel { language: entry.id, path: id_path, source };
            let compiled = compiled_rules(grammar, entry.id, rules, rules.len());
            match tree_findings(rules, compiled, tree, file, compiled.len()) {
                Some(f) => Ok(f),
                None => Err(stray_match(path)),
            }
        },
    }
}

fn describe_parse_failure(failure: ParseFailure, lang_id: &str, path: &str) -> (r: String)
    ensures
        r@ == parse_error(failure, lang_id@, path@),
{
    match failure {
        ParseFailure::Language => {
            let mut e = "setting language '".to_owned();
            e.append(lang_id);
            e.append("'");
            e
        },
        ParseFailure::Parse => {
            let mut e = "parsing ".to_owned();
            e.append(path);
            e
        },
    }
}

fn describe_stray(path: &str) -> (r: String)
    ensures
        r@ == stray_match(path@),
{
    let mut e = "a match in ".to_owned();
    e.append(path);
    e.append(" does not lie in its source");
    e
}

fn run_compiled(
    rules: &[Rule],
    compiled: &Vec<CompiledRule>,
    tree: &Tree,
    file: &SourceFile<'_>,
    source: &[u8],
) -> (r: Option<Vec<Finding>>)
    requires
        file.wf(),
        file@.source == source@,
        syntax::parsed_from(*tree, source@),
        forall|i: int|
            0 <= i < compiled@.len() ==> (#[trigger] compiled@[i]).rule_idx < rules@.len(),
    ensures
        matching::opt_models(r) == tree_findings(
            rule::rule_models(rules@),
            compiled@,
            *tree,
            file@,
            compiled@.len(),
        ),
{
    let ghost ms = rule::rule_models(rules@);
    let mut out: Vec<Finding> = Vec::new();
    assert(finding::models(out@) =~= seq![]);
    for i in 0..compiled.len()
        invariant
            file.wf(),
            file@.source == source@,
            syntax::parsed_from(*tree, source@),
            ms == rule::rule_models(rules@),
            forall|i: int|
                0 <= i < compiled@.len() ==> (#[trigger] compiled@[i]).rule_idx < rules@.len(),
            tree_findings(ms, compiled@, *tree, file@, i as nat) == Some(finding::models(out@)),
    {
        let c = &compiled[i];
        assert(compiled@[i as int].rule_idx < rules@.len());
        let matches = syntax::query_matches(&c.query, tree, source);
        assert(syntax::match_models(matches@).len() == matches@.len());
        assert(ms[c.rule_idx as int] == rules@[c.rule_idx as int]@);
        match matching::match_findings(
            &rules[c.rule_idx],
            file,
            &matches,
            c.match_capture_ix,
        ) {
            Some(found) => {
                let ghost before = finding::models(out@);
                let ghost here = finding::models(found@);
                let mut found = found;
                out.append(&mut found);
                assert(finding::models(out@) =~= before + here);
            },
            None => {
                proof {
                    lemma_tree_findings_stop(
                        ms,
                        compiled@,
                        *tree,
                        file@,
                        (i + 1) as nat,
                        compiled@.len(),
                    );
                }
                return None;
            },
        }
    }
    Some(out)
}

// ---------------------------------------------------------------------------
// Scanner
// ---------------------------------------------------------------------------

struct CompiledSet {
    /// The id of the language.
    id: String,
    rules: Vec<CompiledRule>,
}

struct CompiledCrossSet {
    /// The id of the language.
    id: String,
    rules: Vec<CompiledCrossRule>,
}

/// Runs rules over files. Queries are compiled once per language.
pub struct Scanner<'a> {
    registry: &'a LanguageRegistry,
    rules: &'a [Rule],
    /// Per-language compiled rule sets, built on first use.
    compiled: Vec<CompiledSet>,
    /// Per-language compiled cross-file rules, built on first use.
    cross_compiled: Vec<CompiledCrossSet>,
    /// Non-fatal diagnostics, such as a rule's query that did not compile for a language.
    warnings: Vec<String>,
    /// When set, finding paths (and therefore fingerprints) are relative to this root, so
    /// that scans of two checkouts give identical identities.
    path_root: Option<String>,
    /// The findings cache; none disables caching.
    cache: Option<&'a Cache>,
}

/// What a scanner is set up with and has done.
#[verifier::ext_equal]
pub struct ScannerModel {
    pub registry: Seq<language::EntryModel>,
    pub rules: Seq<rule::RuleModel>,
    /// The ids of the languages that rules were compiled for.
    pub compiled: Seq<Seq<char>>,
    /// The ids of the languages that cross-file rules were compiled for.
    pub cross_compiled: Seq<Seq<char>>,
    pub warnings: Seq<Seq<char>>,
    pub path_root: Option<Seq<char>>,
    pub cache: Option<cache::CacheModel>,
}

/// The grammar that rules are compiled for in a language: that of the first entry with its id.
pub open spec fn rule_grammar(registry: Seq<language::EntryModel>, lang_id: Seq<char>) -> Language {
    registry[language::entry_with_id(registry, 0, lang_id)].language
}

/// The scanner after compiling the rules for a language, which happens once per id and warns
/// once.
pub open spec fn with_compiled(s: ScannerModel, lang_id: Seq<char>) -> ScannerModel {
    if s.compiled.contains(lang_id) {
        s
    } else {
        ScannerModel {
            compiled: s.compiled.push(lang_id),
            warnings: s.warnings + compile_warnings(
                rule_grammar(s.registry, lang_id),
                lang_id,
                s.rules,
                s.rules.len(),
            ),
            ..s
        }
    }
}

/// The scanner after compiling the cross-file rules for a language, which happens once per id
/// and warns once.
pub open spec fn with_cross_compiled(s: ScannerModel, lang_id: Seq<char>) -> ScannerModel {
    if s.cross_compiled.contains(lang_id) {
        s
    } else {
        ScannerModel {
            cross_compiled: s.cross_compiled.push(lang_id),
            warnings: s.warnings + cross_warnings(
                rule_grammar(s.registry, lang_id),
                lang_id,
                s.rules,
                s.rules.len(),
            ),
            ..s
        }
    }
}

/// The warning for a file outside the scan root.
pub open spec fn outside_root(path: Seq<char>, root: Seq<char>) -> Seq<char> {
    path + " lies outside the scan root "@ + root
        + "; its findings keep a non-portable path and may not diff cleanly"@
}

/// The path that findings in a file carry: relative to the scan root where there is one and
/// the file's canonical path lies below it, and as given otherwise.
pub open spec fn id_path(root: Option<Seq<char>>, path: Seq<char>, canonical: Option<Seq<char>>) -> Seq<
    char,
> {
    match root {
        None => path,
        Some(r) => match below_root(canonical, r) {
            Some(rel) => rel,
            None => path,
        },
    }
}

/// A canonical path below a root, relative to it.
pub open spec fn below_root(canonical: Option<Seq<char>>, root: Seq<char>) -> Option<Seq<char>> {
    match canonical {
        Some(c) => path::path_below(c, root),
        None => None,
    }
}

/// The scanner after working out the path that findings in a file carry: a file outside the
/// root is warned about, since its findings cannot match those of another checkout.
pub open spec fn with_path_checked(
    s: ScannerModel,
    path: Seq<char>,
    canonical: Option<Seq<char>>,
) -> ScannerModel {
    match s.path_root {
        Some(root) => if below_root(canonical, root) is None {
            ScannerModel { warnings: s.warnings.push(outside_root(path, root)), ..s }
        } else {
            s
        },
        None => s,
    }
}

/// The cache key of a file, where there is a cache.
pub open spec fn file_key(
    s: ScannerModel,
    entry: language::EntryModel,
    path: Seq<char>,
    source: Seq<u8>,
) -> Option<Seq<char>> {
    match s.cache {
        None => None,
        Some(c) => Some(
            fingerprint::digest_of(
                cache::key_parts(
                    c,
                    fingerprint::path_identity(path),
                    fingerprint::hex(fingerprint::sha256_digest(source)),
                    entry.id,
                    language::grammar_text(entry.language),
                ),
            ),
        ),
    }
}

spec fn set_ids(s: Seq<CompiledSet>) -> Seq<Seq<char>> {
    s.map_values(|c: CompiledSet| c.id@)
}

spec fn cross_set_ids(s: Seq<CompiledCrossSet>) -> Seq<Seq<char>> {
    s.map_values(|c: CompiledCrossSet| c.id@)
}

impl<'a> View for Scanner<'a> {
    type V = ScannerModel;

    closed spec fn view(&self) -> ScannerModel {
        ScannerModel {
            registry: self.registry@,
            rules: rule::rule_models(self.rules@),
            compiled: set_ids(self.compiled@),
            cross_compiled: cross_set_ids(self.cross_compiled@),
            warnings: text::texts(self.warnings@),
            path_root: text::opt_text(self.path_root),
            cache: match self.cache {
                Some(c) => Some(c@),
                None => None,
            },
        }
    }
}

impl<'a> Scanner<'a> {
    /// Is everything that was compiled what its language and the rules make it?
    pub closed spec fn wf(&self) -> bool {
        &&& forall|i: int|
            0 <= i < self.compiled@.len() ==> {
                let id = (#[trigger] self.compiled@[i]).id@;
                self.compiled@[i].rules@ == compiled_rules(
                    rule_grammar(self.registry@, id),
                    id,
                    rule::rule_models(self.rules@),
                    self.rules@.len(),
                )
            }
        &&& forall|i: int|
            0 <= i < self.cross_compiled@.len() ==> {
                let id = (#[trigger] self.cross_compiled@[i]).id@;
                self.cross_compiled@[i].rules@ == compiled_cross_rules(
                    rule_grammar(self.registry@, id),
                    id,
                    rule::rule_models(self.rules@),
                    self.rules@.len(),
                )
            }
    }

    pub fn new(registry: &'a LanguageRegistry, rules: &'a [Rule]) -> (r: Self)
        ensures
            r.wf(),
            r@ == (ScannerModel {
                registry: registry@,
                rules: rule::rule_models(rules@),
                compiled: seq![],
                cross_compiled: seq![],
                warnings: seq![],
                path_root: None,
                cache: None,
            }),
    {
        let r = Scanner {
            registry,
            rules,
            compiled: Vec::new(),
            cross_compiled: Vec::new(),
            warnings: Vec::new(),
            path_root: None,
            cache: None,
        };
        assert(set_ids(r.compiled@) =~= seq![]);
        assert(cross_set_ids(r.cross_compiled@) =~= seq![]);
        assert(text::texts(r.warnings@) =~= seq![]);
        r
    }

    /// Make finding paths relative to a root, given in canonical form.
    pub fn with_path_root(self, root: String) -> (r: Self)
        requires
            self.wf(),
        ensures
            r.wf(),
            r@ == (ScannerModel { path_root: Some(root@), ..self@ }),
    {
        let mut s = self;
        s.path_root = Some(root);
        s
    }

    /// Serve unchanged files from a findings cache.
    pub fn with_cache(self, cache: &'a Cache) -> (r: Self)
        requires
            self.wf(),
        ensures
            r.wf(),
            r@ == (ScannerModel { cache: Some(cache@), ..self@ }),
    {
        let mut s = self;
        s.cache = Some(cache);
        s
    }

    /// The warnings so far, which are then forgotten.
    pub fn take_warnings(&mut self) -> (r: Vec<String>)
        requires
            old(self).wf(),
        ensures
            final(self).wf(),
            text::texts(r@) == old(self)@.warnings,
            final(self)@ == (ScannerModel { warnings: seq![], ..old(self)@ }),
    {
        let mut out: Vec<String> = Vec::new();
        let ghost all = text::texts(self.warnings@);
        for i in 0..self.warnings.len()
            invariant
                all == text::texts(self.warnings@),
                *self == *old(self),
                text::texts(out@) == all.take(i as int),
        {
            let ghost before = text::texts(out@);
            out.push(self.warnings[i].clone());
            assert(text::texts(out@) =~= before.push(all[i as int]));
            assert(text::texts(out@) =~= all.take(i + 1));
        }
        assert(all.take(all.len() as int) =~= all);
        self.warnings = Vec::new();
        assert(text::texts(self.warnings@) =~= seq![]);
        out
    }

    fn push_warnings(&mut self, new: Vec<String>)
        requires
            old(self).wf(),
        ensures
            final(self).wf(),
            final(self).compiled@ == old(self).compiled@,
            final(self).cross_compiled@ == old(self).cross_compiled@,
            final(self).rules == old(self).rules,
            final(self).registry == old(self).registry,
            final(self)@ == (ScannerModel {
                warnings: old(self)@.warnings + text::texts(new@),
                ..old(self)@
            }),
    {
        let ghost before = text::texts(self.warnings@);
        let ghost added = text::texts(new@);
        let mut new = new;
        self.warnings.append(&mut new);
        assert(text::texts(self.warnings@) =~= before + added);
    }

    /// Compile (once) the rules applicable to a registered language. The result is where they are
    /// kept.
    fn compiled_for(&mut self, lang_id: &str) -> (r: usize)
        requires
            old(self).wf(),
            language::entry_with_id(old(self)@.registry, 0, lang_id@) >= 0,
        ensures
            final(self).wf(),
            final(self)@ == with_compiled(old(self)@, lang_id@),
            final(self).rules == old(self).rules,
            final(self).registry == old(self).registry,
            r < final(self).compiled@.len(),
            final(self).compiled@[r as int].id@ == lang_id@,
    {
        for i in 0..self.compiled.len()
            invariant
                *self == *old(self),
                self.wf(),
                self@.compiled == set_ids(self.compiled@),
                forall|j: int| 0 <= j < i ==> #[trigger] self@.compiled[j] != lang_id@,
        {
            assert(self@.compiled[i as int] == self.compiled@[i as int].id@);
            if text::same(self.compiled[i].id.as_str(), lang_id) {
                assert(self@.compiled.contains(lang_id@));
                return i;
            }
        }
        assert(!self@.compiled.contains(lang_id@));
        let (rules, warnings) = match self.registry.by_id(lang_id) {
            Some(entry) => compile_rules(entry.language(), lang_id, self.rules),
            None => {
                assert(false);
                (Vec::new(), Vec::new())
            },
        };
        let ghost before = set_ids(self.compiled@);
        self.compiled.push(CompiledSet { id: lang_id.to_owned(), rules });
        assert(set_ids(self.compiled@) =~= before.push(lang_id@));
        self.push_warnings(warnings);
        self.compiled.len() - 1
    }

    /// Compile (once) the cross-file rules applicable to a registered language. The result is
    /// where they are kept.
    fn cross_compiled_for(&mut self, lang_id: &str) -> (r: usize)
        requires
            old(self).wf(),
            language::entry_with_id(old(self)@.registry, 0, lang_id@) >= 0,
        ensures
            final(self).wf(),
            final(self)@ == with_cross_compiled(old(self)@, lang_id@),
            final(self).rules == old(self).rules,
            final(self).registry == old(self).registry,
            r < final(self).cross_compiled@.len(),
            final(self).cross_compiled@[r as int].id@ == lang_id@,
    {
        for i in 0..self.cross_compiled.len()
            invariant
                *self == *old(self),
                self.wf(),
                self@.cross_compiled == cross_set_ids(self.cross_compiled@),
                forall|j: int| 0 <= j < i ==> #[trigger] self@.cross_compiled[j] != lang_id@,
        {
            assert(self@.cross_compiled[i as int] == self.cross_compiled@[i as int].id@);
            if text::same(self.cross_compiled[i].id.as_str(), lang_id) {
                assert(self@.cross_compiled.contains(lang_id@));
                return i;
            }
        }
        assert(!self@.cross_compiled.contains(lang_id@));
        let (rules, warnings) = match self.registry.by_id(lang_id) {
            Some(entry) => compile_cross_rules(entry.language(), lang_id, self.rules),
            None => {
                assert(false);
                (Vec::new(), Vec::new())
            },
        };
        let ghost before = cross_set_ids(self.cross_compiled@);
        self.cross_compiled.push(CompiledCrossSet { id: lang_id.to_owned(), rules });
        assert(cross_set_ids(self.cross_compiled@) =~= before.push(lang_id@));
        self.push_warnings(warnings);
        self.cross_compiled.len() - 1
    }

    /// The identity path of a scanned file, given its canonical path if it has one.
    fn id_path_for(&mut self, path: &str, canonical: Option<&str>) -> (r: String)
        requires
            old(self).wf(),
        ensures
            final(self).wf(),
            r@ == id_path(old(self)@.path_root, path@, language::opt_str(canonical)),
            final(self)@ == with_path_checked(old(self)@, path@, language::opt_str(canonical)),
            final(self).registry == old(self).registry,
            final(self).rules == old(self).rules,
            final(self).cross_compiled@ == old(self).cross_compiled@,
    {
        let root = match &self.path_root {
            Some(root) => root.clone(),
            None => {
                return path.to_owned();
            },
        };
        let rel = match canonical {
            Some(c) => git::relative_to(Some(c), Some(root.as_str())),
            None => None,
        };
        match rel {
            Some(rel) => rel,
            None => {
                let mut w = path.to_owned();
                w.append(" lies outside the scan root ");
                w.append(root.as_str());
                w.append(
                    "; its findings keep a non-portable path and may not diff cleanly",
                );
                let ghost before = text::texts(self.warnings@);
                let ghost model = w@;
                self.warnings.push(w);
                assert(text::texts(self.warnings@) =~= before.push(model));
                path.to_owned()
            },
        }
    }

    /// Parse one file in a registered language and run every applicable rule over it: the
    /// file's finding set, which is the unit that the cache keeps.
    fn run_file_queries(&mut self, path: &str, source: &[u8], k: usize, id_path: &str) -> (r: Result<
        Vec<Finding>,
        String,
    >)
        requires
            old(self).wf(),
            k < old(self)@.registry.len(),
        ensures
            final(self).wf(),
            final(self).registry == old(self).registry,
            final(self)@ == if syntax::parsed(
                old(self)@.registry[k as int].language,
                source@,
            ) is Ok {
                with_compiled(old(self)@, old(self)@.registry[k as int].id)
            } else {
                old(self)@
            },
            match r {
                Ok(found) => file_findings(
                    old(self)@.rules,
                    rule_grammar(old(self)@.registry, old(self)@.registry[k as int].id),
                    old(self)@.registry[k as int],
                    path@,
                    id_path@,
                    source@,
                ) == Ok::<Seq<finding::FindingModel>, Seq<char>>(finding::models(found@)),
                Err(e) => file_findings(
                    old(self)@.rules,
                    rule_grammar(old(self)@.registry, old(self)@.registry[k as int].id),
                    old(self)@.registry[k as int],
                    path@,
                    id_path@,
                    source@,
                ) == Err::<Seq<finding::FindingModel>, Seq<char>>(e@),
            },
    {
        let ghost model = self@.registry[k as int];
        let registry = self.registry;
        let entry = registry.entry(k);
        let lang_id = entry.id();
        let tree = match syntax::parse(entry.language(), source) {
            Ok(tree) => tree,
            Err(failure) => {
                return Err(describe_parse_failure(failure, lang_id.as_str(), path));
            },
        };
        assert(syntax::parsed_from(tree, source@));
        proof {
            language::lemma_entry_with_own_id(self@.registry, k as int);
        }
        let at = self.compiled_for(lang_id.as_str());
        let file = SourceFile::open(lang_id.as_str(), id_path, source);
        let compiled = &self.compiled[at].rules;
        let bound: usize = self.rules.len();
        proof {
            assert(self.rules@.len() == bound);
            let grammar = rule_grammar(self.registry@, model.id);
            lemma_compiled_indices(
                grammar,
                model.id,
                rule::rule_models(self.rules@),
                self.rules@.len(),
            );
            assert(self.compiled@[at as int].rules@ == compiled_rules(
                grammar,
                model.id,
                rule::rule_models(self.rules@),
                self.rules@.len(),
            ));
        }
        match run_compiled(self.rules, compiled, &tree, &file, source) {
            Some(found) => Ok(found),
            None => Err(describe_stray(path)),
        }
    }
}

// ---------------------------------------------------------------------------
// Scanning a file
// ---------------------------------------------------------------------------

/// What scanning a file comes to.
#[verifier::ext_equal]
pub struct ScanStep {
    pub scanner: ScannerModel,
    pub report: ReportModel,
    /// The findings in the file, or the error; none where the file was skipped.
    pub found: Result<Option<Seq<finding::FindingModel>>, Seq<char>>,
}

/// What scanning a file comes to. A file without a language is skipped. The findings come from
/// the cache where it has them, and from the rules' queries otherwise.
pub open spec fn scan_step(
    s: ScannerModel,
    r: ReportModel,
    path: Seq<char>,
    canonical: Option<Seq<char>>,
    explicit: Option<Seq<char>>,
    source: Seq<u8>,
    cached: Option<Seq<finding::FindingModel>>,
) -> ScanStep {
    match language::resolved(s.registry, explicit, path) {
        Err(e) => ScanStep { scanner: s, report: r, found: Err(e) },
        Ok(None) => ScanStep { scanner: s, report: skipped(r), found: Ok(None) },
        Ok(Some(k)) => {
            let entry = s.registry[k];
            let checked = with_path_checked(s, path, canonical);
            match cached {
                Some(f) => ScanStep {
                    scanner: checked,
                    report: scanned(r, path, entry.id, f, true),
                    found: Ok(Some(f)),
                },
                None => {
                    let compiled = if syntax::parsed(entry.language, source) is Ok {
                        with_compiled(checked, entry.id)
                    } else {
                        checked
                    };
                    match file_findings(
                        s.rules,
                        rule_grammar(s.registry, entry.id),
                        entry,
                        path,
                        id_path(s.path_root, path, canonical),
                        source,
                    ) {
                        Ok(f) => ScanStep {
                            scanner: compiled,
                            report: scanned(r, path, entry.id, f, false),
                            found: Ok(Some(f)),
                        },
                        Err(e) => ScanStep { scanner: compiled, report: r, found: Err(e) },
                    }
                },
            }
        },
    }
}

/// What an outcome of scanning a file holds.
pub open spec fn found_models(r: Result<Option<Vec<Finding>>, String>) -> Result<
    Option<Seq<finding::FindingModel>>,
    Seq<char>,
> {
    match r {
        Ok(Some(v)) => Ok(Some(finding::models(v@))),
        Ok(None) => Ok(None),
        Err(e) => Err(e@),
    }
}

impl<'a> Scanner<'a> {
    /// The id of the language that a file is scanned in; none if it is skipped.
    pub fn language_for(&self, path: &str, explicit_language: Option<&str>) -> (r: Result<
        Option<String>,
        String,
    >)
        ensures
            match r {
                Ok(Some(id)) => language::resolved(
                    self@.registry,
                    language::opt_str(explicit_language),
                    path@,
                ) matches Ok(Some(k)) && self@.registry[k].id == id@,
                Ok(None) => language::resolved(
                    self@.registry,
                    language::opt_str(explicit_language),
                    path@,
                ) == Ok::<Option<int>, Seq<char>>(None),
                Err(e) => language::resolved(
                    self@.registry,
                    language::opt_str(explicit_language),
                    path@,
                ) == Err::<Option<int>, Seq<char>>(e@),
            },
    {
        match self.registry.resolve(explicit_language, path) {
            Ok(Some(entry)) => Ok(Some(entry.id().clone())),
            Ok(None) => Ok(None),
            Err(e) => Err(e),
        }
    }

    /// The key under which a file's findings are cached; none without a cache or where the file
    /// is not scanned. A hit under it skips parsing and queries entirely.
    pub fn cache_key(
        &self,
        path: &str,
        canonical: Option<&str>,
        explicit_language: Option<&str>,
        source: &[u8],
    ) -> (r: Option<String>)
        ensures
            text::opt_text(r) == match language::resolved(
                self@.registry,
                language::opt_str(explicit_language),
                path@,
            ) {
                Ok(Some(k)) => file_key(
                    self@,
                    self@.registry[k],
                    id_path(self@.path_root, path@, language::opt_str(canonical)),
                    source@,
                ),
                _ => None,
            },
            r matches Some(key) ==> cache::splits(key@),
    {
        let entry = match self.registry.resolve(explicit_language, path) {
            Ok(Some(entry)) => entry,
            _ => {
                return None;
            },
        };
        let cache = match self.cache {
            Some(c) => c,
            None => {
                return None;
            },
        };
        let rel = match (&self.path_root, canonical) {
            (Some(root), Some(c)) => git::relative_to(Some(c), Some(root.as_str())),
            _ => None,
        };
        let id_path = match rel {
            Some(p) => p,
            None => path.to_owned(),
        };
        let identity = fingerprint::identity_path(id_path.as_str());
        let content = fingerprint::sha256_hex(source);
        Some(
            cache.key(
                identity.as_str(),
                content.as_str(),
                entry.id().as_str(),
                entry.grammar_version().as_str(),
            ),
        )
    }

    /// Scan a single file, given its canonical path if it has one, its bytes, and its findings
    /// as the cache holds them. A file without a language is skipped. The result is the file's
    /// findings, for the caller to put into the cache where they were not from there.
    pub fn scan_file(
        &mut self,
        path: &str,
        canonical: Option<&str>,
        explicit_language: Option<&str>,
        source: &[u8],
        cached: Option<Vec<Finding>>,
        report: &mut ScanReport,
    ) -> (r: Result<Option<Vec<Finding>>, String>)
        requires
            old(self).wf(),
            old(report).files_scanned < usize::MAX,
            old(report).files_skipped < usize::MAX,
            old(report).files_cached < usize::MAX,
        ensures
            final(self).wf(),
            scan_step(
                old(self)@,
                old(report)@,
                path@,
                language::opt_str(canonical),
                language::opt_str(explicit_language),
                source@,
                matching::opt_models(cached),
            ) == (ScanStep {
                scanner: final(self)@,
                report: final(report)@,
                found: found_models(r),
            }),
    {
        let k = match self.registry.locate(explicit_language, path) {
            Ok(Some(k)) => k,
            Ok(None) => {
                report.files_skipped = report.files_skipped + 1;
                return Ok(None);
            },
            Err(e) => {
                return Err(e);
            },
        };
        let id_path = self.id_path_for(path, canonical);
        let was_cached = cached.is_some();
        let found = match cached {
            Some(f) => f,
            None => match self.run_file_queries(path, source, k, id_path.as_str()) {
                Ok(f) => f,
                Err(e) => {
                    return Err(e);
                },
            },
        };
        let registry = self.registry;
        let entry = registry.entry(k);
        let copy = clone_findings(&found);
        report.record(path, entry.id().as_str(), found, was_cached);
        Ok(Some(copy))
    }
}

// ---------------------------------------------------------------------------
// The cross-file pass
// ---------------------------------------------------------------------------

/// A visited file with its bytes, for the cross-file pass.
#[derive(Debug)]
pub struct VisitedFile {
    pub path: String,
    /// The canonical path, if the file has one.
    pub canonical: Option<String>,
    /// The id of the language it was visited in.
    pub language: String,
    pub source: Vec<u8>,
}

/// What a cross-file pass has come to: what was collected and how far the scanner is, or the
/// error that ends it.
#[verifier::ext_equal]
pub struct CrossStep {
    pub scanner: ScannerModel,
    pub pass: Result<crossfile::PassModel, Seq<char>>,
}

/// What was collected after one more compiled cross-file rule in a parsed file.
pub open spec fn collected_by(
    pass: crossfile::PassModel,
    rules: Seq<rule::RuleModel>,
    c: CompiledCrossRule,
    tree: Tree,
    file: matching::FileModel,
) -> Option<crossfile::PassModel> {
    let from = syntax::matches_of(c.source, tree, file.source);
    let to = syntax::matches_of(c.sink, tree, file.source);
    match (
        crossfile::sources_of(c.rule_idx, file, from, c.source_link_ix, from.len()),
        crossfile::sinks_of(
            c.rule_idx,
            rules[c.rule_idx as int],
            file,
            to,
            c.sink_link_ix,
            c.sink_match_ix,
            to.len(),
        ),
    ) {
        (Some(sources), Some(sinks)) => Some(
            crossfile::PassModel {
                sources: pass.sources + sources,
                sinks: pass.sinks + sinks,
            },
        ),
        _ => None,
    }
}

/// What was collected after the first `n` compiled cross-file rules in a parsed file.
pub open spec fn collected_in(
    pass: crossfile::PassModel,
    rules: Seq<rule::RuleModel>,
    compiled: Seq<CompiledCrossRule>,
    tree: Tree,
    file: matching::FileModel,
    n: nat,
) -> Option<crossfile::PassModel>
    decreases n,
{
    if n == 0 {
        Some(pass)
    } else {
        match collected_in(pass, rules, compiled, tree, file, (n - 1) as nat) {
            Some(before) => collected_by(before, rules, compiled[n - 1], tree, file),
            None => None,
        }
    }
}

/// Where the pass stands after one more file. A file in whose language no cross-file rule
/// compiles is passed over.
pub open spec fn cross_file_step(s: ScannerModel, pass: crossfile::PassModel, f: VisitedFile) -> CrossStep {
    let k = language::entry_with_id(s.registry, 0, f.language@);
    let entry = s.registry[k];
    let compiled = compiled_cross_rules(entry.language, entry.id, s.rules, s.rules.len());
    let ready = with_cross_compiled(s, f.language@);
    if compiled.len() == 0 {
        CrossStep { scanner: ready, pass: Ok(pass) }
    } else {
        match syntax::parsed(entry.language, f.source@) {
            Err(failure) => CrossStep {
                scanner: ready,
                pass: Err(parse_error(failure, entry.id, f.path@)),
            },
            Ok(tree) => {
                let canonical = text::opt_text(f.canonical);
                let checked = with_path_checked(ready, f.path@, canonical);
                let file = matching::FileModel {
                    language: entry.id,
                    path: id_path(s.path_root, f.path@, canonical),
                    source: f.source@,
                };
                match collected_in(pass, s.rules, compiled, tree, file, compiled.len()) {
                    Some(p) => CrossStep { scanner: checked, pass: Ok(p) },
                    None => CrossStep { scanner: checked, pass: Err(stray_match(f.path@)) },
                }
            },
        }
    }
}

/// Where the pass stands after the first `n` files.
pub open spec fn cross_steps(s: ScannerModel, files: Seq<VisitedFile>, n: nat) -> CrossStep
    decreases n,
{
    if n == 0 {
        CrossStep {
            scanner: s,
            pass: Ok(crossfile::PassModel { sources: seq![], sinks: seq![] }),
        }
    } else {
        let before = cross_steps(s, files, (n - 1) as nat);
        match before.pass {
            Ok(p) => cross_file_step(before.scanner, p, files[n - 1]),
            Err(_) => before,
        }
    }
}

/// Is some rule a cross-file rule?
pub open spec fn any_cross_file(rules: Seq<rule::RuleModel>) -> bool {
    exists|i: int| 0 <= i < rules.len() && (#[trigger] rules[i]).matcher is CrossFile
}

/// What the cross-file pass comes to: the scanner, and the findings or the error.
pub open spec fn cross_pass(s: ScannerModel, files: Seq<VisitedFile>) -> (
    ScannerModel,
    Result<Seq<finding::FindingModel>, Seq<char>>,
) {
    if !any_cross_file(s.rules) {
        (s, Ok(seq![]))
    } else {
        let end = cross_steps(s, files, files.len());
        match end.pass {
            Ok(p) => (end.scanner, Ok(crossfile::joined_findings(p.sources, p.sinks))),
            Err(e) => (end.scanner, Err(e)),
        }
    }
}

proof fn lemma_cross_steps_stop(s: ScannerModel, files: Seq<VisitedFile>, i: nat, n: nat)
    requires
        i <= n,
        cross_steps(s, files, i).pass is Err,
    ensures
        cross_steps(s, files, n) == cross_steps(s, files, i),
    decreases n - i,
{
    if i < n {
        lemma_cross_steps_stop(s, files, i, (n - 1) as nat);
    }
}

proof fn lemma_collected_stop(
    pass: crossfile::PassModel,
    rules: Seq<rule::RuleModel>,
    compiled: Seq<CompiledCrossRule>,
    tree: Tree,
    file: matching::FileModel,
    i: nat,
    n: nat,
)
    requires
        i <= n,
        collected_in(pass, rules, compiled, tree, file, i) is None,
    ensures
        collected_in(pass, rules, compiled, tree, file, n) is None,
    decreases n - i,
{
    if i < n {
        lemma_collected_stop(pass, rules, compiled, tree, file, i, (n - 1) as nat);
    }
}

fn run_cross_compiled(
    pass: &mut CrossPass,
    rules: &[Rule],
    compiled: &Vec<CompiledCrossRule>,
    tree: &Tree,
    file: &SourceFile<'_>,
    source: &[u8],
) -> (ok: bool)
    requires
        old(pass).wf(),
        file.wf(),
        file@.source == source@,
        syntax::parsed_from(*tree, source@),
        forall|i: int|
            0 <= i < compiled@.len() ==> (#[trigger] compiled@[i]).rule_idx < rules@.len(),
    ensures
        final(pass).wf(),
        match collected_in(
            old(pass)@,
            rule::rule_models(rules@),
            compiled@,
            *tree,
            file@,
            compiled@.len(),
        ) {
            Some(p) => ok && final(pass)@ == p,
            None => !ok,
        },
{
    let ghost ms = rule::rule_models(rules@);
    let ghost start = pass@;
    for i in 0..compiled.len()
        invariant
            pass.wf(),
            file.wf(),
            file@.source == source@,
            syntax::parsed_from(*tree, source@),
            ms == rule::rule_models(rules@),
            start == old(pass)@,
            forall|i: int|
                0 <= i < compiled@.len() ==> (#[trigger] compiled@[i]).rule_idx < rules@.len(),
            collected_in(start, ms, compiled@, *tree, file@, i as nat) == Some(pass@),
    {
        let c = &compiled[i];
        assert(compiled@[i as int].rule_idx < rules@.len());
        assert(ms[c.rule_idx as int] == rules@[c.rule_idx as int]@);
        let ghost before = pass@;
        let from = syntax::query_matches(&c.source, tree, source);
        assert(syntax::match_models(from@).len() == from@.len());
        let sources_ok = pass.collect_sources(c.rule_idx, file, &from, c.source_link_ix);
        let to = syntax::query_matches(&c.sink, tree, source);
        assert(syntax::match_models(to@).len() == to@.len());
        let sinks_ok = sources_ok && pass.collect_sinks(
            c.rule_idx,
            &rules[c.rule_idx],
            file,
            &to,
            c.sink_link_ix,
            c.sink_match_ix,
        );
        if !sinks_ok {
            proof {
                lemma_collected_stop(
                    start,
                    ms,
                    compiled@,
                    *tree,
                    file@,
                    (i + 1) as nat,
                    compiled@.len(),
                );
            }
            return false;
        }
    }
    true
}

impl<'a> Scanner<'a> {
    fn cross_file(&mut self, pass: &mut CrossPass, f: &VisitedFile) -> (r: Result<(), String>)
        requires
            old(self).wf(),
            old(pass).wf(),
            language::entry_with_id(old(self)@.registry, 0, f.language@) >= 0,
        ensures
            final(self).wf(),
            final(pass).wf(),
            final(self)@.registry == old(self)@.registry,
            final(self)@ == cross_file_step(old(self)@, old(pass)@, *f).scanner,
            match r {
                Ok(_) => cross_file_step(old(self)@, old(pass)@, *f).pass == Ok::<
                    crossfile::PassModel,
                    Seq<char>,
                >(final(pass)@),
                Err(e) => cross_file_step(old(self)@, old(pass)@, *f).pass == Err::<
                    crossfile::PassModel,
                    Seq<char>,
                >(e@),
            },
    {
        let k = match self.registry.position(f.language.as_str()) {
            Some(k) => k,
            None => {
                assert(false);
                return Ok(());
            },
        };
        let ghost model = self@.registry[k as int];
        let at = self.cross_compiled_for(f.language.as_str());
        assert(self.cross_compiled@[at as int].rules@ == compiled_cross_rules(
            model.language,
            model.id,
            rule::rule_models(self.rules@),
            self.rules@.len(),
        ));
        if self.cross_compiled[at].rules.len() == 0 {
            return Ok(());
        }
        let registry = self.registry;
        let entry = registry.entry(k);
        let source = f.source.as_slice();
        let tree = match syntax::parse(entry.language(), source) {
            Ok(tree) => tree,
            Err(failure) => {
                return Err(
                    describe_parse_failure(failure, entry.id().as_str(), f.path.as_str()),
                );
            },
        };
        assert(syntax::parsed_from(tree, source@));
        let canonical: Option<&str> = match &f.canonical {
            Some(c) => Some(c.as_str()),
            None => None,
        };
        let id_path = self.id_path_for(f.path.as_str(), canonical);
        let file = SourceFile::open(entry.id().as_str(), id_path.as_str(), source);
        let compiled = &self.cross_compiled[at].rules;
        let bound: usize = self.rules.len();
        proof {
            assert(self.rules@.len() == bound);
            lemma_cross_indices(
                model.language,
                model.id,
                rule::rule_models(self.rules@),
                self.rules@.len(),
            );
        }
        if run_cross_compiled(
            pass,
            self.rules,
            compiled,
            &tree,
            &file,
            source,
        ) {
            Ok(())
        } else {
            Err(describe_stray(f.path.as_str()))
        }
    }

    /// Does some rule join findings across files?
    pub fn has_cross_file_rules(&self) -> (r: bool)
        ensures
            r == any_cross_file(self@.rules),
    {
        for i in 0..self.rules.len()
            invariant
                self@.rules == rule::rule_models(self.rules@),
                forall|j: int| 0 <= j < i ==> !((#[trigger] self@.rules[j]).matcher is CrossFile),
        {
            assert(self@.rules[i as int] == self.rules@[i as int]@);
            if self.rules[i].is_cross_file() {
                assert(self@.rules[i as int].matcher is CrossFile);
                return true;
            }
        }
        false
    }

    /// Does some cross-file rule compile for a registered language? Files in other languages are
    /// passed over by the cross-file pass, whatever they hold.
    pub fn joins_files_in(&self, lang_id: &str) -> (r: bool)
        requires
            self.wf(),
            language::entry_with_id(self@.registry, 0, lang_id@) >= 0,
        ensures
            r == (compiled_cross_rules(
                rule_grammar(self@.registry, lang_id@),
                lang_id@,
                self@.rules,
                self@.rules.len(),
            ).len() > 0),
    {
        match self.registry.by_id(lang_id) {
            Some(entry) => compile_cross_rules(entry.language(), lang_id, self.rules).0.len() > 0,
            None => {
                assert(false);
                false
            },
        }
    }

    /// The whole-tree pass for cross-file rules: walk every visited file (those served from
    /// the cache included), collect sources and sinks per rule, join them by their link, and
    /// report a finding at every sink whose link some source also captures.
    ///
    /// These findings are never cached: they are a function of the whole tree. Their identity
    /// works like any other finding's, so that a source added in one file makes a new finding
    /// in an untouched one.
    pub fn cross_file_pass(&mut self, files: &Vec<VisitedFile>, report: &mut ScanReport) -> (r: Result<
        (),
        String,
    >)
        requires
            old(self).wf(),
            forall|i: int|
                0 <= i < files@.len() ==> language::entry_with_id(
                    old(self)@.registry,
                    0,
                    (#[trigger] files@[i]).language@,
                ) >= 0,
        ensures
            final(self).wf(),
            final(self)@ == cross_pass(old(self)@, files@).0,
            match r {
                Ok(_) => cross_pass(old(self)@, files@).1 matches Ok(found) && final(report)@ == (
                ReportModel { findings: old(report)@.findings + found, ..old(report)@ }),
                Err(e) => cross_pass(old(self)@, files@).1 == Err::<
                    Seq<finding::FindingModel>,
                    Seq<char>,
                >(e@) && final(report)@ == old(report)@,
            },
    {
        if !self.has_cross_file_rules() {
            assert(report@.findings + Seq::<finding::FindingModel>::empty() =~= report@.findings);
            return Ok(());
        }
        let ghost start = self@;
        let mut pass = CrossPass::new();
        for i in 0..files.len()
            invariant
                self.wf(),
                pass.wf(),
                start == old(self)@,
                any_cross_file(start.rules),
                self@.registry == start.registry,
                *report == *old(report),
                forall|i: int|
                    0 <= i < files@.len() ==> language::entry_with_id(
                        start.registry,
                        0,
                        (#[trigger] files@[i]).language@,
                    ) >= 0,
                cross_steps(start, files@, i as nat) == (CrossStep {
                    scanner: self@,
                    pass: Ok(pass@),
                }),
        {
            if let Err(e) = self.cross_file(&mut pass, &files[i]) {
                proof {
                    lemma_cross_steps_stop(start, files@, (i + 1) as nat, files@.len());
                }
                return Err(e);
            }
        }
        report.push_findings(pass.join());
        Ok(())
    }
}
// ---------------------------------------------------------------------------
// Laws
// ---------------------------------------------------------------------------

/// A cache that holds what a scan of the file gives never shows: the outcome and the report
/// are those of the scan, but for the count of files served from the cache.
pub proof fn lemma_cache_transparent(
    s: ScannerModel,
    r: ReportModel,
    path: Seq<char>,
    canonical: Option<Seq<char>>,
    explicit: Option<Seq<char>>,
    source: Seq<u8>,
    found: Seq<finding::FindingModel>,
)
    requires
        scan_step(s, r, path, canonical, explicit, source, None).found == Ok::<
            Option<Seq<finding::FindingModel>>,
            Seq<char>,
        >(Some(found)),
    ensures
        scan_step(s, r, path, canonical, explicit, source, Some(found)).found == scan_step(
            s,
            r,
            path,
            canonical,
            explicit,
            source,
            None,
        ).found,
        scan_step(s, r, path, canonical, explicit, source, Some(found)).report == (ReportModel {
            files_cached: (r.files_cached + 1) as usize,
            ..scan_step(s, r, path, canonical, explicit, source, None).report
        }),
{
}

/// A scan that ends in an error leaves the report as it was.
pub proof fn lemma_failed_scan_reports_nothing(
    s: ScannerModel,
    r: ReportModel,
    path: Seq<char>,
    canonical: Option<Seq<char>>,
    explicit: Option<Seq<char>>,
    source: Seq<u8>,
    cached: Option<Seq<finding::FindingModel>>,
)
    requires
        scan_step(s, r, path, canonical, explicit, source, cached).found is Err,
    ensures
        scan_step(s, r, path, canonical, explicit, source, cached).report == r,
{
}

/// Are the languages and the visits of a report in ascending order, each once?
pub open spec fn ordered_report(r: ReportModel) -> bool {
    &&& forall|i: int, j: int|
        0 <= i < j < r.languages_seen.len() ==> order::compare_text(
            #[trigger] r.languages_seen[i],
            #[trigger] r.languages_seen[j],
        ) < 0
    &&& forall|i: int, j: int|
        0 <= i < j < r.visited.len() ==> compare_visit(
            #[trigger] r.visited[i],
            #[trigger] r.visited[j],
        ) < 0
}

proof fn lemma_text_below(a: Seq<char>, b: Seq<char>, c: Seq<char>)
    requires
        order::compare_text(a, b) < 0,
        order::compare_text(b, c) < 0,
    ensures
        order::compare_text(a, c) < 0,
{
    order::lemma_compare_text_transitive(a, b, c);
    order::lemma_compare_text_antisymmetric(a, c);
    order::lemma_compare_text_antisymmetric(a, b);
    order::lemma_compare_text_antisymmetric(b, c);
}

proof fn lemma_visit_below(
    a: (Seq<char>, Seq<char>),
    b: (Seq<char>, Seq<char>),
    c: (Seq<char>, Seq<char>),
)
    requires
        compare_visit(a, b) < 0,
        compare_visit(b, c) < 0,
    ensures
        compare_visit(a, c) < 0,
{
    let (x, y, z) = (path::path_parts(a.0), path::path_parts(b.0), path::path_parts(c.0));
    path::lemma_compare_parts_antisymmetric(x, y);
    path::lemma_compare_parts_antisymmetric(y, z);
    path::lemma_compare_parts_antisymmetric(x, z);
    path::lemma_compare_parts_transitive(x, y, z);
    if path::compare_parts(x, z) == 0 {
        if path::compare_parts(x, y) != 0 {
            path::lemma_compare_parts_transitive(z, x, y);
        }
        lemma_text_below(a.1, b.1, c.1);
    }
}

proof fn lemma_with_text_ascends(s: Seq<Seq<char>>, x: Seq<char>)
    requires
        forall|i: int, j: int|
            0 <= i < j < s.len() ==> order::compare_text(#[trigger] s[i], #[trigger] s[j]) < 0,
    ensures
        forall|i: int, j: int|
            0 <= i < j < with_text(s, x).len() ==> order::compare_text(
                #[trigger] with_text(s, x)[i],
                #[trigger] with_text(s, x)[j],
            ) < 0,
        forall|i: int|
            0 <= i < with_text(s, x).len() ==> (#[trigger] with_text(s, x)[i]) == x || s.contains(
                with_text(s, x)[i],
            ),
        with_text(s, x).contains(x),
    decreases s.len(),
{
    let t = with_text(s, x);
    if s.len() == 0 {
        assert(t[0] == x);
    } else if order::compare_text(x, s[0]) < 0 {
        assert(t[0] == x);
        assert forall|i: int, j: int| 0 <= i < j < t.len() implies order::compare_text(
            #[trigger] t[i],
            #[trigger] t[j],
        ) < 0 by {
            if i == 0 && j > 1 {
                lemma_text_below(x, s[0], s[j - 1]);
            }
        }
    } else if order::compare_text(x, s[0]) == 0 {
        order::lemma_compare_text_antisymmetric(x, s[0]);
        assert(t[0] == x);
    } else {
        let rest = s.drop_first();
        lemma_with_text_ascends(rest, x);
        let u = with_text(rest, x);
        order::lemma_compare_text_antisymmetric(x, s[0]);
        assert forall|i: int, j: int| 0 <= i < j < t.len() implies order::compare_text(
            #[trigger] t[i],
            #[trigger] t[j],
        ) < 0 by {
            if i == 0 {
                assert(t[j] == u[j - 1]);
                if u[j - 1] != x {
                    let k = choose|k: int| 0 <= k < rest.len() && rest[k] == u[j - 1];
                    assert(rest[k] == s[k + 1]);
                }
            } else {
                assert(t[i] == u[i - 1] && t[j] == u[j - 1]);
            }
        }
        assert forall|i: int| 0 <= i < t.len() implies (#[trigger] t[i]) == x || s.contains(
            t[i],
        ) by {
            if i > 0 {
                assert(t[i] == u[i - 1]);
                if u[i - 1] != x {
                    let k = choose|k: int| 0 <= k < rest.len() && rest[k] == u[i - 1];
                    assert(rest[k] == s[k + 1]);
                }
            }
        }
        let k = choose|k: int| 0 <= k < u.len() && u[k] == x;
        assert(t[k + 1] == x);
    }
}

proof fn lemma_with_visit_ascends(s: Seq<(Seq<char>, Seq<char>)>, x: (Seq<char>, Seq<char>))
    requires
        forall|i: int, j: int|
            0 <= i < j < s.len() ==> compare_visit(#[trigger] s[i], #[trigger] s[j]) < 0,
    ensures
        forall|i: int, j: int|
            0 <= i < j < with_visit(s, x).len() ==> compare_visit(
                #[trigger] with_visit(s, x)[i],
                #[trigger] with_visit(s, x)[j],
            ) < 0,
        forall|i: int|
            0 <= i < with_visit(s, x).len() ==> (#[trigger] with_visit(s, x)[i]) == x || s.contains(
                with_visit(s, x)[i],
            ),
    decreases s.len(),
{
    let t = with_visit(s, x);
    if s.len() == 0 {
    } else if compare_visit(x, s[0]) < 0 {
        assert forall|i: int, j: int| 0 <= i < j < t.len() implies compare_visit(
            #[trigger] t[i],
            #[trigger] t[j],
        ) < 0 by {
            if i == 0 && j > 1 {
                lemma_visit_below(x, s[0], s[j - 1]);
            }
        }
    } else if compare_visit(x, s[0]) == 0 {
    } else {
        let rest = s.drop_first();
        lemma_with_visit_ascends(rest, x);
        let u = with_visit(rest, x);
        path::lemma_compare_parts_antisymmetric(path::path_parts(x.0), path::path_parts(s[0].0));
        order::lemma_compare_text_antisymmetric(x.1, s[0].1);
        assert forall|i: int, j: int| 0 <= i < j < t.len() implies compare_visit(
            #[trigger] t[i],
            #[trigger] t[j],
        ) < 0 by {
            if i == 0 {
                assert(t[j] == u[j - 1]);
                if u[j - 1] != x {
                    let k = choose|k: int| 0 <= k < rest.len() && rest[k] == u[j - 1];
                    assert(rest[k] == s[k + 1]);
                }
            } else {
                assert(t[i] == u[i - 1] && t[j] == u[j - 1]);
            }
        }
        assert forall|i: int| 0 <= i < t.len() implies (#[trigger] t[i]) == x || s.contains(
            t[i],
        ) by {
            if i > 0 {
                assert(t[i] == u[i - 1]);
                if u[i - 1] != x {
                    let k = choose|k: int| 0 <= k < rest.len() && rest[k] == u[i - 1];
                    assert(rest[k] == s[k + 1]);
                }
            }
        }
    }
}

/// Scanning keeps the languages and the visits of a report in ascending order, each once, and
/// a scanned file's language is among them.
pub proof fn lemma_report_stays_ordered(
    s: ScannerModel,
    r: ReportModel,
    path: Seq<char>,
    canonical: Option<Seq<char>>,
    explicit: Option<Seq<char>>,
    source: Seq<u8>,
    cached: Option<Seq<finding::FindingModel>>,
)
    requires
        ordered_report(r),
    ensures
        ordered_report(scan_step(s, r, path, canonical, explicit, source, cached).report),
        scan_step(s, r, path, canonical, explicit, source, cached).found matches Ok(Some(_))
            ==> language::resolved(s.registry, explicit, path) matches Ok(Some(k)) && scan_step(
            s,
            r,
            path,
            canonical,
            explicit,
            source,
            cached,
        ).report.languages_seen.contains(s.registry[k].id),
{
    if let Ok(Some(k)) = language::resolved(s.registry, explicit, path) {
        lemma_with_text_ascends(r.languages_seen, s.registry[k].id);
        lemma_with_visit_ascends(r.visited, (path, s.registry[k].id));
    }
}

/// A file in whose language no cross-file rule compiles can hold anything: the cross-file pass
/// comes to the same.
pub proof fn lemma_unjoined_file_not_read(
    s: ScannerModel,
    pass: crossfile::PassModel,
    f: VisitedFile,
    g: VisitedFile,
)
    requires
        f.language@ == g.language@,
        language::entry_with_id(s.registry, 0, f.language@) >= 0,
        compiled_cross_rules(
            rule_grammar(s.registry, f.language@),
            f.language@,
            s.rules,
            s.rules.len(),
        ).len() == 0,
    ensures
        cross_file_step(s, pass, f) == cross_file_step(s, pass, g),
{
    language::lemma_entry_with_id(s.registry, 0, f.language@);
}

/// Two checkouts agree: a file with one content, one language and one path below the root
/// has the same findings and the same cache key in both, wherever they lie on disk.
pub proof fn lemma_checkouts_agree(
    s: ScannerModel,
    t: ScannerModel,
    r: ReportModel,
    u: ReportModel,
    here: (Seq<char>, Option<Seq<char>>),
    there: (Seq<char>, Option<Seq<char>>),
    explicit: Option<Seq<char>>,
    source: Seq<u8>,
    found: Seq<finding::FindingModel>,
)
    requires
        s.rules == t.rules,
        s.registry == t.registry,
        language::resolved(s.registry, explicit, here.0) == language::resolved(
            t.registry,
            explicit,
            there.0,
        ),
        id_path(s.path_root, here.0, here.1) == id_path(t.path_root, there.0, there.1),
        scan_step(s, r, here.0, here.1, explicit, source, None).found == Ok::<
            Option<Seq<finding::FindingModel>>,
            Seq<char>,
        >(Some(found)),
    ensures
        scan_step(t, u, there.0, there.1, explicit, source, None).found == Ok::<
            Option<Seq<finding::FindingModel>>,
            Seq<char>,
        >(Some(found)),
        s.cache == t.cache ==> forall|entry: language::EntryModel|
            #![trigger file_key(s, entry, id_path(s.path_root, here.0, here.1), source)]
            file_key(s, entry, id_path(s.path_root, here.0, here.1), source) == file_key(
                t,
                entry,
                id_path(t.path_root, there.0, there.1),
                source,
            ),
{
}

// ---------------------------------------------------------------------------
// Every match of every rule
// ---------------------------------------------------------------------------

/// The query that a rule runs with on files of a language: a rule whose languages name it and
/// that is no cross-file rule has the one that its text, or the text of its pattern, compiles to.
pub open spec fn running_query(
    r: rule::RuleModel,
    lang_id: Seq<char>,
    grammar: Language,
) -> Option<Query> {
    let asked = match r.matcher {
        rule::MatcherModel::Query(t) => Some(t),
        rule::MatcherModel::Pattern(p) => match compile::query_of(p, r.match_capture) {
            Ok(t) => Some(t),
            Err(_) => None,
        },
        rule::MatcherModel::CrossFile { source, sink } => None,
    };
    match asked {
        Some(t) => if rule::names_language(r.languages, lang_id) {
            match syntax::query_of(grammar, t) {
                Ok(q) => Some(q),
                Err(_) => None,
            }
        } else {
            None
        },
        None => None,
    }
}

/// Every rule that runs on a language is compiled for it, once and in the order of the rules, and
/// no other. The result names the rule that each compiled one is of.
pub proof fn lemma_every_rule_compiled(
    grammar: Language,
    lang_id: Seq<char>,
    rules: Seq<rule::RuleModel>,
    n: nat,
) -> (w: Seq<int>)
    requires
        n <= rules.len() <= usize::MAX,
    ensures
        ({
            let all = compiled_rules(grammar, lang_id, rules, n);
            &&& w.len() == all.len()
            &&& forall|i: int, j: int| #![trigger w[i], w[j]] 0 <= i < j < w.len() ==> w[i] < w[j]
            &&& forall|i: int|
                0 <= i < n && running_query(#[trigger] rules[i], lang_id, grammar) is Some
                    <==> w.contains(i)
            &&& forall|x: int|
                0 <= x < w.len() ==> {
                    let i = #[trigger] w[x];
                    &&& all[x].rule_idx == i
                    &&& running_query(rules[i], lang_id, grammar) == Some(all[x].query)
                    &&& all[x].match_capture_ix == syntax::capture_number(
                        all[x].query,
                        rules[i].match_capture,
                    )
                }
        }),
    decreases n,
{
    if n == 0 {
        seq![]
    } else {
        let m = (n - 1) as nat;
        let v = lemma_every_rule_compiled(grammar, lang_id, rules, m);
        let r = rules[n - 1];
        rule::lemma_applies_where_named(r.languages, lang_id);
        assert forall|x: int| 0 <= x < v.len() implies 0 <= #[trigger] v[x] < m by {
            assert(v.contains(v[x]));
        }
        if running_query(r, lang_id, grammar) is Some {
            let w = v.push(n - 1);
            assert forall|i: int|
                0 <= i < n && running_query(#[trigger] rules[i], lang_id, grammar) is Some
                    <==> w.contains(i) by {
                if w.contains(i) && i != n - 1 {
                    let x = choose|x: int| 0 <= x < w.len() && w[x] == i;
                    assert(v[x] == i);
                    assert(v.contains(i));
                }
                if v.contains(i) {
                    let x = choose|x: int| 0 <= x < v.len() && v[x] == i;
                    assert(w[x] == i);
                }
                assert(w[v.len() as int] == n - 1);
            }
            w
        } else {
            v
        }
    }
}

/// A rule that a language's files would be scanned with, but whose query does not compile, is
/// warned about by name, once and in the order of the rules, and no other rule is.
pub proof fn lemma_every_failure_warned(
    grammar: Language,
    lang_id: Seq<char>,
    rules: Seq<rule::RuleModel>,
    n: nat,
) -> (w: Seq<int>)
    requires
        n <= rules.len() <= usize::MAX,
    ensures
        ({
            let all = compile_warnings(grammar, lang_id, rules, n);
            &&& w.len() == all.len()
            &&& forall|i: int, j: int| #![trigger w[i], w[j]] 0 <= i < j < w.len() ==> w[i] < w[j]
            &&& forall|i: int|
                0 <= i < n && rule::names_language((#[trigger] rules[i]).languages, lang_id) && !(
                rules[i].matcher is CrossFile) && running_query(rules[i], lang_id, grammar) is None
                    <==> w.contains(i)
            &&& forall|x: int|
                0 <= x < w.len() ==> ("rule '"@ + rules[#[trigger] w[x]].id + "'"@).is_prefix_of(
                    all[x],
                )
        }),
    decreases n,
{
    if n == 0 {
        seq![]
    } else {
        let m = (n - 1) as nat;
        let v = lemma_every_failure_warned(grammar, lang_id, rules, m);
        let r = rules[n - 1];
        rule::lemma_applies_where_named(r.languages, lang_id);
        assert forall|x: int| 0 <= x < v.len() implies 0 <= #[trigger] v[x] < m by {
            assert(v.contains(v[x]));
        }
        if rule::names_language(r.languages, lang_id) && !(r.matcher is CrossFile)
            && running_query(r, lang_id, grammar) is None {
            let w = v.push(n - 1);
            assert forall|i: int|
                0 <= i < n && rule::names_language((#[trigger] rules[i]).languages, lang_id) && !(
                rules[i].matcher is CrossFile) && running_query(rules[i], lang_id, grammar) is None
                    <==> w.contains(i) by {
                if w.contains(i) && i != n - 1 {
                    let x = choose|x: int| 0 <= x < w.len() && w[x] == i;
                    assert(v[x] == i);
                    assert(v.contains(i));
                }
                if v.contains(i) {
                    let x = choose|x: int| 0 <= x < v.len() && v[x] == i;
                    assert(w[x] == i);
                }
                assert(w[v.len() as int] == n - 1);
            }
            let all = compile_warnings(grammar, lang_id, rules, n);
            assert forall|x: int| 0 <= x < w.len() implies ("rule '"@ + rules[#[trigger] w[x]].id
                + "'"@).is_prefix_of(all[x]) by {
                if x < v.len() {
                    assert(w[x] == v[x]);
                } else {
                    let head = "rule '"@ + r.id + "'"@;
                    reveal_strlit("'");
                    reveal_strlit("': ");
                    reveal_strlit("' does not compile for language '");
                    assert(all[x].take(head.len() as int) =~= head);
                }
            }
            w
        } else {
            v
        }
    }
}

/// The matches of a rule in a parsed file of a language; none where the rule does not run on it.
pub open spec fn rule_matches(
    r: rule::RuleModel,
    lang_id: Seq<char>,
    grammar: Language,
    tree: Tree,
    source: Seq<u8>,
) -> Seq<Seq<syntax::CaptureModel>> {
    match running_query(r, lang_id, grammar) {
        Some(q) => syntax::matches_of(q, tree, source),
        None => seq![],
    }
}

/// The number of the capture that marks a rule's findings, where its query has one.
pub open spec fn marking_number(
    r: rule::RuleModel,
    lang_id: Seq<char>,
    grammar: Language,
) -> Option<u32> {
    match running_query(r, lang_id, grammar) {
        Some(q) => syntax::capture_number(q, r.match_capture),
        None => None,
    }
}

/// Do findings list the matches of the rules in a parsed file: is each of the given pairs of a
/// rule and one of its matches reported in its turn, at its marked node or else at its first, and
/// is every match that captures something among them once?
pub open spec fn lists_matches(
    f: Seq<finding::FindingModel>,
    rules: Seq<rule::RuleModel>,
    grammar: Language,
    tree: Tree,
    file: matching::FileModel,
    w: Seq<(int, int)>,
) -> bool {
    &&& w.len() == f.len()
    &&& w.no_duplicates()
    &&& forall|i: int, j: int|
        #![trigger rule_matches(rules[i], file.language, grammar, tree, file.source)[j]]
        0 <= i < rules.len() && 0 <= j < rule_matches(
            rules[i],
            file.language,
            grammar,
            tree,
            file.source,
        ).len() && rule_matches(rules[i], file.language, grammar, tree, file.source)[j].len() > 0
            ==> w.contains((i, j))
    &&& forall|x: int|
        0 <= x < w.len() ==> {
            let (i, j) = #[trigger] w[x];
            &&& 0 <= i < rules.len()
            &&& 0 <= j < rule_matches(rules[i], file.language, grammar, tree, file.source).len()
            &&& match_told(
                f[x],
                rules[i],
                file,
                rule_matches(rules[i], file.language, grammar, tree, file.source)[j],
                marking_number(rules[i], file.language, grammar),
            )
        }
}

/// Does a finding tell of a match that captures something, at its marked node or else at its
/// first?
pub open spec fn match_told(
    f: finding::FindingModel,
    r: rule::RuleModel,
    file: matching::FileModel,
    captures: Seq<syntax::CaptureModel>,
    number: Option<u32>,
) -> bool {
    &&& captures.len() > 0
    &&& forall|k: int| #[trigger]
        matching::reported_at(captures, number, k) ==> matching::tells_of(
            f,
            r,
            file,
            captures[k].node,
        )
}

/// Do the nodes that the matches of a rule are reported at stand in the source?
pub open spec fn matches_stand(
    r: rule::RuleModel,
    grammar: Language,
    tree: Tree,
    file: matching::FileModel,
) -> bool {
    let matches = rule_matches(r, file.language, grammar, tree, file.source);
    let number = marking_number(r, file.language, grammar);
    forall|j: int, k: int|
        #![trigger matching::reported_at(matches[j], number, k)]
        0 <= j < matches.len() && matching::reported_at(matches[j], number, k)
            ==> matching::stands_in(file.source, matches[j][k].node)
}

proof fn lemma_tree_listed(
    rules: Seq<rule::RuleModel>,
    grammar: Language,
    tree: Tree,
    file: matching::FileModel,
    v: Seq<int>,
    n: nat,
) -> (w: Seq<(int, int)>)
    requires
        rules.len() <= usize::MAX,
        ({
            let all = compiled_rules(grammar, file.language, rules, rules.len());
            &&& n <= all.len()
            &&& v.len() == all.len()
            &&& forall|i: int, j: int| #![trigger v[i], v[j]] 0 <= i < j < v.len() ==> v[i] < v[j]
            &&& forall|x: int|
                0 <= x < v.len() ==> {
                    let i = #[trigger] v[x];
                    &&& 0 <= i < rules.len()
                    &&& all[x].rule_idx == i
                    &&& running_query(rules[i], file.language, grammar) == Some(all[x].query)
                    &&& all[x].match_capture_ix == syntax::capture_number(
                        all[x].query,
                        rules[i].match_capture,
                    )
                }
            &&& tree_findings(rules, all, tree, file, n) is Some
        }),
    ensures
        ({
            let all = compiled_rules(grammar, file.language, rules, rules.len());
            let f = tree_findings(rules, all, tree, file, n)->Some_0;
            &&& w.len() == f.len()
            &&& w.no_duplicates()
            &&& forall|y: int, j: int|
                #![trigger rule_matches(rules[v[y]], file.language, grammar, tree, file.source)[j]]
                0 <= y < n && 0 <= j < rule_matches(
                    rules[v[y]],
                    file.language,
                    grammar,
                    tree,
                    file.source,
                ).len() && rule_matches(rules[v[y]], file.language, grammar, tree, file.source)[j].len()
                    > 0 ==> w.contains((v[y], j))
            &&& forall|x: int|
                0 <= x < w.len() ==> {
                    let (i, j) = #[trigger] w[x];
                    &&& exists|y: int| 0 <= y < n && #[trigger] v[y] == i
                    &&& 0 <= j < rule_matches(rules[i], file.language, grammar, tree, file.source).len()
                    &&& match_told(
                        f[x],
                        rules[i],
                        file,
                        rule_matches(rules[i], file.language, grammar, tree, file.source)[j],
                        marking_number(rules[i], file.language, grammar),
                    )
                }
        }),
    decreases n,
{
    let all = compiled_rules(grammar, file.language, rules, rules.len());
    if n == 0 {
        seq![]
    } else {
        let m = (n - 1) as nat;
        let a = lemma_tree_listed(rules, grammar, tree, file, v, m);
        let i = v[n - 1];
        let c = all[n - 1];
        let matches = rule_matches(rules[i], file.language, grammar, tree, file.source);
        let number = marking_number(rules[i], file.language, grammar);
        let u = matching::lemma_every_match_reported(rules[i], file, matches, number);
        let here = matching::findings_of(rules[i], file, matches, number, matches.len())->Some_0;
        let before = tree_findings(rules, all, tree, file, m)->Some_0;
        let f = tree_findings(rules, all, tree, file, n)->Some_0;
        assert(f == before + here);
        let b = u.map_values(|j: int| (i, j));
        let w = a + b;
        assert forall|x: int| 0 <= x < w.len() implies {
            let (i, j) = #[trigger] w[x];
            &&& exists|y: int| 0 <= y < n && #[trigger] v[y] == i
            &&& 0 <= j < rule_matches(rules[i], file.language, grammar, tree, file.source).len()
            &&& match_told(
                f[x],
                rules[i],
                file,
                rule_matches(rules[i], file.language, grammar, tree, file.source)[j],
                marking_number(rules[i], file.language, grammar),
            )
        } by {
            if x < a.len() {
                assert(w[x] == a[x]);
                let y = choose|y: int| 0 <= y < m && #[trigger] v[y] == a[x].0;
                assert(v[y] == w[x].0);
            } else {
                let z = x - a.len();
                assert(w[x] == (i, u[z]));
                assert(u.contains(u[z]));
                assert(matches[u[z]].len() > 0);
                assert(f[x] == here[z]);
                assert(v[n - 1] == w[x].0);
                assert(match_told(f[x], rules[i], file, matches[u[z]], number));
            }
        }
        assert(w.no_duplicates()) by {
            assert forall|x: int, y: int| 0 <= x < w.len() && 0 <= y < w.len() && x != y implies w[x]
                != w[y] by {
                if x >= a.len() && y >= a.len() {
                    let (p, q) = (x - a.len(), y - a.len());
                    assert(w[x] == (i, u[p]) && w[y] == (i, u[q]));
                    assert(u[p] != u[q]) by {
                        if p < q {
                            assert(u[p] < u[q]);
                        } else {
                            assert(u[q] < u[p]);
                        }
                    }
                } else if x < a.len() && y >= a.len() {
                    let k = choose|k: int| 0 <= k < m && #[trigger] v[k] == a[x].0;
                    assert(v[k] < v[n - 1]);
                } else if y < a.len() && x >= a.len() {
                    let k = choose|k: int| 0 <= k < m && #[trigger] v[k] == a[y].0;
                    assert(v[k] < v[n - 1]);
                } else {
                    assert(a[x] != a[y]);
                }
            }
        }
        assert forall|y: int, j: int|
            #![trigger rule_matches(rules[v[y]], file.language, grammar, tree, file.source)[j]]
            0 <= y < n && 0 <= j < rule_matches(
                rules[v[y]],
                file.language,
                grammar,
                tree,
                file.source,
            ).len() && rule_matches(rules[v[y]], file.language, grammar, tree, file.source)[j].len()
                > 0 implies w.contains((v[y], j)) by {
            if y < m {
                let x = choose|x: int| 0 <= x < a.len() && a[x] == (v[y], j);
                assert(w[x] == (v[y], j));
            } else {
                assert(matches[j].len() > 0);
                let x = choose|x: int| 0 <= x < u.len() && u[x] == j;
                assert(w[a.len() + x] == (v[y], j));
            }
        }
        w
    }
}

proof fn lemma_tree_stands(
    rules: Seq<rule::RuleModel>,
    grammar: Language,
    tree: Tree,
    file: matching::FileModel,
    v: Seq<int>,
    n: nat,
)
    requires
        rules.len() <= usize::MAX,
        forall|i: int|
            0 <= i < rules.len() ==> matches_stand(#[trigger] rules[i], grammar, tree, file),
        ({
            let all = compiled_rules(grammar, file.language, rules, rules.len());
            &&& n <= all.len()
            &&& v.len() == all.len()
            &&& forall|x: int|
                0 <= x < v.len() ==> {
                    let i = #[trigger] v[x];
                    &&& 0 <= i < rules.len()
                    &&& all[x].rule_idx == i
                    &&& running_query(rules[i], file.language, grammar) == Some(all[x].query)
                    &&& all[x].match_capture_ix == syntax::capture_number(
                        all[x].query,
                        rules[i].match_capture,
                    )
                }
        }),
    ensures
        tree_findings(
            rules,
            compiled_rules(grammar, file.language, rules, rules.len()),
            tree,
            file,
            n,
        ) is Some,
    decreases n,
{
    if n > 0 {
        lemma_tree_stands(rules, grammar, tree, file, v, (n - 1) as nat);
        let i = v[n - 1];
        let matches = rule_matches(rules[i], file.language, grammar, tree, file.source);
        let number = marking_number(rules[i], file.language, grammar);
        assert(matches_stand(rules[i], grammar, tree, file));
        let _ = matching::lemma_every_match_reported(rules[i], file, matches, number);
    }
}

/// Is this the first entry of the registry with its id?
pub open spec fn first_entry(registry: Seq<language::EntryModel>, g: int) -> bool {
    &&& 0 <= g < registry.len()
    &&& forall|i: int| 0 <= i < g ==> (#[trigger] registry[i]).id != registry[g].id
}

proof fn lemma_first_entry(registry: Seq<language::EntryModel>, g: int)
    requires
        first_entry(registry, g),
    ensures
        language::entry_with_id(registry, 0, registry[g].id) == g,
        rule_grammar(registry, registry[g].id) == registry[g].language,
{
    let id = registry[g].id;
    language::lemma_entry_with_own_id(registry, g);
    language::lemma_entry_with_id(registry, 0, id);
    let k = language::entry_with_id(registry, 0, id);
    if k < g {
        assert(registry[k].id != id);
    }
}

/// A scan reports every match of every rule, once: where a file is in the language of entry `k`
/// and parses, its findings are one for each match of each rule that runs on the language, with
/// the rules compiled for the first entry of that id; they come behind those that the report had.
/// The result names the rule and the match that each finding is of.
pub proof fn lemma_scan_reports_every_match(
    s: ScannerModel,
    r: ReportModel,
    path: Seq<char>,
    canonical: Option<Seq<char>>,
    explicit: Option<Seq<char>>,
    source: Seq<u8>,
    k: int,
    g: int,
    tree: Tree,
) -> (w: Seq<(int, int)>)
    requires
        s.rules.len() <= usize::MAX,
        language::resolved(s.registry, explicit, path) == Ok::<Option<int>, Seq<char>>(Some(k)),
        first_entry(s.registry, g),
        s.registry[g].id == s.registry[k].id,
        13 <= syntax::abi_version_of(s.registry[k].language) <= 15,
        syntax::tree_of(s.registry[k].language, source) == Some(tree),
    ensures
        ({
            let step = scan_step(s, r, path, canonical, explicit, source, None);
            let grammar = s.registry[g].language;
            let file = matching::FileModel {
                language: s.registry[k].id,
                path: id_path(s.path_root, path, canonical),
                source,
            };
            &&& (forall|i: int|
                0 <= i < s.rules.len() ==> matches_stand(
                    #[trigger] s.rules[i],
                    grammar,
                    tree,
                    file,
                )) ==> step.found is Ok
            &&& step.found matches Ok(found) ==> {
                &&& found is Some
                &&& lists_matches(found->Some_0, s.rules, grammar, tree, file, w)
                &&& step.report.findings == r.findings + found->Some_0
            }
        }),
{
    let id = s.registry[k].id;
    let grammar = s.registry[g].language;
    let file = matching::FileModel {
        language: id,
        path: id_path(s.path_root, path, canonical),
        source,
    };
    lemma_first_entry(s.registry, g);
    let n = s.rules.len();
    let v = lemma_every_rule_compiled(grammar, id, s.rules, n);
    let all = compiled_rules(grammar, id, s.rules, n);
    assert forall|x: int| 0 <= x < v.len() implies 0 <= #[trigger] v[x] < n by {
        assert(v.contains(v[x]));
    }
    if forall|i: int|
        0 <= i < s.rules.len() ==> matches_stand(#[trigger] s.rules[i], grammar, tree, file) {
        lemma_tree_stands(s.rules, grammar, tree, file, v, all.len());
    }
    if tree_findings(s.rules, all, tree, file, all.len()) is Some {
        let w = lemma_tree_listed(s.rules, grammar, tree, file, v, all.len());
        assert forall|i: int, j: int|
            #![trigger rule_matches(s.rules[i], id, grammar, tree, source)[j]]
            0 <= i < n && 0 <= j < rule_matches(s.rules[i], id, grammar, tree, source).len()
                && rule_matches(s.rules[i], id, grammar, tree, source)[j].len()
                > 0 implies w.contains((i, j)) by {
            assert(running_query(s.rules[i], id, grammar) is Some);
            assert(v.contains(i));
            let y = choose|y: int| 0 <= y < v.len() && v[y] == i;
            assert(rule_matches(s.rules[v[y]], id, grammar, tree, source)[j].len() > 0);
        }
        w
    } else {
        seq![]
    }
}

// ---------------------------------------------------------------------------
// Every sink that a source feeds
// ---------------------------------------------------------------------------

/// The two queries that a cross-file rule joins files of a language with, each with the number of
/// its link capture: the rule's languages name the language, and both queries compile and have a
/// capture called `link`.
pub open spec fn joining_queries(
    r: rule::RuleModel,
    lang_id: Seq<char>,
    grammar: Language,
) -> Option<(Query, u32, Query, u32)> {
    match r.matcher {
        rule::MatcherModel::CrossFile { source, sink } => match (
            syntax::query_of(grammar, source),
            syntax::query_of(grammar, sink),
        ) {
            (Ok(a), Ok(b)) => match (
                syntax::capture_number(a, "link"@),
                syntax::capture_number(b, "link"@),
            ) {
                (Some(m), Some(n)) => if rule::names_language(r.languages, lang_id) {
                    Some((a, m, b, n))
                } else {
                    None
                },
                _ => None,
            },
            _ => None,
        },
        _ => None,
    }
}

/// Every cross-file rule that joins files of a language is compiled for it, once and in the order
/// of the rules, and no other. The result names the rule that each compiled one is of.
pub proof fn lemma_every_cross_rule_compiled(
    grammar: Language,
    lang_id: Seq<char>,
    rules: Seq<rule::RuleModel>,
    n: nat,
) -> (w: Seq<int>)
    requires
        n <= rules.len() <= usize::MAX,
    ensures
        ({
            let all = compiled_cross_rules(grammar, lang_id, rules, n);
            &&& w.len() == all.len()
            &&& forall|i: int, j: int| #![trigger w[i], w[j]] 0 <= i < j < w.len() ==> w[i] < w[j]
            &&& forall|i: int|
                0 <= i < n && joining_queries(#[trigger] rules[i], lang_id, grammar) is Some
                    <==> w.contains(i)
            &&& forall|x: int|
                0 <= x < w.len() ==> {
                    let i = #[trigger] w[x];
                    &&& all[x].rule_idx == i
                    &&& joining_queries(rules[i], lang_id, grammar) == Some(
                        (all[x].source, all[x].source_link_ix, all[x].sink, all[x].sink_link_ix),
                    )
                    &&& all[x].sink_match_ix == syntax::capture_number(
                        all[x].sink,
                        rules[i].match_capture,
                    )
                }
        }),
    decreases n,
{
    if n == 0 {
        seq![]
    } else {
        let m = (n - 1) as nat;
        let v = lemma_every_cross_rule_compiled(grammar, lang_id, rules, m);
        let r = rules[n - 1];
        rule::lemma_applies_where_named(r.languages, lang_id);
        assert forall|x: int| 0 <= x < v.len() implies 0 <= #[trigger] v[x] < m by {
            assert(v.contains(v[x]));
        }
        if joining_queries(r, lang_id, grammar) is Some {
            let w = v.push(n - 1);
            assert forall|i: int|
                0 <= i < n && joining_queries(#[trigger] rules[i], lang_id, grammar) is Some
                    <==> w.contains(i) by {
                if w.contains(i) && i != n - 1 {
                    let x = choose|x: int| 0 <= x < w.len() && w[x] == i;
                    assert(v[x] == i);
                    assert(v.contains(i));
                }
                if v.contains(i) {
                    let x = choose|x: int| 0 <= x < v.len() && v[x] == i;
                    assert(w[x] == i);
                }
                assert(w[v.len() as int] == n - 1);
            }
            w
        } else {
            v
        }
    }
}

/// What a compiled cross-file rule finds as sources in a parsed file.
spec fn rule_sources(
    c: CompiledCrossRule,
    tree: Tree,
    file: matching::FileModel,
) -> Option<Seq<crossfile::SourceModel>> {
    let from = syntax::matches_of(c.source, tree, file.source);
    crossfile::sources_of(c.rule_idx, file, from, c.source_link_ix, from.len())
}

/// What a compiled cross-file rule finds as sinks in a parsed file.
spec fn rule_sinks(
    rules: Seq<rule::RuleModel>,
    c: CompiledCrossRule,
    tree: Tree,
    file: matching::FileModel,
) -> Option<Seq<crossfile::SinkModel>> {
    let to = syntax::matches_of(c.sink, tree, file.source);
    crossfile::sinks_of(
        c.rule_idx,
        rules[c.rule_idx as int],
        file,
        to,
        c.sink_link_ix,
        c.sink_match_ix,
        to.len(),
    )
}

/// Has a pass taken in what a compiled cross-file rule finds in a parsed file?
spec fn took_in(
    p: crossfile::PassModel,
    rules: Seq<rule::RuleModel>,
    c: CompiledCrossRule,
    tree: Tree,
    file: matching::FileModel,
) -> bool {
    &&& rule_sources(c, tree, file) matches Some(new) && forall|i: int|
        0 <= i < new.len() ==> p.sources.contains(#[trigger] new[i])
    &&& rule_sinks(rules, c, tree, file) matches Some(new) && forall|i: int|
        0 <= i < new.len() ==> p.sinks.contains(#[trigger] new[i])
}

/// Does a pass hold all that another one holds?
spec fn grew(p: crossfile::PassModel, q: crossfile::PassModel) -> bool {
    &&& forall|x: crossfile::SourceModel| p.sources.contains(x) ==> #[trigger] q.sources.contains(x)
    &&& forall|x: crossfile::SinkModel| p.sinks.contains(x) ==> #[trigger] q.sinks.contains(x)
}

proof fn lemma_took_in_stays(
    p: crossfile::PassModel,
    q: crossfile::PassModel,
    rules: Seq<rule::RuleModel>,
    c: CompiledCrossRule,
    tree: Tree,
    file: matching::FileModel,
)
    requires
        grew(p, q),
        took_in(p, rules, c, tree, file),
    ensures
        took_in(q, rules, c, tree, file),
{
    let a = rule_sources(c, tree, file)->Some_0;
    let b = rule_sinks(rules, c, tree, file)->Some_0;
    assert forall|i: int| 0 <= i < a.len() implies q.sources.contains(#[trigger] a[i]) by {
        assert(p.sources.contains(a[i]));
    }
    assert forall|i: int| 0 <= i < b.len() implies q.sinks.contains(#[trigger] b[i]) by {
        assert(p.sinks.contains(b[i]));
    }
}

proof fn lemma_collected_by(
    pass: crossfile::PassModel,
    rules: Seq<rule::RuleModel>,
    c: CompiledCrossRule,
    tree: Tree,
    file: matching::FileModel,
)
    requires
        collected_by(pass, rules, c, tree, file) is Some,
    ensures
        grew(pass, collected_by(pass, rules, c, tree, file)->Some_0),
        took_in(collected_by(pass, rules, c, tree, file)->Some_0, rules, c, tree, file),
{
    let p = collected_by(pass, rules, c, tree, file)->Some_0;
    let a = rule_sources(c, tree, file)->Some_0;
    let b = rule_sinks(rules, c, tree, file)->Some_0;
    assert(p.sources == pass.sources + a && p.sinks == pass.sinks + b);
    assert forall|x: crossfile::SourceModel| pass.sources.contains(x) implies
        #[trigger] p.sources.contains(x) by {
        let i = choose|i: int| 0 <= i < pass.sources.len() && pass.sources[i] == x;
        assert(p.sources[i] == x);
    }
    assert forall|x: crossfile::SinkModel| pass.sinks.contains(x) implies
        #[trigger] p.sinks.contains(x) by {
        let i = choose|i: int| 0 <= i < pass.sinks.len() && pass.sinks[i] == x;
        assert(p.sinks[i] == x);
    }
    assert forall|i: int| 0 <= i < a.len() implies p.sources.contains(#[trigger] a[i]) by {
        assert(p.sources[pass.sources.len() + i] == a[i]);
    }
    assert forall|i: int| 0 <= i < b.len() implies p.sinks.contains(#[trigger] b[i]) by {
        assert(p.sinks[pass.sinks.len() + i] == b[i]);
    }
}

proof fn lemma_collected_in(
    pass: crossfile::PassModel,
    rules: Seq<rule::RuleModel>,
    compiled: Seq<CompiledCrossRule>,
    tree: Tree,
    file: matching::FileModel,
    n: nat,
)
    requires
        n <= compiled.len(),
        collected_in(pass, rules, compiled, tree, file, n) is Some,
    ensures
        grew(pass, collected_in(pass, rules, compiled, tree, file, n)->Some_0),
        forall|y: int|
            0 <= y < n ==> took_in(
                collected_in(pass, rules, compiled, tree, file, n)->Some_0,
                rules,
                #[trigger] compiled[y],
                tree,
                file,
            ),
    decreases n,
{
    if n > 0 {
        let m = (n - 1) as nat;
        lemma_collected_in(pass, rules, compiled, tree, file, m);
        let before = collected_in(pass, rules, compiled, tree, file, m)->Some_0;
        let p = collected_in(pass, rules, compiled, tree, file, n)->Some_0;
        lemma_collected_by(before, rules, compiled[n - 1], tree, file);
        assert forall|y: int| 0 <= y < n implies took_in(
            p,
            rules,
            #[trigger] compiled[y],
            tree,
            file,
        ) by {
            if y < m {
                assert(took_in(before, rules, compiled[y], tree, file));
                lemma_took_in_stays(before, p, rules, compiled[y], tree, file);
            }
        }
        assert forall|x: crossfile::SourceModel| pass.sources.contains(x) implies
            #[trigger] p.sources.contains(x) by {
            assert(before.sources.contains(x));
        }
        assert forall|x: crossfile::SinkModel| pass.sinks.contains(x) implies
            #[trigger] p.sinks.contains(x) by {
            assert(before.sinks.contains(x));
        }
    }
}

/// A visited file as rules see it.
pub open spec fn visited_model(s: ScannerModel, f: VisitedFile) -> matching::FileModel {
    matching::FileModel {
        language: f.language@,
        path: id_path(s.path_root, f.path@, text::opt_text(f.canonical)),
        source: f.source@,
    }
}

/// Has a pass taken in what the cross-file rules find in a visited file, compiled for the entry at
/// `g`?
spec fn took_in_file(
    p: crossfile::PassModel,
    s: ScannerModel,
    f: VisitedFile,
    g: int,
) -> bool {
    let grammar = s.registry[g].language;
    let compiled = compiled_cross_rules(grammar, f.language@, s.rules, s.rules.len());
    compiled.len() > 0 ==> syntax::tree_of(grammar, f.source@) is Some && forall|y: int|
        0 <= y < compiled.len() ==> took_in(
            p,
            s.rules,
            #[trigger] compiled[y],
            syntax::tree_of(grammar, f.source@)->Some_0,
            visited_model(s, f),
        )
}

proof fn lemma_cross_file_step(
    s: ScannerModel,
    pass: crossfile::PassModel,
    f: VisitedFile,
    g: int,
)
    requires
        first_entry(s.registry, g),
        s.registry[g].id == f.language@,
        cross_file_step(s, pass, f).pass is Ok,
    ensures
        cross_file_step(s, pass, f).scanner.registry == s.registry,
        cross_file_step(s, pass, f).scanner.rules == s.rules,
        cross_file_step(s, pass, f).scanner.path_root == s.path_root,
        grew(pass, cross_file_step(s, pass, f).pass->Ok_0),
        took_in_file(cross_file_step(s, pass, f).pass->Ok_0, s, f, g),
{
    lemma_first_entry(s.registry, g);
    let grammar = s.registry[g].language;
    let compiled = compiled_cross_rules(grammar, f.language@, s.rules, s.rules.len());
    if compiled.len() > 0 {
        let tree = syntax::tree_of(grammar, f.source@)->Some_0;
        lemma_collected_in(pass, s.rules, compiled, tree, visited_model(s, f), compiled.len());
    }
}

proof fn lemma_cross_steps_take_in(s: ScannerModel, files: Seq<VisitedFile>, n: nat, x: int, g: int)
    requires
        0 <= x < n <= files.len(),
        first_entry(s.registry, g),
        s.registry[g].id == files[x].language@,
        cross_steps(s, files, n).pass is Ok,
        forall|i: int|
            0 <= i < files.len() ==> language::entry_with_id(
                s.registry,
                0,
                (#[trigger] files[i]).language@,
            ) >= 0,
    ensures
        took_in_file(cross_steps(s, files, n).pass->Ok_0, s, files[x], g),
    decreases n,
{
    let before = cross_steps(s, files, (n - 1) as nat);
    let p = before.pass->Ok_0;
    let h = language::entry_with_id(s.registry, 0, files[n - 1].language@);
    lemma_cross_steps_keep(s, files, (n - 1) as nat);
    assert(language::entry_with_id(s.registry, 0, files[n - 1].language@) >= 0);
    lemma_entry_is_first(s.registry, files[n - 1].language@);
    lemma_cross_file_step(before.scanner, p, files[n - 1], h);
    let q = cross_steps(s, files, n).pass->Ok_0;
    if x == n - 1 {
        lemma_first_entry(s.registry, g);
        assert(g == h);
    } else {
        lemma_cross_steps_take_in(s, files, (n - 1) as nat, x, g);
        let f = files[x];
        let grammar = s.registry[g].language;
        let compiled = compiled_cross_rules(grammar, f.language@, s.rules, s.rules.len());
        if compiled.len() > 0 {
            let tree = syntax::tree_of(grammar, f.source@)->Some_0;
            assert forall|y: int| 0 <= y < compiled.len() implies took_in(
                q,
                s.rules,
                #[trigger] compiled[y],
                tree,
                visited_model(s, f),
            ) by {
                assert(took_in(p, s.rules, compiled[y], tree, visited_model(s, f)));
                lemma_took_in_stays(p, q, s.rules, compiled[y], tree, visited_model(s, f));
            }
        }
    }
}

proof fn lemma_entry_is_first(registry: Seq<language::EntryModel>, id: Seq<char>)
    requires
        language::entry_with_id(registry, 0, id) >= 0,
    ensures
        first_entry(registry, language::entry_with_id(registry, 0, id)),
        registry[language::entry_with_id(registry, 0, id)].id == id,
{
    let k = language::entry_with_id(registry, 0, id);
    language::lemma_entry_with_id(registry, 0, id);
    assert forall|i: int| 0 <= i < k implies (#[trigger] registry[i]).id != registry[k].id by {
        if registry[i].id == id {
            language::lemma_entry_with_own_id(registry, i);
        }
    }
}

proof fn lemma_cross_steps_keep(s: ScannerModel, files: Seq<VisitedFile>, n: nat)
    ensures
        cross_steps(s, files, n).scanner.registry == s.registry,
        cross_steps(s, files, n).scanner.rules == s.rules,
        cross_steps(s, files, n).scanner.path_root == s.path_root,
    decreases n,
{
    if n > 0 {
        lemma_cross_steps_keep(s, files, (n - 1) as nat);
    }
}

/// Is this the finding at a sink that some source feeds: it tells of the sink's node, and its
/// message is the rule's with a source behind it that is no later than the given one?
pub open spec fn fed_finding(
    f: finding::FindingModel,
    r: rule::RuleModel,
    file: matching::FileModel,
    node: syntax::NodeModel,
    source_file: Seq<char>,
    source_line: int,
) -> bool {
    &&& matching::tells_where(f, r, file, node)
    &&& exists|loc: (Seq<char>, usize)|
        f.message == r.message + " (source: "@ + loc.0 + ":"@ + #[trigger] text::decimal(
            loc.1 as nat,
        ) + ")"@ && (order::compare_text(loc.0, source_file) < 0 || loc.0 == source_file && loc.1
            <= source_line)
}

/// A cross-file pass reports every sink that a source feeds: where a source query of a rule
/// captures a link in file `a`, and a match of its sink query in file `b`, the same file or
/// another, captures a link with the same text, the findings hold one at that match.
pub proof fn lemma_every_fed_sink_reported(
    s: ScannerModel,
    files: Seq<VisitedFile>,
    i: int,
    a: int,
    b: int,
    ga: int,
    gb: int,
    ja: int,
    ka: int,
    jb: int,
    lb: int,
    kb: int,
)
    requires
        s.rules.len() <= usize::MAX,
        0 <= i < s.rules.len(),
        0 <= a < files.len(),
        0 <= b < files.len(),
        forall|x: int|
            0 <= x < files.len() ==> language::entry_with_id(
                s.registry,
                0,
                (#[trigger] files[x]).language@,
            ) >= 0,
        first_entry(s.registry, ga),
        s.registry[ga].id == files[a].language@,
        first_entry(s.registry, gb),
        s.registry[gb].id == files[b].language@,
        joining_queries(s.rules[i], files[a].language@, s.registry[ga].language) is Some,
        joining_queries(s.rules[i], files[b].language@, s.registry[gb].language) is Some,
        cross_pass(s, files).1 is Ok,
        ({
            let (qa, na, _, _) = joining_queries(
                s.rules[i],
                files[a].language@,
                s.registry[ga].language,
            )->Some_0;
            let (_, _, qb, nb) = joining_queries(
                s.rules[i],
                files[b].language@,
                s.registry[gb].language,
            )->Some_0;
            let from = syntax::matches_of(
                qa,
                syntax::tree_of(s.registry[ga].language, files[a].source@)->Some_0,
                files[a].source@,
            );
            let to = syntax::matches_of(
                qb,
                syntax::tree_of(s.registry[gb].language, files[b].source@)->Some_0,
                files[b].source@,
            );
            &&& 0 <= ja < from.len()
            &&& 0 <= ka < from[ja].len()
            &&& from[ja][ka].index == na
            &&& 0 <= jb < to.len()
            &&& matching::first_under(to[jb], nb, lb)
            &&& crossfile::sink_reported_at(
                to[jb],
                lb,
                syntax::capture_number(qb, s.rules[i].match_capture),
                kb,
            )
            &&& fingerprint::match_text(files[a].source@, from[ja][ka].node)
                == fingerprint::match_text(files[b].source@, to[jb][lb].node)
        }),
    ensures
        ({
            let (qa, _, _, _) = joining_queries(
                s.rules[i],
                files[a].language@,
                s.registry[ga].language,
            )->Some_0;
            let (_, _, qb, _) = joining_queries(
                s.rules[i],
                files[b].language@,
                s.registry[gb].language,
            )->Some_0;
            let from = syntax::matches_of(
                qa,
                syntax::tree_of(s.registry[ga].language, files[a].source@)->Some_0,
                files[a].source@,
            );
            let to = syntax::matches_of(
                qb,
                syntax::tree_of(s.registry[gb].language, files[b].source@)->Some_0,
                files[b].source@,
            );
            let found = cross_pass(s, files).1->Ok_0;
            exists|m: int|
                0 <= m < found.len() && fed_finding(
                    #[trigger] found[m],
                    s.rules[i],
                    visited_model(s, files[b]),
                    to[jb][kb].node,
                    fingerprint::path_identity(visited_model(s, files[a]).path),
                    from[ja][ka].node.start.row + 1,
                )
        }),
{
    let (la, lang_b) = (files[a].language@, files[b].language@);
    let (ra, rb) = (s.registry[ga].language, s.registry[gb].language);
    let p = cross_steps(s, files, files.len()).pass->Ok_0;
    let r = s.rules[i];
    assert(r.matcher is CrossFile);
    assert(any_cross_file(s.rules));
    lemma_cross_steps_take_in(s, files, files.len(), a, ga);
    lemma_cross_steps_take_in(s, files, files.len(), b, gb);
    let ca = compiled_cross_rules(ra, la, s.rules, s.rules.len());
    let cb = compiled_cross_rules(rb, lang_b, s.rules, s.rules.len());
    let wa = lemma_every_cross_rule_compiled(ra, la, s.rules, s.rules.len());
    let wb = lemma_every_cross_rule_compiled(rb, lang_b, s.rules, s.rules.len());
    assert(wa.contains(i) && wb.contains(i));
    let ya = choose|y: int| 0 <= y < wa.len() && wa[y] == i;
    let yb = choose|y: int| 0 <= y < wb.len() && wb[y] == i;
    let (x, y) = (ca[ya], cb[yb]);
    let ta = syntax::tree_of(ra, files[a].source@)->Some_0;
    let tb = syntax::tree_of(rb, files[b].source@)->Some_0;
    let (fa, fb) = (visited_model(s, files[a]), visited_model(s, files[b]));
    assert(took_in(p, s.rules, x, ta, fa));
    assert(took_in(p, s.rules, y, tb, fb));
    let from = syntax::matches_of(x.source, ta, files[a].source@);
    let to = syntax::matches_of(y.sink, tb, files[b].source@);
    let u = crossfile::lemma_every_source_collected(x.rule_idx, fa, from, x.source_link_ix);
    let v = crossfile::lemma_every_sink_collected(
        y.rule_idx,
        r,
        fb,
        to,
        y.sink_link_ix,
        y.sink_match_ix,
    );
    assert(from[ja][ka].index == x.source_link_ix);
    assert(u.contains((ja, ka)));
    let su = choose|z: int| 0 <= z < u.len() && u[z] == (ja, ka);
    let src = rule_sources(x, ta, fa)->Some_0[su];
    assert(crossfile::source_made(src, x.rule_idx, fa, from[ja][ka].node));
    assert(p.sources.contains(src));
    assert(to[jb][lb].index == y.sink_link_ix);
    assert(matching::captures_under(to[jb], y.sink_link_ix));
    assert(v.contains(jb));
    let sv = choose|z: int| 0 <= z < v.len() && v[z] == jb;
    let snk = rule_sinks(s.rules, y, tb, fb)->Some_0[sv];
    assert(crossfile::sink_made(
        snk,
        y.rule_idx,
        r,
        fb,
        to[v[sv]],
        y.sink_link_ix,
        y.sink_match_ix,
    ));
    assert(p.sinks.contains(snk));
    let k = choose|k: int| 0 <= k < p.sinks.len() && p.sinks[k] == snk;
    let z = choose|z: int| 0 <= z < p.sources.len() && p.sources[z] == src;
    assert(p.sources[z].rule_idx == p.sinks[k].rule_idx && p.sources[z].link == p.sinks[k].link);
    crossfile::lemma_sink_fires(p.sources, p.sinks, k);
    let found = crossfile::joined_findings(p.sources, p.sinks);
    let c = choose|c: int|
        0 <= c < p.sources.len() && (#[trigger] p.sources[c]).rule_idx == p.sinks[k].rule_idx
            && p.sources[c].link == p.sinks[k].link && found.contains(
            crossfile::fired(p.sinks[k], (p.sources[c].file, p.sources[c].line)),
        ) && forall|j: int|
            0 <= j < p.sources.len() && (#[trigger] p.sources[j]).rule_idx == p.sinks[k].rule_idx
                && p.sources[j].link == p.sinks[k].link ==> !crossfile::earlier(
                (p.sources[j].file, p.sources[j].line),
                (p.sources[c].file, p.sources[c].line),
            );
    let loc = (p.sources[c].file, p.sources[c].line);
    let f = crossfile::fired(snk, loc);
    assert(!crossfile::earlier((p.sources[z].file, p.sources[z].line), loc));
    order::lemma_compare_text_antisymmetric(src.file, loc.0);
    let m = choose|m: int| 0 <= m < found.len() && found[m] == f;
    assert(matching::tells_where(f, r, fb, to[jb][kb].node));
    assert(f.message == r.message + " (source: "@ + loc.0 + ":"@ + text::decimal(loc.1 as nat)
        + ")"@);
    assert(cross_pass(s, files).1->Ok_0 == found);
    assert(fed_finding(
        found[m],
        r,
        fb,
        to[jb][kb].node,
        fingerprint::path_identity(fa.path),
        from[ja][ka].node.start.row + 1,
    ));
    let (qa, na, qs, ns) = joining_queries(r, la, ra)->Some_0;
    let (qt, nt, qb, nb) = joining_queries(r, lang_b, rb)->Some_0;
    assert(qa == x.source && qb == y.sink);
    assert(from == syntax::matches_of(qa, ta, files[a].source@));
    assert(to == syntax::matches_of(qb, tb, files[b].source@));
    assert(fed_finding(
        cross_pass(s, files).1->Ok_0[m],
        r,
        fb,
        to[jb][kb].node,
        fingerprint::path_identity(fa.path),
        from[ja][ka].node.start.row + 1,
    ));
}

// ---------------------------------------------------------------------------
// What a scan leaves behind
// ---------------------------------------------------------------------------

proof fn lemma_with_text_holds(s: Seq<Seq<char>>, x: Seq<char>, y: Seq<char>)
    ensures
        with_text(s, x).contains(y) <==> s.contains(y) || y == x,
    decreases s.len(),
{
    let all = with_text(s, x);
    if s.len() == 0 {
        assert(all[0] == x);
    } else {
        let rest = s.drop_first();
        order::lemma_compare_text_antisymmetric(x, s[0]);
        if s.contains(y) {
            let k = choose|k: int| 0 <= k < s.len() && s[k] == y;
            if k > 0 {
                assert(rest[k - 1] == y);
            }
        }
        if rest.contains(y) {
            let k = choose|k: int| 0 <= k < rest.len() && rest[k] == y;
            assert(s[k + 1] == y);
        }
        if order::compare_text(x, s[0]) < 0 {
            assert(all[0] == x);
            if s.contains(y) {
                let k = choose|k: int| 0 <= k < s.len() && s[k] == y;
                assert(all[k + 1] == y);
            }
            if all.contains(y) {
                let k = choose|k: int| 0 <= k < all.len() && all[k] == y;
                if k > 0 {
                    assert(s[k - 1] == y);
                }
            }
        } else if order::compare_text(x, s[0]) == 0 {
            assert(s[0] == x);
        } else {
            lemma_with_text_holds(rest, x, y);
            let more = with_text(rest, x);
            assert(all[0] == s[0]);
            if more.contains(y) {
                let k = choose|k: int| 0 <= k < more.len() && more[k] == y;
                assert(all[k + 1] == y);
            }
            if all.contains(y) {
                let k = choose|k: int| 0 <= k < all.len() && all[k] == y;
                if k > 0 {
                    assert(more[k - 1] == y);
                } else {
                    assert(s[0] == y);
                }
            }
        }
    }
}

/// Is it a visit of a file in a language, by the components of its path?
pub open spec fn is_visit(
    v: (Seq<char>, Seq<char>),
    path: Seq<char>,
    language: Seq<char>,
) -> bool {
    path::path_parts(v.0) == path::path_parts(path) && v.1 == language
}

proof fn lemma_with_visit_holds(
    s: Seq<(Seq<char>, Seq<char>)>,
    x: (Seq<char>, Seq<char>),
    y: (Seq<char>, Seq<char>),
)
    ensures
        s.contains(y) ==> with_visit(s, x).contains(y),
        with_visit(s, x).contains(y) ==> s.contains(y) || y == x,
        exists|k: int| 0 <= k < with_visit(s, x).len() && is_visit(#[trigger] with_visit(s, x)[k], x.0, x.1),
    decreases s.len(),
{
    let all = with_visit(s, x);
    if s.len() == 0 {
        assert(all[0] == x);
        assert(is_visit(all[0], x.0, x.1));
    } else {
        let rest = s.drop_first();
        if s.contains(y) {
            let k = choose|k: int| 0 <= k < s.len() && s[k] == y;
            if k > 0 {
                assert(rest[k - 1] == y);
            }
        }
        if rest.contains(y) {
            let k = choose|k: int| 0 <= k < rest.len() && rest[k] == y;
            assert(s[k + 1] == y);
        }
        if compare_visit(x, s[0]) < 0 {
            assert(all[0] == x);
            assert(is_visit(all[0], x.0, x.1));
            if s.contains(y) {
                let k = choose|k: int| 0 <= k < s.len() && s[k] == y;
                assert(all[k + 1] == y);
            }
            if all.contains(y) {
                let k = choose|k: int| 0 <= k < all.len() && all[k] == y;
                if k > 0 {
                    assert(s[k - 1] == y);
                }
            }
        } else if compare_visit(x, s[0]) == 0 {
            path::lemma_compare_parts_antisymmetric(
                path::path_parts(x.0),
                path::path_parts(s[0].0),
            );
            order::lemma_compare_text_antisymmetric(x.1, s[0].1);
            assert(is_visit(all[0], x.0, x.1));
        } else {
            lemma_with_visit_holds(rest, x, y);
            let more = with_visit(rest, x);
            assert(all[0] == s[0]);
            let v = choose|k: int| 0 <= k < more.len() && is_visit(#[trigger] more[k], x.0, x.1);
            assert(all[v + 1] == more[v]);
            assert(is_visit(all[v + 1], x.0, x.1));
            if more.contains(y) {
                let k = choose|k: int| 0 <= k < more.len() && more[k] == y;
                assert(all[k + 1] == y);
            }
            if all.contains(y) {
                let k = choose|k: int| 0 <= k < all.len() && all[k] == y;
                if k > 0 {
                    assert(more[k - 1] == y);
                } else {
                    assert(s[0] == y);
                }
            }
        }
    }
}

/// Has a report gained a scanned file: its findings behind those there were, one more of the
/// scanned files and of the cached ones where it came from the cache, its language among those
/// seen and its path among those visited, of which none is lost and no other gained?
pub open spec fn scanned_more(
    r: ReportModel,
    t: ReportModel,
    path: Seq<char>,
    lang: Seq<char>,
    found: Seq<finding::FindingModel>,
    from_cache: bool,
) -> bool {
    &&& t.files_scanned == r.files_scanned + 1
    &&& t.files_skipped == r.files_skipped
    &&& t.files_cached == r.files_cached + if from_cache { 1int } else { 0int }
    &&& t.findings == r.findings + found
    &&& forall|l: Seq<char>| #[trigger]
        t.languages_seen.contains(l) <==> r.languages_seen.contains(l) || l == lang
    &&& forall|v: (Seq<char>, Seq<char>)| #[trigger]
        r.visited.contains(v) ==> t.visited.contains(v)
    &&& forall|v: (Seq<char>, Seq<char>)| #[trigger]
        t.visited.contains(v) ==> r.visited.contains(v) || v == (path, lang)
    &&& exists|k: int| 0 <= k < t.visited.len() && is_visit(#[trigger] t.visited[k], path, lang)
}

proof fn lemma_scanned_more(
    r: ReportModel,
    path: Seq<char>,
    lang: Seq<char>,
    found: Seq<finding::FindingModel>,
    from_cache: bool,
)
    requires
        r.files_scanned < usize::MAX,
        r.files_cached < usize::MAX,
    ensures
        scanned_more(r, scanned(r, path, lang, found, from_cache), path, lang, found, from_cache),
{
    let t = scanned(r, path, lang, found, from_cache);
    assert forall|l: Seq<char>| #[trigger]
        t.languages_seen.contains(l) <==> r.languages_seen.contains(l) || l == lang by {
        lemma_with_text_holds(r.languages_seen, lang, l);
    }
    let x = (path, lang);
    lemma_with_visit_holds(r.visited, x, x);
    let at = choose|k: int|
        0 <= k < with_visit(r.visited, x).len() && is_visit(
            #[trigger] with_visit(r.visited, x)[k],
            x.0,
            x.1,
        );
    assert(t.visited == with_visit(r.visited, x));
    assert(is_visit(t.visited[at], path, lang));
    assert forall|v: (Seq<char>, Seq<char>)| #[trigger]
        r.visited.contains(v) implies t.visited.contains(v) by {
        lemma_with_visit_holds(r.visited, (path, lang), v);
    }
    assert forall|v: (Seq<char>, Seq<char>)| #[trigger]
        t.visited.contains(v) implies r.visited.contains(v) || v == (path, lang) by {
        lemma_with_visit_holds(r.visited, (path, lang), v);
    }
}

/// What scanning a file adds to a report. A file without a language is one more of the skipped ones,
/// and nothing else changes. A file that is scanned is one more of those, with what was found in it,
/// which is what the cache has where it has something. A failure adds nothing.
pub proof fn lemma_report_grows(
    s: ScannerModel,
    r: ReportModel,
    path: Seq<char>,
    canonical: Option<Seq<char>>,
    explicit: Option<Seq<char>>,
    source: Seq<u8>,
    cached: Option<Seq<finding::FindingModel>>,
)
    requires
        r.files_scanned < usize::MAX,
        r.files_skipped < usize::MAX,
        r.files_cached < usize::MAX,
    ensures
        ({
            let st = scan_step(s, r, path, canonical, explicit, source, cached);
            match language::resolved(s.registry, explicit, path) {
                Err(e) => st.found == Err::<Option<Seq<finding::FindingModel>>, Seq<char>>(e)
                    && st.report == r && st.scanner == s,
                Ok(None) => st.found == Ok::<Option<Seq<finding::FindingModel>>, Seq<char>>(None)
                    && st.scanner == s && st.report.files_skipped == r.files_skipped + 1
                    && st.report == (ReportModel {
                    files_skipped: st.report.files_skipped,
                    ..r
                }),
                Ok(Some(k)) => {
                    &&& cached matches Some(f) ==> st.found == Ok::<
                        Option<Seq<finding::FindingModel>>,
                        Seq<char>,
                    >(Some(f))
                    &&& st.found matches Ok(f) ==> f is Some && scanned_more(
                        r,
                        st.report,
                        path,
                        s.registry[k].id,
                        f->Some_0,
                        cached is Some,
                    )
                    &&& st.found is Err ==> st.report == r
                },
            }
        }),
{
    let st = scan_step(s, r, path, canonical, explicit, source, cached);
    if let Ok(Some(k)) = language::resolved(s.registry, explicit, path) {
        if let Ok(f) = st.found {
            lemma_scanned_more(r, path, s.registry[k].id, f->Some_0, cached is Some);
        }
    }
}

/// Does a file lie outside a root: is where it is not known, or is it not below the root?
pub open spec fn lies_outside(canonical: Option<Seq<char>>, root: Seq<char>) -> bool {
    canonical is None || exists|i: int| #[trigger]
        path::departs(path::path_parts(canonical->Some_0), path::path_parts(root), i)
}

/// The path that findings carry: below a root, what a file's own path has behind the root's, and
/// outside of it or without one, the path as given. A file outside of the root, and only such a
/// file, is warned about, once and behind the warnings that there are.
pub proof fn lemma_path_carried(
    s: ScannerModel,
    path: Seq<char>,
    canonical: Option<Seq<char>>,
    names: Seq<Seq<char>>,
)
    requires
        names.len() > 0,
        forall|i: int| 0 <= i < names.len() ==> path::plain_name(#[trigger] names[i]),
    ensures
        ({
            let t = with_path_checked(s, path, canonical);
            let carried = id_path(s.path_root, path, canonical);
            &&& s.path_root is None ==> carried == path && t == s
            &&& s.path_root matches Some(root) ==> {
                &&& lies_outside(canonical, root) ==> carried == path && t.warnings.len()
                    == s.warnings.len() + 1 && s.warnings.is_prefix_of(t.warnings) && (path
                    + " lies outside the scan root "@ + root).is_prefix_of(t.warnings.last())
                &&& !lies_outside(canonical, root) ==> t == s
                &&& root.len() > 0 && path::path_parts(root).len() > 0 && canonical == Some(
                    path::path_join(root, text::joined(names, "/"@)),
                ) ==> carried == text::joined(names, "/"@)
            }
            &&& t == ScannerModel { warnings: t.warnings, ..s }
        }),
{
    if let Some(root) = s.path_root {
        if let Some(c) = canonical {
            path::lemma_below_when(c, root);
            if root.len() > 0 && path::path_parts(root).len() > 0 && c == path::path_join(
                root,
                text::joined(names, "/"@),
            ) {
                path::lemma_joined_below(root, names, seq![]);
            }
        }
        if lies_outside(canonical, root) {
            let w = outside_root(path, root);
            let head = path + " lies outside the scan root "@ + root;
            assert(below_root(canonical, root) is None);
            assert(w.subrange(0, head.len() as int) =~= head);
            let t = with_path_checked(s, path, canonical);
            assert(t.warnings.subrange(0, s.warnings.len() as int) =~= s.warnings);
        } else {
            assert(below_root(canonical, root) is Some);
        }
    }
}

/// Rules are compiled for a language once: what fails to compile is then warned about, behind the
/// warnings that there are, and a second time nothing changes.
pub proof fn lemma_compiled_once(s: ScannerModel, lang_id: Seq<char>)
    ensures
        ({
            let t = with_compiled(s, lang_id);
            let added = compile_warnings(
                rule_grammar(s.registry, lang_id),
                lang_id,
                s.rules,
                s.rules.len(),
            );
            &&& t.compiled.contains(lang_id)
            &&& forall|l: Seq<char>| #[trigger]
                t.compiled.contains(l) <==> s.compiled.contains(l) || l == lang_id
            &&& with_compiled(t, lang_id) == t
            &&& s.compiled.contains(lang_id) ==> t == s
            &&& !s.compiled.contains(lang_id) ==> t.warnings == s.warnings + added
            &&& t.rules == s.rules && t.registry == s.registry && t.path_root == s.path_root
            &&& t.cross_compiled == s.cross_compiled && t.cache == s.cache
        }),
        ({
            let t = with_cross_compiled(s, lang_id);
            let added = cross_warnings(
                rule_grammar(s.registry, lang_id),
                lang_id,
                s.rules,
                s.rules.len(),
            );
            &&& t.cross_compiled.contains(lang_id)
            &&& forall|l: Seq<char>| #[trigger]
                t.cross_compiled.contains(l) <==> s.cross_compiled.contains(l) || l == lang_id
            &&& with_cross_compiled(t, lang_id) == t
            &&& s.cross_compiled.contains(lang_id) ==> t == s
            &&& !s.cross_compiled.contains(lang_id) ==> t.warnings == s.warnings + added
            &&& t.rules == s.rules && t.registry == s.registry && t.path_root == s.path_root
            &&& t.compiled == s.compiled && t.cache == s.cache
        }),
{
    lemma_pushed_holds(s.compiled, lang_id);
    lemma_pushed_holds(s.cross_compiled, lang_id);
}

proof fn lemma_pushed_holds(s: Seq<Seq<char>>, x: Seq<char>)
    ensures
        forall|y: Seq<char>| #[trigger] s.push(x).contains(y) <==> s.contains(y) || y == x,
{
    assert forall|y: Seq<char>| #[trigger] s.push(x).contains(y) <==> s.contains(y) || y == x by {
        if s.contains(y) {
            let k = choose|k: int| 0 <= k < s.len() && s[k] == y;
            assert(s.push(x)[k] == y);
        }
        assert(s.push(x)[s.len() as int] == x);
        if s.push(x).contains(y) {
            let k = choose|k: int| 0 <= k < s.push(x).len() && s.push(x)[k] == y;
            if k < s.len() {
                assert(s[k] == y);
            }
        }
    }
}

/// The key of a file in the cache is hashed from all that its findings depend on: the version of the
/// engine, the scheme, the rules, the path that the findings carry, the content, the language and
/// the version of its grammar. Without a cache there is none.
pub proof fn lemma_file_keyed_by(
    s: ScannerModel,
    entry: language::EntryModel,
    path: Seq<char>,
    source: Seq<u8>,
)
    ensures
        file_key(s, entry, path, source) is Some <==> s.cache is Some,
        s.cache matches Some(c) ==> file_key(s, entry, path, source) == Some(
            fingerprint::digest_of(
                seq![
                    "crit.cache/v1"@,
                    snapshot::ENGINE_VERSION@,
                    c.scheme_id,
                    c.ruleset_id,
                    fingerprint::path_identity(path),
                    fingerprint::hex(fingerprint::sha256_digest(source)),
                    entry.id,
                    text::decimal(syntax::abi_version_of(entry.language) as nat),
                ],
            ),
        ),
{
}

/// A cross-file rule that a language's files would be joined with, but whose queries do not
/// compile or capture no link, is warned about by name, once and in the order of the rules, and no
/// other rule is.
pub proof fn lemma_every_cross_failure_warned(
    grammar: Language,
    lang_id: Seq<char>,
    rules: Seq<rule::RuleModel>,
    n: nat,
) -> (w: Seq<int>)
    requires
        n <= rules.len() <= usize::MAX,
    ensures
        ({
            let all = cross_warnings(grammar, lang_id, rules, n);
            &&& w.len() == all.len()
            &&& forall|i: int, j: int| #![trigger w[i], w[j]] 0 <= i < j < w.len() ==> w[i] < w[j]
            &&& forall|i: int|
                0 <= i < n && rule::names_language((#[trigger] rules[i]).languages, lang_id)
                    && rules[i].matcher is CrossFile && joining_queries(rules[i], lang_id, grammar)
                    is None <==> w.contains(i)
            &&& forall|x: int|
                0 <= x < w.len() ==> ("cross-file rule '"@ + rules[#[trigger] w[x]].id
                    + "' does not compile for language '"@ + lang_id).is_prefix_of(all[x])
        }),
    decreases n,
{
    if n == 0 {
        seq![]
    } else {
        let m = (n - 1) as nat;
        let v = lemma_every_cross_failure_warned(grammar, lang_id, rules, m);
        let r = rules[n - 1];
        rule::lemma_applies_where_named(r.languages, lang_id);
        assert forall|x: int| 0 <= x < v.len() implies 0 <= #[trigger] v[x] < m by {
            assert(v.contains(v[x]));
        }
        if rule::names_language(r.languages, lang_id) && r.matcher is CrossFile && joining_queries(
            r,
            lang_id,
            grammar,
        ) is None {
            let w = v.push(n - 1);
            assert forall|i: int|
                0 <= i < n && rule::names_language((#[trigger] rules[i]).languages, lang_id)
                    && rules[i].matcher is CrossFile && joining_queries(rules[i], lang_id, grammar)
                    is None <==> w.contains(i) by {
                if w.contains(i) && i != n - 1 {
                    let x = choose|x: int| 0 <= x < w.len() && w[x] == i;
                    assert(v[x] == i);
                    assert(v.contains(i));
                }
                if v.contains(i) {
                    let x = choose|x: int| 0 <= x < v.len() && v[x] == i;
                    assert(w[x] == i);
                }
                assert(w[v.len() as int] == n - 1);
            }
            let all = cross_warnings(grammar, lang_id, rules, n);
            assert forall|x: int| 0 <= x < w.len() implies ("cross-file rule '"@
                + rules[#[trigger] w[x]].id + "' does not compile for language '"@
                + lang_id).is_prefix_of(all[x]) by {
                if x < v.len() {
                    assert(w[x] == v[x]);
                } else {
                    let head = "cross-file rule '"@ + r.id + "' does not compile for language '"@
                        + lang_id;
                    assert(all[x].subrange(0, head.len() as int) =~= head);
                }
            }
            w
        } else {
            v
        }
    }
}

/// Without a cross-file rule the cross-file pass reads nothing, says nothing and finds nothing.
pub proof fn lemma_no_cross_rule_no_pass(s: ScannerModel, files: Seq<VisitedFile>)
    requires
        forall|i: int| 0 <= i < s.rules.len() ==> !((#[trigger] s.rules[i]).matcher is CrossFile),
    ensures
        cross_pass(s, files).0 == s,
        cross_pass(s, files).1 matches Ok(found) && found.len() == 0,
{
}

// ---------------------------------------------------------------------------
// What a cross-file pass takes in
// ---------------------------------------------------------------------------

/// The cross-file rules that are compiled for the language of a visited file.
pub open spec fn joined_with(s: ScannerModel, f: VisitedFile) -> Seq<CompiledCrossRule> {
    compiled_cross_rules(
        rule_grammar(s.registry, f.language@),
        f.language@,
        s.rules,
        s.rules.len(),
    )
}

/// The sources that a compiled cross-file rule has in a visited file; none where one of its matches
/// does not lie in the source.
pub open spec fn sources_by(s: ScannerModel, f: VisitedFile, c: CompiledCrossRule) -> Option<
    Seq<crossfile::SourceModel>,
> {
    let tree = syntax::parsed(rule_grammar(s.registry, f.language@), f.source@)->Ok_0;
    let from = syntax::matches_of(c.source, tree, f.source@);
    crossfile::sources_of(c.rule_idx, visited_model(s, f), from, c.source_link_ix, from.len())
}

/// The sinks that a compiled cross-file rule has in a visited file; none where one of its matches
/// does not lie in the source.
pub open spec fn sinks_by(s: ScannerModel, f: VisitedFile, c: CompiledCrossRule) -> Option<
    Seq<crossfile::SinkModel>,
> {
    let tree = syntax::parsed(rule_grammar(s.registry, f.language@), f.source@)->Ok_0;
    let to = syntax::matches_of(c.sink, tree, f.source@);
    crossfile::sinks_of(
        c.rule_idx,
        s.rules[c.rule_idx as int],
        visited_model(s, f),
        to,
        c.sink_link_ix,
        c.sink_match_ix,
        to.len(),
    )
}

/// Does a visited file stop a cross-file pass? It does where some rule is compiled for its language
/// and it has no syntax tree, or a match that does not lie in its source.
pub open spec fn stops_pass(s: ScannerModel, f: VisitedFile) -> bool {
    joined_with(s, f).len() > 0 && (syntax::parsed(
        rule_grammar(s.registry, f.language@),
        f.source@,
    ) is Err || exists|y: int|
        0 <= y < joined_with(s, f).len() && (sources_by(s, f, #[trigger] joined_with(s, f)[y])
            is None || sinks_by(s, f, joined_with(s, f)[y]) is None))
}

/// All sources in a visited file, rule by rule.
pub open spec fn sources_in_file(s: ScannerModel, f: VisitedFile) -> Seq<crossfile::SourceModel> {
    joined_with(s, f).map_values(|c: CompiledCrossRule| sources_by(s, f, c)->Some_0).flatten()
}

/// All sinks in a visited file, rule by rule.
pub open spec fn sinks_in_file(s: ScannerModel, f: VisitedFile) -> Seq<crossfile::SinkModel> {
    joined_with(s, f).map_values(|c: CompiledCrossRule| sinks_by(s, f, c)->Some_0).flatten()
}

proof fn lemma_flatten_pushed<A>(s: Seq<Seq<A>>, x: Seq<A>)
    ensures
        s.push(x).flatten() == s.flatten() + x,
{
    s.push(x).lemma_flatten_and_flatten_alt_are_equivalent();
    s.lemma_flatten_and_flatten_alt_are_equivalent();
    assert(s.push(x).drop_last() =~= s);
}

#[verifier::spinoff_prover]
#[verifier::rlimit(60)]
proof fn lemma_rules_taken_in(
    s: ScannerModel,
    pass: crossfile::PassModel,
    f: VisitedFile,
    n: nat,
)
    requires
        n <= joined_with(s, f).len(),
        syntax::parsed(rule_grammar(s.registry, f.language@), f.source@) is Ok,
    ensures
        ({
            let all = joined_with(s, f);
            let tree = syntax::parsed(rule_grammar(s.registry, f.language@), f.source@)->Ok_0;
            let r = collected_in(pass, s.rules, all, tree, visited_model(s, f), n);
            &&& r is Some <==> forall|y: int|
                0 <= y < n ==> sources_by(s, f, #[trigger] all[y]) is Some && sinks_by(s, f, all[y])
                    is Some
            &&& r matches Some(p) ==> {
                &&& p.sources == pass.sources + all.take(n as int).map_values(
                    |c: CompiledCrossRule| sources_by(s, f, c)->Some_0,
                ).flatten()
                &&& p.sinks == pass.sinks + all.take(n as int).map_values(
                    |c: CompiledCrossRule| sinks_by(s, f, c)->Some_0,
                ).flatten()
            }
        }),
    decreases n,
{
    let all = joined_with(s, f);
    let a = |c: CompiledCrossRule| sources_by(s, f, c)->Some_0;
    let b = |c: CompiledCrossRule| sinks_by(s, f, c)->Some_0;
    if n == 0 {
        assert(all.take(0).map_values(a) =~= seq![]);
        assert(all.take(0).map_values(b) =~= seq![]);
        assert(pass.sources + Seq::<crossfile::SourceModel>::empty() =~= pass.sources);
        assert(pass.sinks + Seq::<crossfile::SinkModel>::empty() =~= pass.sinks);
    } else {
        let m = (n - 1) as nat;
        lemma_rules_taken_in(s, pass, f, m);
        let (x, y) = (all.take(m as int).map_values(a), all.take(m as int).map_values(b));
        assert(all.take(n as int).map_values(a) =~= x.push(a(all[n - 1])));
        assert(all.take(n as int).map_values(b) =~= y.push(b(all[n - 1])));
        lemma_flatten_pushed(x, a(all[n - 1]));
        lemma_flatten_pushed(y, b(all[n - 1]));
        let tree = syntax::parsed(rule_grammar(s.registry, f.language@), f.source@)->Ok_0;
        let before = collected_in(pass, s.rules, all, tree, visited_model(s, f), m);
        let r = collected_in(pass, s.rules, all, tree, visited_model(s, f), n);
        if before is Some {
            assert(r is Some <==> sources_by(s, f, all[n - 1]) is Some && sinks_by(
                s,
                f,
                all[n - 1],
            ) is Some);
            if r is Some {
                assert(r->Some_0.sources =~= pass.sources + x.push(a(all[n - 1])).flatten());
                assert(r->Some_0.sinks =~= pass.sinks + y.push(b(all[n - 1])).flatten());
            }
        } else {
            let i = choose|i: int|
                0 <= i < m && !(sources_by(s, f, #[trigger] all[i]) is Some && sinks_by(s, f, all[i])
                    is Some);
            assert(!(sources_by(s, f, all[i]) is Some && sinks_by(s, f, all[i]) is Some));
            assert(r is None);
        }
    }
}

#[verifier::spinoff_prover]
#[verifier::rlimit(60)]
proof fn lemma_file_taken_in(s: ScannerModel, pass: crossfile::PassModel, f: VisitedFile)
    requires
        language::entry_with_id(s.registry, 0, f.language@) >= 0,
    ensures
        cross_file_step(s, pass, f).pass is Err <==> stops_pass(s, f),
        cross_file_step(s, pass, f).pass matches Ok(p) ==> p.sources == pass.sources
            + sources_in_file(s, f) && p.sinks == pass.sinks + sinks_in_file(s, f),
{
    language::lemma_entry_with_id(s.registry, 0, f.language@);
    let all = joined_with(s, f);
    if all.len() == 0 {
        assert(all.map_values(|c: CompiledCrossRule| sources_by(s, f, c)->Some_0) =~= seq![]);
        assert(all.map_values(|c: CompiledCrossRule| sinks_by(s, f, c)->Some_0) =~= seq![]);
        assert(pass.sources + sources_in_file(s, f) =~= pass.sources);
        assert(pass.sinks + sinks_in_file(s, f) =~= pass.sinks);
    } else if syntax::parsed(rule_grammar(s.registry, f.language@), f.source@) is Ok {
        lemma_rules_taken_in(s, pass, f, all.len());
        assert(all.take(all.len() as int) =~= all);
    }
}

#[verifier::spinoff_prover]
#[verifier::rlimit(60)]
proof fn lemma_files_taken_in(s: ScannerModel, files: Seq<VisitedFile>, n: nat)
    requires
        n <= files.len(),
        forall|i: int|
            0 <= i < files.len() ==> language::entry_with_id(
                s.registry,
                0,
                (#[trigger] files[i]).language@,
            ) >= 0,
    ensures
        cross_steps(s, files, n).pass is Ok <==> forall|i: int|
            0 <= i < n ==> !stops_pass(s, #[trigger] files[i]),
        cross_steps(s, files, n).pass matches Ok(p) ==> p.sources == files.take(
            n as int,
        ).map_values(|f: VisitedFile| sources_in_file(s, f)).flatten() && p.sinks == files.take(
            n as int,
        ).map_values(|f: VisitedFile| sinks_in_file(s, f)).flatten(),
    decreases n,
{
    let a = |f: VisitedFile| sources_in_file(s, f);
    let b = |f: VisitedFile| sinks_in_file(s, f);
    if n == 0 {
        assert(files.take(0).map_values(a) =~= seq![]);
        assert(files.take(0).map_values(b) =~= seq![]);
    } else {
        let m = (n - 1) as nat;
        lemma_files_taken_in(s, files, m);
        lemma_cross_steps_keep(s, files, m);
        let t = cross_steps(s, files, m);
        let f = files[n - 1];
        if let Ok(p) = t.pass {
            lemma_file_taken_in(t.scanner, p, f);
            lemma_same_view(s, t.scanner, f);
            let (x, y) = (files.take(m as int).map_values(a), files.take(m as int).map_values(b));
            assert(files.take(n as int).map_values(a) =~= x.push(a(f)));
            assert(files.take(n as int).map_values(b) =~= y.push(b(f)));
            lemma_flatten_pushed(x, a(f));
            lemma_flatten_pushed(y, b(f));
            assert(cross_steps(s, files, n) == cross_file_step(t.scanner, p, f));
            assert(cross_steps(s, files, n).pass is Ok <==> !stops_pass(s, files[n - 1]));
        } else {
            let i = choose|i: int| 0 <= i < m && stops_pass(s, #[trigger] files[i]);
            assert(stops_pass(s, files[i]));
            assert(cross_steps(s, files, n) == t);
        }
    }
}

proof fn lemma_same_view(s: ScannerModel, t: ScannerModel, f: VisitedFile)
    requires
        s.registry == t.registry,
        s.rules == t.rules,
        s.path_root == t.path_root,
    ensures
        stops_pass(s, f) == stops_pass(t, f),
        sources_in_file(s, f) == sources_in_file(t, f),
        sinks_in_file(s, f) == sinks_in_file(t, f),
{
    let all = joined_with(s, f);
    assert forall|c: CompiledCrossRule| #[trigger] sources_by(s, f, c) == sources_by(t, f, c)
        && sinks_by(s, f, c) == sinks_by(t, f, c) by {}
    assert(all.map_values(|c: CompiledCrossRule| sources_by(s, f, c)->Some_0) =~= all.map_values(
        |c: CompiledCrossRule| sources_by(t, f, c)->Some_0,
    ));
    assert(all.map_values(|c: CompiledCrossRule| sinks_by(s, f, c)->Some_0) =~= all.map_values(
        |c: CompiledCrossRule| sinks_by(t, f, c)->Some_0,
    ));
}

/// A cross-file pass ends in findings exactly where no file stops it. It then joins the sources of
/// all files with the sinks of all files, and no others: file by file in order, and in each file
/// rule by rule in order, each once.
pub proof fn lemma_cross_pass_joins_exactly(s: ScannerModel, files: Seq<VisitedFile>)
    requires
        exists|i: int| 0 <= i < s.rules.len() && (#[trigger] s.rules[i]).matcher is CrossFile,
        forall|i: int|
            0 <= i < files.len() ==> language::entry_with_id(
                s.registry,
                0,
                (#[trigger] files[i]).language@,
            ) >= 0,
    ensures
        cross_pass(s, files).1 is Ok <==> forall|i: int|
            0 <= i < files.len() ==> !stops_pass(s, #[trigger] files[i]),
        cross_pass(s, files).1 matches Ok(found) ==> found == crossfile::joined_findings(
            files.map_values(|f: VisitedFile| sources_in_file(s, f)).flatten(),
            files.map_values(|f: VisitedFile| sinks_in_file(s, f)).flatten(),
        ),
{
    lemma_files_taken_in(s, files, files.len());
    assert(files.take(files.len() as int) =~= files);
}

/// Why a cross-file rule does not compile: its source where that is no query, then its sink where
/// that is none, and then the first of the two that captures no link.
pub proof fn lemma_cross_failure_reason(
    language: Language,
    source: Seq<char>,
    sink: Seq<char>,
    match_capture: Seq<char>,
    rule_idx: usize,
)
    ensures
        ({
            let (a, b) = (syntax::query_of(language, source), syntax::query_of(language, sink));
            let r = compiled_queries(language, source, sink, match_capture, rule_idx);
            let why = |e: Seq<char>| r == Err::<CompiledCrossRule, Seq<char>>(e);
            &&& a matches Err(e) ==> why("source: "@ + syntax::query_error_text(e))
            &&& a is Ok ==> (b matches Err(e) ==> why("sink: "@ + syntax::query_error_text(e)))
            &&& a is Ok && b is Ok && syntax::capture_number(a->Ok_0, "link"@) is None ==> why(
                "source query has no @link capture"@,
            )
            &&& a is Ok && b is Ok && syntax::capture_number(a->Ok_0, "link"@) is Some
                && syntax::capture_number(b->Ok_0, "link"@) is None ==> why(
                "sink query has no @link capture"@,
            )
        }),
{
}

/// Why a file is not scanned: its language cannot be parsed with, or the parser gave up on it, or a
/// match does not lie in it; the language or the file is named.
pub proof fn lemma_scan_failure_reason(
    rules: Seq<rule::RuleModel>,
    grammar: Language,
    entry: language::EntryModel,
    path: Seq<char>,
    carried: Seq<char>,
    source: Seq<u8>,
)
    ensures
        ({
            let r = file_findings(rules, grammar, entry, path, carried, source);
            let abi = syntax::abi_version_of(entry.language);
            let why = |e: Seq<char>| r == Err::<Seq<finding::FindingModel>, Seq<char>>(e);
            &&& abi < 13 || 15 < abi ==> why("setting language '"@ + entry.id + "'"@)
            &&& 13 <= abi <= 15 && syntax::tree_of(entry.language, source) is None ==> why(
                "parsing "@ + path,
            )
            &&& 13 <= abi <= 15 && syntax::tree_of(entry.language, source) is Some && r is Err
                ==> why("a match in "@ + path + " does not lie in its source"@)
        }),
{
}

} // verus!
