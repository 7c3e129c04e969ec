//! Rule model and loading.
//!
//! A rule supplies its match logic as a raw tree-sitter query, as a structured pattern, or,
//! for a rule that joins findings across files, as a source and a sink query. The capture
//! named `match` (configurable) marks the node a finding points at.

use vstd::prelude::*;

use crate::compile;
use crate::compile::Pattern;
use crate::finding;
use crate::finding::Severity;
use crate::order;
use crate::path;
use crate::text;

verus! {

/// Where a rule's tree-sitter query comes from.
#[derive(Debug)]
pub enum Matcher {
    /// Raw tree-sitter query text.
    Query(String),
    /// Structured pattern compiled to a query.
    Pattern(Pattern),
    /// Two queries over the whole tree: a sink fires where some source captures its link.
    CrossFile { source: String, sink: String },
}

/// A loaded, validated rule.
#[derive(Debug)]
pub struct Rule {
    pub id: String,
    pub message: String,
    pub severity: Severity,
    /// Language ids or groups this rule applies to; none means any language. A bare group
    /// like `objectscript` matches every `objectscript_*` variant.
    pub languages: Vec<String>,
    pub matcher: Matcher,
    /// Capture name marking the finding location.
    pub match_capture: String,
    pub name: Option<String>,
    pub description: Option<String>,
    pub references: Vec<String>,
    pub cwe: Option<String>,
}

/// What a matcher holds.
#[verifier::ext_equal]
pub enum MatcherModel {
    Query(Seq<char>),
    Pattern(Pattern),
    CrossFile { source: Seq<char>, sink: Seq<char> },
}

/// What a rule holds.
#[verifier::ext_equal]
pub struct RuleModel {
    pub id: Seq<char>,
    pub message: Seq<char>,
    pub severity: Severity,
    pub languages: Seq<Seq<char>>,
    pub matcher: MatcherModel,
    pub match_capture: Seq<char>,
    pub name: Option<Seq<char>>,
    pub description: Option<Seq<char>>,
    pub references: Seq<Seq<char>>,
    pub cwe: Option<Seq<char>>,
}

impl View for Matcher {
    type V = MatcherModel;

    open spec fn view(&self) -> MatcherModel {
        match self {
            Matcher::Query(q) => MatcherModel::Query(q@),
            Matcher::Pattern(p) => MatcherModel::Pattern(*p),
            Matcher::CrossFile { source, sink } => MatcherModel::CrossFile {
                source: source@,
                sink: sink@,
            },
        }
    }
}

impl View for Rule {
    type V = RuleModel;

    open spec fn view(&self) -> RuleModel {
        RuleModel {
            id: self.id@,
            message: self.message@,
            severity: self.severity,
            languages: text::texts(self.languages@),
            matcher: self.matcher@,
            match_capture: self.match_capture@,
            name: text::opt_text(self.name),
            description: text::opt_text(self.description),
            references: text::texts(self.references@),
            cwe: text::opt_text(self.cwe),
        }
    }
}

/// What a list of rules holds.
pub open spec fn rule_models(s: Seq<Rule>) -> Seq<RuleModel> {
    s.map_values(|r: Rule| r@)
}

/// Does an entry of a rule's languages cover a language? It names the language, names the
/// group before a `_` in it, or is a `*`.
pub open spec fn covers(entry: Seq<char>, language: Seq<char>) -> bool {
    entry == "*"@ || entry == language || (entry + "_"@).is_prefix_of(language)
}

/// Does a rule for the given languages apply to a language?
pub open spec fn applies(languages: Seq<Seq<char>>, language: Seq<char>) -> bool {
    languages.len() == 0 || exists|i: int|
        0 <= i < languages.len() && covers(#[trigger] languages[i], language)
}

/// The query text of a rule.
pub open spec fn query_text(r: RuleModel) -> Result<Seq<char>, Seq<char>> {
    match r.matcher {
        MatcherModel::Query(q) => Ok(q),
        MatcherModel::Pattern(p) => compile::query_of(p, r.match_capture),
        MatcherModel::CrossFile { source, sink } => Ok(source + "\n; sink\n"@ + sink),
    }
}

impl Rule {
    /// Does this rule apply to a file parsed with the given language?
    pub fn applies_to(&self, lang_id: &str) -> (r: bool)
        ensures
            r == applies(self@.languages, lang_id@),
    {
        if self.languages.len() == 0 {
            return true;
        }
        for i in 0..self.languages.len()
            invariant
                self@.languages == text::texts(self.languages@),
                forall|k: int| 0 <= k < i ==> !covers(#[trigger] self@.languages[k], lang_id@),
        {
            let e = self.languages[i].as_str();
            let mut group = e.to_owned();
            group.append("_");
            assert(self@.languages[i as int] == e@);
            if text::same(e, "*") || text::same(e, lang_id) || text::starts_with(
                lang_id,
                group.as_str(),
            ) {
                assert(covers(self@.languages[i as int], lang_id@));
                return true;
            }
        }
        false
    }

    /// The tree-sitter query text of this rule; for a cross-file rule both of its queries.
    pub fn query_source(&self) -> (r: Result<String, String>)
        ensures
            match r {
                Ok(s) => query_text(self@) == Ok::<Seq<char>, Seq<char>>(s@),
                Err(e) => query_text(self@) == Err::<Seq<char>, Seq<char>>(e@),
            },
    {
        match &self.matcher {
            Matcher::Query(q) => Ok(q.clone()),
            Matcher::Pattern(p) => compile::compile(p, self.match_capture.as_str()),
            Matcher::CrossFile { source, sink } => {
                let mut out = source.clone();
                out.append("\n; sink\n");
                out.append(sink.as_str());
                Ok(out)
            },
        }
    }

    /// Does this rule join findings across files?
    pub fn is_cross_file(&self) -> (r: bool)
        ensures
            r == self@.matcher is CrossFile,
    {
        match &self.matcher {
            Matcher::CrossFile { .. } => true,
            _ => false,
        }
    }
}

// ---------------------------------------------------------------------------
// YAML rules
// ---------------------------------------------------------------------------

/// A rule as a YAML document states it.
#[derive(Debug)]
pub struct RuleSpec {
    pub id: String,
    pub message: String,
    pub severity: Option<Severity>,
    pub languages: Vec<String>,
    /// Singular convenience alias for a one-language rule.
    pub language: Option<String>,
    pub query: Option<String>,
    pub pattern: Option<Pattern>,
    /// `cross-file` for a rule with a source and a sink query.
    pub scope: Option<String>,
    pub source: Option<String>,
    pub sink: Option<String>,
    pub capture: Option<String>,
    pub name: Option<String>,
    pub description: Option<String>,
    pub references: Vec<String>,
    pub cwe: Option<String>,
}

/// A YAML rule document: a single rule, a list, or a list under `rules`.
#[derive(Debug)]
pub enum RuleFile {
    Many { rules: Vec<RuleSpec> },
    List(Vec<RuleSpec>),
    One(RuleSpec),
}

/// An error about the rule with the given id.
pub open spec fn about_rule(id: Seq<char>, what: Seq<char>) -> Seq<char> {
    "rule '"@ + id + "' "@ + what
}

fn rule_error(id: &str, what: &str) -> (r: String)
    ensures
        r@ == about_rule(id@, what@),
{
    let mut out = "rule '".to_owned();
    out.append(id);
    out.append("' ");
    out.append(what);
    out
}

/// The matcher of a stated rule, or what is wrong with how it states one.
pub open spec fn stated_matcher(s: RuleSpec) -> Result<MatcherModel, Seq<char>> {
    if text::opt_text(s.scope) == Some("cross-file"@) {
        if s.query is Some || s.pattern is Some {
            Err(
                about_rule(
                    s.id@,
                    "has `scope: cross-file`; use `source` and `sink` in place of `query` and `pattern`"@,
                ),
            )
        } else {
            match (s.source, s.sink) {
                (Some(source), Some(sink)) => Ok(
                    MatcherModel::CrossFile { source: source@, sink: sink@ },
                ),
                _ => Err(
                    about_rule(s.id@, "has `scope: cross-file` and must set `source` and `sink`"@),
                ),
            }
        }
    } else if s.scope is Some {
        Err(about_rule(s.id@, "has an unknown `scope` (expected `cross-file`)"@))
    } else if s.source is Some || s.sink is Some {
        Err(about_rule(s.id@, "sets `source` or `sink` without `scope: cross-file`"@))
    } else {
        match (s.query, s.pattern) {
            (Some(_), Some(_)) => Err(
                about_rule(s.id@, "sets both `query` and `pattern`; use exactly one"@),
            ),
            (Some(q), None) => Ok(MatcherModel::Query(q@)),
            (None, Some(p)) => Ok(MatcherModel::Pattern(p)),
            (None, None) => Err(about_rule(s.id@, "must set either `query` or `pattern`"@)),
        }
    }
}

/// A text, or a default in its place.
pub open spec fn text_or(s: Option<String>, default: Seq<char>) -> Seq<char> {
    match s {
        Some(t) => t@,
        None => default,
    }
}

/// The rule that a YAML document states, or what is wrong with it. A rule without a severity
/// is a warning, and one without a capture marks the node captured as `match`.
pub open spec fn stated_rule(s: RuleSpec) -> Result<RuleModel, Seq<char>> {
    match stated_matcher(s) {
        Err(e) => Err(e),
        Ok(matcher) => Ok(
            RuleModel {
                id: s.id@,
                message: s.message@,
                severity: match s.severity {
                    Some(v) => v,
                    None => Severity::Warning,
                },
                languages: match s.language {
                    Some(l) => text::texts(s.languages@).push(l@),
                    None => text::texts(s.languages@),
                },
                matcher,
                match_capture: text_or(s.capture, "match"@),
                name: text::opt_text(s.name),
                description: text::opt_text(s.description),
                references: text::texts(s.references@),
                cwe: text::opt_text(s.cwe),
            },
        ),
    }
}

impl RuleSpec {
    fn check_matcher(&self) -> (r: Result<(), String>)
        ensures
            match r {
                Ok(_) => stated_matcher(*self) is Ok,
                Err(e) => stated_matcher(*self) == Err::<MatcherModel, Seq<char>>(e@),
            },
    {
        let id = self.id.as_str();
        match &self.scope {
            Some(scope) => {
                if !text::same(scope.as_str(), "cross-file") {
                    return Err(
                        rule_error(id, "has an unknown `scope` (expected `cross-file`)"),
                    );
                }
                if self.query.is_some() || self.pattern.is_some() {
                    return Err(
                        rule_error(
                            id,
                            "has `scope: cross-file`; use `source` and `sink` in place of `query` and `pattern`",
                        ),
                    );
                }
                if self.source.is_none() || self.sink.is_none() {
                    return Err(
                        rule_error(
                            id,
                            "has `scope: cross-file` and must set `source` and `sink`",
                        ),
                    );
                }
                Ok(())
            },
            None => {
                if self.source.is_some() || self.sink.is_some() {
                    return Err(
                        rule_error(id, "sets `source` or `sink` without `scope: cross-file`"),
                    );
                }
                if self.query.is_some() && self.pattern.is_some() {
                    return Err(
                        rule_error(id, "sets both `query` and `pattern`; use exactly one"),
                    );
                }
                if self.query.is_none() && self.pattern.is_none() {
                    return Err(rule_error(id, "must set either `query` or `pattern`"));
                }
                Ok(())
            },
        }
    }

    /// The rule that this document states, or what is wrong with it.
    pub fn into_rule(self) -> (r: Result<Rule, String>)
        ensures
            match r {
                Ok(rule) => stated_rule(self) == Ok::<RuleModel, Seq<char>>(rule@),
                Err(e) => stated_rule(self) == Err::<RuleModel, Seq<char>>(e@),
            },
    {
        if let Err(e) = self.check_matcher() {
            return Err(e);
        }
        let ghost stated = self;
        let matcher = match (self.query, self.pattern, self.source, self.sink) {
            (Some(q), _, _, _) => Matcher::Query(q),
            (None, Some(p), _, _) => Matcher::Pattern(p),
            (None, None, Some(source), Some(sink)) => Matcher::CrossFile { source, sink },
            _ => {
                // Left out by the test above.
                assert(false);
                Matcher::Query(String::new())
            },
        };
        let mut languages = self.languages;
        if let Some(l) = self.language {
            let ghost before = text::texts(languages@);
            languages.push(l);
            assert(text::texts(languages@) =~= before.push(l@));
        }
        let severity = match self.severity {
            Some(v) => v,
            None => Severity::Warning,
        };
        let match_capture = match self.capture {
            Some(c) => c,
            None => "match".to_owned(),
        };
        let rule = Rule {
            id: self.id,
            message: self.message,
            severity,
            languages,
            matcher,
            match_capture,
            name: self.name,
            description: self.description,
            references: self.references,
            cwe: self.cwe,
        };
        assert(Ok::<RuleModel, Seq<char>>(rule@) == stated_rule(stated));
        Ok(rule)
    }
}

/// The rules that the first `n` stated ones come to, or what is wrong with the first that is
/// wrong.
pub open spec fn stated_rules(specs: Seq<RuleSpec>, n: nat) -> Result<Seq<RuleModel>, Seq<char>>
    decreases n,
{
    if n == 0 {
        Ok(seq![])
    } else {
        match stated_rules(specs, (n - 1) as nat) {
            Err(e) => Err(e),
            Ok(before) => match stated_rule(specs[n - 1]) {
                Ok(r) => Ok(before.push(r)),
                Err(e) => Err(e),
            },
        }
    }
}

/// The rules stated in a document, in order.
pub open spec fn stated_in(file: RuleFile) -> Seq<RuleSpec> {
    match file {
        RuleFile::Many { rules } => rules@,
        RuleFile::List(rules) => rules@,
        RuleFile::One(rule) => seq![rule],
    }
}

proof fn lemma_stated_rules_stop(specs: Seq<RuleSpec>, i: nat, n: nat)
    requires
        i <= n,
        stated_rules(specs, i) is Err,
    ensures
        stated_rules(specs, n) == stated_rules(specs, i),
    decreases n - i,
{
    if i < n {
        lemma_stated_rules_stop(specs, i, (n - 1) as nat);
    }
}

/// The rules of a YAML document (a single rule, a list, or a list under `rules`).
pub fn parse_yaml(file: RuleFile) -> (r: Result<Vec<Rule>, String>)
    ensures
        match r {
            Ok(rules) => stated_rules(stated_in(file), stated_in(file).len()) == Ok::<
                Seq<RuleModel>,
                Seq<char>,
            >(rule_models(rules@)),
            Err(e) => stated_rules(stated_in(file), stated_in(file).len()) == Err::<
                Seq<RuleModel>,
                Seq<char>,
            >(e@),
        },
{
    let specs = match file {
        RuleFile::Many { rules } => rules,
        RuleFile::List(rules) => rules,
        RuleFile::One(rule) => {
            let mut one: Vec<RuleSpec> = Vec::new();
            one.push(rule);
            one
        },
    };
    let ghost all = specs@;
    assert(all =~= stated_in(file));
    let n = specs.len();
    let mut rest = specs;
    let mut out: Vec<Rule> = Vec::new();
    assert(rule_models(out@) =~= seq![]);
    let mut i: usize = 0;
    while i < n
        invariant
            i <= n == all.len(),
            all == stated_in(file),
            rest@ == all.skip(i as int),
            stated_rules(all, i as nat) == Ok::<Seq<RuleModel>, Seq<char>>(rule_models(out@)),
        decreases n - i,
    {
        let next = rest.remove(0);
        assert(next == all[i as int]);
        assert(rest@ =~= all.skip(i + 1));
        match next.into_rule() {
            Ok(rule) => {
                let ghost before = rule_models(out@);
                out.push(rule);
                assert(rule_models(out@) =~= before.push(rule@));
            },
            Err(e) => {
                proof {
                    lemma_stated_rules_stop(all, (i + 1) as nat, all.len());
                }
                return Err(e);
            },
        }
        i = i + 1;
    }
    Ok(out)
}

// ---------------------------------------------------------------------------
// Severities in YAML
// ---------------------------------------------------------------------------

/// The local tag on a YAML document's value, as written with its `!`, and whether the value
/// behind it is null, since nothing or an explicit null follows; none where the value has no
/// local tag.
pub uninterp spec fn yaml_tag(text: Seq<char>) -> Option<(Seq<char>, bool)>;

/// The string that a YAML document holds, whatever its scalar would stand for otherwise;
/// none where it holds no scalar.
pub uninterp spec fn yaml_text(text: Seq<char>) -> Option<Seq<char>>;

/// Is the text one plain lowercase word?
pub open spec fn plain_word(s: Seq<char>) -> bool {
    s.len() > 0 && forall|i: int| 0 <= i < s.len() ==> 'a' <= #[trigger] s[i] <= 'z'
}

/// `serde_yaml::from_str` into a `serde_yaml::Value` reads a document; a value with a local
/// tag comes back as a tagged value, whose content is null where nothing or an explicit null
/// follows the tag.
/// The result depends on the text alone, and a plain word has no tag.
#[verifier::external_body]
fn yaml_tagged(text: &str) -> (r: Option<(String, bool)>)
    ensures
        match r {
            Some(t) => yaml_tag(text@) == Some((t.0@, t.1)),
            None => yaml_tag(text@) is None,
        },
        plain_word(text@) ==> r is None,
{
    match serde_yaml::from_str::<serde_yaml::Value>(text) {
        Ok(serde_yaml::Value::Tagged(t)) => match t.value {
            serde_yaml::Value::Null => Some((t.tag.to_string(), true)),
            _ => Some((t.tag.to_string(), false)),
        },
        _ => None,
    }
}

/// `serde_yaml::from_str` into a `String` reads a document that holds one scalar, and fails
/// on every other. The result depends on the text alone, and a plain word is read as itself.
#[verifier::external_body]
fn yaml_string(text: &str) -> (r: Option<String>)
    ensures
        text::opt_text(r) == yaml_text(text@),
        plain_word(text@) ==> text::opt_text(r) == Some(text@),
{
    match serde_yaml::from_str::<String>(text) {
        Ok(s) => Some(s),
        Err(_) => None,
    }
}

/// The severity with the given name.
pub open spec fn named_severity(s: Seq<char>) -> Option<Severity> {
    if s == "error"@ {
        Some(Severity::Error)
    } else if s == "warning"@ {
        Some(Severity::Warning)
    } else if s == "info"@ {
        Some(Severity::Info)
    } else if s == "note"@ {
        Some(Severity::Note)
    } else {
        None
    }
}

/// The severity that a YAML value states, given its local tag and its string: a tag of that
/// name with nothing or null behind it, or without a tag a string of that name.
pub open spec fn severity_in_yaml(
    tag: Option<(Seq<char>, bool)>,
    string: Option<Seq<char>>,
) -> Option<Severity> {
    match tag {
        Some((t, alone)) => match text::after_prefix(t, "!"@) {
            Some(name) => if alone {
                named_severity(name)
            } else {
                None
            },
            None => None,
        },
        None => match string {
            Some(s) => named_severity(s),
            None => None,
        },
    }
}

fn severity_named(s: &str) -> (r: Option<Severity>)
    ensures
        r == named_severity(s@),
{
    if text::same(s, "error") {
        Some(Severity::Error)
    } else if text::same(s, "warning") {
        Some(Severity::Warning)
    } else if text::same(s, "info") {
        Some(Severity::Info)
    } else if text::same(s, "note") {
        Some(Severity::Note)
    } else {
        None
    }
}

/// The severity that a YAML value states, given its local tag (as written, and whether
/// nothing or null follows it) and its string.
pub fn severity_from_parts(tag: Option<(String, bool)>, string: Option<String>) -> (r: Option<
    Severity,
>)
    ensures
        r == severity_in_yaml(
            match tag {
                Some(t) => Some((t.0@, t.1)),
                None => None,
            },
            text::opt_text(string),
        ),
{
    match tag {
        Some((t, alone)) => match text::strip_prefix(t.as_str(), "!") {
            Some(name) => if alone {
                severity_named(name.as_str())
            } else {
                None
            },
            None => None,
        },
        None => match string {
            Some(s) => severity_named(s.as_str()),
            None => None,
        },
    }
}

/// The severity that a YAML value states.
pub open spec fn yaml_severity(text: Seq<char>) -> Option<Severity> {
    severity_in_yaml(yaml_tag(text), yaml_text(text))
}

/// The severity that a YAML value states, if it states one.
pub fn parse_severity(value: &str) -> (r: Option<Severity>)
    ensures
        r == yaml_severity(value@),
        plain_word(value@) ==> r == named_severity(value@),
{
    severity_from_parts(yaml_tagged(value), yaml_string(value))
}

// ---------------------------------------------------------------------------
// `.scm` rules
// ---------------------------------------------------------------------------

/// What the header lines of a `.scm` rule have given so far.
#[verifier::ext_equal]
pub struct HeaderModel {
    pub id: Option<Seq<char>>,
    pub message: Option<Seq<char>>,
    pub severity: Option<Severity>,
    pub languages: Seq<Seq<char>>,
    pub capture: Option<Seq<char>>,
    pub name: Option<Seq<char>>,
    pub description: Option<Seq<char>>,
    pub cwe: Option<Seq<char>>,
    pub references: Seq<Seq<char>>,
}

/// The key and the value of a header line, which looks like `; key: value`.
pub open spec fn header_pair(line: Seq<char>) -> Option<(Seq<char>, Seq<char>)> {
    match text::after_prefix(text::trimmed_start(line), ";"@) {
        Some(rest) => match text::halves(rest, ':') {
            Some((key, value)) => Some((text::ascii_lower(text::trimmed(key)), text::trimmed(value))),
            None => None,
        },
        None => None,
    }
}

/// Can the line stand before the query: is it blank or a header line?
pub open spec fn leads(line: Seq<char>) -> bool {
    text::trimmed_start(line).len() == 0 || header_pair(line) is Some
}

/// How many lines stand before the query.
pub open spec fn header_len(lines: Seq<Seq<char>>) -> nat
    decreases lines.len(),
{
    if lines.len() == 0 || !leads(lines[0]) {
        0
    } else {
        1 + header_len(lines.drop_first())
    }
}

/// The non-empty items among the first `n` pieces, trimmed.
pub open spec fn listed(pieces: Seq<Seq<char>>, n: nat) -> Seq<Seq<char>>
    decreases n,
{
    if n == 0 {
        seq![]
    } else {
        let before = listed(pieces, (n - 1) as nat);
        let item = text::trimmed(pieces[n - 1]);
        if item.len() == 0 {
            before
        } else {
            before.push(item)
        }
    }
}

/// The items of a comma-separated list.
pub open spec fn items(value: Seq<char>) -> Seq<Seq<char>> {
    let pieces = text::pieces(value, ',');
    listed(pieces, pieces.len())
}

/// The error for a severity that is none.
pub open spec fn bad_severity(value: Seq<char>) -> Seq<char> {
    "invalid severity '"@ + value + "'"@
}

/// What the header has given after one more pair. An unknown key gives nothing.
pub open spec fn with_pair(h: HeaderModel, key: Seq<char>, value: Seq<char>) -> Result<
    HeaderModel,
    Seq<char>,
> {
    if key == "id"@ {
        Ok(HeaderModel { id: Some(value), ..h })
    } else if key == "message"@ {
        Ok(HeaderModel { message: Some(value), ..h })
    } else if key == "severity"@ {
        match yaml_severity(value) {
            Some(s) => Ok(HeaderModel { severity: Some(s), ..h }),
            None => Err(bad_severity(value)),
        }
    } else if key == "language"@ || key == "languages"@ {
        Ok(HeaderModel { languages: h.languages + items(value), ..h })
    } else if key == "capture"@ {
        Ok(HeaderModel { capture: Some(value), ..h })
    } else if key == "name"@ {
        Ok(HeaderModel { name: Some(value), ..h })
    } else if key == "description"@ {
        Ok(HeaderModel { description: Some(value), ..h })
    } else if key == "cwe"@ {
        Ok(HeaderModel { cwe: Some(value), ..h })
    } else if key == "reference"@ || key == "references"@ {
        Ok(HeaderModel { references: h.references + items(value), ..h })
    } else {
        Ok(h)
    }
}

/// What the header has given after the first `n` lines.
pub open spec fn read_header(lines: Seq<Seq<char>>, n: nat) -> Result<HeaderModel, Seq<char>>
    decreases n,
{
    if n == 0 {
        Ok(
            HeaderModel {
                id: None,
                message: None,
                severity: None,
                languages: seq![],
                capture: None,
                name: None,
                description: None,
                cwe: None,
                references: seq![],
            },
        )
    } else {
        match read_header(lines, (n - 1) as nat) {
            Err(e) => Err(e),
            Ok(h) => match header_pair(lines[n - 1]) {
                Some((key, value)) => with_pair(h, key, value),
                None => Ok(h),
            },
        }
    }
}

/// The rule of a `.scm` file with the given header and query. Its message is its id unless
/// the header gives one.
pub open spec fn headed_rule(h: HeaderModel, query: Seq<char>) -> Result<RuleModel, Seq<char>> {
    if query.len() == 0 {
        Err("`.scm` rule has no query body"@)
    } else {
        match h.id {
            None => Err("`.scm` rule is missing an `; id:` header"@),
            Some(id) => Ok(
                RuleModel {
                    id,
                    message: match h.message {
                        Some(m) => m,
                        None => id,
                    },
                    severity: match h.severity {
                        Some(s) => s,
                        None => Severity::Warning,
                    },
                    languages: h.languages,
                    matcher: MatcherModel::Query(query),
                    match_capture: match h.capture {
                        Some(c) => c,
                        None => "match"@,
                    },
                    name: h.name,
                    description: h.description,
                    references: h.references,
                    cwe: h.cwe,
                },
            ),
        }
    }
}

/// The rule of a `.scm` file: leading blank and `; key: value` lines are its header, and the
/// rest is its query.
pub open spec fn scm_rule(text: Seq<char>) -> Result<RuleModel, Seq<char>> {
    let lines = text::text_lines(text);
    let n = header_len(lines);
    match read_header(lines, n) {
        Err(e) => Err(e),
        Ok(h) => headed_rule(h, text::trimmed(text::joined(lines.skip(n as int), "\n"@))),
    }
}

struct Header {
    id: Option<String>,
    message: Option<String>,
    severity: Option<Severity>,
    languages: Vec<String>,
    capture: Option<String>,
    name: Option<String>,
    description: Option<String>,
    cwe: Option<String>,
    references: Vec<String>,
}

impl View for Header {
    type V = HeaderModel;

    closed spec fn view(&self) -> HeaderModel {
        HeaderModel {
            id: text::opt_text(self.id),
            message: text::opt_text(self.message),
            severity: self.severity,
            languages: text::texts(self.languages@),
            capture: text::opt_text(self.capture),
            name: text::opt_text(self.name),
            description: text::opt_text(self.description),
            cwe: text::opt_text(self.cwe),
            references: text::texts(self.references@),
        }
    }
}

fn read_pair(line: &str) -> (r: Option<(String, String)>)
    ensures
        match r {
            Some(p) => header_pair(line@) == Some((p.0@, p.1@)),
            None => header_pair(line@) is None,
        },
{
    let start = text::trim_start(line);
    match text::strip_prefix(start.as_str(), ";") {
        Some(rest) => match text::split_once(rest.as_str(), ':') {
            Some((key, value)) => {
                let key = text::trim(key.as_str());
                Some((text::to_ascii_lowercase(key.as_str()), text::trim(value.as_str())))
            },
            None => None,
        },
        None => None,
    }
}

fn push_items(list: &mut Vec<String>, value: &str)
    ensures
        text::texts(final(list)@) == text::texts(old(list)@) + items(value@),
{
    let ghost start = text::texts(list@);
    let ps = text::split_char(value, ',');
    let ghost model = text::pieces(value@, ',');
    assert(start =~= start + listed(model, 0));
    assert(model.len() == ps@.len());
    for i in 0..ps.len()
        invariant
            model == text::texts(ps@),
            text::texts(list@) == start + listed(model, i as nat),
    {
        let item = text::trim(ps[i].as_str());
        assert(model[i as int] == ps@[i as int]@);
        if !item.as_str().is_empty() {
            let ghost before = text::texts(list@);
            let ghost t = item@;
            list.push(item);
            assert(text::texts(list@) =~= before.push(t));
        }
        assert(text::texts(list@) =~= start + listed(model, (i + 1) as nat));
    }
}

fn add_pair(h: &mut Header, key: &str, value: String) -> (r: Result<(), String>)
    ensures
        match r {
            Ok(_) => with_pair(old(h)@, key@, value@) == Ok::<HeaderModel, Seq<char>>(final(h)@),
            Err(e) => with_pair(old(h)@, key@, value@) == Err::<HeaderModel, Seq<char>>(e@),
        },
{
    if text::same(key, "id") {
        h.id = Some(value);
    } else if text::same(key, "message") {
        h.message = Some(value);
    } else if text::same(key, "severity") {
        match parse_severity(value.as_str()) {
            Some(s) => {
                h.severity = Some(s);
            },
            None => {
                let mut e = "invalid severity '".to_owned();
                e.append(value.as_str());
                e.append("'");
                return Err(e);
            },
        }
    } else if text::same(key, "language") || text::same(key, "languages") {
        push_items(&mut h.languages, value.as_str());
    } else if text::same(key, "capture") {
        h.capture = Some(value);
    } else if text::same(key, "name") {
        h.name = Some(value);
    } else if text::same(key, "description") {
        h.description = Some(value);
    } else if text::same(key, "cwe") {
        h.cwe = Some(value);
    } else if text::same(key, "reference") || text::same(key, "references") {
        push_items(&mut h.references, value.as_str());
    }
    Ok(())
}

proof fn lemma_header_len(lines: Seq<Seq<char>>, n: nat)
    requires
        n <= lines.len(),
        forall|i: int| 0 <= i < n ==> leads(#[trigger] lines[i]),
        n < lines.len() ==> !leads(lines[n as int]),
    ensures
        header_len(lines) == n,
    decreases n,
{
    if n > 0 {
        let rest = lines.drop_first();
        assert forall|i: int| 0 <= i < n - 1 implies leads(#[trigger] rest[i]) by {
            assert(rest[i] == lines[i + 1]);
        }
        assert(n < lines.len() ==> rest[n - 1] == lines[n as int]);
        assert(leads(lines[0]));
        lemma_header_len(rest, (n - 1) as nat);
    }
}

proof fn lemma_header_len_bound(lines: Seq<Seq<char>>, n: nat)
    requires
        n <= lines.len(),
        forall|i: int| 0 <= i < n ==> leads(#[trigger] lines[i]),
    ensures
        n <= header_len(lines) <= lines.len(),
    decreases lines.len(),
{
    if lines.len() > 0 && leads(lines[0]) {
        let rest = lines.drop_first();
        let m = if n == 0 {
            0
        } else {
            (n - 1) as nat
        };
        assert forall|i: int| 0 <= i < m implies leads(#[trigger] rest[i]) by {
            assert(rest[i] == lines[i + 1]);
        }
        lemma_header_len_bound(rest, m);
    } else if n > 0 {
        assert(leads(lines[0]));
    }
}

proof fn lemma_header_stops(lines: Seq<Seq<char>>, i: nat, n: nat)
    requires
        i <= n,
        read_header(lines, i) is Err,
    ensures
        read_header(lines, n) == read_header(lines, i),
    decreases n - i,
{
    if i < n {
        lemma_header_stops(lines, i, (n - 1) as nat);
    }
}

fn finish_scm(h: Header, query: String) -> (r: Result<Rule, String>)
    ensures
        match r {
            Ok(rule) => headed_rule(h@, query@) == Ok::<RuleModel, Seq<char>>(rule@),
            Err(e) => headed_rule(h@, query@) == Err::<RuleModel, Seq<char>>(e@),
        },
{
    if query.as_str().is_empty() {
        return Err("`.scm` rule has no query body".to_owned());
    }
    let ghost start = h@;
    let id = match h.id {
        Some(id) => id,
        None => {
            return Err("`.scm` rule is missing an `; id:` header".to_owned());
        },
    };
    let message = match h.message {
        Some(m) => m,
        None => id.clone(),
    };
    let severity = match h.severity {
        Some(s) => s,
        None => Severity::Warning,
    };
    let match_capture = match h.capture {
        Some(c) => c,
        None => "match".to_owned(),
    };
    let ghost q = query@;
    let rule = Rule {
        id,
        message,
        severity,
        languages: h.languages,
        matcher: Matcher::Query(query),
        match_capture,
        name: h.name,
        description: h.description,
        references: h.references,
        cwe: h.cwe,
    };
    assert(Ok::<RuleModel, Seq<char>>(rule@) == headed_rule(start, q));
    Ok(rule)
}

/// Parse a raw `.scm` rule file. The leading `; key: value` comment lines form the metadata
/// header; the rest is the tree-sitter query.
pub fn parse_scm(text: &str) -> (r: Result<Rule, String>)
    ensures
        match r {
            Ok(rule) => scm_rule(text@) == Ok::<RuleModel, Seq<char>>(rule@),
            Err(e) => scm_rule(text@) == Err::<RuleModel, Seq<char>>(e@),
        },
{
    let lines = text::lines(text);
    let ghost model = text::text_lines(text@);
    assert(model.len() == lines@.len());
    let mut h = Header {
        id: None,
        message: None,
        severity: None,
        languages: Vec::new(),
        capture: None,
        name: None,
        description: None,
        cwe: None,
        references: Vec::new(),
    };
    assert(text::texts(h.languages@) =~= seq![]);
    assert(text::texts(h.references@) =~= seq![]);
    let mut i: usize = 0;
    let mut in_header = true;
    while in_header && i < lines.len()
        invariant
            model == text::texts(lines@),
            model == text::text_lines(text@),
            model.len() == lines@.len(),
            i <= model.len(),
            forall|k: int| 0 <= k < i ==> leads(#[trigger] model[k]),
            !in_header ==> i < model.len() && !leads(model[i as int]),
            read_header(model, i as nat) == Ok::<HeaderModel, Seq<char>>(h@),
        decreases
                model.len() - i,
                if in_header {
                    1int
                } else {
                    0int
                },
    {
        let line = lines[i].as_str();
        assert(model[i as int] == line@);
        match read_pair(line) {
            Some((key, value)) => {
                if let Err(e) = add_pair(&mut h, key.as_str(), value) {
                    proof {
                        assert(leads(model[i as int]));
                        lemma_header_len_bound(model, (i + 1) as nat);
                        lemma_header_stops(model, (i + 1) as nat, header_len(model));
                    }
                    return Err(e);
                }
                i = i + 1;
            },
            None => {
                if text::trim_start(line).as_str().is_empty() {
                    i = i + 1;
                } else {
                    in_header = false;
                }
            },
        }
    }
    proof {
        lemma_header_len(model, i as nat);
    }
    let mut body: Vec<String> = Vec::new();
    for j in i..lines.len()
        invariant
            model == text::texts(lines@),
            i <= model.len(),
            model.len() == lines@.len(),
            text::texts(body@) == model.subrange(i as int, j as int),
    {
        let ghost before = text::texts(body@);
        body.push(lines[j].clone());
        assert(text::texts(body@) =~= before.push(model[j as int]));
        assert(text::texts(body@) =~= model.subrange(i as int, j + 1));
    }
    assert(text::texts(body@) =~= model.skip(i as int));
    let joined = text::join(&body, "\n");
    finish_scm(h, text::trim(joined.as_str()))
}

// ---------------------------------------------------------------------------
// Rule sets
// ---------------------------------------------------------------------------

/// How a rule file is written.
#[derive(Debug, Clone, Copy, PartialEq, Eq, Structural)]
pub enum RuleFormat {
    Yaml,
    Scm,
}

/// How the rule file at a path is written, by its extension in any ASCII case; none if it is
/// no rule file.
pub open spec fn format_at(path: Seq<char>) -> Option<RuleFormat> {
    match path::path_extension(path) {
        None => None,
        Some(e) => {
            let ext = text::ascii_lower(e);
            if ext == "yml"@ || ext == "yaml"@ {
                Some(RuleFormat::Yaml)
            } else if ext == "scm"@ {
                Some(RuleFormat::Scm)
            } else {
                None
            }
        },
    }
}

/// How the rule file at a path is written, if it is a rule file.
pub fn rule_format(path: &str) -> (r: Option<RuleFormat>)
    ensures
        r == format_at(path@),
{
    match path::extension(path) {
        None => None,
        Some(e) => {
            let ext = text::to_ascii_lowercase(e.as_str());
            if text::same(ext.as_str(), "yml") || text::same(ext.as_str(), "yaml") {
                Some(RuleFormat::Yaml)
            } else if text::same(ext.as_str(), "scm") {
                Some(RuleFormat::Scm)
            } else {
                None
            }
        },
    }
}

/// The rule in front of the first one whose id is not below its own.
pub open spec fn placed(x: RuleModel, sorted: Seq<RuleModel>) -> Seq<RuleModel>
    decreases sorted.len(),
{
    if sorted.len() == 0 || order::compare_text(x.id, sorted[0].id) <= 0 {
        seq![x] + sorted
    } else {
        seq![sorted[0]] + placed(x, sorted.drop_first())
    }
}

/// The rules in ascending order of their ids. Rules with one id keep their order.
pub open spec fn by_id(s: Seq<RuleModel>) -> Seq<RuleModel>
    decreases s.len(),
{
    if s.len() == 0 {
        s
    } else {
        placed(s[0], by_id(s.drop_first()))
    }
}

/// Does the id of the `i`-th rule occur before it?
pub open spec fn repeats(s: Seq<RuleModel>, i: int) -> bool {
    exists|k: int| 0 <= k < i && (#[trigger] s[k]).id == s[i].id
}

/// The first of the first `n` rules whose id occurs before it, or -1.
pub open spec fn first_repeat(s: Seq<RuleModel>, n: nat) -> int
    decreases n,
{
    if n == 0 {
        -1
    } else if first_repeat(s, (n - 1) as nat) >= 0 {
        first_repeat(s, (n - 1) as nat)
    } else if repeats(s, n - 1) {
        n - 1
    } else {
        -1
    }
}

/// The error for two rules with one id.
pub open spec fn duplicate_id(id: Seq<char>) -> Seq<char> {
    "duplicate rule id '"@ + id + "'"@
}

/// The rule set that loaded rules make: in ascending order of their ids, or an error where two
/// rules have one id.
pub open spec fn rule_set(s: Seq<RuleModel>) -> Result<Seq<RuleModel>, Seq<char>> {
    let sorted = by_id(s);
    let k = first_repeat(sorted, sorted.len());
    if k >= 0 {
        Err(duplicate_id(sorted[k].id))
    } else {
        Ok(sorted)
    }
}

proof fn lemma_placed_at(x: RuleModel, sorted: Seq<RuleModel>, p: int)
    requires
        0 <= p <= sorted.len(),
        forall|i: int|
            0 <= i < p ==> order::compare_text(x.id, (#[trigger] sorted[i]).id) > 0,
        p < sorted.len() ==> order::compare_text(x.id, sorted[p].id) <= 0,
    ensures
        placed(x, sorted) == sorted.insert(p, x),
    decreases sorted.len(),
{
    if p == 0 {
        assert(seq![x] + sorted =~= sorted.insert(0, x));
    } else {
        let rest = sorted.drop_first();
        assert(order::compare_text(x.id, sorted[0].id) > 0);
        assert forall|i: int| 0 <= i < p - 1 implies order::compare_text(
            x.id,
            (#[trigger] rest[i]).id,
        ) > 0 by {
            assert(rest[i] == sorted[i + 1]);
        }
        assert(p < sorted.len() ==> rest[p - 1] == sorted[p]);
        lemma_placed_at(x, rest, p - 1);
        assert(seq![sorted[0]] + rest.insert(p - 1, x) =~= sorted.insert(p, x));
    }
}

fn sort_rules(rules: Vec<Rule>) -> (r: Vec<Rule>)
    ensures
        rule_models(r@) == by_id(rule_models(rules@)),
{
    let ghost all = rule_models(rules@);
    let mut rest = rules;
    let mut out: Vec<Rule> = Vec::new();
    assert(all.skip(all.len() as int) =~= seq![]);
    assert(rule_models(out@) =~= by_id(all.skip(all.len() as int)));
    while rest.len() > 0
        invariant
            rest@.len() <= all.len(),
            rule_models(rest@) == all.take(rest@.len() as int),
            rule_models(out@) == by_id(all.skip(rest@.len() as int)),
        decreases rest@.len(),
    {
        let ghost n = rest@.len() as int;
        let ghost sorted = rule_models(out@);
        assert(all.take(n)[n - 1] == rest@[n - 1]@);
        let x = match rest.pop() {
            Some(x) => x,
            None => {
                assert(false);
                return out;
            },
        };
        assert(x@ == all[n - 1]);
        assert(rule_models(rest@) =~= all.take(n - 1));
        let mut p: usize = 0;
        while p < out.len() && order::compare_strings(x.id.as_str(), out[p].id.as_str()) > 0
            invariant
                p <= out@.len(),
                sorted == rule_models(out@),
                forall|i: int|
                    0 <= i < p ==> order::compare_text(x@.id, (#[trigger] sorted[i]).id) > 0,
            decreases out@.len() - p,
        {
            assert(sorted[p as int] == out@[p as int]@);
            p = p + 1;
        }
        proof {
            if p < out@.len() {
                assert(sorted[p as int] == out@[p as int]@);
            }
            lemma_placed_at(x@, sorted, p as int);
        }
        let ghost model = x@;
        out.insert(p, x);
        assert(rule_models(out@) =~= sorted.insert(p as int, model));
        assert(all.skip(n - 1)[0] == model);
        assert(all.skip(n - 1).drop_first() =~= all.skip(n));
    }
    assert(all.skip(0) =~= all);
    out
}

fn find_repeat(rules: &Vec<Rule>) -> (r: Option<usize>)
    ensures
        match r {
            Some(i) => i < rules@.len() && i == first_repeat(
                rule_models(rules@),
                rules@.len(),
            ),
            None => first_repeat(rule_models(rules@), rules@.len()) == -1,
        },
{
    let ghost all = rule_models(rules@);
    for i in 0..rules.len()
        invariant
            all == rule_models(rules@),
            first_repeat(all, i as nat) == -1,
    {
        for k in 0..i
            invariant
                all == rule_models(rules@),
                i < rules@.len(),
                first_repeat(all, i as nat) == -1,
                forall|j: int| 0 <= j < k ==> (#[trigger] all[j]).id != all[i as int].id,
        {
            assert(all[k as int] == rules@[k as int]@);
            assert(all[i as int] == rules@[i as int]@);
            if text::same(rules[k].id.as_str(), rules[i].id.as_str()) {
                proof {
                    assert(repeats(all, i as int));
                    lemma_first_repeat_stays(all, (i + 1) as nat, rules@.len());
                }
                return Some(i);
            }
        }
        assert(!repeats(all, i as int));
    }
    None
}

proof fn lemma_first_repeat_stays(s: Seq<RuleModel>, i: nat, n: nat)
    requires
        i <= n,
        first_repeat(s, i) >= 0,
    ensures
        first_repeat(s, n) == first_repeat(s, i),
    decreases n - i,
{
    if i < n {
        lemma_first_repeat_stays(s, i, (n - 1) as nat);
    }
}

/// The rule set that the rules loaded from rule files make: in a stable order for
/// deterministic output, and without two rules of one id.
pub fn load_paths(loaded: Vec<Rule>) -> (r: Result<Vec<Rule>, String>)
    ensures
        match r {
            Ok(rules) => rule_set(rule_models(loaded@)) == Ok::<Seq<RuleModel>, Seq<char>>(
                rule_models(rules@),
            ),
            Err(e) => rule_set(rule_models(loaded@)) == Err::<Seq<RuleModel>, Seq<char>>(e@),
        },
{
    let rules = sort_rules(loaded);
    assert(rule_models(rules@).len() == rules@.len());
    match find_repeat(&rules) {
        Some(i) => {
            assert(rule_models(rules@)[i as int] == rules@[i as int]@);
            let mut e = "duplicate rule id '".to_owned();
            e.append(rules[i].id.as_str());
            e.append("'");
            Err(e)
        },
        None => Ok(rules),
    }
}

// ---------------------------------------------------------------------------
// What loading keeps
// ---------------------------------------------------------------------------

/// Do the ids ascend?
pub open spec fn ids_ascend(s: Seq<RuleModel>) -> bool {
    forall|i: int, j: int|
        #![trigger s[i], s[j]]
        0 <= i < j < s.len() ==> order::compare_text(s[i].id, s[j].id) < 0
}

proof fn lemma_placed(x: RuleModel, sorted: Seq<RuleModel>)
    requires
        forall|i: int, j: int|
            #![trigger sorted[i], sorted[j]]
            0 <= i < j < sorted.len() ==> order::compare_text(sorted[i].id, sorted[j].id) <= 0,
    ensures
        placed(x, sorted).to_multiset() == sorted.to_multiset().insert(x),
        forall|i: int, j: int|
            #![trigger placed(x, sorted)[i], placed(x, sorted)[j]]
            0 <= i < j < placed(x, sorted).len() ==> order::compare_text(
                placed(x, sorted)[i].id,
                placed(x, sorted)[j].id,
            ) <= 0,
        placed(x, sorted).len() == sorted.len() + 1,
    decreases sorted.len(),
{
    let r = placed(x, sorted);
    let p = lemma_placed_somewhere(x, sorted);
    vstd::seq_lib::to_multiset_insert(sorted, p, x);
    assert forall|i: int, j: int| #![trigger r[i], r[j]] 0 <= i < j < r.len() implies order::compare_text(
        r[i].id,
        r[j].id,
    ) <= 0 by {
        let a = if i < p {
            i
        } else {
            i - 1
        };
        let b = if j < p {
            j
        } else {
            j - 1
        };
        if i == p {
            // Everything behind the new rule is at or above the one it was placed before.
            assert(r[j] == sorted[b]);
            if b > p {
                assert(order::compare_text(sorted[p].id, sorted[b].id) <= 0);
                order::lemma_compare_text_transitive(x.id, sorted[p].id, sorted[b].id);
            }
        } else if j == p {
            assert(r[i] == sorted[a]);
            order::lemma_compare_text_antisymmetric(x.id, sorted[a].id);
        } else {
            assert(r[i] == sorted[a] && r[j] == sorted[b]);
        }
    }
}

proof fn lemma_placed_somewhere(x: RuleModel, sorted: Seq<RuleModel>) -> (p: int)
    ensures
        0 <= p <= sorted.len(),
        placed(x, sorted) == sorted.insert(p, x),
        forall|i: int|
            0 <= i < p ==> order::compare_text(x.id, (#[trigger] sorted[i]).id) > 0,
        p < sorted.len() ==> order::compare_text(x.id, sorted[p].id) <= 0,
    decreases sorted.len(),
{
    if sorted.len() == 0 || order::compare_text(x.id, sorted[0].id) <= 0 {
        lemma_placed_at(x, sorted, 0);
        0
    } else {
        let rest = sorted.drop_first();
        let q = lemma_placed_somewhere(x, rest);
        assert forall|i: int| 0 <= i < q + 1 implies order::compare_text(
            x.id,
            (#[trigger] sorted[i]).id,
        ) > 0 by {
            if i > 0 {
                assert(rest[i - 1] == sorted[i]);
            }
        }
        assert(q < rest.len() ==> rest[q] == sorted[q + 1]);
        lemma_placed_at(x, sorted, q + 1);
        q + 1
    }
}

proof fn lemma_by_id(s: Seq<RuleModel>)
    ensures
        by_id(s).to_multiset() == s.to_multiset(),
        by_id(s).len() == s.len(),
        forall|i: int, j: int|
            #![trigger by_id(s)[i], by_id(s)[j]]
            0 <= i < j < by_id(s).len() ==> order::compare_text(by_id(s)[i].id, by_id(s)[j].id)
                <= 0,
    decreases s.len(),
{
    if s.len() > 0 {
        let rest = s.drop_first();
        lemma_by_id(rest);
        lemma_placed(s[0], by_id(rest));
        assert(s =~= rest.insert(0, s[0]));
        vstd::seq_lib::to_multiset_insert(rest, 0, s[0]);
    }
}

proof fn lemma_first_repeat(s: Seq<RuleModel>, n: nat)
    requires
        n <= s.len(),
    ensures
        -1 <= first_repeat(s, n) < n,
        first_repeat(s, n) >= 0 ==> repeats(s, first_repeat(s, n)),
        first_repeat(s, n) < 0 <==> forall|i: int| 0 <= i < n ==> !#[trigger] repeats(s, i),
    decreases n,
{
    if n > 0 {
        lemma_first_repeat(s, (n - 1) as nat);
        if first_repeat(s, n) >= 0 {
            assert(repeats(s, first_repeat(s, n)));
        }
    }
}

/// Loading succeeds exactly when no two loaded rules have one id; the rule set then holds the
/// loaded rules and no others, in strictly ascending order of their ids.
pub proof fn lemma_rule_set(s: Seq<RuleModel>)
    ensures
        rule_set(s) is Ok <==> forall|i: int, j: int|
            #![trigger s[i], s[j]]
            0 <= i < j < s.len() ==> s[i].id != s[j].id,
        rule_set(s) matches Ok(r) ==> r.to_multiset() == s.to_multiset() && ids_ascend(r),
{
    let t = by_id(s);
    lemma_by_id(s);
    lemma_first_repeat(t, t.len());
    if rule_set(s) is Ok {
        assert forall|i: int, j: int| #![trigger t[i], t[j]] 0 <= i < j < t.len() implies order::compare_text(
            t[i].id,
            t[j].id,
        ) < 0 by {
            order::lemma_compare_text_antisymmetric(t[i].id, t[j].id);
            assert(!repeats(t, j));
        }
        assert forall|i: int, j: int|
            #![trigger s[i], s[j]]
            0 <= i < j < s.len() implies s[i].id != s[j].id by {
            if s[i].id == s[j].id {
                lemma_two_in_multiset(s, t, i, j);
                let (p, q) = choose|p: int, q: int|
                    #![trigger t[p], t[q]]
                    0 <= p < q < t.len() && t[p].id == t[q].id && t[p].id == s[i].id;
                assert(order::compare_text(t[p].id, t[q].id) < 0);
                order::lemma_compare_text_antisymmetric(t[p].id, t[q].id);
            }
        }
    } else {
        let k = first_repeat(t, t.len());
        let m = choose|m: int| 0 <= m < k && (#[trigger] t[m]).id == t[k].id;
        lemma_two_in_multiset(t, s, m, k);
    }
}

/// Two positions with one id in a list lead to two positions with that id in every list of
/// the same items.
proof fn lemma_two_in_multiset(a: Seq<RuleModel>, b: Seq<RuleModel>, i: int, j: int)
    requires
        0 <= i < j < a.len(),
        a[i].id == a[j].id,
        a.to_multiset() == b.to_multiset(),
    ensures
        exists|p: int, q: int|
            #![trigger b[p], b[q]]
            0 <= p < q < b.len() && b[p].id == b[q].id && b[p].id == a[i].id,
{
    broadcast use vstd::seq_lib::group_to_multiset_ensures;

    assert(a.contains(a[i]) && a.contains(a[j]));
    assert(b.to_multiset().count(a[i]) > 0);
    let p = choose|p: int| 0 <= p < b.len() && b[p] == a[i];
    let rest_a = a.remove(i);
    let rest_b = b.remove(p);
    vstd::seq_lib::to_multiset_remove(a, i);
    vstd::seq_lib::to_multiset_remove(b, p);
    assert(rest_a.to_multiset() =~= rest_b.to_multiset());
    assert(rest_a[j - 1] == a[j]);
    assert(rest_a.contains(a[j]));
    assert(rest_b.to_multiset().count(a[j]) > 0);
    let q0 = choose|q: int| 0 <= q < rest_b.len() && rest_b[q] == a[j];
    let q = if q0 < p {
        q0
    } else {
        q0 + 1
    };
    assert(b[q] == a[j]);
    if q < p {
        assert(b[q].id == b[p].id);
    } else {
        assert(b[p].id == b[q].id);
    }
}

// ---------------------------------------------------------------------------
// Which files a rule runs on
// ---------------------------------------------------------------------------

/// Does a rule's list of languages name a language: is it empty, or does it hold a `*`, the
/// language itself, or what the language has before one of its `_`?
pub open spec fn names_language(languages: Seq<Seq<char>>, language: Seq<char>) -> bool {
    ||| languages.len() == 0
    ||| languages.contains(seq!['*'])
    ||| languages.contains(language)
    ||| exists|n: int|
        0 <= n < language.len() && #[trigger] language[n] == '_' && languages.contains(
            language.take(n),
        )
}

/// A rule applies to exactly the languages that its list names, by themselves or by their group.
pub proof fn lemma_applies_where_named(languages: Seq<Seq<char>>, language: Seq<char>)
    ensures
        applies(languages, language) <==> names_language(languages, language),
{
    reveal_strlit("*");
    reveal_strlit("_");
    assert("*"@ =~= seq!['*']);
    if applies(languages, language) && languages.len() > 0 {
        let i = choose|i: int|
            0 <= i < languages.len() && covers(#[trigger] languages[i], language);
        let e = languages[i];
        assert(languages.contains(e));
        if (e + "_"@).is_prefix_of(language) {
            let n = e.len() as int;
            let p = e + "_"@;
            assert(p =~= language.take(p.len() as int));
            assert(language[n] == p[n]);
            assert(language.take(n) =~= e);
        }
    }
    if names_language(languages, language) && languages.len() > 0 {
        if languages.contains(seq!['*']) {
            let i = choose|i: int| 0 <= i < languages.len() && languages[i] == seq!['*'];
            assert(covers(languages[i], language));
        } else if languages.contains(language) {
            let i = choose|i: int| 0 <= i < languages.len() && languages[i] == language;
            assert(covers(languages[i], language));
        } else {
            let n = choose|n: int|
                0 <= n < language.len() && #[trigger] language[n] == '_' && languages.contains(
                    language.take(n),
                );
            let i = choose|i: int| 0 <= i < languages.len() && languages[i] == language.take(n);
            assert(languages[i] + "_"@ =~= language.take(n + 1));
            assert(covers(languages[i], language));
        }
    }
}

// ---------------------------------------------------------------------------
// What a `.scm` file says
// ---------------------------------------------------------------------------

/// Is this a header line: does the first of its characters that is no whitespace, at `a`, start a
/// comment, and is its first colon behind that one at `b`?
pub open spec fn header_at(line: Seq<char>, a: int, b: int) -> bool {
    &&& 0 <= a < b < line.len()
    &&& forall|k: int| 0 <= k < a ==> text::is_space(#[trigger] line[k])
    &&& line[a] == ';'
    &&& line[b] == ':'
    &&& forall|k: int| a < k < b ==> #[trigger] line[k] != ':'
}

/// A header line is read as what it has before its colon, in lower case, and what it has behind it,
/// both without the whitespace around them; every other line is read as none. Header lines and
/// blank lines, and no others, can stand before the query.
pub proof fn lemma_header_line(line: Seq<char>)
    ensures
        forall|a: int, b: int| #[trigger]
            header_at(line, a, b) ==> header_pair(line) == Some(
                (
                    text::ascii_lower(text::trimmed(line.subrange(a + 1, b))),
                    text::trimmed(line.skip(b + 1)),
                ),
            ),
        header_pair(line) is Some <==> exists|a: int, b: int| header_at(line, a, b),
        leads(line) <==> text::blank(line) || exists|a: int, b: int| header_at(line, a, b),
{
    reveal_strlit(";");
    let start = text::trimmed_start(line);
    let m = line.len() - start.len();
    lemma_trimmed_start_tail(line);
    assert forall|a: int, b: int| #[trigger] header_at(line, a, b) implies header_pair(line)
        == Some(
        (
            text::ascii_lower(text::trimmed(line.subrange(a + 1, b))),
            text::trimmed(line.skip(b + 1)),
        ),
    ) by {
        assert(a == m) by {
            if a < m {
                assert(text::is_space(line[a]));
            }
            if m < a {
                assert(text::is_space(line[m]));
            }
        }
        assert(start.take(1) =~= ";"@);
        assert(start.skip(1) =~= line.skip(a + 1));
        let rest = line.skip(a + 1);
        let key = line.subrange(a + 1, b);
        assert(rest =~= key + seq![':'] + line.skip(b + 1));
        if key.contains(':') {
            let k = choose|k: int| 0 <= k < key.len() && key[k] == ':';
            assert(line[a + 1 + k] == ':');
        }
        text::lemma_pieces_one_by_one(key, ':', line.skip(b + 1));
    }
    if header_pair(line) is Some {
        let rest = text::after_prefix(start, ";"@)->Some_0;
        assert(start.take(1)[0] == ";"@[0]);
        text::lemma_position_of(rest, ':');
        let b = m + 1 + text::position_of(rest, ':');
        assert(rest[text::position_of(rest, ':') as int] == line[b]);
        assert forall|k: int| m < k < b implies #[trigger] line[k] != ':' by {
            assert(rest[k - m - 1] == line[k]);
        }
        assert(header_at(line, m, b));
    }
    if text::blank(line) && start.len() > 0 {
        assert(text::is_space(line[m]));
    }
}

proof fn lemma_trimmed_start_tail(s: Seq<char>)
    ensures
        text::trimmed_start(s).len() <= s.len(),
        text::trimmed_start(s) == s.skip(s.len() - text::trimmed_start(s).len()),
        forall|k: int|
            0 <= k < s.len() - text::trimmed_start(s).len() ==> text::is_space(#[trigger] s[k]),
        text::trimmed_start(s).len() > 0 ==> !text::is_space(
            s[s.len() - text::trimmed_start(s).len()],
        ),
    decreases s.len(),
{
    if s.len() > 0 && text::is_space(s[0]) {
        let t = s.drop_first();
        lemma_trimmed_start_tail(t);
        let n = text::trimmed_start(s).len();
        assert(t.skip(t.len() - n) =~= s.skip(s.len() - n));
        assert forall|k: int| 0 <= k < s.len() - n implies text::is_space(#[trigger] s[k]) by {
            if k > 0 {
                assert(t[k - 1] == s[k]);
            }
        }
        if n > 0 {
            assert(t[t.len() - n] == s[s.len() - n]);
        }
    } else {
        assert(s.skip(0) =~= s);
    }
}

/// Is this a header line with the given key?
pub open spec fn has_key(line: Seq<char>, key: Seq<char>) -> bool {
    header_pair(line) matches Some(p) && p.0 == key
}

/// What a header gives for a key that stands once is what the last line with that key says. A
/// header without such a line gives nothing for it.
pub proof fn lemma_header_last_said(lines: Seq<Seq<char>>, n: nat, i: int, key: Seq<char>)
    requires
        read_header(lines, n) is Ok,
        -1 <= i < n,
        i >= 0 ==> has_key(lines[i], key),
        forall|j: int| i < j < n ==> !has_key(#[trigger] lines[j], key),
    ensures
        ({
            let h = read_header(lines, n)->Ok_0;
            let said = if i >= 0 {
                Some(header_pair(lines[i])->Some_0.1)
            } else {
                None
            };
            &&& key == "id"@ ==> h.id == said
            &&& key == "message"@ ==> h.message == said
            &&& key == "capture"@ ==> h.capture == said
            &&& key == "name"@ ==> h.name == said
            &&& key == "description"@ ==> h.description == said
            &&& key == "cwe"@ ==> h.cwe == said
            &&& key == "severity"@ && said is Some ==> h.severity is Some && h.severity
                == yaml_severity(said->Some_0)
            &&& key == "severity"@ && said is None ==> h.severity is None
        }),
    decreases n,
{
    lemma_keys_apart();
    if n > 0 {
        let m = (n - 1) as nat;
        if i < m {
            lemma_header_last_said(lines, m, i, key);
            assert(!has_key(lines[n - 1], key));
        } else {
            assert(has_key(lines[n - 1], key));
        }
    }
}

proof fn lemma_keys_apart()
    ensures
        "id"@.len() == 2,
        "message"@.len() == 7,
        "severity"@.len() == 8 && "severity"@[0] == 's',
        "language"@.len() == 8 && "language"@[0] == 'l',
        "languages"@.len() == 9 && "languages"@[0] == 'l',
        "capture"@.len() == 7 && "capture"@[0] == 'c',
        "message"@[0] == 'm',
        "name"@.len() == 4,
        "description"@.len() == 11,
        "cwe"@.len() == 3,
        "reference"@.len() == 9 && "reference"@[0] == 'r',
        "references"@.len() == 10,
{
    reveal_strlit("id");
    reveal_strlit("message");
    reveal_strlit("severity");
    reveal_strlit("language");
    reveal_strlit("languages");
    reveal_strlit("capture");
    reveal_strlit("name");
    reveal_strlit("description");
    reveal_strlit("cwe");
    reveal_strlit("reference");
    reveal_strlit("references");
}

/// A header's languages and references are those of its lines one behind the other: each line with
/// the key in singular or plural adds its items, and no other line adds any.
pub proof fn lemma_header_lists(lines: Seq<Seq<char>>, n: nat)
    requires
        read_header(lines, n + 1) is Ok,
    ensures
        ({
            let line = lines[n as int];
            let (before, h) = (read_header(lines, n)->Ok_0, read_header(lines, n + 1)->Ok_0);
            &&& read_header(lines, n) is Ok
            &&& has_key(line, "language"@) || has_key(line, "languages"@) ==> h.languages
                == before.languages + items(header_pair(line)->Some_0.1)
            &&& !has_key(line, "language"@) && !has_key(line, "languages"@) ==> h.languages
                == before.languages
            &&& has_key(line, "reference"@) || has_key(line, "references"@) ==> h.references
                == before.references + items(header_pair(line)->Some_0.1)
            &&& !has_key(line, "reference"@) && !has_key(line, "references"@) ==> h.references
                == before.references
            &&& read_header(lines, 0)->Ok_0.languages.len() == 0
            &&& read_header(lines, 0)->Ok_0.references.len() == 0
        }),
{
    lemma_keys_apart();
}

/// The items of a list are its pieces between commas that are not blank, trimmed, in their order
/// and each once. The result names the piece that each item is of.
pub proof fn lemma_every_item_listed(value: Seq<char>) -> (w: Seq<int>)
    ensures
        ({
            let ps = text::pieces(value, ',');
            &&& w.len() == items(value).len()
            &&& forall|i: int, j: int| #![trigger w[i], w[j]] 0 <= i < j < w.len() ==> w[i] < w[j]
            &&& forall|j: int|
                0 <= j < ps.len() && text::trimmed(#[trigger] ps[j]).len() > 0 <==> w.contains(j)
            &&& forall|i: int|
                0 <= i < w.len() ==> items(value)[i] == text::trimmed(ps[#[trigger] w[i]])
        }),
{
    lemma_listed_upto(text::pieces(value, ','), text::pieces(value, ',').len())
}

proof fn lemma_listed_upto(ps: Seq<Seq<char>>, n: nat) -> (w: Seq<int>)
    requires
        n <= ps.len(),
    ensures
        w.len() == listed(ps, n).len(),
        forall|i: int, j: int| #![trigger w[i], w[j]] 0 <= i < j < w.len() ==> w[i] < w[j],
        forall|j: int|
            0 <= j < n && text::trimmed(#[trigger] ps[j]).len() > 0 <==> w.contains(j),
        forall|i: int|
            0 <= i < w.len() ==> listed(ps, n)[i] == text::trimmed(ps[#[trigger] w[i]]),
    decreases n,
{
    if n == 0 {
        seq![]
    } else {
        let m = (n - 1) as nat;
        let v = lemma_listed_upto(ps, m);
        assert forall|i: int| 0 <= i < v.len() implies 0 <= #[trigger] v[i] < m by {
            assert(v.contains(v[i]));
        }
        if text::trimmed(ps[n - 1]).len() > 0 {
            let w = v.push(n - 1);
            assert forall|j: int|
                0 <= j < n && text::trimmed(#[trigger] ps[j]).len() > 0 <==> w.contains(j) by {
                if w.contains(j) && j != n - 1 {
                    let i = choose|i: int| 0 <= i < w.len() && w[i] == j;
                    assert(v[i] == j);
                    assert(v.contains(j));
                }
                if v.contains(j) {
                    let i = choose|i: int| 0 <= i < v.len() && v[i] == j;
                    assert(w[i] == j);
                }
                assert(w[v.len() as int] == n - 1);
            }
            w
        } else {
            v
        }
    }
}

proof fn lemma_read_header_prefix(a: Seq<Seq<char>>, b: Seq<Seq<char>>, n: nat)
    requires
        n <= a.len(),
    ensures
        read_header(a + b, n) == read_header(a, n),
    decreases n,
{
    if n > 0 {
        lemma_read_header_prefix(a, b, (n - 1) as nat);
        assert((a + b)[n - 1] == a[n - 1]);
    }
}

/// Does a text stand as the header of a rule file: are all of its lines ended, and is each of them
/// blank or a header line?
pub open spec fn is_header(t: Seq<char>) -> bool {
    &&& t.len() == 0 || t.last() == '\n'
    &&& forall|i: int|
        0 <= i < text::text_lines(t).len() ==> header_line(#[trigger] text::text_lines(t)[i])
}

/// Is a line blank or a header line?
pub open spec fn header_line(line: Seq<char>) -> bool {
    text::blank(line) || exists|a: int, b: int| header_at(line, a, b)
}

/// A rule file is a header and a body that starts with no header line. Its query is the body in
/// full, every line of it, without the whitespace around it; its id is the header's; its message
/// the header's or else its id; its severity the header's or else a warning; its capture the
/// header's or else `match`; and all else is the header's. It is a rule exactly where the header
/// can be read and has an id, and the body is not blank. Line ends of one character are assumed.
#[verifier::spinoff_prover]
#[verifier::rlimit(60)]
pub proof fn lemma_scm_header_and_body(header: Seq<char>, body: Seq<char>)
    requires
        is_header(header),
        body.len() > 0,
        !body.contains('\r'),
        !header_line(text::text_lines(body)[0]),
    ensures
        ({
            let lines = text::text_lines(header);
            let read = read_header(lines, lines.len());
            let r = scm_rule(header + body);
            &&& r is Ok <==> read is Ok && read->Ok_0.id is Some && text::trimmed(body).len() > 0
            &&& read is Err ==> r == Err::<RuleModel, Seq<char>>(read->Err_0)
            &&& r is Ok ==> {
                let (h, x) = (read->Ok_0, r->Ok_0);
                &&& x.matcher == MatcherModel::Query(text::trimmed(body))
                &&& Some(x.id) == h.id
                &&& x.message == if h.message is Some {
                    h.message->Some_0
                } else {
                    x.id
                }
                &&& x.severity == if h.severity is Some {
                    h.severity->Some_0
                } else {
                    Severity::Warning
                }
                &&& x.match_capture == if h.capture is Some {
                    h.capture->Some_0
                } else {
                    "match"@
                }
                &&& x.languages == h.languages
                &&& x.name == h.name
                &&& x.description == h.description
                &&& x.references == h.references
                &&& x.cwe == h.cwe
            }
        }),
{
    let (a, b) = (text::text_lines(header), text::text_lines(body));
    let all = text::text_lines(header + body);
    text::lemma_lines_of_concat(header, body);
    text::lemma_lines_rejoined(body);
    assert forall|i: int| 0 <= i < a.len() implies leads(#[trigger] all[i]) by {
        assert(all[i] == a[i]);
        lemma_header_line(a[i]);
        assert(header_line(a[i]));
    }
    assert(all[a.len() as int] == b[0]);
    lemma_header_line(b[0]);
    lemma_header_len(all, a.len());
    lemma_read_header_prefix(a, b, a.len());
    assert(all.skip(a.len() as int) =~= b);
    reveal_strlit("\n");
    assert("\n"@ =~= seq!['\n']);
    let joined = text::joined(b, "\n"@);
    if body.last() == '\n' {
        let end = seq!['\n'];
        assert(text::blank(end));
        assert(text::blank(Seq::<char>::empty()));
        assert(body =~= Seq::<char>::empty() + joined + end);
        text::lemma_trimmed_of_padded(Seq::empty(), joined, end);
    }
    assert(text::trimmed(joined) == text::trimmed(body));
}

/// A rule file with a longer body has the longer query: where a body that starts and ends with
/// no whitespace is followed by more text that does so too, the query is both.
#[verifier::spinoff_prover]
#[verifier::rlimit(60)]
pub proof fn lemma_scm_body_grows(header: Seq<char>, body: Seq<char>, more: Seq<char>)
    requires
        is_header(header),
        body.len() > 0,
        more.len() > 0,
        !body.contains('\r'),
        !more.contains('\r'),
        !text::is_space(body[0]),
        !text::is_space(body.last()),
        !text::is_space(more.last()),
        !header_line(text::text_lines(body)[0]),
        scm_rule(header + body) is Ok,
    ensures
        scm_rule(header + body)->Ok_0.matcher == MatcherModel::Query(body),
        scm_rule(header + (body + seq!['\n'] + more)) is Ok,
        scm_rule(header + (body + seq!['\n'] + more))->Ok_0 == (RuleModel {
            matcher: MatcherModel::Query(body + seq!['\n'] + more),
            ..scm_rule(header + body)->Ok_0
        }),
{
    let long = body + seq!['\n'] + more;
    text::lemma_trimmed_at(body, 0, body.len() as int);
    assert(body.subrange(0, body.len() as int) =~= body);
    text::lemma_trimmed_at(long, 0, long.len() as int);
    assert(long.subrange(0, long.len() as int) =~= long);
    if long.contains('\r') {
        let k = choose|k: int| 0 <= k < long.len() && long[k] == '\r';
        if k < body.len() {
            assert(body[k] == '\r');
        } else {
            assert(more[k - body.len() - 1] == '\r');
        }
    }
    let n = text::position_of(body, '\n');
    text::lemma_position_of(body, '\n');
    assert(text::text_lines(long)[0] == text::text_lines(body)[0]) by {
        if n < body.len() {
            let (first, rest) = (body.take(n as int), body.skip(n as int + 1));
            if first.contains('\n') {
                let k = choose|k: int| 0 <= k < first.len() && first[k] == '\n';
                assert(body[k] == '\n');
            }
            assert(body =~= first + seq!['\n'] + rest);
            assert(long =~= first + seq!['\n'] + (rest + seq!['\n'] + more));
            text::lemma_lines_one_by_one(first, rest);
            text::lemma_lines_one_by_one(first, rest + seq!['\n'] + more);
        } else {
            text::lemma_lines_one_by_one(body, more);
            if body.last() == '\r' {
                assert(body[body.len() - 1] == '\r');
            }
        }
    }
    lemma_scm_header_and_body(header, body);
    lemma_scm_header_and_body(header, long);
}

/// Is exactly one way to match stated, and stated in full: a query alone or a pattern alone, or for a
/// rule across files a source and a sink?
pub open spec fn one_matcher(s: RuleSpec) -> bool {
    ||| s.scope is None && s.source is None && s.sink is None && (s.query is Some) != (s.pattern
        is Some)
    ||| s.scope is Some && s.scope->Some_0@ == "cross-file"@ && s.source is Some && s.sink is Some
        && s.query is None && s.pattern is None
}

/// A stated rule is taken exactly where it states one way to match. It is then the rule as stated:
/// a warning where no severity is, for the languages of its list and then the one it names, and
/// marking the capture that it names or else `match`. What is said of one that is not taken names
/// the rule.
pub proof fn lemma_rule_as_stated(s: RuleSpec)
    ensures
        stated_rule(s) is Ok <==> one_matcher(s),
        stated_rule(s) matches Err(e) ==> ("rule '"@ + s.id@ + "' "@).is_prefix_of(e),
        stated_rule(s) matches Ok(r) ==> {
            let n = s.languages@.len();
            &&& r.id == s.id@
            &&& r.message == s.message@
            &&& s.severity is None ==> r.severity == Severity::Warning
            &&& s.severity is Some ==> r.severity == s.severity->Some_0
            &&& s.language is None ==> r.languages.len() == n
            &&& s.language is Some ==> r.languages.len() == n + 1 && r.languages[n as int]
                == s.language->Some_0@
            &&& forall|i: int| 0 <= i < n ==> r.languages[i] == (#[trigger] s.languages@[i])@
            &&& s.capture is None ==> r.match_capture == "match"@
            &&& s.capture is Some ==> r.match_capture == s.capture->Some_0@
            &&& s.query is Some ==> r.matcher == MatcherModel::Query(s.query->Some_0@)
            &&& s.pattern is Some ==> r.matcher == MatcherModel::Pattern(s.pattern->Some_0)
            &&& s.query is None && s.pattern is None ==> r.matcher == (MatcherModel::CrossFile {
                source: s.source->Some_0@,
                sink: s.sink->Some_0@,
            })
            &&& r.name is Some <==> s.name is Some
            &&& s.name is Some ==> r.name->Some_0 == s.name->Some_0@
            &&& r.description is Some <==> s.description is Some
            &&& s.description is Some ==> r.description->Some_0 == s.description->Some_0@
            &&& r.cwe is Some <==> s.cwe is Some
            &&& s.cwe is Some ==> r.cwe->Some_0 == s.cwe->Some_0@
            &&& r.references.len() == s.references@.len()
            &&& forall|i: int|
                0 <= i < s.references@.len() ==> r.references[i] == (#[trigger] s.references@[i])@
        },
{
    if stated_rule(s) is Err {
        let e = stated_rule(s)->Err_0;
        let what = e.skip(("rule '"@ + s.id@ + "' "@).len() as int);
        assert(e =~= "rule '"@ + s.id@ + "' "@ + what);
    }
}

/// A document is taken exactly where each of its rules is, and holds them in order; where one is not,
/// the first such rule says why. A document of one rule holds that one.
pub proof fn lemma_document_rule_by_rule(specs: Seq<RuleSpec>, n: nat)
    requires
        n <= specs.len(),
    ensures
        stated_rules(specs, n) is Ok <==> forall|i: int|
            0 <= i < n ==> stated_rule(#[trigger] specs[i]) is Ok,
        stated_rules(specs, n) matches Ok(rs) ==> rs.len() == n && forall|i: int|
            0 <= i < n ==> stated_rule(#[trigger] specs[i]) == Ok::<RuleModel, Seq<char>>(rs[i]),
        stated_rules(specs, n) matches Err(e) ==> exists|k: int|
            0 <= k < n && stated_rule(#[trigger] specs[k]) == Err::<RuleModel, Seq<char>>(e)
                && forall|i: int| 0 <= i < k ==> stated_rule(#[trigger] specs[i]) is Ok,
    decreases n,
{
    if n > 0 {
        let m = (n - 1) as nat;
        lemma_document_rule_by_rule(specs, m);
        if stated_rules(specs, m) is Ok {
            assert(stated_rules(specs, n) is Ok <==> stated_rule(specs[n - 1]) is Ok);
        } else {
            let e = stated_rules(specs, m)->Err_0;
            let k = choose|k: int|
                0 <= k < m && stated_rule(#[trigger] specs[k]) == Err::<RuleModel, Seq<char>>(e)
                    && forall|i: int| 0 <= i < k ==> stated_rule(#[trigger] specs[i]) is Ok;
            assert(stated_rule(specs[k]) is Err);
        }
    }
}

/// The rules of a document are those of its list, under a key or by itself, or the one rule that it
/// is.
pub proof fn lemma_rules_of_document(rules: Vec<RuleSpec>, rule: RuleSpec)
    ensures
        stated_in(RuleFile::Many { rules }) == rules@,
        stated_in(RuleFile::List(rules)) == rules@,
        stated_in(RuleFile::One(rule)).len() == 1,
        stated_in(RuleFile::One(rule))[0] == rule,
{
}

/// A severity is named by its own word, and by no other.
pub proof fn lemma_severity_words(s: Seq<char>, v: Severity)
    ensures
        named_severity(s) == Some(v) <==> s == finding::severity_text(v),
        named_severity(s) == Some(Severity::Error) <==> s == "error"@,
        named_severity(s) == Some(Severity::Warning) <==> s == "warning"@,
        named_severity(s) == Some(Severity::Info) <==> s == "info"@,
        named_severity(s) == Some(Severity::Note) <==> s == "note"@,
{
    reveal_strlit("error");
    reveal_strlit("warning");
    reveal_strlit("info");
    reveal_strlit("note");
    assert("error"@.len() == 5 && "warning"@.len() == 7);
    assert("info"@[0] == 'i' && "note"@[0] == 'n');
}

/// A value states the severity that its string names, or that its tag names with nothing behind it:
/// with a tag, the string counts for nothing.
pub proof fn lemma_severity_stated(name: Seq<char>, alone: bool, string: Option<Seq<char>>)
    ensures
        severity_in_yaml(None, Some(name)) == named_severity(name),
        severity_in_yaml(None, None) is None,
        severity_in_yaml(Some(("!"@ + name, true)), string) == named_severity(name),
        severity_in_yaml(Some((name, false)), string) is None,
{
    text::lemma_after_prefix("!"@, name, seq![], 0);
}

/// A header cannot be read exactly where one of its lines gives a severity that is none, and the
/// first such line is complained of.
pub proof fn lemma_header_refused(lines: Seq<Seq<char>>, n: nat)
    ensures
        read_header(lines, n) is Ok <==> forall|i: int|
            0 <= i < n ==> !severity_unknown(#[trigger] lines[i]),
        read_header(lines, n) matches Err(e) ==> exists|k: int|
            0 <= k < n && severity_unknown(#[trigger] lines[k]) && e == "invalid severity '"@
                + header_pair(lines[k])->Some_0.1 + "'"@ && forall|i: int|
                0 <= i < k ==> !severity_unknown(#[trigger] lines[i]),
    decreases n,
{
    lemma_keys_apart();
    if n > 0 {
        let m = (n - 1) as nat;
        lemma_header_refused(lines, m);
        if read_header(lines, m) is Ok {
            assert(read_header(lines, n) is Ok <==> !severity_unknown(lines[m as int]));
        } else {
            let e = read_header(lines, m)->Err_0;
            let k = choose|k: int|
                0 <= k < m && severity_unknown(#[trigger] lines[k]) && e == "invalid severity '"@
                    + header_pair(lines[k])->Some_0.1 + "'"@ && forall|i: int|
                    0 <= i < k ==> !severity_unknown(#[trigger] lines[i]);
            assert(severity_unknown(lines[k]));
        }
    }
}

/// Does a header line give a severity that is none?
pub open spec fn severity_unknown(line: Seq<char>) -> bool {
    has_key(line, "severity"@) && yaml_severity(header_pair(line)->Some_0.1) is None
}

/// Which file holds rules, by what its extension is in lower case.
pub proof fn lemma_formats(path: Seq<char>, ext: Seq<char>)
    requires
        path::path_extension(path) == Some(ext),
    ensures
        format_at(path) == Some(RuleFormat::Yaml) <==> text::ascii_lower(ext) == "yml"@
            || text::ascii_lower(ext) == "yaml"@,
        format_at(path) == Some(RuleFormat::Scm) <==> text::ascii_lower(ext) == "scm"@,
{
    reveal_strlit("yml");
    reveal_strlit("yaml");
    reveal_strlit("scm");
    assert("yml"@[0] == 'y' && "yaml"@[0] == 'y' && "scm"@[0] == 's');
}

/// Where two rules have one id, what is said names an id that two of them have.
pub proof fn lemma_duplicate_named(s: Seq<RuleModel>)
    ensures
        rule_set(s) matches Err(e) ==> exists|i: int, j: int|
            #![trigger s[i], s[j]]
            0 <= i < j < s.len() && s[i].id == s[j].id && e == "duplicate rule id '"@ + s[i].id
                + "'"@,
{
    let t = by_id(s);
    lemma_by_id(s);
    lemma_first_repeat(t, t.len());
    if rule_set(s) is Err {
        let k = first_repeat(t, t.len());
        let m = choose|m: int| 0 <= m < k && (#[trigger] t[m]).id == t[k].id;
        lemma_two_in_multiset(t, s, m, k);
    }
}

/// What a rule asks of the parser: its query as it is, what its pattern compiles to under its
/// capture, or across files the source and then the sink.
pub proof fn lemma_query_asked(r: RuleModel)
    ensures
        r.matcher matches MatcherModel::Query(q) ==> query_text(r) == Ok::<Seq<char>, Seq<char>>(q),
        r.matcher matches MatcherModel::Pattern(p) ==> query_text(r) == compile::query_of(
            p,
            r.match_capture,
        ),
        r.matcher matches MatcherModel::CrossFile { source, sink } ==> {
            let q = query_text(r)->Ok_0;
            &&& query_text(r) is Ok
            &&& source.is_prefix_of(q)
            &&& sink.is_suffix_of(q)
            &&& q.len() == source.len() + "\n; sink\n"@.len() + sink.len()
        },
{
    if let MatcherModel::CrossFile { source, sink } = r.matcher {
        let q = query_text(r)->Ok_0;
        assert(q.take(source.len() as int) =~= source);
        assert(q.subrange(q.len() - sink.len(), q.len() as int) =~= sink);
    }
}

} // verus!
