//! SARIF 2.1.0 output for CI and code-scanning integration.

use vstd::prelude::*;

use crate::finding;
use crate::finding::Finding;
use crate::report::json;
use crate::report::json::JsonModel;
use crate::rule;
use crate::rule::Rule;
use crate::snapshot::ENGINE_VERSION;
use crate::text;

verus! {

// ---------------------------------------------------------------------------
// The log
// ---------------------------------------------------------------------------

/// An object with one member.
pub open spec fn object_of(name: Seq<char>, value: JsonModel) -> JsonModel {
    JsonModel::Object(Map::empty().insert(name, value))
}

/// An object that holds a text.
pub open spec fn text_object(s: Seq<char>) -> JsonModel {
    object_of("text"@, JsonModel::Text(s))
}

/// The last rule with an id.
pub open spec fn rule_by_id(rules: Seq<rule::RuleModel>, id: Seq<char>) -> Option<rule::RuleModel>
    decreases rules.len(),
{
    if rules.len() == 0 {
        None
    } else if rules.last().id == id {
        Some(rules.last())
    } else {
        rule_by_id(rules.drop_last(), id)
    }
}

/// The ids of the rules that fired, each once, by first appearance.
pub open spec fn fired(s: Seq<finding::FindingModel>) -> Seq<Seq<char>>
    decreases s.len(),
{
    if s.len() == 0 {
        seq![]
    } else {
        let before = fired(s.drop_last());
        if before.contains(s.last().rule_id) {
            before
        } else {
            before.push(s.last().rule_id)
        }
    }
}

/// Texts as JSON.
pub open spec fn json_texts(s: Seq<Seq<char>>) -> Seq<JsonModel> {
    s.map_values(|t: Seq<char>| JsonModel::Text(t))
}

/// A further member, where there is a value for it.
pub open spec fn and_member(
    members: Map<Seq<char>, JsonModel>,
    name: Seq<char>,
    value: Option<JsonModel>,
) -> Map<Seq<char>, JsonModel> {
    match value {
        Some(v) => members.insert(name, v),
        None => members,
    }
}

/// An optional text as JSON.
pub open spec fn opt_json(s: Option<Seq<char>>) -> Option<JsonModel> {
    match s {
        Some(t) => Some(JsonModel::Text(t)),
        None => None,
    }
}

/// An optional text as an object that holds it.
pub open spec fn opt_text_object(s: Option<Seq<char>>) -> Option<JsonModel> {
    match s {
        Some(t) => Some(text_object(t)),
        None => None,
    }
}

/// The properties of a rule: its weakness class and its references, where it has them.
pub open spec fn rule_properties(r: rule::RuleModel) -> Map<Seq<char>, JsonModel> {
    and_member(
        and_member(Map::empty(), "cwe"@, opt_json(r.cwe)),
        "references"@,
        if r.references.len() == 0 {
            None
        } else {
            Some(JsonModel::List(json_texts(r.references)))
        },
    )
}

/// How a log describes a rule. Of one that is not known there is only the id.
pub open spec fn descriptor(id: Seq<char>, r: Option<rule::RuleModel>) -> JsonModel {
    let members = Map::empty().insert("id"@, JsonModel::Text(id));
    match r {
        None => JsonModel::Object(members),
        Some(r) => {
            let named = and_member(members, "name"@, opt_json(r.name)).insert(
                "shortDescription"@,
                text_object(r.message),
            );
            let described = and_member(
                named,
                "fullDescription"@,
                opt_text_object(r.description),
            ).insert(
                "defaultConfiguration"@,
                object_of("level"@, JsonModel::Text(finding::level_text(r.severity))),
            );
            let propertied = and_member(
                described,
                "properties"@,
                if r.cwe is None && r.references.len() == 0 {
                    None
                } else {
                    Some(JsonModel::Object(rule_properties(r)))
                },
            );
            JsonModel::Object(and_member(propertied, "help"@, opt_text_object(r.description)))
        },
    }
}

/// The region a finding covers.
pub open spec fn region(f: finding::FindingModel) -> JsonModel {
    JsonModel::Object(
        Map::empty().insert("startLine"@, JsonModel::Number(f.start.line as nat)).insert(
            "startColumn"@,
            JsonModel::Number(f.start.column as nat),
        ).insert("endLine"@, JsonModel::Number(f.end.line as nat)).insert(
            "endColumn"@,
            JsonModel::Number(f.end.column as nat),
        ).insert("snippet"@, text_object(f.snippet)),
    )
}

/// Where a finding stands: its file, with forward slashes, and its region.
pub open spec fn sarif_location(f: finding::FindingModel) -> JsonModel {
    object_of(
        "physicalLocation"@,
        JsonModel::Object(
            Map::empty().insert(
                "artifactLocation"@,
                object_of("uri"@, JsonModel::Text(text::replaced(f.file, '\\', '/'))),
            ).insert("region"@, region(f)),
        ),
    )
}

/// The identity of a finding in a log.
pub open spec fn partial_fingerprint(f: finding::FindingModel) -> Seq<char> {
    f.fingerprint + ":"@ + text::decimal(f.occurrence as nat)
}

/// A finding in a log. It has an identity where a fingerprint is known, and a baseline state
/// where it was compared with a baseline.
pub open spec fn result_of(f: finding::FindingModel, rule_index: nat) -> JsonModel {
    let members = Map::empty().insert("ruleId"@, JsonModel::Text(f.rule_id)).insert(
        "ruleIndex"@,
        JsonModel::Number(rule_index),
    ).insert("level"@, JsonModel::Text(finding::level_text(f.severity))).insert(
        "message"@,
        text_object(f.message),
    ).insert("locations"@, JsonModel::List(seq![sarif_location(f)])).insert(
        "properties"@,
        object_of("language"@, JsonModel::Text(f.language)),
    );
    JsonModel::Object(
        and_member(
            and_member(
                members,
                "partialFingerprints"@,
                if f.fingerprint.len() == 0 {
                    None
                } else {
                    Some(
                        object_of(
                            "critFingerprint/v1"@,
                            JsonModel::Text(partial_fingerprint(f)),
                        ),
                    )
                },
            ),
            "baselineState"@,
            match f.state {
                Some(state) => Some(JsonModel::Text(finding::state_text(state))),
                None => None,
            },
        ),
    )
}

/// The rules of a log: those that fired.
pub open spec fn driver_rules(
    s: Seq<finding::FindingModel>,
    rules: Seq<rule::RuleModel>,
) -> Seq<JsonModel> {
    fired(s).map_values(|id: Seq<char>| descriptor(id, rule_by_id(rules, id)))
}

/// The results of a log. Each points at its rule.
pub open spec fn results(s: Seq<finding::FindingModel>) -> Seq<JsonModel> {
    s.map_values(
        |f: finding::FindingModel| result_of(f, fired(s).index_of(f.rule_id) as nat),
    )
}

/// The tool that made a log.
pub open spec fn driver(rules: Seq<JsonModel>) -> JsonModel {
    JsonModel::Object(
        Map::empty().insert("name"@, JsonModel::Text("crit"@)).insert(
            "informationUri"@,
            JsonModel::Text("https://github.com/twbrowning/crit"@),
        ).insert("version"@, JsonModel::Text(ENGINE_VERSION@)).insert(
            "rules"@,
            JsonModel::List(rules),
        ),
    )
}

/// The log of a scan.
pub open spec fn sarif(s: Seq<finding::FindingModel>, rules: Seq<rule::RuleModel>) -> JsonModel {
    JsonModel::Object(
        Map::empty().insert(
            "$schema"@,
            JsonModel::Text(
                "https://raw.githubusercontent.com/oasis-tcs/sarif-spec/master/Schemata/sarif-schema-2.1.0.json"@,
            ),
        ).insert("version"@, JsonModel::Text("2.1.0"@)).insert(
            "runs"@,
            JsonModel::List(
                seq![
                    JsonModel::Object(
                        Map::empty().insert(
                            "tool"@,
                            object_of("driver"@, driver(driver_rules(s, rules))),
                        ).insert("results"@, JsonModel::List(results(s))),
                    ),
                ],
            ),
        ),
    )
}

// ---------------------------------------------------------------------------
// Building it
// ---------------------------------------------------------------------------

fn object_with(name: &str, value: serde_json::Value) -> (r: serde_json::Value)
    ensures
        json::json_of(r) == object_of(name@, json::json_of(value)),
{
    let mut out = json::empty_object();
    json::insert_member(&mut out, name, value);
    out
}

fn object_with_text(s: &str) -> (r: serde_json::Value)
    ensures
        json::json_of(r) == text_object(s@),
{
    object_with("text", json::text_value(s))
}

fn list_with(value: serde_json::Value) -> (r: serde_json::Value)
    ensures
        json::json_of(r) == JsonModel::List(seq![json::json_of(value)]),
{
    let mut items: Vec<serde_json::Value> = Vec::new();
    items.push(value);
    assert(json::json_list(items@) =~= seq![json::json_of(value)]);
    json::list_value(items)
}

fn list_of_texts(list: &Vec<String>) -> (r: serde_json::Value)
    ensures
        json::json_of(r) == JsonModel::List(json_texts(text::texts(list@))),
{
    let mut items: Vec<serde_json::Value> = Vec::new();
    for i in 0..list.len()
        invariant
            json::json_list(items@) == json_texts(text::texts(list@)).take(i as int),
    {
        let ghost before = json::json_list(items@);
        let item = json::text_value(list[i].as_str());
        items.push(item);
        assert(json::json_list(items@) =~= before.push(json::json_of(item)));
        assert(json_texts(text::texts(list@)).take(i + 1) =~= before.push(
            json_texts(text::texts(list@))[i as int],
        ));
    }
    assert(json_texts(text::texts(list@)).take(list@.len() as int) =~= json_texts(
        text::texts(list@),
    ));
    json::list_value(items)
}

fn find_rule<'a>(rules: &'a [Rule], id: &str) -> (r: Option<&'a Rule>)
    ensures
        match r {
            Some(x) => rule_by_id(rule::rule_models(rules@), id@) == Some(x@),
            None => rule_by_id(rule::rule_models(rules@), id@) is None,
        },
{
    let ghost all = rule::rule_models(rules@);
    let mut n: usize = rules.len();
    assert(all.take(n as int) =~= all);
    while n > 0
        invariant
            n <= rules@.len(),
            all == rule::rule_models(rules@),
            rule_by_id(all, id@) == rule_by_id(all.take(n as int), id@),
        decreases n,
    {
        assert(all.take(n as int).drop_last() =~= all.take(n - 1));
        assert(all.take(n as int).last() == rules@[n - 1]@);
        n = n - 1;
        if text::same(rules[n].id.as_str(), id) {
            return Some(&rules[n]);
        }
    }
    None
}

fn rule_descriptor(id: &str, known: Option<&Rule>) -> (r: serde_json::Value)
    ensures
        json::json_of(r) == descriptor(
            id@,
            match known {
                Some(x) => Some(x@),
                None => None,
            },
        ),
{
    let mut out = object_with("id", json::text_value(id));
    if let Some(r) = known {
        if let Some(name) = &r.name {
            json::insert_member(&mut out, "name", json::text_value(name.as_str()));
        }
        json::insert_member(&mut out, "shortDescription", object_with_text(r.message.as_str()));
        if let Some(d) = &r.description {
            json::insert_member(&mut out, "fullDescription", object_with_text(d.as_str()));
        }
        json::insert_member(
            &mut out,
            "defaultConfiguration",
            object_with("level", json::text_value(r.severity.sarif_level())),
        );
        if r.cwe.is_some() || r.references.len() != 0 {
            let mut properties = json::empty_object();
            if let Some(cwe) = &r.cwe {
                json::insert_member(&mut properties, "cwe", json::text_value(cwe.as_str()));
            }
            if r.references.len() != 0 {
                json::insert_member(&mut properties, "references", list_of_texts(&r.references));
            }
            json::insert_member(&mut out, "properties", properties);
        }
        if let Some(d) = &r.description {
            json::insert_member(&mut out, "help", object_with_text(d.as_str()));
        }
    }
    out
}

fn uri(path: &str) -> (r: String)
    ensures
        r@ == text::replaced(path@, '\\', '/'),
{
    text::replace_char(path, '\\', '/')
}

fn location_value(f: &Finding) -> (r: serde_json::Value)
    ensures
        json::json_of(r) == sarif_location(f@),
{
    let mut area = json::empty_object();
    json::insert_member(&mut area, "startLine", json::number_value(f.start.line));
    json::insert_member(&mut area, "startColumn", json::number_value(f.start.column));
    json::insert_member(&mut area, "endLine", json::number_value(f.end.line));
    json::insert_member(&mut area, "endColumn", json::number_value(f.end.column));
    json::insert_member(&mut area, "snippet", object_with_text(f.snippet.as_str()));
    let mut place = json::empty_object();
    let file = uri(f.file.as_str());
    json::insert_member(
        &mut place,
        "artifactLocation",
        object_with("uri", json::text_value(file.as_str())),
    );
    json::insert_member(&mut place, "region", area);
    object_with("physicalLocation", place)
}

fn result_value(f: &Finding, rule_index: usize) -> (r: serde_json::Value)
    ensures
        json::json_of(r) == result_of(f@, rule_index as nat),
{
    let mut out = json::empty_object();
    json::insert_member(&mut out, "ruleId", json::text_value(f.rule_id.as_str()));
    json::insert_member(&mut out, "ruleIndex", json::number_value(rule_index));
    json::insert_member(&mut out, "level", json::text_value(f.severity.sarif_level()));
    json::insert_member(&mut out, "message", object_with_text(f.message.as_str()));
    json::insert_member(&mut out, "locations", list_with(location_value(f)));
    json::insert_member(
        &mut out,
        "properties",
        object_with("language", json::text_value(f.language.as_str())),
    );
    if f.fingerprint.as_str().unicode_len() != 0 {
        let mut identity = f.fingerprint.clone();
        identity.append(":");
        identity.append(text::decimal_string(f.occurrence).as_str());
        json::insert_member(
            &mut out,
            "partialFingerprints",
            object_with("critFingerprint/v1", json::text_value(identity.as_str())),
        );
    }
    if let Some(state) = f.state {
        json::insert_member(
            &mut out,
            "baselineState",
            json::text_value(state.sarif_baseline_state()),
        );
    }
    out
}

proof fn lemma_fired_distinct(s: Seq<finding::FindingModel>)
    ensures
        fired(s).no_duplicates(),
    decreases s.len(),
{
    if s.len() > 0 {
        lemma_fired_distinct(s.drop_last());
    }
}

proof fn lemma_fired_covers(s: Seq<finding::FindingModel>, i: int)
    requires
        0 <= i < s.len(),
    ensures
        fired(s).contains(s[i].rule_id),
    decreases s.len(),
{
    let before = fired(s.drop_last());
    if i == s.len() - 1 {
        if !before.contains(s.last().rule_id) {
            assert(before.push(s.last().rule_id)[before.len() as int] == s.last().rule_id);
        }
    } else {
        lemma_fired_covers(s.drop_last(), i);
        let k = choose|k: int| 0 <= k < before.len() && before[k] == s[i].rule_id;
        assert(fired(s)[k] == s[i].rule_id);
    }
}

/// The ids of the rules that fired, each once, by first appearance.
fn fired_ids(findings: &[Finding]) -> (r: Vec<String>)
    ensures
        text::texts(r@) == fired(finding::models(findings@)),
{
    let ghost ms = finding::models(findings@);
    let mut out: Vec<String> = Vec::new();
    assert(text::texts(out@) =~= fired(ms.take(0)));
    for i in 0..findings.len()
        invariant
            ms == finding::models(findings@),
            text::texts(out@) == fired(ms.take(i as int)),
    {
        assert(ms.take(i + 1).drop_last() =~= ms.take(i as int));
        assert(ms.take(i + 1).last() == findings@[i as int]@);
        if !text::contains_text(&out, findings[i].rule_id.as_str()) {
            let ghost before = text::texts(out@);
            out.push(findings[i].rule_id.clone());
            assert(text::texts(out@) =~= before.push(findings@[i as int]@.rule_id));
        }
    }
    assert(ms.take(ms.len() as int) =~= ms);
    out
}

/// Where the rule of a finding stands among those that fired.
fn index_of_rule(ids: &Vec<String>, id: &str) -> (r: usize)
    requires
        text::texts(ids@).no_duplicates(),
        text::texts(ids@).contains(id@),
    ensures
        r == text::texts(ids@).index_of(id@),
{
    let ghost list = text::texts(ids@);
    let mut k: usize = 0;
    while k < ids.len()
        invariant
            k <= ids@.len(),
            list == text::texts(ids@),
            list.contains(id@),
            list.no_duplicates(),
            forall|j: int| 0 <= j < k ==> list[j] != id@,
        decreases ids@.len() - k,
    {
        if text::same(ids[k].as_str(), id) {
            assert(list[k as int] == id@);
            return k;
        }
        k = k + 1;
    }
    assert(false);
    k
}

/// The log of a scan, as a JSON value: the rules that fired, with what `rules` knows of them,
/// and the findings.
pub fn sarif_log(findings: &[Finding], rules: &[Rule]) -> (r: serde_json::Value)
    ensures
        json::json_of(r) == sarif(finding::models(findings@), rule::rule_models(rules@)),
{
    let ghost ms = finding::models(findings@);
    let ghost rs = rule::rule_models(rules@);
    let ids = fired_ids(findings);
    proof {
        lemma_fired_distinct(ms);
    }
    let mut described: Vec<serde_json::Value> = Vec::new();
    for i in 0..ids.len()
        invariant
            text::texts(ids@) == fired(ms),
            rs == rule::rule_models(rules@),
            json::json_list(described@) == driver_rules(ms, rs).take(i as int),
    {
        let ghost before = json::json_list(described@);
        let value = rule_descriptor(ids[i].as_str(), find_rule(rules, ids[i].as_str()));
        described.push(value);
        assert(text::texts(ids@)[i as int] == ids@[i as int]@);
        assert(json::json_list(described@) =~= before.push(json::json_of(value)));
        assert(driver_rules(ms, rs).take(i + 1) =~= before.push(driver_rules(ms, rs)[i as int]));
    }
    assert(json::json_list(described@) =~= driver_rules(ms, rs));
    let mut listed: Vec<serde_json::Value> = Vec::new();
    for i in 0..findings.len()
        invariant
            ms == finding::models(findings@),
            text::texts(ids@) == fired(ms),
            fired(ms).no_duplicates(),
            json::json_list(listed@) == results(ms).take(i as int),
    {
        let ghost before = json::json_list(listed@);
        proof {
            lemma_fired_covers(ms, i as int);
        }
        assert(ms[i as int] == findings@[i as int]@);
        let k = index_of_rule(&ids, findings[i].rule_id.as_str());
        let value = result_value(&findings[i], k);
        listed.push(value);
        assert(json::json_list(listed@) =~= before.push(json::json_of(value)));
        assert(results(ms).take(i + 1) =~= before.push(results(ms)[i as int]));
    }
    assert(json::json_list(listed@) =~= results(ms));
    let mut tool = json::empty_object();
    json::insert_member(&mut tool, "name", json::text_value("crit"));
    json::insert_member(
        &mut tool,
        "informationUri",
        json::text_value("https://github.com/twbrowning/crit"),
    );
    json::insert_member(&mut tool, "version", json::text_value(ENGINE_VERSION));
    json::insert_member(&mut tool, "rules", json::list_value(described));
    let mut run = json::empty_object();
    json::insert_member(&mut run, "tool", object_with("driver", tool));
    json::insert_member(&mut run, "results", json::list_value(listed));
    let mut log = json::empty_object();
    json::insert_member(
        &mut log,
        "$schema",
        json::text_value(
            "https://raw.githubusercontent.com/oasis-tcs/sarif-spec/master/Schemata/sarif-schema-2.1.0.json",
        ),
    );
    json::insert_member(&mut log, "version", json::text_value("2.1.0"));
    json::insert_member(&mut log, "runs", list_with(run));
    log
}

/// Render findings as a SARIF 2.1.0 log. `rules` supplies what is known of the rules; any rule
/// that produced a finding is listed.
pub fn render_sarif(findings: &[Finding], rules: &[Rule]) -> (r: String)
    ensures
        r@ == json::pretty_json(sarif(finding::models(findings@), rule::rule_models(rules@))),
{
    let log = sarif_log(findings, rules);
    json::pretty(&log)
}

/// Every result of a log points at the rule it is of.
pub proof fn lemma_result_points_at_rule(
    s: Seq<finding::FindingModel>,
    rules: Seq<rule::RuleModel>,
    i: int,
)
    requires
        0 <= i < s.len(),
    ensures
        0 <= fired(s).index_of(s[i].rule_id) < driver_rules(s, rules).len(),
        driver_rules(s, rules)[fired(s).index_of(s[i].rule_id)] == descriptor(
            s[i].rule_id,
            rule_by_id(rules, s[i].rule_id),
        ),
        fired(s).no_duplicates(),
{
    lemma_fired_distinct(s);
    lemma_fired_covers(s, i);
}

/// What an object has under a name.
pub open spec fn member(v: JsonModel, name: Seq<char>) -> Option<JsonModel> {
    match v {
        JsonModel::Object(m) => if m.dom().contains(name) {
            Some(m[name])
        } else {
            None
        },
        _ => None,
    }
}

/// Does an object have a text under a name?
pub open spec fn has_text(v: JsonModel, name: Seq<char>, s: Seq<char>) -> bool {
    member(v, name) == Some(JsonModel::Text(s))
}

/// Does an object have a number under a name?
pub open spec fn has_number(v: JsonModel, name: Seq<char>, n: nat) -> bool {
    member(v, name) == Some(JsonModel::Number(n))
}

/// The results of a log's one run.
pub open spec fn log_results(log: JsonModel) -> Seq<JsonModel> {
    member(member(log, "runs"@)->Some_0->List_0[0], "results"@)->Some_0->List_0
}

/// The rules of a log's one run.
pub open spec fn log_rules(log: JsonModel) -> Seq<JsonModel> {
    member(
        member(
            member(member(log, "runs"@)->Some_0->List_0[0], "tool"@)->Some_0,
            "driver"@,
        )->Some_0,
        "rules"@,
    )->Some_0->List_0
}

/// Does a result of a log tell of the finding: its rule, level, message, place and language?
pub open spec fn tells(v: JsonModel, f: finding::FindingModel) -> bool {
    let places = member(v, "locations"@)->Some_0->List_0;
    let place = member(places[0], "physicalLocation"@)->Some_0;
    let span = member(place, "region"@)->Some_0;
    &&& has_text(v, "ruleId"@, f.rule_id)
    &&& has_text(v, "level"@, finding::level_text(f.severity))
    &&& has_text(member(v, "message"@)->Some_0, "text"@, f.message)
    &&& has_text(member(v, "properties"@)->Some_0, "language"@, f.language)
    &&& places.len() == 1
    &&& has_text(
        member(place, "artifactLocation"@)->Some_0,
        "uri"@,
        text::replaced(f.file, '\\', '/'),
    )
    &&& has_number(span, "startLine"@, f.start.line as nat)
    &&& has_number(span, "startColumn"@, f.start.column as nat)
    &&& has_number(span, "endLine"@, f.end.line as nat)
    &&& has_number(span, "endColumn"@, f.end.column as nat)
    &&& has_text(member(span, "snippet"@)->Some_0, "text"@, f.snippet)
}

proof fn lemma_names_apart()
    ensures
        "runs"@.len() == 4 && "tool"@.len() == 4 && "text"@.len() == 4,
        "$schema"@.len() == 7 && "version"@.len() == 7,
        "results"@.len() == 7 && "message"@.len() == 7 && "snippet"@.len() == 7,
        "driver"@.len() == 6 && "region"@.len() == 6 && "ruleId"@.len() == 6,
        "rules"@.len() == 5 && "level"@.len() == 5 && "name"@.len() == 4,
        "informationUri"@.len() == 14,
        "ruleIndex"@.len() == 9 && "locations"@.len() == 9 && "startLine"@.len() == 9,
        "ruleIndex"@[0] == 'r' && "locations"@[0] == 'l',
        "properties"@.len() == 10,
        "partialFingerprints"@.len() == 19,
        "baselineState"@.len() == 13,
        "artifactLocation"@.len() == 16,
        "startColumn"@.len() == 11,
        "endLine"@.len() == 7 && "endLine"@[0] == 'e' && "snippet"@[0] == 's',
        "endColumn"@.len() == 9 && "endColumn"@[0] == 'e' && "startLine"@[0] == 's',
        "id"@.len() == 2,
        "shortDescription"@.len() == 16,
        "fullDescription"@.len() == 15,
        "defaultConfiguration"@.len() == 20,
        "help"@.len() == 4 && "help"@[0] == 'h' && "name"@[0] == 'n',
        "cwe"@.len() == 3,
        "references"@.len() == 10,
{
    reveal_strlit("runs");
    reveal_strlit("tool");
    reveal_strlit("text");
    reveal_strlit("$schema");
    reveal_strlit("version");
    reveal_strlit("results");
    reveal_strlit("message");
    reveal_strlit("snippet");
    reveal_strlit("driver");
    reveal_strlit("region");
    reveal_strlit("ruleId");
    reveal_strlit("rules");
    reveal_strlit("level");
    reveal_strlit("name");
    reveal_strlit("informationUri");
    reveal_strlit("ruleIndex");
    reveal_strlit("locations");
    reveal_strlit("startLine");
    reveal_strlit("properties");
    reveal_strlit("partialFingerprints");
    reveal_strlit("baselineState");
    reveal_strlit("artifactLocation");
    reveal_strlit("startColumn");
    reveal_strlit("endLine");
    reveal_strlit("endColumn");
    reveal_strlit("id");
    reveal_strlit("shortDescription");
    reveal_strlit("fullDescription");
    reveal_strlit("defaultConfiguration");
    reveal_strlit("help");
    reveal_strlit("cwe");
    reveal_strlit("references");
}

proof fn lemma_result_tells(f: finding::FindingModel, rule_index: nat)
    ensures
        tells(result_of(f, rule_index), f),
        has_number(result_of(f, rule_index), "ruleIndex"@, rule_index),
        f.fingerprint.len() == 0 ==> member(result_of(f, rule_index), "partialFingerprints"@)
            is None,
        f.fingerprint.len() > 0 ==> has_text(
            member(result_of(f, rule_index), "partialFingerprints"@)->Some_0,
            "critFingerprint/v1"@,
            f.fingerprint + ":"@ + text::decimal(f.occurrence as nat),
        ),
        f.state is None ==> member(result_of(f, rule_index), "baselineState"@) is None,
        f.state matches Some(state) ==> has_text(
            result_of(f, rule_index),
            "baselineState"@,
            finding::state_text(state),
        ),
{
    lemma_names_apart();
    let span = region(f);
    assert(has_number(span, "startLine"@, f.start.line as nat));
    assert(has_number(span, "startColumn"@, f.start.column as nat));
    assert(has_number(span, "endLine"@, f.end.line as nat));
    assert(has_number(span, "endColumn"@, f.end.column as nat));
    assert(has_text(member(span, "snippet"@)->Some_0, "text"@, f.snippet));
    let place = member(sarif_location(f), "physicalLocation"@)->Some_0;
    assert(member(place, "region"@) == Some(span));
    assert(has_text(
        member(place, "artifactLocation"@)->Some_0,
        "uri"@,
        text::replaced(f.file, '\\', '/'),
    ));
}

/// A log has one run with one result for each finding, in order. Each tells of its finding, points
/// at the rule with the finding's id among the rules of the log, has the fingerprint and number of a
/// finding that has a fingerprint, and the state of one that was compared.
pub proof fn lemma_log_tells_of_every_finding(
    s: Seq<finding::FindingModel>,
    rules: Seq<rule::RuleModel>,
    i: int,
)
    requires
        0 <= i < s.len(),
    ensures
        ({
            let log = sarif(s, rules);
            let v = log_results(log)[i];
            &&& has_text(log, "version"@, "2.1.0"@)
            &&& member(log, "runs"@)->Some_0->List_0.len() == 1
            &&& log_results(log).len() == s.len()
            &&& tells(v, s[i])
            &&& exists|n: int|
                0 <= n < log_rules(log).len() && has_number(v, "ruleIndex"@, n as nat) && has_text(
                    #[trigger] log_rules(log)[n],
                    "id"@,
                    s[i].rule_id,
                )
            &&& member(v, "partialFingerprints"@) is Some <==> s[i].fingerprint.len() > 0
            &&& s[i].fingerprint.len() > 0 ==> has_text(
                member(v, "partialFingerprints"@)->Some_0,
                "critFingerprint/v1"@,
                s[i].fingerprint + ":"@ + text::decimal(s[i].occurrence as nat),
            )
            &&& member(v, "baselineState"@) is Some <==> s[i].state is Some
            &&& s[i].state matches Some(state) ==> has_text(
                v,
                "baselineState"@,
                finding::state_text(state),
            )
        }),
{
    lemma_names_apart();
    let log = sarif(s, rules);
    let n = fired(s).index_of(s[i].rule_id);
    lemma_result_points_at_rule(s, rules, i);
    lemma_result_tells(s[i], n as nat);
    assert(log_results(log) == results(s));
    assert(log_rules(log) == driver_rules(s, rules));
    let d = descriptor(s[i].rule_id, rule_by_id(rules, s[i].rule_id));
    assert(log_rules(log)[n] == d);
    lemma_descriptor_tells(s[i].rule_id, rule_by_id(rules, s[i].rule_id));
}

/// A log describes the rules that fired and no others, each once, in the order in which they first
/// did.
pub proof fn lemma_log_rules_fired(s: Seq<finding::FindingModel>, k: int)
    ensures
        fired(s).no_duplicates(),
        forall|id: Seq<char>| #[trigger]
            fired(s).contains(id) <==> exists|i: int|
                0 <= i < s.len() && (#[trigger] s[i]).rule_id == id,
        0 <= k <= s.len() ==> fired(s.take(k)).is_prefix_of(fired(s)),
    decreases s.len(),
{
    lemma_fired_distinct(s);
    assert forall|id: Seq<char>| #[trigger] fired(s).contains(id) implies exists|i: int|
        0 <= i < s.len() && (#[trigger] s[i]).rule_id == id by {
        lemma_fired_by(s, id);
    }
    assert forall|id: Seq<char>|
        (exists|i: int| 0 <= i < s.len() && (#[trigger] s[i]).rule_id == id) implies #[trigger] fired(
        s,
    ).contains(id) by {
        let i = choose|i: int| 0 <= i < s.len() && (#[trigger] s[i]).rule_id == id;
        lemma_fired_covers(s, i);
    }
    if 0 <= k <= s.len() {
        lemma_fired_grows(s, k);
    }
}

proof fn lemma_fired_by(s: Seq<finding::FindingModel>, id: Seq<char>)
    requires
        fired(s).contains(id),
    ensures
        exists|i: int| 0 <= i < s.len() && (#[trigger] s[i]).rule_id == id,
    decreases s.len(),
{
    if s.len() > 0 {
        let init = s.drop_last();
        if s.last().rule_id == id {
            assert(s[s.len() - 1].rule_id == id);
        } else {
            let j = choose|j: int| 0 <= j < fired(s).len() && fired(s)[j] == id;
            assert(fired(init)[j] == id);
            lemma_fired_by(init, id);
            let i = choose|i: int| 0 <= i < init.len() && (#[trigger] init[i]).rule_id == id;
            assert(s[i].rule_id == id);
        }
    }
}

proof fn lemma_fired_grows(s: Seq<finding::FindingModel>, k: int)
    requires
        0 <= k <= s.len(),
    ensures
        fired(s.take(k)).is_prefix_of(fired(s)),
    decreases s.len(),
{
    if k == s.len() {
        assert(s.take(k) =~= s);
    } else {
        let init = s.drop_last();
        lemma_fired_grows(init, k);
        assert(init.take(k) =~= s.take(k));
        let (a, b, c) = (fired(s.take(k)), fired(init), fired(s));
        assert(a =~= b.subrange(0, a.len() as int));
        assert(c.subrange(0, a.len() as int) =~= a);
    }
}

proof fn lemma_descriptor_tells(id: Seq<char>, r: Option<rule::RuleModel>)
    ensures
        has_text(descriptor(id, r), "id"@, id),
{
    lemma_names_apart();
}

/// How a log describes a rule that is known: by its message, its default level, and its name,
/// description, weakness class and references where it has them.
pub proof fn lemma_descriptor_of_known(id: Seq<char>, r: rule::RuleModel)
    ensures
        ({
            let d = descriptor(id, Some(r));
            let more = member(d, "properties"@);
            &&& has_text(d, "id"@, id)
            &&& has_text(member(d, "shortDescription"@)->Some_0, "text"@, r.message)
            &&& has_text(
                member(d, "defaultConfiguration"@)->Some_0,
                "level"@,
                finding::level_text(r.severity),
            )
            &&& r.name is None ==> member(d, "name"@) is None
            &&& r.name matches Some(n) ==> has_text(d, "name"@, n)
            &&& r.description is None ==> member(d, "fullDescription"@) is None && member(
                d,
                "help"@,
            ) is None
            &&& r.description matches Some(t) ==> has_text(
                member(d, "fullDescription"@)->Some_0,
                "text"@,
                t,
            ) && has_text(member(d, "help"@)->Some_0, "text"@, t)
            &&& more is Some <==> r.cwe is Some || r.references.len() > 0
            &&& r.cwe matches Some(c) ==> has_text(more->Some_0, "cwe"@, c)
            &&& r.references.len() > 0 ==> member(more->Some_0, "references"@) == Some(
                JsonModel::List(r.references.map_values(|t: Seq<char>| JsonModel::Text(t))),
            )
        }),
{
    lemma_names_apart();
}

/// A rule is described as the last one with its id says.
pub proof fn lemma_last_rule_described(rules: Seq<rule::RuleModel>, id: Seq<char>, k: int)
    ensures
        0 <= k < rules.len() && rules[k].id == id && (forall|j: int|
            k < j < rules.len() ==> (#[trigger] rules[j]).id != id) ==> rule_by_id(rules, id)
            == Some(rules[k]),
        rule_by_id(rules, id) is None <==> forall|j: int|
            0 <= j < rules.len() ==> (#[trigger] rules[j]).id != id,
    decreases rules.len(),
{
    if rules.len() > 0 {
        let init = rules.drop_last();
        lemma_last_rule_described(init, id, k);
        assert forall|j: int| 0 <= j < init.len() implies init[j] == rules[j] by {}
        assert(rules.last() == rules[rules.len() - 1]);
        if rules.last().id != id {
            if rule_by_id(init, id) is None {
                assert forall|j: int| 0 <= j < rules.len() implies (#[trigger] rules[j]).id
                    != id by {
                    if j < init.len() {
                        assert(init[j].id != id);
                    }
                }
            } else {
                let j = choose|j: int| 0 <= j < init.len() && (#[trigger] init[j]).id == id;
                assert(rules[j].id == id);
            }
            if 0 <= k < rules.len() && rules[k].id == id && (forall|j: int|
                k < j < rules.len() ==> (#[trigger] rules[j]).id != id) {
                assert forall|j: int| k < j < init.len() implies (#[trigger] init[j]).id != id by {
                    assert(rules[j].id != id);
                }
                assert(init[k] == rules[k]);
            }
        } else if 0 <= k < rules.len() - 1 {
            assert(rules[rules.len() - 1].id == id);
        }
    }
}

} // verus!
