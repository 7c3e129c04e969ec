//! Joining findings across files: a sink fires where some source captures the same link.

use vstd::prelude::*;
use vstd::hash_map::StringHashMap;

use crate::diff;
use crate::finding;
use crate::finding::Finding;
use crate::fingerprint;
use crate::matching;
use crate::matching::SourceFile;
use crate::order;
use crate::rule;
use crate::rule::Rule;
use crate::syntax;
use crate::syntax::Capture;
use crate::text;

verus! {

/// The capture name joining a cross-file rule's sources to its sinks.
pub const LINK_CAPTURE: &'static str = "link";

/// A link that a source captures: the rule, the link text, and where it was captured.
#[verifier::ext_equal]
pub struct SourceModel {
    pub rule_idx: usize,
    pub link: Seq<char>,
    pub file: Seq<char>,
    pub line: usize,
}

/// A sink that waits for a source: the rule, the link text, and the finding it would be.
#[verifier::ext_equal]
pub struct SinkModel {
    pub rule_idx: usize,
    pub link: Seq<char>,
    pub finding: finding::FindingModel,
}

/// A sink that waits for a source.
struct Sink {
    rule_idx: usize,
    link: String,
    finding: Finding,
}

impl View for Sink {
    type V = SinkModel;

    closed spec fn view(&self) -> SinkModel {
        SinkModel { rule_idx: self.rule_idx, link: self.link@, finding: self.finding@ }
    }
}

spec fn sink_models(s: Seq<Sink>) -> Seq<SinkModel> {
    s.map_values(|x: Sink| x@)
}

/// Does the first location come before the second, by file and then by line?
pub open spec fn earlier(a: (Seq<char>, usize), b: (Seq<char>, usize)) -> bool {
    order::lexical(order::compare_text(a.0, b.0), order::compare_number(a.1 as int, b.1 as int)) < 0
}

/// The earliest location of the sources with the given rule and link, if there is one.
pub open spec fn earliest(s: Seq<SourceModel>, rule_idx: usize, link: Seq<char>) -> Option<
    (Seq<char>, usize),
>
    decreases s.len(),
{
    if s.len() == 0 {
        None
    } else {
        let before = earliest(s.drop_last(), rule_idx, link);
        let x = s.last();
        if x.rule_idx != rule_idx || x.link != link {
            before
        } else {
            match before {
                None => Some((x.file, x.line)),
                Some(loc) => if earlier((x.file, x.line), loc) {
                    Some((x.file, x.line))
                } else {
                    Some(loc)
                },
            }
        }
    }
}

/// The message of a sink with the location of its source.
pub open spec fn sourced_message(message: Seq<char>, loc: (Seq<char>, usize)) -> Seq<char> {
    message + " (source: "@ + loc.0 + ":"@ + text::decimal(loc.1 as nat) + ")"@
}

/// The finding of a sink that a source feeds. The source's location goes into the message and
/// never into the identity: a source that merely moves must not change the sink's
/// fingerprint.
pub open spec fn fired(x: SinkModel, loc: (Seq<char>, usize)) -> finding::FindingModel {
    finding::FindingModel { message: sourced_message(x.finding.message, loc), ..x.finding }
}

/// The findings of the sinks that some source feeds, in the order of the sinks.
pub open spec fn joined_findings(sources: Seq<SourceModel>, sinks: Seq<SinkModel>) -> Seq<
    finding::FindingModel,
>
    decreases sinks.len(),
{
    if sinks.len() == 0 {
        seq![]
    } else {
        let before = joined_findings(sources, sinks.drop_last());
        let x = sinks.last();
        match earliest(sources, x.rule_idx, x.link) {
            Some(loc) => before.push(fired(x, loc)),
            None => before,
        }
    }
}

// ---------------------------------------------------------------------------
// Collecting
// ---------------------------------------------------------------------------

/// The links that one match of a source query captures, up to its first `n` captures: none at
/// all where such a node does not span bytes of the source.
pub open spec fn sources_in(
    rule_idx: usize,
    file: matching::FileModel,
    captures: Seq<syntax::CaptureModel>,
    number: u32,
    n: nat,
) -> Option<Seq<SourceModel>>
    decreases n,
{
    if n == 0 {
        Some(seq![])
    } else {
        match sources_in(rule_idx, file, captures, number, (n - 1) as nat) {
            None => None,
            Some(before) => {
                let c = captures[n - 1];
                if c.index != number {
                    Some(before)
                } else if matching::spans(file.source, c.node) {
                    Some(
                        before.push(
                            SourceModel {
                                rule_idx,
                                link: fingerprint::match_text(file.source, c.node),
                                file: fingerprint::path_identity(file.path),
                                line: (c.node.start.row + 1) as usize,
                            },
                        ),
                    )
                } else {
                    None
                }
            },
        }
    }
}

/// The links that the first `n` matches of a source query capture.
pub open spec fn sources_of(
    rule_idx: usize,
    file: matching::FileModel,
    matches: Seq<Seq<syntax::CaptureModel>>,
    number: u32,
    n: nat,
) -> Option<Seq<SourceModel>>
    decreases n,
{
    if n == 0 {
        Some(seq![])
    } else {
        match (
            sources_of(rule_idx, file, matches, number, (n - 1) as nat),
            sources_in(rule_idx, file, matches[n - 1], number, matches[n - 1].len()),
        ) {
            (Some(before), Some(here)) => Some(before + here),
            _ => None,
        }
    }
}

/// Which capture of a sink match the finding points at: the first with the marking number, or
/// else the link itself.
pub open spec fn sink_node(captures: Seq<syntax::CaptureModel>, link: int, number: Option<u32>) -> int {
    match number {
        Some(n) => if matching::capture_from(captures, 0, n) >= 0 {
            matching::capture_from(captures, 0, n)
        } else {
            link
        },
        None => link,
    }
}

/// The sinks that the first `n` matches of a sink query make: one for each match that captures
/// a link; none at all where such a node does not lie in the source.
pub open spec fn sinks_of(
    rule_idx: usize,
    r: rule::RuleModel,
    file: matching::FileModel,
    matches: Seq<Seq<syntax::CaptureModel>>,
    link_number: u32,
    match_number: Option<u32>,
    n: nat,
) -> Option<Seq<SinkModel>>
    decreases n,
{
    if n == 0 {
        Some(seq![])
    } else {
        match sinks_of(rule_idx, r, file, matches, link_number, match_number, (n - 1) as nat) {
            None => None,
            Some(before) => {
                let captures = matches[n - 1];
                let link = matching::capture_from(captures, 0, link_number);
                if link < 0 {
                    Some(before)
                } else {
                    let node = captures[sink_node(captures, link, match_number)].node;
                    if matching::spans(file.source, captures[link].node) && matching::lies_in(
                        file.source,
                        node,
                    ) {
                        Some(
                            before.push(
                                SinkModel {
                                    rule_idx,
                                    link: fingerprint::match_text(
                                        file.source,
                                        captures[link].node,
                                    ),
                                    finding: matching::finding_at(r, file, node),
                                },
                            ),
                        )
                    } else {
                        None
                    }
                }
            },
        }
    }
}

proof fn lemma_sources_in_stop(
    rule_idx: usize,
    file: matching::FileModel,
    captures: Seq<syntax::CaptureModel>,
    number: u32,
    i: nat,
    n: nat,
)
    requires
        i <= n,
        sources_in(rule_idx, file, captures, number, i) is None,
    ensures
        sources_in(rule_idx, file, captures, number, n) is None,
    decreases n - i,
{
    if i < n {
        lemma_sources_in_stop(rule_idx, file, captures, number, i, (n - 1) as nat);
    }
}

proof fn lemma_sources_stop(
    rule_idx: usize,
    file: matching::FileModel,
    matches: Seq<Seq<syntax::CaptureModel>>,
    number: u32,
    i: nat,
    n: nat,
)
    requires
        i <= n,
        sources_of(rule_idx, file, matches, number, i) is None,
    ensures
        sources_of(rule_idx, file, matches, number, n) is None,
    decreases n - i,
{
    if i < n {
        lemma_sources_stop(rule_idx, file, matches, number, i, (n - 1) as nat);
    }
}

proof fn lemma_sinks_stop(
    rule_idx: usize,
    r: rule::RuleModel,
    file: matching::FileModel,
    matches: Seq<Seq<syntax::CaptureModel>>,
    link_number: u32,
    match_number: Option<u32>,
    i: nat,
    n: nat,
)
    requires
        i <= n,
        sinks_of(rule_idx, r, file, matches, link_number, match_number, i) is None,
    ensures
        sinks_of(rule_idx, r, file, matches, link_number, match_number, n) is None,
    decreases n - i,
{
    if i < n {
        lemma_sinks_stop(rule_idx, r, file, matches, link_number, match_number, i, (n - 1) as nat);
    }
}

/// What a pass over files has collected.
#[verifier::ext_equal]
pub struct PassModel {
    pub sources: Seq<SourceModel>,
    pub sinks: Seq<SinkModel>,
}

/// A pass over files that collects sources and sinks.
pub struct CrossPass {
    /// The earliest location of each rule and link.
    earliest: StringHashMap<(String, usize)>,
    sinks: Vec<Sink>,
    sources: Ghost<Seq<SourceModel>>,
}

impl View for CrossPass {
    type V = PassModel;

    closed spec fn view(&self) -> PassModel {
        PassModel { sources: self.sources@, sinks: sink_models(self.sinks@) }
    }
}

/// The location held in a table.
spec fn held(table: Map<Seq<char>, (String, usize)>, key: Seq<char>) -> Option<(Seq<char>, usize)> {
    if table.contains_key(key) {
        Some((table[key].0@, table[key].1))
    } else {
        None
    }
}

/// Does the table hold the earliest location of every rule and link?
spec fn summarizes(table: Map<Seq<char>, (String, usize)>, s: Seq<SourceModel>) -> bool {
    forall|rule_idx: usize, link: Seq<char>|
        #![trigger earliest(s, rule_idx, link)]
        earliest(s, rule_idx, link) == held(table, diff::key_text(link, rule_idx))
}

impl CrossPass {
    /// Does the table hold what was collected?
    pub closed spec fn wf(&self) -> bool {
        summarizes(self.earliest@, self.sources@)
    }

    /// A pass that has collected nothing yet.
    pub fn new() -> (r: Self)
        ensures
            r.wf(),
            r@ == (PassModel { sources: seq![], sinks: seq![] }),
    {
        let r = CrossPass {
            earliest: StringHashMap::new(),
            sinks: Vec::new(),
            sources: Ghost(Seq::empty()),
        };
        assert(sink_models(r.sinks@) =~= seq![]);
        r
    }

    fn add_source(&mut self, rule_idx: usize, link: &str, file: &str, line: usize)
        requires
            old(self).wf(),
        ensures
            final(self).wf(),
            final(self)@ == (PassModel {
                sources: old(self)@.sources.push(
                    SourceModel { rule_idx, link: link@, file: file@, line },
                ),
                sinks: old(self)@.sinks,
            }),
    {
        let ghost all = self.sources@;
        let ghost before = self.earliest@;
        let ghost new = SourceModel { rule_idx, link: link@, file: file@, line };
        let key = diff::key_of(link, rule_idx);
        assert(earliest(all, rule_idx, link@) == held(before, key@));
        let replace = match self.earliest.get(key.as_str()) {
            None => true,
            Some(loc) => {
                let c = order::compare_strings(file, loc.0.as_str());
                c < 0 || (c == 0 && line < loc.1)
            },
        };
        if replace {
            self.earliest.insert(key, (file.to_owned(), line));
        }
        self.sources = Ghost(all.push(new));
        proof {
            let now = all.push(new);
            assert(now.drop_last() =~= all);
            assert forall|r2: usize, l2: Seq<char>|
                #![trigger earliest(now, r2, l2)]
                earliest(now, r2, l2) == held(self.earliest@, diff::key_text(l2, r2)) by {
                assert(earliest(all, r2, l2) == held(before, diff::key_text(l2, r2)));
                if diff::key_text(l2, r2) == diff::key_text(link@, rule_idx) {
                    text::lemma_tagged_text(l2, r2 as nat, link@, rule_idx as nat);
                }
            }
        }
    }

    /// Collect the links that the matches of a source query capture in a file. The result is
    /// whether every such node spans bytes of the source; otherwise nothing is promised of
    /// what was collected.
    pub fn collect_sources(
        &mut self,
        rule_idx: usize,
        file: &SourceFile<'_>,
        matches: &Vec<Vec<Capture>>,
        link_ix: u32,
    ) -> (ok: bool)
        requires
            old(self).wf(),
            file.wf(),
        ensures
            final(self).wf(),
            final(self)@.sinks == old(self)@.sinks,
            match sources_of(
                rule_idx,
                file@,
                syntax::match_models(matches@),
                link_ix,
                matches@.len(),
            ) {
                Some(new) => ok && final(self)@.sources == old(self)@.sources + new,
                None => !ok,
            },
    {
        let ghost all = syntax::match_models(matches@);
        let ghost start = self@.sources;
        assert(start =~= start + Seq::<SourceModel>::empty());
        for i in 0..matches.len()
            invariant
                self.wf(),
                file.wf(),
                all == syntax::match_models(matches@),
                self@.sinks == old(self)@.sinks,
                start == old(self)@.sources,
                sources_of(rule_idx, file@, all, link_ix, i as nat) is Some,
                self@.sources == start + sources_of(rule_idx, file@, all, link_ix, i as nat)->Some_0,
        {
            let captures = &matches[i];
            let ghost cs = syntax::capture_models(captures@);
            let ghost mid = self@.sources;
            assert(all[i as int] == cs);
            assert(mid =~= mid + Seq::<SourceModel>::empty());
            for j in 0..captures.len()
                invariant
                    self.wf(),
                    file.wf(),
                    i < matches@.len(),
                    all == syntax::match_models(matches@),
                    all[i as int] == cs,
                    cs == syntax::capture_models(captures@),
                    self@.sinks == old(self)@.sinks,
                    sources_of(rule_idx, file@, all, link_ix, i as nat) is Some,
                    sources_in(rule_idx, file@, cs, link_ix, j as nat) is Some,
                    self@.sources == mid + sources_in(
                        rule_idx,
                        file@,
                        cs,
                        link_ix,
                        j as nat,
                    )->Some_0,
            {
                let c = &captures[j];
                assert(cs[j as int] == c@);
                if c.index == link_ix {
                    if !file.spans(&c.node) {
                        proof {
                            lemma_sources_in_stop(
                                rule_idx,
                                file@,
                                cs,
                                link_ix,
                                (j + 1) as nat,
                                cs.len(),
                            );
                            lemma_sources_stop(
                                rule_idx,
                                file@,
                                all,
                                link_ix,
                                (i + 1) as nat,
                                all.len(),
                            );
                        }
                        return false;
                    }
                    let link = file.match_text(&c.node);
                    let ghost before = self@.sources;
                    self.add_source(
                        rule_idx,
                        link.as_str(),
                        file.identity().as_str(),
                        c.node.start.row + 1,
                    );
                    assert(self@.sources =~= mid + sources_in(
                        rule_idx,
                        file@,
                        cs,
                        link_ix,
                        (j + 1) as nat,
                    )->Some_0);
                }
            }
            assert(cs.len() == captures@.len());
            assert(self@.sources =~= start + sources_of(
                rule_idx,
                file@,
                all,
                link_ix,
                (i + 1) as nat,
            )->Some_0);
        }
        assert(all.len() == matches@.len());
        true
    }

    /// Collect the sinks that the matches of a sink query make in a file. The result is
    /// whether every such node lies in the source; otherwise nothing is promised of what was
    /// collected.
    pub fn collect_sinks(
        &mut self,
        rule_idx: usize,
        rule: &Rule,
        file: &SourceFile<'_>,
        matches: &Vec<Vec<Capture>>,
        link_ix: u32,
        match_ix: Option<u32>,
    ) -> (ok: bool)
        requires
            old(self).wf(),
            file.wf(),
        ensures
            final(self).wf(),
            final(self)@.sources == old(self)@.sources,
            match sinks_of(
                rule_idx,
                rule@,
                file@,
                syntax::match_models(matches@),
                link_ix,
                match_ix,
                matches@.len(),
            ) {
                Some(new) => ok && final(self)@.sinks == old(self)@.sinks + new,
                None => !ok,
            },
    {
        let ghost all = syntax::match_models(matches@);
        let ghost start = self@.sinks;
        assert(start =~= start + Seq::<SinkModel>::empty());
        for i in 0..matches.len()
            invariant
                self.wf(),
                file.wf(),
                all == syntax::match_models(matches@),
                all.len() == matches@.len(),
                self@.sources == old(self)@.sources,
                start == old(self)@.sinks,
                sinks_of(rule_idx, rule@, file@, all, link_ix, match_ix, i as nat) is Some,
                self@.sinks == start + sinks_of(
                    rule_idx,
                    rule@,
                    file@,
                    all,
                    link_ix,
                    match_ix,
                    i as nat,
                )->Some_0,
        {
            let captures = &matches[i];
            let ghost cs = syntax::capture_models(captures@);
            assert(all[i as int] == cs);
            assert(cs.len() == captures@.len());
            if let Some(link_at) = matching::find_capture(captures, link_ix) {
                let marked = match match_ix {
                    Some(n) => matching::find_capture(captures, n),
                    None => None,
                };
                let at = match marked {
                    Some(k) => k,
                    None => link_at,
                };
                assert(at == sink_node(cs, link_at as int, match_ix));
                let link_node = &captures[link_at].node;
                let node = &captures[at].node;
                assert(cs[link_at as int].node == link_node@);
                assert(cs[at as int].node == node@);
                if !file.spans(link_node) || !file.holds(node) {
                    proof {
                        lemma_sinks_stop(
                            rule_idx,
                            rule@,
                            file@,
                            all,
                            link_ix,
                            match_ix,
                            (i + 1) as nat,
                            all.len(),
                        );
                    }
                    return false;
                }
                let ghost before = self@.sinks;
                let link = file.match_text(link_node);
                let finding = file.finding(rule, node);
                let ghost new = SinkModel { rule_idx, link: link@, finding: finding@ };
                self.sinks.push(Sink { rule_idx, link, finding });
                assert(self@.sinks =~= before.push(new));
                assert(self@.sinks =~= start + sinks_of(
                    rule_idx,
                    rule@,
                    file@,
                    all,
                    link_ix,
                    match_ix,
                    (i + 1) as nat,
                )->Some_0);
            }
        }
        true
    }

    /// The findings of the sinks that some source feeds.
    pub fn join(&self) -> (r: Vec<Finding>)
        requires
            self.wf(),
        ensures
            finding::models(r@) == joined_findings(self@.sources, self@.sinks),
    {
        let ghost sources = self@.sources;
        let ghost sinks = self@.sinks;
        let mut out: Vec<Finding> = Vec::new();
        assert(finding::models(out@) =~= joined_findings(sources, sinks.take(0)));
        for i in 0..self.sinks.len()
            invariant
                self.wf(),
                sources == self.sources@,
                sinks == sink_models(self.sinks@),
                finding::models(out@) == joined_findings(sources, sinks.take(i as int)),
        {
            let x = &self.sinks[i];
            assert(sinks.take(i + 1).drop_last() =~= sinks.take(i as int));
            assert(sinks.take(i + 1).last() == x@);
            let key = diff::key_of(x.link.as_str(), x.rule_idx);
            assert(earliest(sources, x.rule_idx, x.link@) == held(self.earliest@, key@));
            if let Some(loc) = self.earliest.get(key.as_str()) {
                let ghost before = finding::models(out@);
                let mut f = x.finding.clone();
                f.message.append(" (source: ");
                f.message.append(loc.0.as_str());
                f.message.append(":");
                f.message.append(text::decimal_string(loc.1).as_str());
                f.message.append(")");
                assert(f@ == fired(x@, (loc.0@, loc.1)));
                out.push(f);
                assert(finding::models(out@) =~= before.push(fired(x@, (loc.0@, loc.1))));
            }
        }
        assert(sinks.take(sinks.len() as int) =~= sinks);
        out
    }
}

// ---------------------------------------------------------------------------
// What joining promises
// ---------------------------------------------------------------------------

proof fn lemma_earliest(s: Seq<SourceModel>, rule_idx: usize, link: Seq<char>)
    ensures
        earliest(s, rule_idx, link) is Some <==> exists|i: int|
            0 <= i < s.len() && (#[trigger] s[i]).rule_idx == rule_idx && s[i].link == link,
        earliest(s, rule_idx, link) matches Some(loc) ==> {
            &&& exists|i: int|
                0 <= i < s.len() && (#[trigger] s[i]).rule_idx == rule_idx && s[i].link == link
                    && (s[i].file, s[i].line) == loc
            &&& forall|i: int|
                0 <= i < s.len() && (#[trigger] s[i]).rule_idx == rule_idx && s[i].link == link
                    ==> !earlier((s[i].file, s[i].line), loc)
        },
    decreases s.len(),
{
    if s.len() > 0 {
        let init = s.drop_last();
        lemma_earliest(init, rule_idx, link);
        let x = s.last();
        let hit = x.rule_idx == rule_idx && x.link == link;
        assert forall|i: int| 0 <= i < init.len() implies init[i] == s[i] by {}
        match earliest(init, rule_idx, link) {
            None => {
                if hit {
                    assert(s[s.len() - 1] == x);
                    order::lemma_compare_text_antisymmetric(x.file, x.file);
                    assert forall|i: int|
                        0 <= i < s.len() && (#[trigger] s[i]).rule_idx == rule_idx && s[i].link
                            == link implies !earlier((s[i].file, s[i].line), (x.file, x.line)) by {
                        if i < init.len() {
                            assert(init[i] == s[i]);
                        }
                    }
                } else {
                    assert forall|i: int| 0 <= i < s.len() implies !((#[trigger] s[i]).rule_idx
                        == rule_idx && s[i].link == link) by {
                        if i < init.len() {
                            assert(init[i] == s[i]);
                        }
                    }
                }
            },
            Some(loc) => {
                let k = choose|i: int|
                    0 <= i < init.len() && (#[trigger] init[i]).rule_idx == rule_idx
                        && init[i].link == link && (init[i].file, init[i].line) == loc;
                assert(s[k] == init[k]);
                let new = (x.file, x.line);
                let best = if hit && earlier(new, loc) {
                    new
                } else {
                    loc
                };
                assert(s[s.len() - 1] == x);
                assert forall|i: int|
                    0 <= i < s.len() && (#[trigger] s[i]).rule_idx == rule_idx && s[i].link
                        == link implies !earlier((s[i].file, s[i].line), best) by {
                    let here = (s[i].file, s[i].line);
                    if i < init.len() {
                        assert(init[i] == s[i]);
                        assert(!earlier(here, loc));
                        if best == new && earlier(here, new) {
                            lemma_earlier_transitive(here, new, loc);
                        }
                    } else {
                        lemma_earlier_irreflexive(new);
                    }
                }
            },
        }
    }
}

proof fn lemma_earlier_irreflexive(a: (Seq<char>, usize))
    ensures
        !earlier(a, a),
{
    order::lemma_compare_text_antisymmetric(a.0, a.0);
}

proof fn lemma_earlier_transitive(
    a: (Seq<char>, usize),
    b: (Seq<char>, usize),
    c: (Seq<char>, usize),
)
    requires
        earlier(a, b),
        earlier(b, c),
    ensures
        earlier(a, c),
{
    order::lemma_compare_text_antisymmetric(a.0, b.0);
    order::lemma_compare_text_antisymmetric(b.0, c.0);
    order::lemma_compare_text_antisymmetric(a.0, c.0);
    order::lemma_compare_text_transitive(a.0, b.0, c.0);
    if a.0 == c.0 && a.0 != b.0 {
        order::lemma_compare_text_antisymmetric(b.0, a.0);
    }
}

/// A sink fires exactly when some source of its rule captures its link, in whichever file;
/// its message then names the earliest such source.
pub proof fn lemma_sink_fires(sources: Seq<SourceModel>, sinks: Seq<SinkModel>, k: int)
    requires
        0 <= k < sinks.len(),
    ensures
        (exists|i: int|
            0 <= i < sources.len() && (#[trigger] sources[i]).rule_idx == sinks[k].rule_idx
                && sources[i].link == sinks[k].link) ==> exists|i: int|
            0 <= i < sources.len() && (#[trigger] sources[i]).rule_idx == sinks[k].rule_idx
                && sources[i].link == sinks[k].link && joined_findings(sources, sinks).contains(
                fired(sinks[k], (sources[i].file, sources[i].line)),
            ) && forall|j: int|
                0 <= j < sources.len() && (#[trigger] sources[j]).rule_idx == sinks[k].rule_idx
                    && sources[j].link == sinks[k].link ==> !earlier(
                    (sources[j].file, sources[j].line),
                    (sources[i].file, sources[i].line),
                ),
{
    let x = sinks[k];
    lemma_earliest(sources, x.rule_idx, x.link);
    if earliest(sources, x.rule_idx, x.link) is Some {
        let loc = earliest(sources, x.rule_idx, x.link)->Some_0;
        lemma_joined_contains(sources, sinks, k, loc);
        let i = choose|i: int|
            0 <= i < sources.len() && (#[trigger] sources[i]).rule_idx == x.rule_idx
                && sources[i].link == x.link && (sources[i].file, sources[i].line) == loc;
        assert(joined_findings(sources, sinks).contains(
            fired(x, (sources[i].file, sources[i].line)),
        ));
    }
}

proof fn lemma_joined_contains(
    sources: Seq<SourceModel>,
    sinks: Seq<SinkModel>,
    k: int,
    loc: (Seq<char>, usize),
)
    requires
        0 <= k < sinks.len(),
        earliest(sources, sinks[k].rule_idx, sinks[k].link) == Some(loc),
    ensures
        joined_findings(sources, sinks).contains(fired(sinks[k], loc)),
    decreases sinks.len(),
{
    let all = joined_findings(sources, sinks);
    let init = sinks.drop_last();
    if k == sinks.len() - 1 {
        assert(all[all.len() - 1] == fired(sinks[k], loc));
    } else {
        assert(init[k] == sinks[k]);
        lemma_joined_contains(sources, init, k, loc);
        let before = joined_findings(sources, init);
        let i = choose|i: int| 0 <= i < before.len() && before[i] == fired(sinks[k], loc);
        assert(all[i] == before[i]);
    }
}

/// Nothing fires without a source: every joined finding is one of the sinks, fed by some
/// source that shares its rule and its link, and keeps the sink's identity.
pub proof fn lemma_joined_from_sinks(sources: Seq<SourceModel>, sinks: Seq<SinkModel>)
    ensures
        joined_findings(sources, sinks).len() <= sinks.len(),
        forall|i: int|
            #![trigger joined_findings(sources, sinks)[i]]
            0 <= i < joined_findings(sources, sinks).len() ==> exists|k: int, j: int|
                #![trigger sinks[k], sources[j]]
                0 <= k < sinks.len() && 0 <= j < sources.len() && sources[j].rule_idx
                    == sinks[k].rule_idx && sources[j].link == sinks[k].link
                    && joined_findings(sources, sinks)[i] == fired(
                    sinks[k],
                    (sources[j].file, sources[j].line),
                ) && joined_findings(sources, sinks)[i].fingerprint == sinks[k].finding.fingerprint,
    decreases sinks.len(),
{
    if sinks.len() > 0 {
        let init = sinks.drop_last();
        lemma_joined_from_sinks(sources, init);
        let before = joined_findings(sources, init);
        let all = joined_findings(sources, sinks);
        let x = sinks.last();
        lemma_earliest(sources, x.rule_idx, x.link);
        assert forall|i: int| #![trigger all[i]] 0 <= i < all.len() implies exists|k: int, j: int|
            #![trigger sinks[k], sources[j]]
            0 <= k < sinks.len() && 0 <= j < sources.len() && sources[j].rule_idx
                == sinks[k].rule_idx && sources[j].link == sinks[k].link && all[i] == fired(
                sinks[k],
                (sources[j].file, sources[j].line),
            ) && all[i].fingerprint == sinks[k].finding.fingerprint by {
            if i < before.len() {
                assert(all[i] == before[i]);
                let (k, j) = choose|k: int, j: int|
                    #![trigger init[k], sources[j]]
                    0 <= k < init.len() && 0 <= j < sources.len() && sources[j].rule_idx
                        == init[k].rule_idx && sources[j].link == init[k].link && before[i]
                        == fired(init[k], (sources[j].file, sources[j].line))
                        && before[i].fingerprint == init[k].finding.fingerprint;
                assert(sinks[k] == init[k]);
                assert(sources[j].rule_idx == sinks[k].rule_idx);
            } else {
                let loc = earliest(sources, x.rule_idx, x.link)->Some_0;
                let j = choose|j: int|
                    0 <= j < sources.len() && (#[trigger] sources[j]).rule_idx == x.rule_idx
                        && sources[j].link == x.link && (sources[j].file, sources[j].line) == loc;
                assert(sinks[sinks.len() - 1] == x);
                assert(sources[j].rule_idx == sinks[sinks.len() - 1].rule_idx);
            }
        }
    }
}

// ---------------------------------------------------------------------------
// Every link is collected
// ---------------------------------------------------------------------------

/// Is this the node that a sink is reported at: the first under the marking number where there
/// is one, and the link itself otherwise?
pub open spec fn sink_reported_at(
    captures: Seq<syntax::CaptureModel>,
    link: int,
    number: Option<u32>,
    k: int,
) -> bool {
    if number is Some && matching::captures_under(captures, number->Some_0) {
        matching::first_under(captures, number->Some_0, k)
    } else {
        k == link
    }
}

/// Is this what one match of a sink query makes: a sink with the text of its first link, whose
/// finding tells of the match's node?
pub open spec fn sink_made(
    x: SinkModel,
    rule_idx: usize,
    r: rule::RuleModel,
    file: matching::FileModel,
    captures: Seq<syntax::CaptureModel>,
    link_number: u32,
    match_number: Option<u32>,
) -> bool {
    &&& x.rule_idx == rule_idx
    &&& forall|l: int|
        #![trigger matching::first_under(captures, link_number, l)]
        matching::first_under(captures, link_number, l) ==> x.link == fingerprint::match_text(
            file.source,
            captures[l].node,
        )
    &&& forall|l: int, k: int|
        #![trigger matching::first_under(captures, link_number, l), sink_reported_at(captures, l, match_number, k)]
        matching::first_under(captures, link_number, l) && sink_reported_at(
            captures,
            l,
            match_number,
            k,
        ) ==> matching::tells_of(x.finding, r, file, captures[k].node)
}

/// Do the nodes that a match of a sink query is read from stand in the source?
pub open spec fn sink_stands(
    file: matching::FileModel,
    captures: Seq<syntax::CaptureModel>,
    link_number: u32,
    match_number: Option<u32>,
) -> bool {
    forall|k: int|
        0 <= k < captures.len() && ((#[trigger] captures[k]).index == link_number || match_number
            == Some(captures[k].index)) ==> matching::stands_in(file.source, captures[k].node)
}

/// Every sink is collected, once: the sinks of a rule's matches in a file are, in the order of the
/// matches, one for each match that captures a link, with the text of that link and a finding at
/// that match. The result names the match that each sink is of.
pub proof fn lemma_every_sink_collected(
    rule_idx: usize,
    r: rule::RuleModel,
    file: matching::FileModel,
    matches: Seq<Seq<syntax::CaptureModel>>,
    link_number: u32,
    match_number: Option<u32>,
) -> (w: Seq<int>)
    ensures
        (forall|j: int|
            0 <= j < matches.len() ==> sink_stands(
                file,
                #[trigger] matches[j],
                link_number,
                match_number,
            )) ==> sinks_of(
            rule_idx,
            r,
            file,
            matches,
            link_number,
            match_number,
            matches.len(),
        ) is Some,
        sinks_of(
            rule_idx,
            r,
            file,
            matches,
            link_number,
            match_number,
            matches.len(),
        ) matches Some(sinks) ==> {
            &&& w.len() == sinks.len()
            &&& forall|i: int, j: int|
                #![trigger w[i], w[j]]
                0 <= i < j < w.len() ==> w[i] < w[j]
            &&& forall|j: int|
                0 <= j < matches.len() && matching::captures_under(#[trigger] matches[j], link_number)
                    <==> w.contains(j)
            &&& forall|i: int|
                0 <= i < w.len() ==> sink_made(
                    sinks[i],
                    rule_idx,
                    r,
                    file,
                    matches[#[trigger] w[i]],
                    link_number,
                    match_number,
                )
        },
{
    if forall|j: int|
        0 <= j < matches.len() ==> sink_stands(
            file,
            #[trigger] matches[j],
            link_number,
            match_number,
        ) {
        lemma_standing_sinks_collected(
            rule_idx,
            r,
            file,
            matches,
            link_number,
            match_number,
            matches.len(),
        );
    }
    if sinks_of(rule_idx, r, file, matches, link_number, match_number, matches.len()) is Some {
        lemma_sinks_listed(rule_idx, r, file, matches, link_number, match_number, matches.len())
    } else {
        seq![]
    }
}

proof fn lemma_sink_node(
    captures: Seq<syntax::CaptureModel>,
    link_number: u32,
    match_number: Option<u32>,
)
    ensures
        ({
            let l = matching::capture_from(captures, 0, link_number);
            let k = sink_node(captures, l, match_number);
            &&& matching::captures_under(captures, link_number) <==> l >= 0
            &&& l >= 0 ==> matching::first_under(captures, link_number, l) && sink_reported_at(
                captures,
                l,
                match_number,
                k,
            ) && 0 <= k < captures.len()
        }),
{
    matching::lemma_first_capture(captures, link_number);
    if let Some(n) = match_number {
        matching::lemma_first_capture(captures, n);
    }
}

proof fn lemma_sink_made(
    rule_idx: usize,
    r: rule::RuleModel,
    file: matching::FileModel,
    captures: Seq<syntax::CaptureModel>,
    link_number: u32,
    match_number: Option<u32>,
)
    requires
        ({
            let l = matching::capture_from(captures, 0, link_number);
            let k = sink_node(captures, l, match_number);
            l >= 0 && matching::lies_in(file.source, captures[k].node)
        }),
    ensures
        ({
            let l = matching::capture_from(captures, 0, link_number);
            let k = sink_node(captures, l, match_number);
            sink_made(
                SinkModel {
                    rule_idx,
                    link: fingerprint::match_text(file.source, captures[l].node),
                    finding: matching::finding_at(r, file, captures[k].node),
                },
                rule_idx,
                r,
                file,
                captures,
                link_number,
                match_number,
            )
        }),
{
    lemma_sink_node(captures, link_number, match_number);
    let l = matching::capture_from(captures, 0, link_number);
    let k = sink_node(captures, l, match_number);
    let x = SinkModel {
        rule_idx,
        link: fingerprint::match_text(file.source, captures[l].node),
        finding: matching::finding_at(r, file, captures[k].node),
    };
    matching::lemma_finding_tells(r, file, captures[k].node);
    assert forall|m: int|
        #![trigger matching::first_under(captures, link_number, m)]
        matching::first_under(captures, link_number, m) implies m == l by {
        lemma_first_under_once(captures, link_number, m, l);
    }
    assert forall|m: int, i: int|
        #![trigger matching::first_under(captures, link_number, m), sink_reported_at(captures, m, match_number, i)]
        matching::first_under(captures, link_number, m) && sink_reported_at(
            captures,
            m,
            match_number,
            i,
        ) implies matching::tells_of(x.finding, r, file, captures[i].node) by {
        lemma_first_under_once(captures, link_number, m, l);
        if match_number is Some && matching::captures_under(captures, match_number->Some_0) {
            lemma_first_under_once(captures, match_number->Some_0, i, k);
        }
    }
}

proof fn lemma_first_under_once(
    captures: Seq<syntax::CaptureModel>,
    number: u32,
    i: int,
    j: int,
)
    requires
        matching::first_under(captures, number, i),
        matching::first_under(captures, number, j),
    ensures
        i == j,
{
    if i < j {
        assert(captures[i].index != number);
    } else if j < i {
        assert(captures[j].index != number);
    }
}

proof fn lemma_standing_sinks_collected(
    rule_idx: usize,
    r: rule::RuleModel,
    file: matching::FileModel,
    matches: Seq<Seq<syntax::CaptureModel>>,
    link_number: u32,
    match_number: Option<u32>,
    n: nat,
)
    requires
        n <= matches.len(),
        forall|j: int|
            0 <= j < matches.len() ==> sink_stands(
                file,
                #[trigger] matches[j],
                link_number,
                match_number,
            ),
    ensures
        sinks_of(rule_idx, r, file, matches, link_number, match_number, n) is Some,
    decreases n,
{
    if n > 0 {
        lemma_standing_sinks_collected(
            rule_idx,
            r,
            file,
            matches,
            link_number,
            match_number,
            (n - 1) as nat,
        );
        let c = matches[n - 1];
        lemma_sink_node(c, link_number, match_number);
        let l = matching::capture_from(c, 0, link_number);
        if l >= 0 {
            let k = sink_node(c, l, match_number);
            assert(sink_stands(file, matches[n - 1], link_number, match_number));
            assert(c[l].index == link_number);
            assert(c[k].index == link_number || match_number == Some(c[k].index));
            matching::lemma_stands_lies(file.source, c[l].node);
            matching::lemma_stands_lies(file.source, c[k].node);
        }
    }
}

proof fn lemma_sinks_listed(
    rule_idx: usize,
    r: rule::RuleModel,
    file: matching::FileModel,
    matches: Seq<Seq<syntax::CaptureModel>>,
    link_number: u32,
    match_number: Option<u32>,
    n: nat,
) -> (w: Seq<int>)
    requires
        n <= matches.len(),
        sinks_of(rule_idx, r, file, matches, link_number, match_number, n) is Some,
    ensures
        ({
            let sinks = sinks_of(rule_idx, r, file, matches, link_number, match_number, n)->Some_0;
            &&& w.len() == sinks.len()
            &&& forall|i: int, j: int|
                #![trigger w[i], w[j]]
                0 <= i < j < w.len() ==> w[i] < w[j]
            &&& forall|j: int|
                0 <= j < n && matching::captures_under(#[trigger] matches[j], link_number)
                    <==> w.contains(j)
            &&& forall|i: int|
                0 <= i < w.len() ==> sink_made(
                    sinks[i],
                    rule_idx,
                    r,
                    file,
                    matches[#[trigger] w[i]],
                    link_number,
                    match_number,
                )
        }),
    decreases n,
{
    if n == 0 {
        seq![]
    } else {
        let m = (n - 1) as nat;
        let v = lemma_sinks_listed(rule_idx, r, file, matches, link_number, match_number, m);
        let c = matches[n - 1];
        lemma_sink_node(c, link_number, match_number);
        assert forall|i: int| 0 <= i < v.len() implies 0 <= #[trigger] v[i] < m by {
            assert(v.contains(v[i]));
        }
        if matching::captures_under(c, link_number) {
            lemma_sink_made(rule_idx, r, file, c, link_number, match_number);
            let w = v.push(n - 1);
            assert forall|j: int|
                0 <= j < n && matching::captures_under(#[trigger] matches[j], link_number)
                    <==> w.contains(j) by {
                if w.contains(j) && j != n - 1 {
                    let i = choose|i: int| 0 <= i < w.len() && w[i] == j;
                    assert(v[i] == j);
                    assert(v.contains(j));
                }
                if v.contains(j) {
                    let i = choose|i: int| 0 <= i < v.len() && v[i] == j;
                    assert(w[i] == j);
                }
                assert(w[v.len() as int] == n - 1);
            }
            assert forall|i: int| 0 <= i < w.len() implies sink_made(
                sinks_of(rule_idx, r, file, matches, link_number, match_number, n)->Some_0[i],
                rule_idx,
                r,
                file,
                matches[#[trigger] w[i]],
                link_number,
                match_number,
            ) by {
                if i < v.len() {
                    assert(w[i] == v[i]);
                }
            }
            w
        } else {
            v
        }
    }
}

/// Is this what a captured link makes: a source with its text, its file and its line from 1?
pub open spec fn source_made(
    x: SourceModel,
    rule_idx: usize,
    file: matching::FileModel,
    node: syntax::NodeModel,
) -> bool {
    &&& x.rule_idx == rule_idx
    &&& x.link == fingerprint::match_text(file.source, node)
    &&& x.file == fingerprint::path_identity(file.path)
    &&& x.line == node.start.row + 1
}

/// Every source is collected, once: the sources of a rule's matches in a file are one for each
/// captured link, match by match and capture by capture. The result names the match and the
/// capture that each source is of.
pub proof fn lemma_every_source_collected(
    rule_idx: usize,
    file: matching::FileModel,
    matches: Seq<Seq<syntax::CaptureModel>>,
    number: u32,
) -> (w: Seq<(int, int)>)
    ensures
        (forall|j: int, k: int|
            #![trigger matches[j][k]]
            0 <= j < matches.len() && 0 <= k < matches[j].len() && matches[j][k].index == number
                ==> matching::stands_in(file.source, matches[j][k].node)) ==> sources_of(
            rule_idx,
            file,
            matches,
            number,
            matches.len(),
        ) is Some,
        sources_of(rule_idx, file, matches, number, matches.len()) matches Some(sources) ==> {
            &&& w.len() == sources.len()
            &&& w.no_duplicates()
            &&& forall|j: int, k: int|
                #![trigger matches[j][k]]
                0 <= j < matches.len() && 0 <= k < matches[j].len() && matches[j][k].index
                    == number ==> w.contains((j, k))
            &&& forall|i: int|
                0 <= i < w.len() ==> {
                    let (j, k) = #[trigger] w[i];
                    &&& 0 <= j < matches.len()
                    &&& 0 <= k < matches[j].len()
                    &&& matches[j][k].index == number
                    &&& source_made(sources[i], rule_idx, file, matches[j][k].node)
                }
        },
{
    if forall|j: int, k: int|
        #![trigger matches[j][k]]
        0 <= j < matches.len() && 0 <= k < matches[j].len() && matches[j][k].index == number
            ==> matching::stands_in(file.source, matches[j][k].node) {
        lemma_standing_sources_collected(rule_idx, file, matches, number, matches.len());
    }
    if sources_of(rule_idx, file, matches, number, matches.len()) is Some {
        lemma_sources_listed(rule_idx, file, matches, number, matches.len())
    } else {
        seq![]
    }
}

proof fn lemma_standing_links_collected(
    rule_idx: usize,
    file: matching::FileModel,
    captures: Seq<syntax::CaptureModel>,
    number: u32,
    n: nat,
)
    requires
        n <= captures.len(),
        forall|k: int|
            0 <= k < captures.len() && (#[trigger] captures[k]).index == number
                ==> matching::stands_in(file.source, captures[k].node),
    ensures
        sources_in(rule_idx, file, captures, number, n) is Some,
    decreases n,
{
    if n > 0 {
        lemma_standing_links_collected(rule_idx, file, captures, number, (n - 1) as nat);
        if captures[n - 1].index == number {
            matching::lemma_stands_lies(file.source, captures[n - 1].node);
        }
    }
}

proof fn lemma_standing_sources_collected(
    rule_idx: usize,
    file: matching::FileModel,
    matches: Seq<Seq<syntax::CaptureModel>>,
    number: u32,
    n: nat,
)
    requires
        n <= matches.len(),
        forall|j: int, k: int|
            #![trigger matches[j][k]]
            0 <= j < matches.len() && 0 <= k < matches[j].len() && matches[j][k].index == number
                ==> matching::stands_in(file.source, matches[j][k].node),
    ensures
        sources_of(rule_idx, file, matches, number, n) is Some,
    decreases n,
{
    if n > 0 {
        lemma_standing_sources_collected(rule_idx, file, matches, number, (n - 1) as nat);
        let c = matches[n - 1];
        assert forall|k: int| 0 <= k < c.len() && (#[trigger] c[k]).index
            == number implies matching::stands_in(file.source, c[k].node) by {
            assert(matches[n - 1][k] == c[k]);
        }
        lemma_standing_links_collected(rule_idx, file, c, number, c.len());
    }
}

proof fn lemma_links_listed(
    rule_idx: usize,
    file: matching::FileModel,
    captures: Seq<syntax::CaptureModel>,
    number: u32,
    n: nat,
) -> (w: Seq<int>)
    requires
        n <= captures.len(),
        sources_in(rule_idx, file, captures, number, n) is Some,
    ensures
        ({
            let sources = sources_in(rule_idx, file, captures, number, n)->Some_0;
            &&& w.len() == sources.len()
            &&& w.no_duplicates()
            &&& forall|k: int|
                0 <= k < n && (#[trigger] captures[k]).index == number ==> w.contains(k)
            &&& forall|i: int|
                0 <= i < w.len() ==> {
                    let k = #[trigger] w[i];
                    &&& 0 <= k < n
                    &&& captures[k].index == number
                    &&& source_made(sources[i], rule_idx, file, captures[k].node)
                }
        }),
    decreases n,
{
    if n == 0 {
        seq![]
    } else {
        let v = lemma_links_listed(rule_idx, file, captures, number, (n - 1) as nat);
        if captures[n - 1].index == number {
            let w = v.push(n - 1);
            assert forall|k: int| 0 <= k < n && (#[trigger] captures[k]).index
                == number implies w.contains(k) by {
                if k < n - 1 {
                    let i = choose|i: int| 0 <= i < v.len() && v[i] == k;
                    assert(w[i] == k);
                } else {
                    assert(w[v.len() as int] == k);
                }
            }
            w
        } else {
            v
        }
    }
}

proof fn lemma_sources_listed(
    rule_idx: usize,
    file: matching::FileModel,
    matches: Seq<Seq<syntax::CaptureModel>>,
    number: u32,
    n: nat,
) -> (w: Seq<(int, int)>)
    requires
        n <= matches.len(),
        sources_of(rule_idx, file, matches, number, n) is Some,
    ensures
        ({
            let sources = sources_of(rule_idx, file, matches, number, n)->Some_0;
            &&& w.len() == sources.len()
            &&& w.no_duplicates()
            &&& forall|j: int, k: int|
                #![trigger matches[j][k]]
                0 <= j < n && 0 <= k < matches[j].len() && matches[j][k].index == number
                    ==> w.contains((j, k))
            &&& forall|i: int|
                0 <= i < w.len() ==> {
                    let (j, k) = #[trigger] w[i];
                    &&& 0 <= j < n
                    &&& 0 <= k < matches[j].len()
                    &&& matches[j][k].index == number
                    &&& source_made(sources[i], rule_idx, file, matches[j][k].node)
                }
        }),
    decreases n,
{
    if n == 0 {
        seq![]
    } else {
        let c = matches[n - 1];
        let v = lemma_sources_listed(rule_idx, file, matches, number, (n - 1) as nat);
        let u = lemma_links_listed(rule_idx, file, c, number, c.len());
        let x = u.map_values(|k: int| (n - 1, k));
        let w = v + x;
        let sources = sources_of(rule_idx, file, matches, number, n)->Some_0;
        assert forall|i: int| 0 <= i < w.len() implies {
            let (j, k) = #[trigger] w[i];
            &&& 0 <= j < n
            &&& 0 <= k < matches[j].len()
            &&& matches[j][k].index == number
            &&& source_made(sources[i], rule_idx, file, matches[j][k].node)
        } by {
            if i < v.len() {
                assert(w[i] == v[i]);
            } else {
                assert(w[i] == x[i - v.len()]);
                assert(w[i] == (n - 1, u[i - v.len()]));
            }
        }
        assert(w.no_duplicates()) by {
            assert forall|a: int, b: int| 0 <= a < w.len() && 0 <= b < w.len() && a != b implies w[a]
                != w[b] by {
                if a < v.len() && b < v.len() {
                    assert(v[a] != v[b]);
                } else if a >= v.len() && b >= v.len() {
                    assert(u[a - v.len()] != u[b - v.len()]);
                } else if a < v.len() {
                    assert(v[a].0 < n - 1);
                } else {
                    assert(v[b].0 < n - 1);
                }
            }
        }
        assert forall|j: int, k: int|
            #![trigger matches[j][k]]
            0 <= j < n && 0 <= k < matches[j].len() && matches[j][k].index
                == number implies w.contains((j, k)) by {
            if j < n - 1 {
                let i = choose|i: int| 0 <= i < v.len() && v[i] == (j, k);
                assert(w[i] == (j, k));
            } else {
                assert(c[k].index == number);
                let i = choose|i: int| 0 <= i < u.len() && u[i] == k;
                assert(w[v.len() + i] == (j, k));
            }
        }
        w
    }
}

// ---------------------------------------------------------------------------
// Every fed sink fires
// ---------------------------------------------------------------------------

/// Does a source feed a sink: do they share a rule and a link?
pub open spec fn feeds(a: SourceModel, b: SinkModel) -> bool {
    a.rule_idx == b.rule_idx && a.link == b.link
}

/// Is it the finding of a sink with a source behind its message that feeds the sink, where none
/// that does is in an earlier file, or earlier in that file?
pub open spec fn fired_from(
    f: finding::FindingModel,
    b: SinkModel,
    sources: Seq<SourceModel>,
    j: int,
) -> bool {
    &&& 0 <= j < sources.len()
    &&& feeds(sources[j], b)
    &&& f == finding::FindingModel { message: f.message, ..b.finding }
    &&& f.message == b.finding.message + " (source: "@ + sources[j].file + ":"@ + text::decimal(
        sources[j].line as nat,
    ) + ")"@
    &&& forall|k: int|
        0 <= k < sources.len() && feeds(#[trigger] sources[k], b) ==> order::compare_text(
            sources[j].file,
            sources[k].file,
        ) < 0 || (sources[j].file == sources[k].file && sources[j].line <= sources[k].line)
}

/// Joining gives one finding for each sink that some source feeds, in the order of the sinks, and no
/// other; each names the earliest such source.
pub proof fn lemma_joined_exactly(sources: Seq<SourceModel>, sinks: Seq<SinkModel>) -> (w: Seq<
    (int, int),
>)
    ensures
        w.len() == joined_findings(sources, sinks).len(),
        forall|i: int|
            0 <= i < w.len() ==> 0 <= (#[trigger] w[i]).0 < sinks.len() && fired_from(
                joined_findings(sources, sinks)[i],
                sinks[w[i].0],
                sources,
                w[i].1,
            ),
        forall|i: int, j: int| 0 <= i < j < w.len() ==> (#[trigger] w[i]).0 < (#[trigger] w[j]).0,
        forall|k: int, j: int|
            0 <= k < sinks.len() && 0 <= j < sources.len() && feeds(
                #[trigger] sources[j],
                #[trigger] sinks[k],
            ) ==> exists|i: int| 0 <= i < w.len() && (#[trigger] w[i]).0 == k,
    decreases sinks.len(),
{
    if sinks.len() == 0 {
        seq![]
    } else {
        let init = sinks.drop_last();
        let n = init.len() as int;
        let before = lemma_joined_exactly(sources, init);
        let x = sinks[n];
        let all = joined_findings(sources, sinks);
        lemma_earliest(sources, x.rule_idx, x.link);
        assert forall|k: int| 0 <= k < n implies init[k] == sinks[k] by {}
        if let Some(loc) = earliest(sources, x.rule_idx, x.link) {
            let j = choose|j: int|
                0 <= j < sources.len() && (#[trigger] sources[j]).rule_idx == x.rule_idx
                    && sources[j].link == x.link && (sources[j].file, sources[j].line) == loc;
            let w = before.push((n, j));
            assert(fired_from(all[before.len() as int], x, sources, j)) by {
                assert forall|k: int|
                    0 <= k < sources.len() && feeds(#[trigger] sources[k], x) implies order::compare_text(
                    sources[j].file,
                    sources[k].file,
                ) < 0 || (sources[j].file == sources[k].file && sources[j].line
                    <= sources[k].line) by {
                    assert(!earlier((sources[k].file, sources[k].line), loc));
                    order::lemma_compare_text_antisymmetric(sources[j].file, sources[k].file);
                }
            }
            assert forall|i: int| 0 <= i < w.len() implies 0 <= (#[trigger] w[i]).0 < sinks.len()
                && fired_from(all[i], sinks[w[i].0], sources, w[i].1) by {
                if i < before.len() {
                    assert(w[i] == before[i]);
                    assert(init[before[i].0] == sinks[w[i].0]);
                }
            }
            assert forall|k: int, l: int|
                0 <= k < sinks.len() && 0 <= l < sources.len() && feeds(
                    #[trigger] sources[l],
                    #[trigger] sinks[k],
                ) implies exists|i: int| 0 <= i < w.len() && (#[trigger] w[i]).0 == k by {
                if k < n {
                    assert(feeds(sources[l], init[k]));
                    let i = choose|i: int| 0 <= i < before.len() && (#[trigger] before[i]).0 == k;
                    assert(w[i].0 == k);
                } else {
                    assert(w[before.len() as int].0 == k);
                }
            }
            w
        } else {
            assert forall|i: int| 0 <= i < before.len() implies 0 <= (#[trigger] before[i]).0
                < sinks.len() && fired_from(all[i], sinks[before[i].0], sources, before[i].1) by {
                assert(init[before[i].0] == sinks[before[i].0]);
            }
            assert forall|k: int, l: int|
                0 <= k < sinks.len() && 0 <= l < sources.len() && feeds(
                    #[trigger] sources[l],
                    #[trigger] sinks[k],
                ) implies exists|i: int| 0 <= i < before.len() && (#[trigger] before[i]).0 == k by {
                if k < n {
                    assert(feeds(sources[l], init[k]));
                } else {
                    assert(sources[l].rule_idx == x.rule_idx && sources[l].link == x.link);
                }
            }
            before
        }
    }
}

} // verus!
