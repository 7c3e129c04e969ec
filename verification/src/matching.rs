//! From query matches to findings.

use vstd::prelude::*;

use crate::finding;
use crate::finding::{Finding, Position};
use crate::fingerprint;
use crate::rule;
use crate::rule::Rule;
use crate::syntax;
use crate::syntax::{Capture, SyntaxNode};
use crate::text;

verus! {

// ---------------------------------------------------------------------------
// Scanned files
// ---------------------------------------------------------------------------

/// A file under scan: its language, the path that its findings carry, and its bytes.
#[verifier::ext_equal]
pub struct FileModel {
    pub language: Seq<char>,
    pub path: Seq<char>,
    pub source: Seq<u8>,
}

/// A file under scan, decoded once.
pub struct SourceFile<'a> {
    language: String,
    path: String,
    identity: String,
    source: &'a [u8],
    lines: Vec<String>,
}

impl<'a> View for SourceFile<'a> {
    type V = FileModel;

    closed spec fn view(&self) -> FileModel {
        FileModel { language: self.language@, path: self.path@, source: self.source@ }
    }
}

impl<'a> SourceFile<'a> {
    /// Are the derived fields what they stand for?
    pub closed spec fn wf(&self) -> bool {
        &&& self.identity@ == fingerprint::path_identity(self.path@)
        &&& text::texts(self.lines@) == fingerprint::source_lines(self.source@)
    }

    /// A file under scan. `path` is the path that its findings carry.
    pub fn open(language: &str, path: &str, source: &'a [u8]) -> (r: Self)
        ensures
            r.wf(),
            r@ == (FileModel { language: language@, path: path@, source: source@ }),
    {
        let decoded = fingerprint::from_utf8_lossy(source);
        SourceFile {
            language: language.to_owned(),
            path: path.to_owned(),
            identity: fingerprint::identity_path(path),
            source,
            lines: text::lines(decoded.as_str()),
        }
    }

    /// The path that identifies the file.
    pub fn identity(&self) -> (r: &String)
        requires
            self.wf(),
        ensures
            r@ == fingerprint::path_identity(self@.path),
    {
        &self.identity
    }
}

/// Can a number be one higher?
pub open spec fn countable(n: usize) -> bool {
    n < usize::MAX
}

/// Does a node span bytes of the source?
pub open spec fn spans(source: Seq<u8>, node: syntax::NodeModel) -> bool {
    node.start_byte <= node.end_byte <= source.len() && countable(node.start.row)
}

/// Does a node lie in the source, with positions that can be numbered from 1? Every node of
/// the source's own syntax tree does.
pub open spec fn lies_in(source: Seq<u8>, node: syntax::NodeModel) -> bool {
    &&& spans(source, node)
    &&& countable(node.start.column)
    &&& countable(node.end.row)
    &&& countable(node.end.column)
    &&& fingerprint::window_fits(
        fingerprint::source_lines(source).len() as int,
        node.start.row as int,
        node.end.row as int,
        fingerprint::CONTEXT_LINES as int,
    )
}

/// The line with the given 0-based number; empty if there is none.
pub open spec fn line_at(lines: Seq<Seq<char>>, row: usize) -> Seq<char> {
    if row < lines.len() {
        lines[row as int]
    } else {
        seq![]
    }
}

/// The content key of a node that a rule matched.
pub open spec fn node_content_key(r: rule::RuleModel, source: Seq<u8>, node: syntax::NodeModel) -> Seq<
    char,
> {
    fingerprint::content_identity(
        r.id,
        fingerprint::match_text(source, node),
        fingerprint::structure(node, fingerprint::DEFAULT_ANCESTOR_DEPTH as nat),
    )
}

/// The finding of a rule at a node. Its identity rests on the rule, the file, the node's text
/// and the kinds of the nodes around it, and not on where the node stands.
pub open spec fn finding_at(r: rule::RuleModel, file: FileModel, node: syntax::NodeModel) -> finding::FindingModel {
    let lines = fingerprint::source_lines(file.source);
    let key = node_content_key(r, file.source, node);
    finding::FindingModel {
        rule_id: r.id,
        message: r.message,
        severity: r.severity,
        language: file.language,
        file: file.path,
        start: Position {
            line: (node.start.row + 1) as usize,
            column: (node.start.column + 1) as usize,
        },
        end: Position {
            line: (node.end.row + 1) as usize,
            column: (node.end.column + 1) as usize,
        },
        snippet: line_at(lines, node.start.row),
        fingerprint: fingerprint::composed(fingerprint::path_identity(file.path), key),
        content_key: key,
        context_hash: fingerprint::window_digest(
            lines,
            node.start.row as int,
            node.end.row as int,
            fingerprint::CONTEXT_LINES as int,
        ),
        occurrence: 0,
        state: None,
        diff_relation: None,
        new_cause: None,
    }
}

impl<'a> SourceFile<'a> {
    /// Does a node span bytes of the source?
    pub fn spans(&self, node: &SyntaxNode) -> (r: bool)
        ensures
            r == spans(self@.source, node@),
    {
        node.start_byte <= node.end_byte && node.end_byte <= self.source.len() && node.start.row
            < usize::MAX
    }

    /// Does a node lie in the source?
    pub fn holds(&self, node: &SyntaxNode) -> (r: bool)
        requires
            self.wf(),
        ensures
            r == lies_in(self@.source, node@),
    {
        assert(self.lines@.len() == text::texts(self.lines@).len());
        self.spans(node) && node.start.column < usize::MAX && node.end.row < usize::MAX
            && node.end.column < usize::MAX && fingerprint::fits_window(
            self.lines.len(),
            node.start.row,
            node.end.row,
            fingerprint::CONTEXT_LINES,
        )
    }

    /// The whitespace-normalized text of a node.
    pub fn match_text(&self, node: &SyntaxNode) -> (r: String)
        requires
            spans(self@.source, node@),
        ensures
            r@ == fingerprint::match_text(self@.source, node@),
    {
        fingerprint::normalized_match_text(self.source, node)
    }

    /// A 0-based line of the source, for display.
    fn line(&self, row: usize) -> (r: String)
        requires
            self.wf(),
        ensures
            r@ == line_at(fingerprint::source_lines(self@.source), row),
    {
        assert(self.lines@.len() == text::texts(self.lines@).len());
        if row < self.lines.len() {
            assert(text::texts(self.lines@)[row as int] == self.lines@[row as int]@);
            self.lines[row].clone()
        } else {
            let r = String::new();
            assert(r@ =~= seq![]);
            r
        }
    }

    /// The finding of a rule at a node.
    pub fn finding(&self, rule: &Rule, node: &SyntaxNode) -> (r: Finding)
        requires
            self.wf(),
            lies_in(self@.source, node@),
        ensures
            r@ == finding_at(rule@, self@, node@),
    {
        assert(self.lines@.len() == text::texts(self.lines@).len());
        let snippet = self.line(node.start.row);
        let normalized = fingerprint::normalized_match_text(self.source, node);
        let structural = fingerprint::structural_path(node, fingerprint::DEFAULT_ANCESTOR_DEPTH);
        let content_key = fingerprint::content_key(
            rule.id.as_str(),
            normalized.as_str(),
            structural.as_str(),
        );
        let fp = fingerprint::compose(self.identity.as_str(), content_key.as_str());
        let context_hash = fingerprint::window_hash(
            &self.lines,
            node.start.row,
            node.end.row,
            fingerprint::CONTEXT_LINES,
        );
        Finding {
            rule_id: rule.id.clone(),
            message: rule.message.clone(),
            severity: rule.severity,
            language: self.language.clone(),
            file: self.path.clone(),
            start: Position { line: node.start.row + 1, column: node.start.column + 1 },
            end: Position { line: node.end.row + 1, column: node.end.column + 1 },
            snippet,
            fingerprint: fp,
            content_key,
            context_hash,
            occurrence: 0,
            state: None,
            diff_relation: None,
            new_cause: None,
        }
    }
}

// ---------------------------------------------------------------------------
// Matches
// ---------------------------------------------------------------------------

/// The first of the captures from `i` on with the given number, or -1.
pub open spec fn capture_from(captures: Seq<syntax::CaptureModel>, i: int, number: u32) -> int
    decreases captures.len() - i,
{
    if i < 0 || i >= captures.len() {
        -1
    } else if captures[i].index == number {
        i
    } else {
        capture_from(captures, i + 1, number)
    }
}

/// Which capture of a match a finding points at: the first with the marking number, or else
/// the first of all; -1 if the match captures nothing.
pub open spec fn pointed_at(captures: Seq<syntax::CaptureModel>, number: Option<u32>) -> int {
    let marked = match number {
        Some(n) => capture_from(captures, 0, n),
        None => -1,
    };
    if marked >= 0 {
        marked
    } else if captures.len() > 0 {
        0
    } else {
        -1
    }
}

pub proof fn lemma_capture_from(captures: Seq<syntax::CaptureModel>, i: int, number: u32)
    requires
        0 <= i,
    ensures
        capture_from(captures, i, number) == -1 || i <= capture_from(captures, i, number)
            < captures.len(),
        capture_from(captures, i, number) >= 0 ==> captures[capture_from(
            captures,
            i,
            number,
        )].index == number,
    decreases captures.len() - i,
{
    if i < captures.len() && captures[i].index != number {
        lemma_capture_from(captures, i + 1, number);
    }
}

/// The first capture with the given number.
pub fn find_capture(captures: &Vec<Capture>, number: u32) -> (r: Option<usize>)
    ensures
        match r {
            Some(k) => k < captures@.len() && k == capture_from(
                syntax::capture_models(captures@),
                0,
                number,
            ),
            None => capture_from(syntax::capture_models(captures@), 0, number) == -1,
        },
{
    let ghost all = syntax::capture_models(captures@);
    for i in 0..captures.len()
        invariant
            all == syntax::capture_models(captures@),
            capture_from(all, 0, number) == capture_from(all, i as int, number),
    {
        assert(all[i as int] == captures@[i as int]@);
        if captures[i].index == number {
            return Some(i);
        }
    }
    None
}

fn find_pointed(captures: &Vec<Capture>, number: Option<u32>) -> (r: Option<usize>)
    ensures
        match r {
            Some(k) => k < captures@.len() && k == pointed_at(
                syntax::capture_models(captures@),
                number,
            ),
            None => pointed_at(syntax::capture_models(captures@), number) == -1,
        },
{
    assert(captures@.len() == syntax::capture_models(captures@).len());
    let marked = match number {
        Some(n) => find_capture(captures, n),
        None => None,
    };
    match marked {
        Some(k) => Some(k),
        None => if captures.len() > 0 {
            Some(0)
        } else {
            None
        },
    }
}

/// The findings of the first `n` matches of a rule's query in a file: one for each match that
/// captures something; none at all where such a node does not lie in the source.
pub open spec fn findings_of(
    r: rule::RuleModel,
    file: FileModel,
    matches: Seq<Seq<syntax::CaptureModel>>,
    number: Option<u32>,
    n: nat,
) -> Option<Seq<finding::FindingModel>>
    decreases n,
{
    if n == 0 {
        Some(seq![])
    } else {
        match findings_of(r, file, matches, number, (n - 1) as nat) {
            None => None,
            Some(before) => {
                let captures = matches[n - 1];
                let k = pointed_at(captures, number);
                if k < 0 {
                    Some(before)
                } else if lies_in(file.source, captures[k].node) {
                    Some(before.push(finding_at(r, file, captures[k].node)))
                } else {
                    None
                }
            },
        }
    }
}

pub proof fn lemma_findings_stop(
    r: rule::RuleModel,
    file: FileModel,
    matches: Seq<Seq<syntax::CaptureModel>>,
    number: Option<u32>,
    i: nat,
    n: nat,
)
    requires
        i <= n,
        findings_of(r, file, matches, number, i) is None,
    ensures
        findings_of(r, file, matches, number, n) is None,
    decreases n - i,
{
    if i < n {
        lemma_findings_stop(r, file, matches, number, i, (n - 1) as nat);
    }
}

/// What a list of findings holds, where there is one.
pub open spec fn opt_models(s: Option<Vec<Finding>>) -> Option<Seq<finding::FindingModel>> {
    match s {
        Some(v) => Some(finding::models(v@)),
        None => None,
    }
}

/// The findings of a rule's query matches in a file: one for each match that captures
/// something, at its marked capture or else at its first. None where such a node does not
/// lie in the source.
pub fn match_findings(
    rule: &Rule,
    file: &SourceFile<'_>,
    matches: &Vec<Vec<Capture>>,
    match_capture_ix: Option<u32>,
) -> (r: Option<Vec<Finding>>)
    requires
        file.wf(),
    ensures
        opt_models(r) == findings_of(
            rule@,
            file@,
            syntax::match_models(matches@),
            match_capture_ix,
            matches@.len(),
        ),
{
    let ghost all = syntax::match_models(matches@);
    let mut out: Vec<Finding> = Vec::new();
    assert(finding::models(out@) =~= seq![]);
    for i in 0..matches.len()
        invariant
            file.wf(),
            all == syntax::match_models(matches@),
            findings_of(rule@, file@, all, match_capture_ix, i as nat) == Some(
                finding::models(out@),
            ),
    {
        let captures = &matches[i];
        assert(all[i as int] == syntax::capture_models(captures@));
        if let Some(k) = find_pointed(captures, match_capture_ix) {
            let node = &captures[k].node;
            assert(all[i as int][k as int].node == node@);
            if !file.holds(node) {
                proof {
                    lemma_findings_stop(
                        rule@,
                        file@,
                        all,
                        match_capture_ix,
                        (i + 1) as nat,
                        matches@.len(),
                    );
                }
                return None;
            }
            let ghost before = finding::models(out@);
            out.push(file.finding(rule, node));
            assert(finding::models(out@) =~= before.push(finding_at(rule@, file@, node@)));
        }
    }
    Some(out)
}

// ---------------------------------------------------------------------------
// What a finding's identity rests on
// ---------------------------------------------------------------------------

/// A finding keeps its identity when its node moves within a file: where rule and path stay,
/// and the node has the same text and the same kinds around it, the fingerprint stays,
/// whatever its lines, its columns and the rest of the source are.
pub proof fn lemma_identity_survives_shift(
    r: rule::RuleModel,
    file: FileModel,
    node: syntax::NodeModel,
    other_file: FileModel,
    other: syntax::NodeModel,
)
    requires
        file.path == other_file.path,
        fingerprint::match_text(file.source, node) == fingerprint::match_text(
            other_file.source,
            other,
        ),
        fingerprint::structure(node, fingerprint::DEFAULT_ANCESTOR_DEPTH as nat)
            == fingerprint::structure(other, fingerprint::DEFAULT_ANCESTOR_DEPTH as nat),
    ensures
        finding_at(r, file, node).fingerprint == finding_at(r, other_file, other).fingerprint,
        finding_at(r, file, node).content_key == finding_at(r, other_file, other).content_key,
{
}

/// A finding's content key does not depend on the file's path, so that the fingerprint of the
/// same code under another path is composed from it.
pub proof fn lemma_content_key_without_path(
    r: rule::RuleModel,
    file: FileModel,
    node: syntax::NodeModel,
    path: Seq<char>,
)
    ensures
        ({
            let there = finding_at(r, FileModel { path, ..file }, node);
            &&& there.content_key == finding_at(r, file, node).content_key
            &&& there.fingerprint == fingerprint::composed(
                fingerprint::path_identity(path),
                finding_at(r, file, node).content_key,
            )
        }),
{
}

// ---------------------------------------------------------------------------
// Every match is reported
// ---------------------------------------------------------------------------

/// Does a match capture a node under the given number?
pub open spec fn captures_under(captures: Seq<syntax::CaptureModel>, number: u32) -> bool {
    exists|i: int| 0 <= i < captures.len() && (#[trigger] captures[i]).index == number
}

/// Is this the first node that a match captures under the given number?
pub open spec fn first_under(captures: Seq<syntax::CaptureModel>, number: u32, k: int) -> bool {
    &&& 0 <= k < captures.len()
    &&& captures[k].index == number
    &&& forall|i: int| 0 <= i < k ==> (#[trigger] captures[i]).index != number
}

/// Is this the node that a match is reported at: the first under the marking number where there
/// is one, and the first of all otherwise?
pub open spec fn reported_at(
    captures: Seq<syntax::CaptureModel>,
    number: Option<u32>,
    k: int,
) -> bool {
    if number is Some && captures_under(captures, number->Some_0) {
        first_under(captures, number->Some_0, k)
    } else {
        k == 0 && captures.len() > 0
    }
}

/// Does a node stand in the source: its bytes are bytes of the source, it starts no later than
/// it ends and no later than right behind the last line, and its numbers can be counted on?
pub open spec fn stands_in(source: Seq<u8>, node: syntax::NodeModel) -> bool {
    &&& node.start_byte <= node.end_byte <= source.len()
    &&& node.start.row <= node.end.row
    &&& node.start.row <= fingerprint::source_lines(source).len()
    &&& node.end.row + 2 <= usize::MAX
    &&& node.start.column < usize::MAX
    &&& node.end.column < usize::MAX
}

/// Does a finding tell of a node what its rule and its file say, but for the message? Lines and
/// columns are numbered from 1, the identity is hashed from the rule, the node's text, the kinds
/// around it and the file's path, and the context from the node's lines and two on either side.
pub open spec fn tells_where(
    f: finding::FindingModel,
    r: rule::RuleModel,
    file: FileModel,
    node: syntax::NodeModel,
) -> bool {
    let lines = fingerprint::source_lines(file.source);
    let from = if node.start.row <= 2 {
        0
    } else {
        node.start.row - 2
    };
    let to = if node.end.row + 3 <= lines.len() {
        node.end.row + 3
    } else {
        lines.len() as int
    };
    &&& f.rule_id == r.id
    &&& f.severity == r.severity
    &&& f.language == file.language
    &&& f.file == file.path
    &&& f.start.line == node.start.row + 1
    &&& f.start.column == node.start.column + 1
    &&& f.end.line == node.end.row + 1
    &&& f.end.column == node.end.column + 1
    &&& node.start.row < lines.len() ==> f.snippet == lines[node.start.row as int]
    &&& node.start.row >= lines.len() ==> f.snippet.len() == 0
    &&& f.content_key == fingerprint::digest_of(
        seq![
            r.id,
            fingerprint::match_text(file.source, node),
            fingerprint::structure(node, 3),
        ],
    )
    &&& f.fingerprint == fingerprint::digest_of(
        seq![fingerprint::path_identity(file.path), f.content_key],
    )
    &&& lines.len() > 0 ==> f.context_hash == fingerprint::digest_of(
        seq![fingerprint::normalized(text::joined(lines.subrange(from, to), "\n"@))],
    )
    &&& f.occurrence == 0
    &&& f.state is None
    &&& f.diff_relation is None
    &&& f.new_cause is None
}

/// Does a finding tell of a node what its rule and its file say, the rule's message included?
pub open spec fn tells_of(
    f: finding::FindingModel,
    r: rule::RuleModel,
    file: FileModel,
    node: syntax::NodeModel,
) -> bool {
    tells_where(f, r, file, node) && f.message == r.message
}

/// The first capture under a number is found, and none is found where there is none.
pub proof fn lemma_first_capture(captures: Seq<syntax::CaptureModel>, number: u32)
    ensures
        captures_under(captures, number) <==> capture_from(captures, 0, number) >= 0,
        captures_under(captures, number) ==> first_under(
            captures,
            number,
            capture_from(captures, 0, number),
        ),
{
    lemma_first_capture_from(captures, 0, number);
    let k = capture_from(captures, 0, number);
    if captures_under(captures, number) {
        let i = choose|i: int| 0 <= i < captures.len() && (#[trigger] captures[i]).index == number;
        assert(captures[i].index == number);
    }
    if k >= 0 {
        assert(captures[k].index == number);
    }
}

proof fn lemma_first_capture_from(captures: Seq<syntax::CaptureModel>, i: int, number: u32)
    requires
        0 <= i,
    ensures
        ({
            let k = capture_from(captures, i, number);
            if k >= 0 {
                i <= k < captures.len() && captures[k].index == number && forall|j: int|
                    i <= j < k ==> (#[trigger] captures[j]).index != number
            } else {
                forall|j: int| i <= j < captures.len() ==> (#[trigger] captures[j]).index != number
            }
        }),
    decreases captures.len() - i,
{
    if i < captures.len() && captures[i].index != number {
        lemma_first_capture_from(captures, i + 1, number);
    }
}

proof fn lemma_pointed_at(captures: Seq<syntax::CaptureModel>, number: Option<u32>)
    ensures
        captures.len() > 0 <==> pointed_at(captures, number) >= 0,
        captures.len() > 0 ==> reported_at(captures, number, pointed_at(captures, number)),
{
    if let Some(n) = number {
        lemma_first_capture(captures, n);
    }
}

/// A match is reported at one node only.
pub proof fn lemma_reported_once(
    captures: Seq<syntax::CaptureModel>,
    number: Option<u32>,
    i: int,
    j: int,
)
    requires
        reported_at(captures, number, i),
        reported_at(captures, number, j),
    ensures
        i == j,
{
    if i < j {
        assert(captures[i].index == captures[j].index || i == j);
    } else if j < i {
        assert(captures[j].index == captures[i].index || i == j);
    }
}

/// A node that stands in the source can be reported.
pub proof fn lemma_stands_lies(source: Seq<u8>, node: syntax::NodeModel)
    requires
        stands_in(source, node),
    ensures
        spans(source, node),
        lies_in(source, node),
{
}

/// The finding at a node tells of it what the rule and the file say.
pub proof fn lemma_finding_tells(r: rule::RuleModel, file: FileModel, node: syntax::NodeModel)
    requires
        lies_in(file.source, node),
    ensures
        tells_of(finding_at(r, file, node), r, file, node),
{
}

/// Every match is reported, once: the findings of a rule's matches in a file are, in the order of
/// the matches, one for each match that captures something, at its marked node or else at its
/// first. The result names the match that each finding is of.
pub proof fn lemma_every_match_reported(
    r: rule::RuleModel,
    file: FileModel,
    matches: Seq<Seq<syntax::CaptureModel>>,
    number: Option<u32>,
) -> (w: Seq<int>)
    ensures
        (forall|j: int, k: int|
            #![trigger reported_at(matches[j], number, k)]
            0 <= j < matches.len() && reported_at(matches[j], number, k) ==> stands_in(
                file.source,
                matches[j][k].node,
            )) ==> findings_of(r, file, matches, number, matches.len()) is Some,
        findings_of(r, file, matches, number, matches.len()) matches Some(f) ==> {
            &&& w.len() == f.len()
            &&& forall|i: int, j: int|
                #![trigger w[i], w[j]]
                0 <= i < j < w.len() ==> w[i] < w[j]
            &&& forall|j: int|
                0 <= j < matches.len() && (#[trigger] matches[j]).len() > 0 <==> w.contains(j)
            &&& forall|i: int, k: int|
                #![trigger reported_at(matches[w[i]], number, k)]
                0 <= i < w.len() && reported_at(matches[w[i]], number, k) ==> tells_of(
                    f[i],
                    r,
                    file,
                    matches[w[i]][k].node,
                )
        },
{
    if forall|j: int, k: int|
        #![trigger reported_at(matches[j], number, k)]
        0 <= j < matches.len() && reported_at(matches[j], number, k) ==> stands_in(
            file.source,
            matches[j][k].node,
        ) {
        lemma_standing_matches_reported(r, file, matches, number, matches.len());
    }
    if findings_of(r, file, matches, number, matches.len()) is Some {
        let w = lemma_matches_listed(r, file, matches, number, matches.len());
        let f = findings_of(r, file, matches, number, matches.len())->Some_0;
        assert forall|i: int, k: int|
            #![trigger reported_at(matches[w[i]], number, k)]
            0 <= i < w.len() && reported_at(matches[w[i]], number, k) implies tells_of(
            f[i],
            r,
            file,
            matches[w[i]][k].node,
        ) by {
            let c = matches[w[i]];
            assert(w.contains(w[i]));
            lemma_pointed_at(c, number);
            lemma_reported_once(c, number, k, pointed_at(c, number));
            lemma_finding_tells(r, file, c[k].node);
        }
        w
    } else {
        seq![]
    }
}

proof fn lemma_standing_matches_reported(
    r: rule::RuleModel,
    file: FileModel,
    matches: Seq<Seq<syntax::CaptureModel>>,
    number: Option<u32>,
    n: nat,
)
    requires
        n <= matches.len(),
        forall|j: int, k: int|
            #![trigger reported_at(matches[j], number, k)]
            0 <= j < matches.len() && reported_at(matches[j], number, k) ==> stands_in(
                file.source,
                matches[j][k].node,
            ),
    ensures
        findings_of(r, file, matches, number, n) is Some,
    decreases n,
{
    if n > 0 {
        lemma_standing_matches_reported(r, file, matches, number, (n - 1) as nat);
        let c = matches[n - 1];
        lemma_pointed_at(c, number);
        if c.len() > 0 {
            let k = pointed_at(c, number);
            assert(reported_at(matches[n - 1], number, k));
            lemma_stands_lies(file.source, c[k].node);
        }
    }
}

proof fn lemma_matches_listed(
    r: rule::RuleModel,
    file: FileModel,
    matches: Seq<Seq<syntax::CaptureModel>>,
    number: Option<u32>,
    n: nat,
) -> (w: Seq<int>)
    requires
        n <= matches.len(),
        findings_of(r, file, matches, number, n) is Some,
    ensures
        ({
            let f = findings_of(r, file, matches, number, n)->Some_0;
            &&& w.len() == f.len()
            &&& forall|i: int, j: int|
                #![trigger w[i], w[j]]
                0 <= i < j < w.len() ==> w[i] < w[j]
            &&& forall|j: int| 0 <= j < n && (#[trigger] matches[j]).len() > 0 <==> w.contains(j)
            &&& forall|i: int|
                0 <= i < w.len() ==> {
                    let node = matches[#[trigger] w[i]][pointed_at(matches[w[i]], number)].node;
                    lies_in(file.source, node) && f[i] == finding_at(r, file, node)
                }
        }),
    decreases n,
{
    if n == 0 {
        seq![]
    } else {
        let m = (n - 1) as nat;
        let v = lemma_matches_listed(r, file, matches, number, m);
        let c = matches[n - 1];
        lemma_pointed_at(c, number);
        assert forall|i: int| 0 <= i < v.len() implies 0 <= #[trigger] v[i] < m by {
            assert(v.contains(v[i]));
        }
        if c.len() > 0 {
            let w = v.push(n - 1);
            assert forall|j: int| 0 <= j < n && (#[trigger] matches[j]).len() > 0
                <==> w.contains(j) by {
                if w.contains(j) && j != n - 1 {
                    let i = choose|i: int| 0 <= i < w.len() && w[i] == j;
                    assert(v[i] == j);
                    assert(v.contains(j));
                }
                if v.contains(j) {
                    let i = choose|i: int| 0 <= i < v.len() && v[i] == j;
                    assert(w[i] == j);
                }
                assert(w[v.len() as int] == n - 1);
            }
            w
        } else {
            v
        }
    }
}

} // verus!
