//! Human-readable, optionally colorized terminal output.

use vstd::prelude::*;

use crate::diff::Counts;
use crate::finding;
use crate::finding::{Finding, FindingState, NewCause, Severity};
use crate::git::DiffRelation;
use crate::report::style;
use crate::text;

verus! {

// ---------------------------------------------------------------------------
// One finding
// ---------------------------------------------------------------------------

/// A text with spaces before it up to a width.
pub open spec fn right_aligned(s: Seq<char>, width: nat) -> Seq<char> {
    if s.len() >= width {
        s
    } else {
        text::repeated(' ', (width - s.len()) as nat) + s
    }
}

/// The gutter before a source line.
pub open spec fn gutter(line: usize) -> Seq<char> {
    right_aligned(text::decimal(line as nat), 5) + " | "@
}

/// How many carets underline a finding on its first line: as many as it has columns there,
/// and at least one.
pub open spec fn underline_len(f: finding::FindingModel) -> int {
    let n = if f.end.line == f.start.line {
        f.end.column - f.start.column
    } else {
        f.snippet.len() - (f.start.column - 1)
    };
    if n >= 1 {
        n
    } else {
        1
    }
}

/// How many spaces stand before the carets.
pub open spec fn underline_pad(f: finding::FindingModel) -> int {
    gutter(f.start.line).len() + if f.start.column >= 1 {
        f.start.column - 1
    } else {
        0
    }
}

/// Can the carets be placed? The columns of a finding are numbered from 1, and its last line
/// of output must have a length.
pub open spec fn placeable(f: finding::FindingModel) -> bool {
    &&& f.end.line != f.start.line ==> f.start.column >= 1
    &&& underline_pad(f) <= usize::MAX
}

/// Can the carets of every finding be placed?
pub open spec fn all_placeable(s: Seq<finding::FindingModel>) -> bool {
    forall|i: int| 0 <= i < s.len() ==> placeable(#[trigger] s[i])
}

/// Where a finding stands.
pub open spec fn location(f: finding::FindingModel) -> Seq<char> {
    f.file + ":"@ + text::decimal(f.start.line as nat) + ":"@ + text::decimal(
        f.start.column as nat,
    )
}

/// The first line of a finding: severity, place and rule, and what follows it.
pub open spec fn heading(f: finding::FindingModel, color: bool, suffix: Seq<char>) -> Seq<char> {
    style::severity_style(f.severity, color) + " "@ + style::maybe_bold(location(f), color) + " ["@
        + style::maybe_dim(f.rule_id, color) + "]"@ + suffix + "\n  "@ + f.message + "\n"@
}

/// The source line of a finding with carets under it.
pub open spec fn excerpt(f: finding::FindingModel, color: bool) -> Seq<char> {
    style::maybe_dim(gutter(f.start.line), color) + f.snippet + "\n"@ + text::repeated(
        ' ',
        underline_pad(f) as nat,
    ) + style::caret_style(text::repeated('^', underline_len(f) as nat), f.severity, color)
        + "\n"@
}

/// A finding with its source line.
pub open spec fn block(f: finding::FindingModel, color: bool) -> Seq<char> {
    heading(f, color, seq![]) + excerpt(f, color) + "\n"@
}

fn push_gutter(out: &mut String, line: usize)
    ensures
        final(out)@ == old(out)@ + gutter(line),
{
    let ghost before = out@;
    let number = text::decimal_string(line);
    let n = number.as_str().unicode_len();
    if n < 5 {
        text::push_repeated(out, ' ', 5 - n);
    }
    out.append(number.as_str());
    out.append(" | ");
    assert(out@ =~= before + gutter(line));
}

/// Can the carets of a finding be placed?
fn can_place(f: &Finding) -> (r: bool)
    ensures
        r == placeable(f@),
{
    if f.end.line != f.start.line && f.start.column == 0 {
        return false;
    }
    let mut margin = String::new();
    push_gutter(&mut margin, f.start.line);
    assert(margin@ =~= gutter(f.start.line));
    let before_caret: usize = if f.start.column >= 1 {
        f.start.column - 1
    } else {
        0
    };
    let width: usize = margin.as_str().unicode_len();
    width <= usize::MAX - before_caret
}

/// Can the carets of every finding be placed?
pub fn can_render_human(findings: &[Finding]) -> (r: bool)
    ensures
        r == all_placeable(finding::models(findings@)),
{
    let ghost ms = finding::models(findings@);
    for i in 0..findings.len()
        invariant
            ms == finding::models(findings@),
            forall|k: int| 0 <= k < i ==> placeable(#[trigger] ms[k]),
    {
        assert(ms[i as int] == findings@[i as int]@);
        if !can_place(&findings[i]) {
            return false;
        }
    }
    true
}

fn push_heading(out: &mut String, f: &Finding, color: bool, suffix: &str)
    ensures
        final(out)@ == old(out)@ + heading(f@, color, suffix@),
{
    let ghost before = out@;
    out.append(style::severity_styled(f.severity, color).as_str());
    out.append(" ");
    let mut loc = f.file.clone();
    loc.append(":");
    loc.append(text::decimal_string(f.start.line).as_str());
    loc.append(":");
    loc.append(text::decimal_string(f.start.column).as_str());
    assert(loc@ == location(f@));
    out.append(style::bold_if(loc.as_str(), color).as_str());
    out.append(" [");
    out.append(style::dim_if(f.rule_id.as_str(), color).as_str());
    out.append("]");
    out.append(suffix);
    out.append("\n  ");
    out.append(f.message.as_str());
    out.append("\n");
    assert(out@ =~= before + heading(f@, color, suffix@));
}

fn push_excerpt(out: &mut String, f: &Finding, color: bool)
    requires
        placeable(f@),
    ensures
        final(out)@ == old(out)@ + excerpt(f@, color),
{
    let ghost before = out@;
    let mut margin = String::new();
    push_gutter(&mut margin, f.start.line);
    assert(margin@ =~= gutter(f.start.line));
    out.append(style::dim_if(margin.as_str(), color).as_str());
    out.append(f.snippet.as_str());
    out.append("\n");
    let before_caret: usize = if f.start.column >= 1 {
        f.start.column - 1
    } else {
        0
    };
    text::push_repeated(out, ' ', margin.as_str().unicode_len() + before_caret);
    let n: usize = if f.end.line == f.start.line {
        if f.end.column > f.start.column {
            f.end.column - f.start.column
        } else {
            1
        }
    } else {
        let width: usize = f.snippet.as_str().unicode_len();
        if width > f.start.column - 1 {
            width - (f.start.column - 1)
        } else {
            1
        }
    };
    assert(n == underline_len(f@));
    let mut carets = String::new();
    text::push_repeated(&mut carets, '^', n);
    assert(carets@ =~= text::repeated('^', n as nat));
    out.append(style::caret_styled(carets.as_str(), f.severity, color).as_str());
    out.append("\n");
    assert(out@ =~= before + excerpt(f@, color));
}

proof fn lemma_appended(a: Seq<char>, b: Seq<char>, c: Seq<char>, d: Seq<char>)
    ensures
        a + b + c + d == a + (b + c + d),
{
    assert(a + b + c + d =~= a + (b + c + d));
}

fn push_block(out: &mut String, f: &Finding, color: bool)
    requires
        placeable(f@),
    ensures
        final(out)@ == old(out)@ + block(f@, color),
{
    let ghost before = out@;
    push_heading(out, f, color, "");
    push_excerpt(out, f, color);
    out.append("\n");
    proof {
        reveal_strlit("");
        assert(""@ =~= seq![]);
        lemma_appended(before, heading(f@, color, seq![]), excerpt(f@, color), "\n"@);
    }
}

// ---------------------------------------------------------------------------
// The whole report
// ---------------------------------------------------------------------------

/// How many findings have the given severity.
pub open spec fn count_severity(s: Seq<finding::FindingModel>, sev: Severity) -> nat
    decreases s.len(),
{
    if s.len() == 0 {
        0
    } else {
        count_severity(s.drop_last(), sev) + if s.last().severity == sev {
            1nat
        } else {
            0nat
        }
    }
}

/// Findings with their source lines, one after the other.
pub open spec fn blocks(s: Seq<finding::FindingModel>, color: bool) -> Seq<char>
    decreases s.len(),
{
    if s.len() == 0 {
        seq![]
    } else {
        blocks(s.drop_last(), color) + block(s.last(), color)
    }
}

/// The line that closes a report.
pub open spec fn summary(
    s: Seq<finding::FindingModel>,
    files_scanned: usize,
    files_skipped: usize,
) -> Seq<char> {
    if s.len() == 0 {
        "No findings. Scanned "@ + text::decimal(files_scanned as nat) + " file(s), skipped "@
            + text::decimal(files_skipped as nat) + ".\n"@
    } else {
        text::decimal(s.len()) + " finding(s): "@ + text::decimal(
            count_severity(s, Severity::Error),
        ) + " error, "@ + text::decimal(count_severity(s, Severity::Warning)) + " warning, "@
            + text::decimal(
            count_severity(s, Severity::Info) + count_severity(s, Severity::Note),
        ) + " info/note  (scanned "@ + text::decimal(files_scanned as nat)
            + " file(s), skipped "@ + text::decimal(files_skipped as nat) + ")\n"@
    }
}

fn tally(findings: &[Finding]) -> (r: (usize, usize, usize))
    ensures
        r.0 == count_severity(finding::models(findings@), Severity::Error),
        r.1 == count_severity(finding::models(findings@), Severity::Warning),
        r.2 == count_severity(finding::models(findings@), Severity::Info) + count_severity(
            finding::models(findings@),
            Severity::Note,
        ),
{
    let ghost ms = finding::models(findings@);
    let mut e: usize = 0;
    let mut w: usize = 0;
    let mut o: usize = 0;
    for i in 0..findings.len()
        invariant
            ms == finding::models(findings@),
            e == count_severity(ms.take(i as int), Severity::Error),
            w == count_severity(ms.take(i as int), Severity::Warning),
            o == count_severity(ms.take(i as int), Severity::Info) + count_severity(
                ms.take(i as int),
                Severity::Note,
            ),
            e <= i,
            w <= i,
            o <= i,
    {
        assert(ms.take(i + 1).drop_last() =~= ms.take(i as int));
        assert(ms.take(i + 1).last() == findings@[i as int]@);
        match findings[i].severity {
            Severity::Error => {
                e = e + 1;
            },
            Severity::Warning => {
                w = w + 1;
            },
            _ => {
                o = o + 1;
            },
        }
    }
    assert(ms.take(ms.len() as int) =~= ms);
    (e, w, o)
}

fn push_number(out: &mut String, n: usize)
    ensures
        final(out)@ == old(out)@ + text::decimal(n as nat),
{
    out.append(text::decimal_string(n).as_str());
}

/// Render all findings plus a summary.
#[verifier::rlimit(20)]
pub fn render_human(
    findings: &[Finding],
    files_scanned: usize,
    files_skipped: usize,
    color: bool,
) -> (r: String)
    requires
        all_placeable(finding::models(findings@)),
    ensures
        r@ == blocks(finding::models(findings@), color) + summary(
            finding::models(findings@),
            files_scanned,
            files_skipped,
        ),
{
    let ghost ms = finding::models(findings@);
    let mut out = String::new();
    assert(out@ =~= blocks(ms.take(0), color));
    for i in 0..findings.len()
        invariant
            ms == finding::models(findings@),
            all_placeable(ms),
            out@ == blocks(ms.take(i as int), color),
    {
        assert(ms.take(i + 1).drop_last() =~= ms.take(i as int));
        assert(ms.take(i + 1).last() == findings@[i as int]@);
        assert(placeable(ms[i as int]));
        push_block(&mut out, &findings[i], color);
    }
    assert(ms.take(ms.len() as int) =~= ms);
    let ghost body = out@;
    let (errors, warnings, others) = tally(findings);
    if findings.len() == 0 {
        out.append("No findings. Scanned ");
        push_number(&mut out, files_scanned);
        out.append(" file(s), skipped ");
        push_number(&mut out, files_skipped);
        out.append(".\n");
    } else {
        push_number(&mut out, findings.len());
        out.append(" finding(s): ");
        push_number(&mut out, errors);
        out.append(" error, ");
        push_number(&mut out, warnings);
        out.append(" warning, ");
        push_number(&mut out, others);
        out.append(" info/note  (scanned ");
        push_number(&mut out, files_scanned);
        out.append(" file(s), skipped ");
        push_number(&mut out, files_skipped);
        out.append(")\n");
    }
    assert(out@ =~= body + summary(ms, files_scanned, files_skipped));
    out
}

// ---------------------------------------------------------------------------
// Differential reports
// ---------------------------------------------------------------------------

/// Where a finding goes in a differential report.
#[derive(Debug, Clone, Copy, PartialEq, Eq, Structural)]
pub enum Group {
    NewInChange,
    NewlyFlagged,
    PreExisting,
    Fixed,
}

/// Where a finding goes in a differential report: new ones first, then those that a rules
/// change surfaced, then those that were there before, then those that are gone.
pub open spec fn group_of(f: finding::FindingModel) -> Group {
    if f.state == Some(FindingState::New) {
        Group::NewInChange
    } else if f.state == Some(FindingState::Absent) {
        Group::Fixed
    } else if f.new_cause == Some(NewCause::Ruleset) {
        Group::NewlyFlagged
    } else {
        Group::PreExisting
    }
}

/// The title of a group.
pub open spec fn group_title(g: Group) -> Seq<char> {
    match g {
        Group::NewInChange => "New in this change"@,
        Group::NewlyFlagged => "Newly flagged by a rules change"@,
        Group::PreExisting => "Pre-existing"@,
        Group::Fixed => "Fixed"@,
    }
}

/// How a finding relates to the lines of the change, behind its heading.
pub open spec fn attribution(r: Option<DiffRelation>) -> Seq<char> {
    match r {
        None => ""@,
        Some(DiffRelation::OnAddedLine) => " (on_added_line)"@,
        Some(DiffRelation::InChangedFileUnchangedLine) => " (in_changed_file_unchanged_line)"@,
        Some(DiffRelation::InUnchangedFile) => " (in_unchanged_file)"@,
    }
}

/// A finding of a differential report. One that is gone has no source line to show.
pub open spec fn diff_block(f: finding::FindingModel, color: bool) -> Seq<char> {
    heading(f, color, attribution(f.diff_relation)) + (if group_of(f) == Group::Fixed {
        seq![]
    } else {
        excerpt(f, color)
    }) + "\n"@
}

/// Can the carets of every finding that is there be placed?
pub open spec fn shown_placeable(s: Seq<finding::FindingModel>) -> bool {
    forall|i: int|
        0 <= i < s.len() ==> group_of(#[trigger] s[i]) == Group::Fixed || placeable(s[i])
}

/// The findings of one group, one after the other.
pub open spec fn group_blocks(s: Seq<finding::FindingModel>, g: Group, color: bool) -> Seq<char>
    decreases s.len(),
{
    if s.len() == 0 {
        seq![]
    } else {
        let before = group_blocks(s.drop_last(), g, color);
        if group_of(s.last()) == g {
            before + diff_block(s.last(), color)
        } else {
            before
        }
    }
}

/// How many findings are in a group.
pub open spec fn group_count(s: Seq<finding::FindingModel>, g: Group) -> nat
    decreases s.len(),
{
    if s.len() == 0 {
        0
    } else {
        group_count(s.drop_last(), g) + if group_of(s.last()) == g {
            1nat
        } else {
            0nat
        }
    }
}

/// One group with its title; nothing where it is empty.
pub open spec fn section(s: Seq<finding::FindingModel>, g: Group, color: bool) -> Seq<char> {
    if group_count(s, g) == 0 {
        seq![]
    } else {
        style::maybe_bold(group_title(g), color) + " ("@ + text::decimal(group_count(s, g)) + ")\n\n"@
            + group_blocks(s, g, color)
    }
}

/// The line that closes a differential report.
pub open spec fn diff_summary(c: Counts, files_scanned: usize, files_skipped: usize) -> Seq<char> {
    text::decimal(c.new as nat) + " new, "@ + text::decimal(c.unchanged as nat) + " unchanged, "@
        + text::decimal(c.updated as nat) + " updated, "@ + text::decimal(c.fixed as nat)
        + " fixed  (scanned "@ + text::decimal(files_scanned as nat) + " file(s), skipped "@
        + text::decimal(files_skipped as nat) + ")\n"@
}

/// A differential report: the groups, then the summary.
pub open spec fn human_diff(
    s: Seq<finding::FindingModel>,
    c: Counts,
    files_scanned: usize,
    files_skipped: usize,
    color: bool,
) -> Seq<char> {
    section(s, Group::NewInChange, color) + section(s, Group::NewlyFlagged, color) + section(
        s,
        Group::PreExisting,
        color,
    ) + section(s, Group::Fixed, color) + diff_summary(c, files_scanned, files_skipped)
}

fn find_group(f: &Finding) -> (r: Group)
    ensures
        r == group_of(f@),
{
    if f.state == Some(FindingState::New) {
        Group::NewInChange
    } else if f.state == Some(FindingState::Absent) {
        Group::Fixed
    } else if f.new_cause == Some(NewCause::Ruleset) {
        Group::NewlyFlagged
    } else {
        Group::PreExisting
    }
}

/// Can the carets of every finding that is there be placed?
pub fn can_render_human_diff(findings: &[Finding]) -> (r: bool)
    ensures
        r == shown_placeable(finding::models(findings@)),
{
    let ghost ms = finding::models(findings@);
    for i in 0..findings.len()
        invariant
            ms == finding::models(findings@),
            forall|k: int|
                0 <= k < i ==> group_of(#[trigger] ms[k]) == Group::Fixed || placeable(ms[k]),
    {
        assert(ms[i as int] == findings@[i as int]@);
        if find_group(&findings[i]) != Group::Fixed && !can_place(&findings[i]) {
            return false;
        }
    }
    true
}

fn push_diff_block(out: &mut String, f: &Finding, color: bool, suffix: &str)
    requires
        group_of(f@) == Group::Fixed || placeable(f@),
        suffix@ == attribution(f@.diff_relation),
    ensures
        final(out)@ == old(out)@ + diff_block(f@, color),
{
    let ghost before = out@;
    push_heading(out, f, color, suffix);
    if find_group(f) != Group::Fixed {
        push_excerpt(out, f, color);
    }
    out.append("\n");
    proof {
        let shown = if group_of(f@) == Group::Fixed {
            seq![]
        } else {
            excerpt(f@, color)
        };
        assert(before + heading(f@, color, suffix@) + seq![] =~= before + heading(
            f@,
            color,
            suffix@,
        ));
        lemma_appended(before, heading(f@, color, suffix@), shown, "\n"@);
    }
}

fn push_section(out: &mut String, findings: &[Finding], g: Group, color: bool)
    requires
        shown_placeable(finding::models(findings@)),
    ensures
        final(out)@ == old(out)@ + section(finding::models(findings@), g, color),
{
    let ghost ms = finding::models(findings@);
    let ghost start = out@;
    let mut count: usize = 0;
    let mut body = String::new();
    assert(body@ =~= group_blocks(ms.take(0), g, color));
    for i in 0..findings.len()
        invariant
            ms == finding::models(findings@),
            shown_placeable(ms),
            count == group_count(ms.take(i as int), g),
            count <= i,
            body@ == group_blocks(ms.take(i as int), g, color),
    {
        let f = &findings[i];
        assert(ms.take(i + 1).drop_last() =~= ms.take(i as int));
        assert(ms.take(i + 1).last() == f@);
        assert(ms[i as int] == f@);
        if find_group(f) == g {
            let ghost before = body@;
            count = count + 1;
            let suffix = match f.diff_relation {
                None => "",
                Some(DiffRelation::OnAddedLine) => " (on_added_line)",
                Some(
                    DiffRelation::InChangedFileUnchangedLine,
                ) => " (in_changed_file_unchanged_line)",
                Some(DiffRelation::InUnchangedFile) => " (in_unchanged_file)",
            };
            push_diff_block(&mut body, f, color, suffix);
            assert(body@ == before + diff_block(f@, color));
        }
    }
    assert(ms.take(ms.len() as int) =~= ms);
    if count > 0 {
        let title = match g {
            Group::NewInChange => "New in this change",
            Group::NewlyFlagged => "Newly flagged by a rules change",
            Group::PreExisting => "Pre-existing",
            Group::Fixed => "Fixed",
        };
        let mut part = style::bold_if(title, color);
        part.append(" (");
        push_number(&mut part, count);
        part.append(")\n\n");
        part.append(body.as_str());
        assert(part@ == section(ms, g, color));
        out.append(part.as_str());
    } else {
        assert(out@ =~= start + section(ms, g, color));
    }
}

fn push_diff_summary(out: &mut String, c: Counts, files_scanned: usize, files_skipped: usize)
    ensures
        final(out)@ == old(out)@ + diff_summary(c, files_scanned, files_skipped),
{
    let mut line = text::decimal_string(c.new);
    line.append(" new, ");
    push_number(&mut line, c.unchanged);
    line.append(" unchanged, ");
    push_number(&mut line, c.updated);
    line.append(" updated, ");
    push_number(&mut line, c.fixed);
    line.append(" fixed  (scanned ");
    push_number(&mut line, files_scanned);
    line.append(" file(s), skipped ");
    push_number(&mut line, files_skipped);
    line.append(")\n");
    out.append(line.as_str());
}

/// Render the reported findings of a diff in groups, with their relation to the change, plus
/// a summary of all states.
pub fn render_human_diff(
    reported: &[Finding],
    counts: Counts,
    files_scanned: usize,
    files_skipped: usize,
    color: bool,
) -> (r: String)
    requires
        shown_placeable(finding::models(reported@)),
    ensures
        r@ == human_diff(
            finding::models(reported@),
            counts,
            files_scanned,
            files_skipped,
            color,
        ),
{
    let ghost ms = finding::models(reported@);
    let mut out = String::new();
    push_section(&mut out, reported, Group::NewInChange, color);
    assert(out@ =~= section(ms, Group::NewInChange, color));
    push_section(&mut out, reported, Group::NewlyFlagged, color);
    push_section(&mut out, reported, Group::PreExisting, color);
    push_section(&mut out, reported, Group::Fixed, color);
    push_diff_summary(&mut out, counts, files_scanned, files_skipped);
    out
}
// ---------------------------------------------------------------------------
// Laws
// ---------------------------------------------------------------------------

/// Every finding of a differential report is in one of its groups, and in one only.
pub proof fn lemma_groups_cover(s: Seq<finding::FindingModel>)
    ensures
        group_count(s, Group::NewInChange) + group_count(s, Group::NewlyFlagged) + group_count(
            s,
            Group::PreExisting,
        ) + group_count(s, Group::Fixed) == s.len(),
    decreases s.len(),
{
    if s.len() > 0 {
        lemma_groups_cover(s.drop_last());
    }
}

/// The summary of a report counts every finding under one severity.
pub proof fn lemma_severities_cover(s: Seq<finding::FindingModel>)
    ensures
        count_severity(s, Severity::Error) + count_severity(s, Severity::Warning) + (
        count_severity(s, Severity::Info) + count_severity(s, Severity::Note)) == s.len(),
    decreases s.len(),
{
    if s.len() > 0 {
        lemma_severities_cover(s.drop_last());
    }
}

/// A text that is aligned to the right ends with the text, has spaces before it, and is as wide as
/// asked for where the text is no wider.
pub proof fn lemma_right_aligned(s: Seq<char>, width: nat, i: int)
    ensures
        ({
            let r = right_aligned(s, width);
            &&& r.len() == if s.len() >= width { s.len() } else { width }
            &&& s.is_suffix_of(r)
            &&& 0 <= i < r.len() - s.len() ==> r[i] == ' '
        }),
{
    let r = right_aligned(s, width);
    assert(r.subrange(r.len() - s.len(), r.len() as int) =~= s);
}

/// The carets of a finding on one line stand under its columns: under each from its first up to the
/// one before its end, counted behind the gutter that the source line has too, and spaces before
/// them.
pub proof fn lemma_carets_under_columns(f: finding::FindingModel, i: int)
    requires
        1 <= f.start.column < f.end.column,
        f.start.line == f.end.line,
    ensures
        ({
            let lead = gutter(f.start.line).len() as int;
            let top = gutter(f.start.line) + f.snippet + "\n"@;
            let under = excerpt(f, false).skip(top.len() as int);
            &&& top.is_prefix_of(excerpt(f, false))
            &&& under.len() == lead + f.end.column - 1 + 1
            &&& 0 <= i < lead + f.start.column - 1 ==> under[i] == ' '
            &&& lead + f.start.column - 1 <= i < lead + f.end.column - 1 ==> under[i] == '^'
            &&& under.last() == '\n'
        }),
{
    reveal_strlit("\n");
    let top = gutter(f.start.line) + f.snippet + "\n"@;
    let all = excerpt(f, false);
    let pad = text::repeated(' ', underline_pad(f) as nat);
    let carets = text::repeated('^', underline_len(f) as nat);
    assert(all =~= top + (pad + carets + "\n"@));
    assert(all.skip(top.len() as int) =~= pad + carets + "\n"@);
}

/// A finding that goes on behind its first line has carets from its first column to the end of that
/// line, and one at least; so has one that ends where it starts.
pub proof fn lemma_carets_at_least_one(f: finding::FindingModel)
    ensures
        underline_len(f) >= 1,
        f.start.line != f.end.line && 1 <= f.start.column <= f.snippet.len() ==> underline_len(f)
            == f.snippet.len() + 1 - f.start.column,
        f.start.line == f.end.line && f.end.column > f.start.column ==> underline_len(f)
            == f.end.column - f.start.column,
        f.start.column >= 1 ==> underline_pad(f) == gutter(f.start.line).len() + f.start.column - 1,
{
}

/// The first two lines of a finding without colors: its severity in capitals, its file, line and
/// column, its rule in brackets and what is said behind that, and then its message.
pub proof fn lemma_heading_plain(f: finding::FindingModel, suffix: Seq<char>)
    ensures
        heading(f, false, suffix) == (match f.severity {
            Severity::Error => "ERROR"@,
            Severity::Warning => "WARNING"@,
            Severity::Info => "INFO"@,
            Severity::Note => "NOTE"@,
        }) + " "@ + (f.file + ":"@ + text::decimal(f.start.line as nat) + ":"@ + text::decimal(
            f.start.column as nat,
        )) + " ["@ + f.rule_id + "]"@ + suffix + "\n  "@ + f.message + "\n"@,
{
}

/// A report shows each finding once, in order, one block behind the other, and nothing between
/// them.
pub proof fn lemma_every_finding_shown(s: Seq<finding::FindingModel>, color: bool)
    ensures
        blocks(s, color) == s.map_values(|f: finding::FindingModel| block(f, color)).flatten(),
    decreases s.len(),
{
    let each = |f: finding::FindingModel| block(f, color);
    let all = s.map_values(each);
    all.lemma_flatten_and_flatten_alt_are_equivalent();
    if s.len() > 0 {
        let init = s.drop_last();
        lemma_every_finding_shown(init, color);
        init.map_values(each).lemma_flatten_and_flatten_alt_are_equivalent();
        assert(all.drop_last() =~= init.map_values(each));
        assert(all.last() == block(s.last(), color));
    }
}

/// Where a finding goes in a differential report: what is new, what is gone, what a rules change
/// surfaced and everything else each under its own title.
pub proof fn lemma_group_told(f: finding::FindingModel)
    ensures
        group_title(group_of(f)) == "New in this change"@ <==> f.state == Some(FindingState::New),
        group_title(group_of(f)) == "Fixed"@ <==> f.state == Some(FindingState::Absent),
        group_title(group_of(f)) == "Newly flagged by a rules change"@ <==> f.state != Some(
            FindingState::New,
        ) && f.state != Some(FindingState::Absent) && f.new_cause == Some(NewCause::Ruleset),
        group_title(group_of(f)) == "Pre-existing"@ <==> f.state != Some(FindingState::New)
            && f.state != Some(FindingState::Absent) && f.new_cause != Some(NewCause::Ruleset),
{
    reveal_strlit("New in this change");
    reveal_strlit("Newly flagged by a rules change");
    reveal_strlit("Pre-existing");
    reveal_strlit("Fixed");
    assert("New in this change"@.len() == 18);
    assert("Newly flagged by a rules change"@.len() == 31);
    assert("Pre-existing"@.len() == 12);
    assert("Fixed"@.len() == 5);
}

/// A section of a differential report shows each finding of its group once, in order, one block
/// behind the other, and no other finding.
pub proof fn lemma_every_group_finding_shown(s: Seq<finding::FindingModel>, g: Group, color: bool)
    ensures
        group_blocks(s, g, color) == s.filter(
            |f: finding::FindingModel| group_of(f) == g,
        ).map_values(|f: finding::FindingModel| diff_block(f, color)).flatten(),
    decreases s.len(),
{
    reveal(Seq::filter);
    let keep = |f: finding::FindingModel| group_of(f) == g;
    let each = |f: finding::FindingModel| diff_block(f, color);
    let all = s.filter(keep).map_values(each);
    all.lemma_flatten_and_flatten_alt_are_equivalent();
    if s.len() > 0 {
        let init = s.drop_last();
        lemma_every_group_finding_shown(init, g, color);
        let before = init.filter(keep).map_values(each);
        before.lemma_flatten_and_flatten_alt_are_equivalent();
        if group_of(s.last()) == g {
            assert(s.filter(keep) == init.filter(keep).push(s.last()));
            assert(all.drop_last() =~= before);
            assert(all.last() == diff_block(s.last(), color));
        } else {
            assert(s.filter(keep) == init.filter(keep));
        }
    }
}

/// A differential report is its four sections in order and the summary; a section without a finding
/// is left out whole, and any other starts with its title and the number of its findings.
pub proof fn lemma_sections_in_order(
    s: Seq<finding::FindingModel>,
    c: Counts,
    files_scanned: usize,
    files_skipped: usize,
    g: Group,
)
    ensures
        group_count(s, g) == s.filter(|f: finding::FindingModel| group_of(f) == g).len(),
        group_count(s, g) == 0 ==> section(s, g, false).len() == 0,
        group_count(s, g) > 0 ==> section(s, g, false) == group_title(g) + " ("@ + text::decimal(
            group_count(s, g),
        ) + ")\n\n"@ + group_blocks(s, g, false),
        human_diff(s, c, files_scanned, files_skipped, false) == section(
            s,
            Group::NewInChange,
            false,
        ) + section(s, Group::NewlyFlagged, false) + section(s, Group::PreExisting, false)
            + section(s, Group::Fixed, false) + (text::decimal(c.new as nat) + " new, "@
            + text::decimal(c.unchanged as nat) + " unchanged, "@ + text::decimal(c.updated as nat)
            + " updated, "@ + text::decimal(c.fixed as nat) + " fixed  (scanned "@ + text::decimal(
            files_scanned as nat,
        ) + " file(s), skipped "@ + text::decimal(files_skipped as nat) + ")\n"@),
    decreases s.len(),
{
    reveal(Seq::filter);
    if s.len() > 0 {
        lemma_sections_in_order(s.drop_last(), c, files_scanned, files_skipped, g);
    }
}

/// The tally of a severity is the number of findings of it.
pub proof fn lemma_severity_tally(s: Seq<finding::FindingModel>, sev: Severity)
    ensures
        count_severity(s, sev) == s.filter(|f: finding::FindingModel| f.severity == sev).len(),
    decreases s.len(),
{
    reveal(Seq::filter);
    if s.len() > 0 {
        lemma_severity_tally(s.drop_last(), sev);
    }
}

/// The last line of a report says how many findings there are and how many of each severity, or that
/// there are none, and in either case how many files were scanned and how many skipped.
pub proof fn lemma_summary_says(
    s: Seq<finding::FindingModel>,
    files_scanned: usize,
    files_skipped: usize,
)
    ensures
        s.len() == 0 ==> summary(s, files_scanned, files_skipped) == "No findings. Scanned "@
            + text::decimal(files_scanned as nat) + " file(s), skipped "@ + text::decimal(
            files_skipped as nat,
        ) + ".\n"@,
        s.len() > 0 ==> {
            let of = |sev: Severity| s.filter(|f: finding::FindingModel| f.severity == sev).len();
            summary(s, files_scanned, files_skipped) == text::decimal(s.len()) + " finding(s): "@
                + text::decimal(of(Severity::Error)) + " error, "@ + text::decimal(
                of(Severity::Warning),
            ) + " warning, "@ + text::decimal(of(Severity::Info) + of(Severity::Note))
                + " info/note  (scanned "@ + text::decimal(files_scanned as nat)
                + " file(s), skipped "@ + text::decimal(files_skipped as nat) + ")\n"@
        },
{
    lemma_severity_tally(s, Severity::Error);
    lemma_severity_tally(s, Severity::Warning);
    lemma_severity_tally(s, Severity::Info);
    lemma_severity_tally(s, Severity::Note);
}

/// A finding of a differential report has its relation to the change behind its heading, and its
/// source line only where it is in the code.
pub proof fn lemma_diff_block_shows(f: finding::FindingModel)
    ensures
        ({
            let suffix = match f.diff_relation {
                None => ""@,
                Some(DiffRelation::OnAddedLine) => " (on_added_line)"@,
                Some(
                    DiffRelation::InChangedFileUnchangedLine,
                ) => " (in_changed_file_unchanged_line)"@,
                Some(DiffRelation::InUnchangedFile) => " (in_unchanged_file)"@,
            };
            &&& f.state == Some(FindingState::Absent) ==> diff_block(f, false) == heading(
                f,
                false,
                suffix,
            ) + "\n"@
            &&& f.state != Some(FindingState::Absent) ==> diff_block(f, false) == heading(
                f,
                false,
                suffix,
            ) + excerpt(f, false) + "\n"@
        }),
{
    if f.state == Some(FindingState::Absent) {
        assert(heading(f, false, attribution(f.diff_relation)) + Seq::<char>::empty() =~= heading(
            f,
            false,
            attribution(f.diff_relation),
        ));
    }
}

} // verus!
