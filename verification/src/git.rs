//! Git integration: what to ask of the `git` binary, how to read its answers, and how a
//! finding relates to the lines of a change.
//!
//! Diff and hunk information is an annotation only. What is new since a base is always the
//! difference of whole-tree finding sets.

use vstd::prelude::*;

use crate::fingerprint;
use crate::path;
use crate::snapshot;
use crate::snapshot::Vcs;
use crate::text;

verus! {

// ---------------------------------------------------------------------------
// Diff spec: changed files, added-line ranges, renames
// ---------------------------------------------------------------------------

/// A finding's relationship to a change. It annotates, and never filters.
#[derive(Debug, Clone, Copy, PartialEq, Eq, Structural)]
pub enum DiffRelation {
    /// The finding overlaps a line this change added or modified.
    OnAddedLine,
    /// The finding's file was touched by the change, but not its lines.
    InChangedFileUnchangedLine,
    /// The finding's file was not touched at all: the loud case for a new finding, since a
    /// change elsewhere caused it.
    InUnchangedFile,
}

/// A changed file and its added-line ranges, 1-based and inclusive.
#[derive(Debug)]
struct ChangedFile {
    path: String,
    ranges: Vec<(usize, usize)>,
}

/// Per-file added-line ranges and rename mapping extracted from a unified diff. Paths are
/// as they appear in the diff.
#[derive(Debug)]
pub struct DiffSpec {
    /// Each changed file once. One with deletions only has no ranges.
    changed: Vec<ChangedFile>,
    /// Old and new path of each renamed file.
    renames: Vec<(String, String)>,
}

/// A changed file and its added-line ranges.
#[verifier::ext_equal]
pub struct ChangeModel {
    pub path: Seq<char>,
    pub ranges: Seq<(usize, usize)>,
}

/// What a diff spec holds.
#[verifier::ext_equal]
pub struct DiffModel {
    pub changed: Seq<ChangeModel>,
    pub renames: Seq<(Seq<char>, Seq<char>)>,
}

/// The texts of a list of pairs.
pub open spec fn pairs(s: Seq<(String, String)>) -> Seq<(Seq<char>, Seq<char>)> {
    s.map_values(|p: (String, String)| (p.0@, p.1@))
}

impl View for ChangedFile {
    type V = ChangeModel;

    closed spec fn view(&self) -> ChangeModel {
        ChangeModel { path: self.path@, ranges: self.ranges@ }
    }
}

spec fn changes(s: Seq<ChangedFile>) -> Seq<ChangeModel> {
    s.map_values(|c: ChangedFile| c@)
}

impl View for DiffSpec {
    type V = DiffModel;

    closed spec fn view(&self) -> DiffModel {
        DiffModel { changed: changes(self.changed@), renames: pairs(self.renames@) }
    }
}

/// The position of the changed file with the given path, or -1 if it was not changed.
pub open spec fn change_at(files: Seq<ChangeModel>, path: Seq<char>) -> int
    decreases files.len(),
{
    if files.len() == 0 {
        -1
    } else if files.last().path == path {
        files.len() - 1
    } else {
        change_at(files.drop_last(), path)
    }
}

/// A path with forward slashes.
pub open spec fn forward(path: Seq<char>) -> Seq<char> {
    text::replaced(path, '\\', '/')
}

/// Do two inclusive line ranges share a line?
pub open spec fn overlap(range: (usize, usize), start: usize, end: usize) -> bool {
    start <= range.1 && end >= range.0
}

/// How a span of lines in a file relates to a change.
pub open spec fn related(diff: DiffModel, file: Seq<char>, start: usize, end: usize) -> DiffRelation {
    let k = change_at(diff.changed, forward(file));
    if k < 0 {
        DiffRelation::InUnchangedFile
    } else if exists|i: int|
        0 <= i < diff.changed[k].ranges.len() && overlap(
            #[trigger] diff.changed[k].ranges[i],
            start,
            end,
        ) {
        DiffRelation::OnAddedLine
    } else {
        DiffRelation::InChangedFileUnchangedLine
    }
}

proof fn lemma_change_at(files: Seq<ChangeModel>, path: Seq<char>)
    ensures
        -1 <= change_at(files, path) < files.len(),
        change_at(files, path) >= 0 ==> files[change_at(files, path)].path == path,
        change_at(files, path) < 0 <==> forall|i: int|
            0 <= i < files.len() ==> (#[trigger] files[i]).path != path,
    decreases files.len(),
{
    if files.len() > 0 && files.last().path != path {
        let init = files.drop_last();
        lemma_change_at(init, path);
        if change_at(init, path) < 0 {
            assert forall|i: int| 0 <= i < files.len() implies (#[trigger] files[i]).path
                != path by {
                if i < init.len() {
                    assert(init[i] == files[i]);
                }
            }
        } else {
            assert(init[change_at(init, path)] == files[change_at(init, path)]);
        }
    }
}

fn find_change(files: &Vec<ChangedFile>, path: &str) -> (r: Option<usize>)
    ensures
        match r {
            Some(k) => k < files@.len() && k == change_at(changes(files@), path@),
            None => change_at(changes(files@), path@) == -1,
        },
{
    let ghost all = changes(files@);
    let mut k: usize = files.len();
    assert(all.take(k as int) =~= all);
    while k > 0
        invariant
            k <= files@.len(),
            all == changes(files@),
            change_at(all, path@) == change_at(all.take(k as int), path@),
        decreases k,
    {
        assert(all.take(k as int).drop_last() =~= all.take(k - 1));
        assert(all.take(k as int).last() == files@[k - 1]@);
        if text::same(files[k - 1].path.as_str(), path) {
            return Some(k - 1);
        }
        k = k - 1;
    }
    None
}

impl DiffSpec {
    /// Classify a finding by its repo-relative file and 1-based line span.
    pub fn relation(&self, file: &str, start_line: usize, end_line: usize) -> (r: DiffRelation)
        ensures
            r == related(self@, file@, start_line, end_line),
    {
        let path = norm(file);
        match find_change(&self.changed, path.as_str()) {
            None => DiffRelation::InUnchangedFile,
            Some(k) => {
                let ranges = &self.changed[k].ranges;
                assert(self@.changed[k as int].ranges == ranges@);
                for i in 0..ranges.len()
                    invariant
                        k == change_at(self@.changed, forward(file@)),
                        self@.changed[k as int].ranges == ranges@,
                        forall|j: int|
                            0 <= j < i ==> !overlap(
                                #[trigger] self@.changed[k as int].ranges[j],
                                start_line,
                                end_line,
                            ),
                {
                    let (lo, hi) = ranges[i];
                    assert(self@.changed[k as int].ranges[i as int] == (lo, hi));
                    if start_line <= hi && end_line >= lo {
                        return DiffRelation::OnAddedLine;
                    }
                }
                DiffRelation::InChangedFileUnchangedLine
            },
        }
    }

    /// Old and new path of each renamed file, for remapping baseline paths (and thus
    /// fingerprints) before differencing.
    pub fn renames(&self) -> (r: &Vec<(String, String)>)
        ensures
            pairs(r@) == self@.renames,
    {
        &self.renames
    }

    /// Does the change touch no file?
    pub fn is_empty(&self) -> (r: bool)
        ensures
            r == (self@.changed.len() == 0),
    {
        self.changed.len() == 0
    }
}

fn norm(path: &str) -> (r: String)
    ensures
        r@ == forward(path@),
{
    text::replace_char(path, '\\', '/')
}

/// A path of a unified diff without its conventional `a/` or `b/` prefix.
pub open spec fn without_side(path: Seq<char>) -> Seq<char> {
    match text::after_prefix(path, "a/"@) {
        Some(rest) => rest,
        None => match text::after_prefix(path, "b/"@) {
            Some(rest) => rest,
            None => path,
        },
    }
}

fn strip_ab(path: &str) -> (r: String)
    ensures
        r@ == without_side(path@),
{
    match text::strip_prefix(path, "a/") {
        Some(rest) => rest,
        None => match text::strip_prefix(path, "b/") {
            Some(rest) => rest,
            None => path.to_owned(),
        },
    }
}

// ---------------------------------------------------------------------------
// Reading a unified diff
// ---------------------------------------------------------------------------

/// What is wrong with a hunk header.
#[derive(Debug, Clone, Copy, PartialEq, Eq, Structural)]
pub enum DiffError {
    /// There is no `+` segment.
    NoPlus,
    /// The first added line is no number.
    Start,
    /// The number of added lines is no number.
    Count,
}

impl DiffError {
    /// The error in words.
    pub fn describe(self) -> (r: &'static str)
        ensures
            r@ == match self {
                DiffError::NoPlus => "malformed hunk header (no '+' segment)"@,
                DiffError::Start => "hunk start"@,
                DiffError::Count => "hunk count"@,
            },
    {
        match self {
            DiffError::NoPlus => "malformed hunk header (no '+' segment)",
            DiffError::Start => "hunk start",
            DiffError::Count => "hunk count",
        }
    }
}

/// The first word that starts with `+`.
pub open spec fn plus_word(words: Seq<Seq<char>>) -> Option<Seq<char>>
    decreases words.len(),
{
    if words.len() == 0 {
        None
    } else if words[0].len() > 0 && words[0][0] == '+' {
        Some(words[0])
    } else {
        plus_word(words.drop_first())
    }
}

/// The first added line and the number of added lines that a hunk header gives after its
/// opening `@@`.
pub open spec fn hunk(rest: Seq<char>) -> Result<(usize, usize), DiffError> {
    match plus_word(text::words(rest)) {
        None => Err(DiffError::NoPlus),
        Some(plus) => match text::halves(plus.skip(1), ',') {
            Some((start, count)) => match (text::usize_of(start), text::usize_of(count)) {
                (None, _) => Err(DiffError::Start),
                (_, None) => Err(DiffError::Count),
                (Some(s), Some(c)) => Ok((s, c)),
            },
            None => match text::usize_of(plus.skip(1)) {
                None => Err(DiffError::Start),
                Some(s) => Ok((s, 1)),
            },
        },
    }
}

fn find_plus(words: &Vec<String>) -> (r: Option<usize>)
    ensures
        match r {
            Some(i) => i < words@.len() && plus_word(text::texts(words@)) == Some(words@[i as int]@)
                && words@[i as int]@.len() > 0,
            None => plus_word(text::texts(words@)) is None,
        },
{
    let ghost all = text::texts(words@);
    assert(all.skip(0) =~= all);
    for i in 0..words.len()
        invariant
            all == text::texts(words@),
            plus_word(all) == plus_word(all.skip(i as int)),
    {
        let w = words[i].as_str();
        assert(all.skip(i as int)[0] == w@);
        assert(all.skip(i as int).drop_first() =~= all.skip(i + 1));
        if !w.is_empty() && w.get_char(0) == '+' {
            return Some(i);
        }
    }
    None
}

fn read_hunk(rest: &str) -> (r: Result<(usize, usize), DiffError>)
    ensures
        r == hunk(rest@),
{
    let words = text::split_whitespace(rest);
    match find_plus(&words) {
        None => Err(DiffError::NoPlus),
        Some(i) => {
            let chars = text::chars_of(words[i].as_str());
            let body = text::substring(chars.as_slice(), 1, chars.len());
            assert(body@ =~= words@[i as int]@.skip(1));
            match text::split_once(body.as_str(), ',') {
                Some((start, count)) => match text::parse_usize(start.as_str()) {
                    None => Err(DiffError::Start),
                    Some(s) => match text::parse_usize(count.as_str()) {
                        None => Err(DiffError::Count),
                        Some(c) => Ok((s, c)),
                    },
                },
                None => match text::parse_usize(body.as_str()) {
                    None => Err(DiffError::Start),
                    Some(s) => Ok((s, 1)),
                },
            }
        },
    }
}

/// How far a unified diff has been read.
#[verifier::ext_equal]
pub struct ReadingModel {
    pub diff: DiffModel,
    /// The file whose hunks follow.
    pub current: Option<Seq<char>>,
    /// The old path of a rename whose new path has yet to come.
    pub rename_from: Option<Seq<char>>,
    /// How many old and how many new lines of the hunk are still to come.
    pub left: (usize, usize),
}

/// What reading a unified diff comes to.
#[verifier::ext_equal]
pub enum ReadModel {
    /// All lines so far were read.
    Read(ReadingModel),
    /// A hunk header was malformed.
    Malformed(DiffError),
    /// A hunk ends behind the last line number there is.
    TooFar,
}

/// The files with the given one among them.
pub open spec fn with_file(files: Seq<ChangeModel>, path: Seq<char>) -> Seq<ChangeModel> {
    if change_at(files, path) < 0 {
        files.push(ChangeModel { path, ranges: seq![] })
    } else {
        files
    }
}

/// The files with a further added-line range in the given one.
pub open spec fn with_range(files: Seq<ChangeModel>, path: Seq<char>, range: (usize, usize)) -> Seq<
    ChangeModel,
> {
    let k = change_at(files, path);
    if k < 0 {
        files
    } else {
        files.update(k, ChangeModel { path, ranges: files[k].ranges.push(range) })
    }
}

/// The post-image path of a `+++` line.
pub open spec fn post_image(rest: Seq<char>) -> Seq<char> {
    text::trimmed(text::pieces(rest, '\t')[0])
}

/// The reading after a `+++` line, given what follows the `+++`.
pub open spec fn after_file(st: ReadingModel, rest: Seq<char>) -> ReadingModel {
    let raw = post_image(rest);
    if raw == "/dev/null"@ {
        ReadingModel { current: None, ..st }
    } else {
        let path = forward(without_side(raw));
        ReadingModel {
            diff: DiffModel { changed: with_file(st.diff.changed, path), ..st.diff },
            current: Some(path),
            ..st
        }
    }
}

/// The reading after a `@@` line, given what follows the `@@`.
pub open spec fn after_hunk(st: ReadingModel, rest: Seq<char>) -> ReadModel {
    match st.current {
        None => ReadModel::Read(st),
        Some(file) => match hunk(rest) {
            Err(e) => ReadModel::Malformed(e),
            Ok((start, count)) => if count == 0 {
                ReadModel::Read(st)
            } else if start + count > usize::MAX {
                ReadModel::TooFar
            } else {
                ReadModel::Read(
                    ReadingModel {
                        diff: DiffModel {
                            changed: with_range(
                                st.diff.changed,
                                file,
                                (start, (start + count - 1) as usize),
                            ),
                            ..st.diff
                        },
                        ..st
                    },
                )
            },
        },
    }
}

/// The first word that starts with `-`.
pub open spec fn minus_word(words: Seq<Seq<char>>) -> Option<Seq<char>>
    decreases words.len(),
{
    if words.len() == 0 {
        None
    } else if words[0].len() > 0 && words[0][0] == '-' {
        Some(words[0])
    } else {
        minus_word(words.drop_first())
    }
}

/// How many old lines a hunk header announces after its opening `@@`: one where the count is
/// omitted, and none where there is no readable count.
pub open spec fn old_count(rest: Seq<char>) -> usize {
    match minus_word(text::words(rest)) {
        None => 0,
        Some(minus) => match text::halves(minus.skip(1), ',') {
            Some((_, count)) => match text::usize_of(count) {
                Some(c) => c,
                None => 0,
            },
            None => 1,
        },
    }
}

/// How many new lines a hunk header announces after its opening `@@`.
pub open spec fn new_count(rest: Seq<char>) -> usize {
    match hunk(rest) {
        Ok((_, count)) => count,
        Err(_) => 0,
    }
}

/// One less, and never less than none.
pub open spec fn one_less(n: usize) -> usize {
    if n > 0 {
        (n - 1) as usize
    } else {
        0
    }
}

/// What is still to come of a hunk after a line that opens none. A line of both sides starts
/// with a space, or has lost it where it is empty otherwise. Added lines start with `+`, removed
/// ones with `-`, and `\` starts a remark on the line before. Any other line is none of the
/// hunk's, and ends it.
pub open spec fn after_body(left: (usize, usize), line: Seq<char>) -> (usize, usize) {
    if line.len() == 0 || line[0] == ' ' {
        (one_less(left.0), one_less(left.1))
    } else if line[0] == '+' {
        (left.0, one_less(left.1))
    } else if line[0] == '-' {
        (one_less(left.0), left.1)
    } else if line[0] == '\\' {
        left
    } else {
        (0, 0)
    }
}

/// How many old and how many new lines are still to come after one more line: those that a
/// hunk header announces, counted down by the lines behind it.
pub open spec fn left_after(left: (usize, usize), line: Seq<char>) -> (usize, usize) {
    match text::after_prefix(line, "@@"@) {
        Some(rest) => (old_count(rest), new_count(rest)),
        None => after_body(left, line),
    }
}

/// The reading after one more line: `rename from` and `rename to` name a rename, `+++` names
/// the file whose hunks follow, unless it is a line of a hunk, `@@` opens a hunk, and every
/// other line is passed over.
pub open spec fn after_line(before: ReadingModel, line: Seq<char>) -> ReadModel {
    let st = ReadingModel { left: left_after(before.left, line), ..before };
    match text::after_prefix(line, "rename from "@) {
        Some(rest) => ReadModel::Read(
            ReadingModel { rename_from: Some(forward(text::trimmed(rest))), ..st },
        ),
        None => match text::after_prefix(line, "rename to "@) {
            Some(rest) => match st.rename_from {
                Some(from) => ReadModel::Read(
                    ReadingModel {
                        diff: DiffModel {
                            renames: st.diff.renames.push((from, forward(text::trimmed(rest)))),
                            ..st.diff
                        },
                        rename_from: None,
                        ..st
                    },
                ),
                None => ReadModel::Read(st),
            },
            None => match text::after_prefix(line, "+++ "@) {
                Some(rest) => if before.left == (0usize, 0usize) {
                    ReadModel::Read(after_file(st, rest))
                } else {
                    ReadModel::Read(st)
                },
                None => match text::after_prefix(line, "@@"@) {
                    Some(rest) => after_hunk(st, rest),
                    None => ReadModel::Read(st),
                },
            },
        },
    }
}

/// The reading after the first `n` lines.
pub open spec fn read_lines(lines: Seq<Seq<char>>, n: nat) -> ReadModel
    decreases n,
{
    if n == 0 {
        ReadModel::Read(
            ReadingModel {
                diff: DiffModel { changed: seq![], renames: seq![] },
                current: None,
                rename_from: None,
                left: (0, 0),
            },
        )
    } else {
        match read_lines(lines, (n - 1) as nat) {
            ReadModel::Read(st) => after_line(st, lines[n - 1]),
            stopped => stopped,
        }
    }
}

/// What reading a unified diff comes to.
pub open spec fn read_diff(text: Seq<char>) -> ReadModel {
    let lines = text::text_lines(text);
    read_lines(lines, lines.len())
}

struct Reading {
    diff: DiffSpec,
    current: Option<String>,
    rename_from: Option<String>,
    left: (usize, usize),
}

impl View for Reading {
    type V = ReadingModel;

    closed spec fn view(&self) -> ReadingModel {
        ReadingModel {
            diff: self.diff@,
            current: text::opt_text(self.current),
            rename_from: text::opt_text(self.rename_from),
            left: self.left,
        }
    }
}

enum Read {
    Read(Reading),
    Malformed(DiffError),
    TooFar,
}

impl View for Read {
    type V = ReadModel;

    closed spec fn view(&self) -> ReadModel {
        match self {
            Read::Read(st) => ReadModel::Read(st@),
            Read::Malformed(e) => ReadModel::Malformed(*e),
            Read::TooFar => ReadModel::TooFar,
        }
    }
}

fn read_file(st: Reading, rest: &str) -> (r: Reading)
    ensures
        r@ == after_file(st@, rest@),
{
    let mut st = st;
    let ps = text::split_char(rest, '\t');
    assert(text::pieces(rest@, '\t').len() > 0);
    assert(text::texts(ps@).len() == ps@.len());
    assert(text::texts(ps@)[0] == ps@[0]@);
    let raw = text::trim(ps[0].as_str());
    if text::same(raw.as_str(), "/dev/null") {
        st.current = None;
        return st;
    }
    let side = strip_ab(raw.as_str());
    let path = norm(side.as_str());
    let ghost before = changes(st.diff.changed@);
    match find_change(&st.diff.changed, path.as_str()) {
        Some(_) => {},
        None => {
            st.diff.changed.push(ChangedFile { path: path.clone(), ranges: Vec::new() });
            assert(changes(st.diff.changed@) =~= with_file(before, path@));
        },
    }
    st.current = Some(path);
    st
}

fn read_hunk_line(st: Reading, rest: &str) -> (r: Read)
    ensures
        r@ == after_hunk(st@, rest@),
{
    let mut st = st;
    let file = match &st.current {
        None => {
            return Read::Read(st);
        },
        Some(file) => file.clone(),
    };
    match read_hunk(rest) {
        Err(e) => Read::Malformed(e),
        Ok((start, count)) => {
            if count == 0 {
                return Read::Read(st);
            }
            if start > usize::MAX - count {
                return Read::TooFar;
            }
            let ghost before = changes(st.diff.changed@);
            match find_change(&st.diff.changed, file.as_str()) {
                Some(k) => {
                    proof {
                        lemma_change_at(before, file@);
                    }
                    assert(before[k as int] == st.diff.changed@[k as int]@);
                    st.diff.changed[k].ranges.push((start, start + count - 1));
                    assert(changes(st.diff.changed@) =~= with_range(
                        before,
                        file@,
                        (start, (start + count - 1) as usize),
                    ));
                },
                None => {},
            }
            Read::Read(st)
        },
    }
}

fn find_minus(words: &Vec<String>) -> (r: Option<usize>)
    ensures
        match r {
            Some(i) => i < words@.len() && minus_word(text::texts(words@)) == Some(
                words@[i as int]@,
            ) && words@[i as int]@.len() > 0,
            None => minus_word(text::texts(words@)) is None,
        },
{
    let ghost all = text::texts(words@);
    assert(all.skip(0) =~= all);
    for i in 0..words.len()
        invariant
            all == text::texts(words@),
            minus_word(all) == minus_word(all.skip(i as int)),
    {
        let w = words[i].as_str();
        assert(all.skip(i as int)[0] == w@);
        assert(all.skip(i as int).drop_first() =~= all.skip(i + 1));
        if !w.is_empty() && w.get_char(0) == '-' {
            return Some(i);
        }
    }
    None
}

fn count_old(rest: &str) -> (r: usize)
    ensures
        r == old_count(rest@),
{
    let words = text::split_whitespace(rest);
    match find_minus(&words) {
        None => 0,
        Some(i) => {
            let chars = text::chars_of(words[i].as_str());
            let body = text::substring(chars.as_slice(), 1, chars.len());
            assert(body@ =~= words@[i as int]@.skip(1));
            match text::split_once(body.as_str(), ',') {
                Some((_, count)) => match text::parse_usize(count.as_str()) {
                    Some(c) => c,
                    None => 0,
                },
                None => 1,
            }
        },
    }
}

fn count_down(n: usize) -> (r: usize)
    ensures
        r == one_less(n),
{
    if n > 0 {
        n - 1
    } else {
        0
    }
}

fn count_left(left: (usize, usize), line: &str) -> (r: (usize, usize))
    ensures
        r == left_after(left, line@),
{
    if let Some(rest) = text::strip_prefix(line, "@@") {
        let new = match read_hunk(rest.as_str()) {
            Ok((_, count)) => count,
            Err(_) => 0,
        };
        return (count_old(rest.as_str()), new);
    }
    if line.is_empty() {
        return (count_down(left.0), count_down(left.1));
    }
    let c = line.get_char(0);
    if c == ' ' {
        (count_down(left.0), count_down(left.1))
    } else if c == '+' {
        (left.0, count_down(left.1))
    } else if c == '-' {
        (count_down(left.0), left.1)
    } else if c == '\\' {
        left
    } else {
        (0, 0)
    }
}

fn read_line(st: Reading, line: &str) -> (r: Read)
    ensures
        r@ == after_line(st@, line@),
{
    let mut st = st;
    let left = st.left;
    st.left = count_left(left, line);
    if let Some(rest) = text::strip_prefix(line, "rename from ") {
        let from = text::trim(rest.as_str());
        st.rename_from = Some(norm(from.as_str()));
        return Read::Read(st);
    }
    if let Some(rest) = text::strip_prefix(line, "rename to ") {
        let to = text::trim(rest.as_str());
        match st.rename_from {
            Some(from) => {
                let ghost before = pairs(st.diff.renames@);
                let new = norm(to.as_str());
                let ghost pair = (from@, new@);
                st.rename_from = None;
                st.diff.renames.push((from, new));
                assert(pairs(st.diff.renames@) =~= before.push(pair));
                return Read::Read(st);
            },
            None => {
                return Read::Read(st);
            },
        }
    }
    if let Some(rest) = text::strip_prefix(line, "+++ ") {
        if left.0 == 0 && left.1 == 0 {
            return Read::Read(read_file(st, rest.as_str()));
        }
        return Read::Read(st);
    }
    if let Some(rest) = text::strip_prefix(line, "@@") {
        return read_hunk_line(st, rest.as_str());
    }
    Read::Read(st)
}

proof fn lemma_read_stops(lines: Seq<Seq<char>>, i: nat, n: nat)
    requires
        i <= n,
        !(read_lines(lines, i) is Read),
    ensures
        read_lines(lines, n) == read_lines(lines, i),
    decreases n - i,
{
    if i < n {
        lemma_read_stops(lines, i, (n - 1) as nat);
    }
}

fn read_all(text: &str) -> (r: Read)
    ensures
        r@ == read_diff(text@),
{
    let lines = text::lines(text);
    let ghost model = text::text_lines(text@);
    let mut st = Reading {
        diff: DiffSpec { changed: Vec::new(), renames: Vec::new() },
        current: None,
        rename_from: None,
        left: (0, 0),
    };
    assert(changes(st.diff.changed@) =~= seq![]);
    assert(pairs(st.diff.renames@) =~= seq![]);
    assert(model.len() == lines@.len());
    for i in 0..lines.len()
        invariant
            text::texts(lines@) == model,
            model == text::text_lines(text@),
            model.len() == lines@.len(),
            ReadModel::Read(st@) == read_lines(model, i as nat),
    {
        assert(model[i as int] == lines@[i as int]@);
        match read_line(st, lines[i].as_str()) {
            Read::Read(next) => {
                st = next;
            },
            Read::Malformed(e) => {
                proof {
                    lemma_read_stops(model, (i + 1) as nat, model.len());
                }
                return Read::Malformed(e);
            },
            Read::TooFar => {
                proof {
                    lemma_read_stops(model, (i + 1) as nat, model.len());
                }
                return Read::TooFar;
            },
        }
    }
    Read::Read(st)
}

/// Does every hunk that a unified diff attributes end at a line that can be numbered?
pub fn lines_countable(text: &str) -> (r: bool)
    ensures
        r == !(read_diff(text@) is TooFar),
{
    match read_all(text) {
        Read::TooFar => false,
        _ => true,
    }
}

/// Parse a unified diff (as produced by `git diff` or any compliant tool). Only headers are
/// interpreted: `+++` for the post-image path, `@@ -l,c +l,c @@` for added ranges, and git's
/// `rename from`/`rename to` extended headers. The lines of a hunk, as many as its header
/// announces, are passed over, also where one of them reads like a `+++` header.
pub fn parse_unified_diff(text: &str) -> (r: Result<DiffSpec, DiffError>)
    requires
        !(read_diff(text@) is TooFar),
    ensures
        match r {
            Ok(diff) => read_diff(text@) matches ReadModel::Read(st) && st.diff == diff@,
            Err(e) => read_diff(text@) == ReadModel::Malformed(e),
        },
{
    match read_all(text) {
        Read::Read(st) => Ok(st.diff),
        Read::Malformed(e) => Err(e),
        Read::TooFar => {
            // Left out by the precondition.
            assert(false);
            Err(DiffError::Count)
        },
    }
}

// ---------------------------------------------------------------------------
// Paths
// ---------------------------------------------------------------------------

/// A path relative to a root, given what both are in canonical form; none where one of them
/// has none, or the path lies outside the root. With canonical forms `./src/x`, absolute paths
/// and symlinked roots all come out the same.
pub fn relative_to(path: Option<&str>, root: Option<&str>) -> (r: Option<String>)
    ensures
        text::opt_text(r) == match (path, root) {
            (Some(p), Some(q)) => path::path_below(p@, q@),
            _ => None,
        },
{
    match (path, root) {
        (Some(p), Some(q)) => path::below(p, q),
        _ => None,
    }
}

// ---------------------------------------------------------------------------
// Asking git
// ---------------------------------------------------------------------------

/// What a run of `git` came to.
#[derive(Debug)]
pub struct GitOutput {
    pub success: bool,
    pub stdout: Vec<u8>,
    pub stderr: Vec<u8>,
}

/// What is said of a run that failed.
pub open spec fn git_failure(args: Seq<Seq<char>>, stderr: Seq<char>) -> Seq<char> {
    "git "@ + text::joined(args, " "@) + " failed: "@ + text::trimmed(stderr)
}

/// What a run answers: its output, or the error it failed with.
pub open spec fn git_answer(args: Seq<Seq<char>>, out: GitOutput) -> Result<Seq<char>, Seq<char>> {
    if out.success {
        Ok(fingerprint::utf8_lossy(out.stdout@))
    } else {
        Err(git_failure(args, fingerprint::utf8_lossy(out.stderr@)))
    }
}

/// The text of an answer.
pub open spec fn answer_text(r: Result<String, String>) -> Result<Seq<char>, Seq<char>> {
    match r {
        Ok(s) => Ok(s@),
        Err(e) => Err(e@),
    }
}

/// The error of a run that failed, given what it wrote.
pub fn failure_text(args: &Vec<String>, stderr: &str) -> (r: String)
    ensures
        r@ == git_failure(text::texts(args@), stderr@),
{
    let mut e = "git ".to_owned();
    e.append(text::join(args, " ").as_str());
    e.append(" failed: ");
    e.append(text::trim(stderr).as_str());
    e
}

/// What a run answers: its output, or the error it failed with.
pub fn answer(args: &Vec<String>, out: &GitOutput) -> (r: Result<String, String>)
    ensures
        answer_text(r) == git_answer(text::texts(args@), *out),
{
    if out.success {
        Ok(fingerprint::from_utf8_lossy(out.stdout.as_slice()))
    } else {
        let stderr = fingerprint::from_utf8_lossy(out.stderr.as_slice());
        Err(failure_text(args, stderr.as_str()))
    }
}

/// The directory to look for a repository from: a directory itself, or the one a file is in.
pub open spec fn search_dir(start: Seq<char>, is_dir: bool) -> Seq<char> {
    if is_dir {
        start
    } else {
        match path::path_parent(start) {
            Some(dir) => dir,
            None => "."@,
        }
    }
}

/// The directory to look for a repository from: a directory itself, or the one a file is in.
pub fn discover_from(start: &str, is_dir: bool) -> (r: String)
    ensures
        r@ == search_dir(start@, is_dir),
{
    if is_dir {
        return start.to_owned();
    }
    match path::parent(start) {
        Some(dir) => dir,
        None => ".".to_owned(),
    }
}

fn words2(a: &str, b: &str) -> (r: Vec<String>)
    ensures
        text::texts(r@) == seq![a@, b@],
{
    let mut args: Vec<String> = Vec::new();
    args.push(a.to_owned());
    args.push(b.to_owned());
    assert(text::texts(args@) =~= seq![a@, b@]);
    args
}

fn words3(a: &str, b: &str, c: &str) -> (r: Vec<String>)
    ensures
        text::texts(r@) == seq![a@, b@, c@],
{
    let mut args: Vec<String> = Vec::new();
    args.push(a.to_owned());
    args.push(b.to_owned());
    args.push(c.to_owned());
    assert(text::texts(args@) =~= seq![a@, b@, c@]);
    args
}

fn and_word(args: Vec<String>, word: &str) -> (r: Vec<String>)
    ensures
        text::texts(r@) == text::texts(args@).push(word@),
{
    let mut args = args;
    let ghost before = text::texts(args@);
    args.push(word.to_owned());
    assert(text::texts(args@) =~= before.push(word@));
    args
}

/// How to ask for the work tree that holds a directory.
pub fn toplevel_args() -> (r: Vec<String>)
    ensures
        text::texts(r@) == seq!["rev-parse"@, "--show-toplevel"@],
{
    words2("rev-parse", "--show-toplevel")
}

/// How to ask for the commit that is checked out.
pub fn head_args() -> (r: Vec<String>)
    ensures
        text::texts(r@) == seq!["rev-parse"@, "HEAD"@],
{
    words2("rev-parse", "HEAD")
}

/// How to ask for the branch that is checked out.
pub fn reference_args() -> (r: Vec<String>)
    ensures
        text::texts(r@) == seq!["symbolic-ref"@, "-q"@, "HEAD"@],
{
    words3("symbolic-ref", "-q", "HEAD")
}

/// How to ask for the commit that a change diverged from.
pub open spec fn asked_merge_base(base: Seq<char>) -> Seq<Seq<char>> {
    seq!["merge-base"@, base, "HEAD"@]
}

/// How to ask for the commit that a change diverged from.
pub fn merge_base_args(base: &str) -> (r: Vec<String>)
    ensures
        text::texts(r@) == asked_merge_base(base@),
{
    words3("merge-base", base, "HEAD")
}

/// How to ask for a change, with renames and without context lines.
pub open spec fn asked_diff(merge_base: Seq<char>) -> Seq<Seq<char>> {
    seq!["diff"@, "-M"@, "--unified=0"@, merge_base, "HEAD"@]
}

/// How to ask for a change, with renames and without context lines.
pub fn diff_args(merge_base: &str) -> (r: Vec<String>)
    ensures
        text::texts(r@) == asked_diff(merge_base@),
{
    let args = and_word(and_word(words3("diff", "-M", "--unified=0"), merge_base), "HEAD");
    assert(text::texts(args@) =~= asked_diff(merge_base@));
    args
}

/// Why there is no diff.
#[derive(Debug)]
pub enum GitDiffError {
    /// The run failed.
    Git(String),
    /// A hunk header of its output was malformed.
    Malformed(DiffError),
    /// A hunk of its output ends behind the last line number there is.
    TooFar,
}

/// Is `r` what there is to say of a diff, given the text of the diff or the error?
pub open spec fn diff_spec_of(
    r: Result<DiffSpec, GitDiffError>,
    answer: Result<Seq<char>, Seq<char>>,
) -> bool {
    match answer {
        Err(e) => r matches Err(GitDiffError::Git(x)) && x@ == e,
        Ok(t) => match read_diff(t) {
            ReadModel::Read(st) => r matches Ok(d) && d@ == st.diff,
            ReadModel::Malformed(e) => r matches Err(GitDiffError::Malformed(x)) && x == e,
            ReadModel::TooFar => r matches Err(GitDiffError::TooFar),
        },
    }
}

/// A discovered git repository.
#[derive(Debug)]
pub struct GitContext {
    root: String,
}

impl View for GitContext {
    type V = Seq<char>;

    closed spec fn view(&self) -> Seq<char> {
        self.root@
    }
}

impl GitContext {
    /// The repository that a run of `rev-parse --show-toplevel` found; none where `git` could
    /// not be run, or the directory is not inside a work tree.
    pub fn discover(toplevel: Option<&GitOutput>) -> (r: Option<GitContext>)
        ensures
            match (toplevel, r) {
                (Some(out), Some(git)) => out.success && git@ == text::trimmed(
                    fingerprint::utf8_lossy(out.stdout@),
                ),
                (Some(out), None) => !out.success,
                (None, _) => r is None,
            },
    {
        match toplevel {
            Some(out) => if out.success {
                let stdout = fingerprint::from_utf8_lossy(out.stdout.as_slice());
                Some(GitContext::at(stdout.as_str()))
            } else {
                None
            },
            None => None,
        }
    }

    /// The repository with the given work tree, as `git` names it.
    pub fn at(toplevel: &str) -> (r: GitContext)
        ensures
            r@ == text::trimmed(toplevel@),
    {
        GitContext { root: text::trim(toplevel) }
    }

    /// The work-tree root.
    pub fn root(&self) -> (r: &str)
        ensures
            r@ == self@,
    {
        self.root.as_str()
    }

    /// Provenance of the current checkout, for the snapshot `vcs` block, given the answers to
    /// [`head_args`] and [`reference_args`]. A detached HEAD has no symbolic reference, and
    /// is recorded as `HEAD`.
    pub fn head_vcs(commit: &Result<String, String>, reference: &Result<String, String>) -> (r:
        Option<Vcs>)
        ensures
            snapshot::opt_vcs(r) == match answer_text(*commit) {
                Err(_) => None,
                Ok(c) => Some(
                    snapshot::VcsModel {
                        system: "git"@,
                        commit: text::trimmed(c),
                        reference: match answer_text(*reference) {
                            Ok(name) => text::trimmed(name),
                            Err(_) => "HEAD"@,
                        },
                    },
                ),
            },
    {
        match commit {
            Err(_) => None,
            Ok(c) => {
                let name = match reference {
                    Ok(name) => text::trim(name.as_str()),
                    Err(_) => "HEAD".to_owned(),
                };
                Some(
                    Vcs {
                        system: "git".to_owned(),
                        commit: text::trim(c.as_str()),
                        reference: name,
                    },
                )
            },
        }
    }

    /// The merge base of `base` with HEAD, given what the run of [`merge_base_args`] came to:
    /// the commit a change actually diverged from, not wherever the base branch has moved
    /// since.
    pub fn merge_base(base: &str, out: &GitOutput) -> (r: Result<String, String>)
        ensures
            answer_text(r) == match git_answer(asked_merge_base(base@), *out) {
                Ok(t) => Ok(text::trimmed(t)),
                Err(e) => Err(e),
            },
    {
        match answer(&merge_base_args(base), out) {
            Ok(t) => Ok(text::trim(t.as_str())),
            Err(e) => Err(e),
        }
    }

    /// The diff between a merge base and HEAD, given what the run of [`diff_args`] came to:
    /// repo-relative changed files, added-line ranges, and renames.
    pub fn diff_spec(merge_base: &str, out: &GitOutput) -> (r: Result<DiffSpec, GitDiffError>)
        ensures
            diff_spec_of(r, git_answer(asked_diff(merge_base@), *out)),
    {
        match answer(&diff_args(merge_base), out) {
            Err(e) => Err(GitDiffError::Git(e)),
            Ok(t) => if lines_countable(t.as_str()) {
                match parse_unified_diff(t.as_str()) {
                    Ok(d) => Ok(d),
                    Err(e) => Err(GitDiffError::Malformed(e)),
                }
            } else {
                Err(GitDiffError::TooFar)
            },
        }
    }

    /// Where to materialize the tree at `refname`: a directory of this process under the
    /// directory for temporary files.
    pub fn materialize(&self, temp_dir: &str, process: usize, refname: &str) -> (r: BaseTree)
        ensures
            r@ == (BaseTreeModel {
                repo_root: self@,
                path: path::path_join(temp_dir@, worktree_name(process as nat, refname@)),
            }),
    {
        let mut name = "crit-base-".to_owned();
        name.append(text::decimal_string(process).as_str());
        name.append("-");
        name.append(one_name(refname).as_str());
        BaseTree { repo_root: self.root.clone(), path: path::join(temp_dir, name.as_str()) }
    }
}

/// A reference as a single file name.
pub open spec fn flattened(refname: Seq<char>) -> Seq<char> {
    text::replaced(text::replaced(text::replaced(refname, '/', '_'), '\\', '_'), ':', '_')
}

fn one_name(refname: &str) -> (r: String)
    ensures
        r@ == flattened(refname@),
{
    let a = text::replace_char(refname, '/', '_');
    let b = text::replace_char(a.as_str(), '\\', '_');
    text::replace_char(b.as_str(), ':', '_')
}

/// The name of the directory that a process materializes a reference in.
pub open spec fn worktree_name(process: nat, refname: Seq<char>) -> Seq<char> {
    "crit-base-"@ + text::decimal(process) + "-"@ + flattened(refname)
}

/// A materialized base tree: a temporary detached work tree.
#[derive(Debug)]
pub struct BaseTree {
    repo_root: String,
    path: String,
}

/// What a materialized base tree holds.
#[verifier::ext_equal]
pub struct BaseTreeModel {
    pub repo_root: Seq<char>,
    pub path: Seq<char>,
}

impl View for BaseTree {
    type V = BaseTreeModel;

    closed spec fn view(&self) -> BaseTreeModel {
        BaseTreeModel { repo_root: self.repo_root@, path: self.path@ }
    }
}

impl BaseTree {
    /// Where the tree is.
    pub fn path(&self) -> (r: &str)
        ensures
            r@ == self@.path,
    {
        self.path.as_str()
    }

    /// The work tree of the repository it was taken from.
    pub fn repo_root(&self) -> (r: &str)
        ensures
            r@ == self@.repo_root,
    {
        self.repo_root.as_str()
    }

    /// How to ask for the tree at `refname`.
    pub fn add_args(&self, refname: &str) -> (r: Vec<String>)
        ensures
            text::texts(r@) == seq![
                "worktree"@,
                "add"@,
                "--detach"@,
                "--force"@,
                self@.path,
                refname@,
            ],
    {
        let args = and_word(
            and_word(and_word(words3("worktree", "add", "--detach"), "--force"), self.path()),
            refname,
        );
        assert(text::texts(args@) =~= seq![
            "worktree"@,
            "add"@,
            "--detach"@,
            "--force"@,
            self@.path,
            refname@,
        ]);
        args
    }

    /// How to ask for the removal of the tree.
    pub fn remove_args(&self) -> (r: Vec<String>)
        ensures
            text::texts(r@) == seq!["worktree"@, "remove"@, "--force"@, self@.path],
    {
        let args = and_word(words3("worktree", "remove", "--force"), self.path());
        assert(text::texts(args@) =~= seq!["worktree"@, "remove"@, "--force"@, self@.path]);
        args
    }
}

// ---------------------------------------------------------------------------
// Laws
// ---------------------------------------------------------------------------

/// Is each changed file listed once?
pub open spec fn listed_once(files: Seq<ChangeModel>) -> bool {
    forall|i: int, j: int|
        0 <= i < j < files.len() ==> (#[trigger] files[i]).path != (#[trigger] files[j]).path
}

/// Does each added-line range lie the right way round?
pub open spec fn ranges_ordered(files: Seq<ChangeModel>) -> bool {
    forall|i: int, k: int|
        0 <= i < files.len() && 0 <= k < files[i].ranges.len() ==> (
        #[trigger] files[i].ranges[k]).0 <= files[i].ranges[k].1
}

proof fn lemma_with_file_valid(files: Seq<ChangeModel>, path: Seq<char>)
    requires
        listed_once(files),
        ranges_ordered(files),
    ensures
        listed_once(with_file(files, path)),
        ranges_ordered(with_file(files, path)),
        change_at(with_file(files, path), path) >= 0,
{
    lemma_change_at(files, path);
    let after = with_file(files, path);
    lemma_change_at(after, path);
    if change_at(files, path) < 0 {
        assert forall|i: int, j: int| 0 <= i < j < after.len() implies (#[trigger] after[i]).path
            != (#[trigger] after[j]).path by {
            assert(after[i] == files[i]);
            if j < files.len() {
                assert(after[j] == files[j]);
            }
        }
        assert forall|i: int, k: int|
            0 <= i < after.len() && 0 <= k < after[i].ranges.len() implies (
        #[trigger] after[i].ranges[k]).0 <= after[i].ranges[k].1 by {
            if i < files.len() {
                assert(after[i] == files[i]);
                assert(files[i].ranges[k].0 <= files[i].ranges[k].1);
            }
        }
    }
}

proof fn lemma_with_range_valid(files: Seq<ChangeModel>, path: Seq<char>, range: (usize, usize))
    requires
        listed_once(files),
        ranges_ordered(files),
        change_at(files, path) >= 0,
        range.0 <= range.1,
    ensures
        listed_once(with_range(files, path, range)),
        ranges_ordered(with_range(files, path, range)),
        change_at(with_range(files, path, range), path) >= 0,
{
    lemma_change_at(files, path);
    let after = with_range(files, path, range);
    lemma_change_at(after, path);
    let at = change_at(files, path);
    assert(after[at].path == path);
    assert forall|i: int, j: int| 0 <= i < j < after.len() implies (#[trigger] after[i]).path != (
    #[trigger] after[j]).path by {
        assert(after[i].path == files[i].path);
        assert(after[j].path == files[j].path);
    }
    assert forall|i: int, k: int|
        0 <= i < after.len() && 0 <= k < after[i].ranges.len() implies (
    #[trigger] after[i].ranges[k]).0 <= after[i].ranges[k].1 by {
        if k < files[i].ranges.len() {
            assert(files[i].ranges[k].0 <= files[i].ranges[k].1);
        }
    }
}

proof fn lemma_read_lines_valid(lines: Seq<Seq<char>>, n: nat)
    ensures
        read_lines(lines, n) matches ReadModel::Read(st) ==> {
            &&& listed_once(st.diff.changed)
            &&& ranges_ordered(st.diff.changed)
            &&& st.current matches Some(file) ==> change_at(st.diff.changed, file) >= 0
        },
    decreases n,
{
    if n > 0 {
        lemma_read_lines_valid(lines, (n - 1) as nat);
        if let ReadModel::Read(st) = read_lines(lines, (n - 1) as nat) {
            let line = lines[n - 1];
            if let Some(rest) = text::after_prefix(line, "+++ "@) {
                lemma_with_file_valid(st.diff.changed, forward(without_side(post_image(rest))));
            }
            if let Some(rest) = text::after_prefix(line, "@@"@) {
                if let (Some(file), Ok((start, count))) = (st.current, hunk(rest)) {
                    if 0 < count && start + count <= usize::MAX {
                        lemma_with_range_valid(
                            st.diff.changed,
                            file,
                            (start, (start + count - 1) as usize),
                        );
                    }
                }
            }
        }
    }
}

/// A diff lists each changed file once, and each of its added-line ranges holds a line.
pub proof fn lemma_diff_valid(t: Seq<char>)
    requires
        read_diff(t) is Read,
    ensures
        listed_once(read_diff(t)->Read_0.diff.changed),
        ranges_ordered(read_diff(t)->Read_0.diff.changed),
{
    let lines = text::text_lines(t);
    lemma_read_lines_valid(lines, lines.len());
}

/// In a diff that lists each changed file once, a line is related to the change through the
/// entry of its file: it is on an added line if and only if a range of that entry holds it.
pub proof fn lemma_line_relation(diff: DiffModel, k: int, line: usize)
    requires
        listed_once(diff.changed),
        0 <= k < diff.changed.len(),
        forward(diff.changed[k].path) == diff.changed[k].path,
    ensures
        related(diff, diff.changed[k].path, line, line) == DiffRelation::OnAddedLine <==> exists|
            i: int,
        |
            0 <= i < diff.changed[k].ranges.len() && (#[trigger] diff.changed[k].ranges[i]).0
                <= line <= diff.changed[k].ranges[i].1,
        related(diff, diff.changed[k].path, line, line) != DiffRelation::InUnchangedFile,
{
    let p = diff.changed[k].path;
    lemma_change_at(diff.changed, p);
    let at = change_at(diff.changed, p);
    assert(at >= 0) by {
        if at < 0 {
            assert(diff.changed[k].path != p);
        }
    }
    assert(at == k) by {
        if at < k {
            assert(diff.changed[at].path != diff.changed[k].path);
        } else if k < at {
            assert(diff.changed[k].path != diff.changed[at].path);
        }
    }
    if exists|i: int|
        0 <= i < diff.changed[k].ranges.len() && (#[trigger] diff.changed[k].ranges[i]).0 <= line
            <= diff.changed[k].ranges[i].1 {
        let i = choose|i: int|
            0 <= i < diff.changed[k].ranges.len() && (#[trigger] diff.changed[k].ranges[i]).0
                <= line <= diff.changed[k].ranges[i].1;
        assert(overlap(diff.changed[k].ranges[i], line, line));
    }
}
/// Is the file among the changed ones?
pub open spec fn has_file(files: Seq<ChangeModel>, path: Seq<char>) -> bool {
    change_at(files, path) >= 0
}

/// Is the range among the added-line ranges of the file?
pub open spec fn has_range(files: Seq<ChangeModel>, path: Seq<char>, range: (usize, usize)) -> bool {
    has_file(files, path) && files[change_at(files, path)].ranges.contains(range)
}

/// Does an added-line range of the file share a line with the span?
pub open spec fn touches(files: Seq<ChangeModel>, path: Seq<char>, start: usize, end: usize) -> bool {
    exists|range: (usize, usize)| #[trigger]
        has_range(files, path, range) && overlap(range, start, end)
}

proof fn lemma_related_by_ranges(diff: DiffModel, file: Seq<char>, start: usize, end: usize)
    ensures
        related(diff, file, start, end) == if !has_file(diff.changed, forward(file)) {
            DiffRelation::InUnchangedFile
        } else if touches(diff.changed, forward(file), start, end) {
            DiffRelation::OnAddedLine
        } else {
            DiffRelation::InChangedFileUnchangedLine
        },
{
    let k = change_at(diff.changed, forward(file));
    if k >= 0 {
        let ranges = diff.changed[k].ranges;
        if touches(diff.changed, forward(file), start, end) {
            let range = choose|range: (usize, usize)| #[trigger]
                has_range(diff.changed, forward(file), range) && overlap(range, start, end);
            let i = choose|i: int| 0 <= i < ranges.len() && ranges[i] == range;
            assert(overlap(diff.changed[k].ranges[i], start, end));
        }
        if exists|i: int| 0 <= i < ranges.len() && overlap(#[trigger] ranges[i], start, end) {
            let i = choose|i: int| 0 <= i < ranges.len() && overlap(#[trigger] ranges[i], start, end);
            assert(ranges.contains(ranges[i]));
            assert(has_range(diff.changed, forward(file), ranges[i]));
        }
    }
}

proof fn lemma_with_file_holds(files: Seq<ChangeModel>, path: Seq<char>, p: Seq<char>)
    ensures
        has_file(with_file(files, path), p) <==> has_file(files, p) || p == path,
        forall|range: (usize, usize)| #[trigger]
            has_range(with_file(files, path), p, range) <==> has_range(files, p, range),
{
    let after = with_file(files, path);
    lemma_change_at(files, p);
    lemma_change_at(files, path);
    lemma_change_at(after, p);
    if change_at(files, path) < 0 {
        assert(after.drop_last() =~= files);
        assert(after.last() == (ChangeModel { path, ranges: seq![] }));
        if p == path {
            assert(change_at(after, p) == files.len());
        } else {
            assert(change_at(after, p) == change_at(files, p));
            if change_at(files, p) >= 0 {
                assert(after[change_at(files, p)] == files[change_at(files, p)]);
            }
        }
    }
}

proof fn lemma_change_at_same_paths(a: Seq<ChangeModel>, b: Seq<ChangeModel>, p: Seq<char>)
    requires
        a.len() == b.len(),
        forall|i: int| 0 <= i < a.len() ==> (#[trigger] a[i]).path == b[i].path,
    ensures
        change_at(a, p) == change_at(b, p),
    decreases a.len(),
{
    if a.len() > 0 {
        assert(a[a.len() - 1].path == b[a.len() - 1].path);
        let (x, y) = (a.drop_last(), b.drop_last());
        assert forall|i: int| 0 <= i < x.len() implies (#[trigger] x[i]).path == y[i].path by {
            assert(x[i] == a[i] && y[i] == b[i]);
        }
        lemma_change_at_same_paths(x, y, p);
    }
}

proof fn lemma_with_range_holds(
    files: Seq<ChangeModel>,
    path: Seq<char>,
    range: (usize, usize),
    p: Seq<char>,
)
    requires
        has_file(files, path),
    ensures
        has_file(with_range(files, path, range), p) <==> has_file(files, p),
        forall|r: (usize, usize)| #[trigger]
            has_range(with_range(files, path, range), p, r) <==> has_range(files, p, r) || (p
                == path && r == range),
{
    let after = with_range(files, path, range);
    let k = change_at(files, path);
    lemma_change_at(files, path);
    lemma_change_at(files, p);
    assert forall|i: int| 0 <= i < after.len() implies (#[trigger] after[i]).path
        == files[i].path by {}
    lemma_change_at_same_paths(after, files, p);
    let before = files[k].ranges;
    if p == path {
        assert forall|r: (usize, usize)| #[trigger]
            has_range(after, p, r) <==> has_range(files, p, r) || r == range by {
            assert(after[k].ranges == before.push(range));
            if before.contains(r) {
                let i = choose|i: int| 0 <= i < before.len() && before[i] == r;
                assert(before.push(range)[i] == r);
            }
            if r == range {
                assert(before.push(range)[before.len() as int] == r);
            }
            if before.push(range).contains(r) && r != range {
                let i = choose|i: int|
                    0 <= i < before.push(range).len() && before.push(range)[i] == r;
                assert(before[i] == r);
            }
        }
    } else if change_at(files, p) >= 0 {
        assert(change_at(files, p) != k);
        assert(after[change_at(files, p)] == files[change_at(files, p)]);
    }
}

/// Is a line one that names the old or the new path of a rename?
pub open spec fn names_rename(line: Seq<char>) -> bool {
    text::after_prefix(line, "rename from "@) is Some || text::after_prefix(
        line,
        "rename to "@,
    ) is Some
}

/// Does a line read like one that names a file?
pub open spec fn like_file(line: Seq<char>) -> bool {
    text::after_prefix(line, "+++ "@) is Some
}

/// Does a line open a hunk?
pub open spec fn opens_hunk(line: Seq<char>) -> bool {
    text::after_prefix(line, "@@"@) is Some
}

proof fn lemma_kinds_apart(line: Seq<char>)
    ensures
        names_rename(line) ==> !like_file(line) && !opens_hunk(line),
        like_file(line) ==> !opens_hunk(line),
        text::after_prefix(line, "rename from "@) is None || text::after_prefix(
            line,
            "rename to "@,
        ) is None,
{
    reveal_strlit("rename from ");
    reveal_strlit("rename to ");
    reveal_strlit("+++ ");
    reveal_strlit("@@");
    if text::after_prefix(line, "rename from "@) is Some {
        assert(line[0] == "rename from "@[0] && line[7] == "rename from "@[7]);
    }
    if text::after_prefix(line, "rename to "@) is Some {
        assert(line[0] == "rename to "@[0] && line[7] == "rename to "@[7]);
    }
    if like_file(line) {
        assert(line[0] == "+++ "@[0]);
    }
    if opens_hunk(line) {
        assert(line[0] == "@@"@[0]);
    }
}

/// How many old and how many new lines of a hunk are still to come after the first `n` lines,
/// given what was to come before them.
pub open spec fn left_from(left: (usize, usize), lines: Seq<Seq<char>>, n: nat) -> (usize, usize)
    decreases n,
{
    if n == 0 {
        left
    } else {
        left_after(left_from(left, lines, (n - 1) as nat), lines[n - 1])
    }
}

/// Is a line the header of a file? It starts with `+++`, and is not a line of a hunk.
pub open spec fn file_header(lines: Seq<Seq<char>>, i: int) -> bool {
    like_file(lines[i]) && left_from((0, 0), lines, i as nat) == (0usize, 0usize)
}

/// The path that the header of a file names; none for a deleted file.
pub open spec fn header_path(line: Seq<char>) -> Option<Seq<char>> {
    let raw = post_image(text::after_prefix(line, "+++ "@)->Some_0);
    if raw == "/dev/null"@ {
        None
    } else {
        Some(forward(without_side(raw)))
    }
}

/// The file that a hunk behind the first `n` lines belongs to: the one that the last header
/// names.
pub open spec fn file_before(lines: Seq<Seq<char>>, n: nat) -> Option<Seq<char>>
    decreases n,
{
    if n == 0 {
        None
    } else if file_header(lines, n - 1) {
        header_path(lines[n - 1])
    } else {
        file_before(lines, (n - 1) as nat)
    }
}

/// Does one of the first `n` lines name the file in its header?
pub open spec fn header_names(lines: Seq<Seq<char>>, n: nat, path: Seq<char>) -> bool {
    exists|i: int|
        0 <= i < n && #[trigger] file_header(lines, i) && header_path(lines[i]) == Some(path)
}

/// Does a line open a hunk of the file that adds the range?
pub open spec fn hunk_adds(lines: Seq<Seq<char>>, i: int, path: Seq<char>, range: (usize, usize)) -> bool {
    &&& opens_hunk(lines[i])
    &&& file_before(lines, i as nat) == Some(path)
    &&& hunk(text::after_prefix(lines[i], "@@"@)->Some_0) matches Ok((start, count)) && count > 0
        && range.0 == start && range.1 == start + count - 1
}

/// Does one of the first `n` lines open a hunk of the file that adds the range?
pub open spec fn some_hunk_adds(
    lines: Seq<Seq<char>>,
    n: nat,
    path: Seq<char>,
    range: (usize, usize),
) -> bool {
    exists|i: int| 0 <= i < n && #[trigger] hunk_adds(lines, i, path, range)
}

/// Does a reading of the first `n` lines hold what their headers say?
spec fn holds_headers(st: ReadingModel, lines: Seq<Seq<char>>, n: nat) -> bool {
    &&& st.left == left_from((0, 0), lines, n)
    &&& st.current == file_before(lines, n)
    &&& forall|p: Seq<char>| #[trigger]
        has_file(st.diff.changed, p) <==> header_names(lines, n, p)
    &&& forall|p: Seq<char>, r: (usize, usize)| #[trigger]
        has_range(st.diff.changed, p, r) <==> some_hunk_adds(lines, n, p, r)
}

proof fn lemma_header_step(lines: Seq<Seq<char>>, n: nat, p: Seq<char>, r: (usize, usize))
    ensures
        header_names(lines, n + 1, p) <==> header_names(lines, n, p) || (file_header(
            lines,
            n as int,
        ) && header_path(lines[n as int]) == Some(p)),
        some_hunk_adds(lines, n + 1, p, r) <==> some_hunk_adds(lines, n, p, r) || hunk_adds(
            lines,
            n as int,
            p,
            r,
        ),
{
    if header_names(lines, n + 1, p) {
        let i = choose|i: int|
            0 <= i < n + 1 && #[trigger] file_header(lines, i) && header_path(lines[i]) == Some(p);
        if i < n {
            assert(file_header(lines, i));
        }
    }
    if header_names(lines, n, p) {
        let i = choose|i: int|
            0 <= i < n && #[trigger] file_header(lines, i) && header_path(lines[i]) == Some(p);
        assert(file_header(lines, i));
    }
    if some_hunk_adds(lines, n + 1, p, r) {
        let i = choose|i: int| 0 <= i < n + 1 && #[trigger] hunk_adds(lines, i, p, r);
        if i < n {
            assert(hunk_adds(lines, i, p, r));
        }
    }
    if some_hunk_adds(lines, n, p, r) {
        let i = choose|i: int| 0 <= i < n && #[trigger] hunk_adds(lines, i, p, r);
        assert(hunk_adds(lines, i, p, r));
    }
}

proof fn lemma_read_holds_headers(lines: Seq<Seq<char>>, n: nat)
    ensures
        read_lines(lines, n) matches ReadModel::Read(st) ==> holds_headers(st, lines, n),
    decreases n,
{
    if n == 0 {
        assert(change_at(Seq::<ChangeModel>::empty(), seq![]) == -1);
    } else {
        let m = (n - 1) as nat;
        let line = lines[n - 1];
        lemma_read_holds_headers(lines, m);
        lemma_read_lines_valid(lines, m);
        lemma_kinds_apart(line);
        if let (ReadModel::Read(st), ReadModel::Read(next)) = (
            read_lines(lines, m),
            read_lines(lines, n),
        ) {
            let (a, b) = (st.diff.changed, next.diff.changed);
            assert forall|p: Seq<char>, r: (usize, usize)|
                (has_file(b, p) <==> header_names(lines, n, p)) && (#[trigger] has_range(b, p, r)
                    <==> some_hunk_adds(lines, n, p, r)) by {
                lemma_header_step(lines, m, p, r);
                assert(has_file(a, p) <==> header_names(lines, m, p));
                assert(has_range(a, p, r) <==> some_hunk_adds(lines, m, p, r));
                if file_header(lines, m as int) {
                    if let Some(path) = header_path(line) {
                        lemma_with_file_holds(a, path, p);
                    }
                }
                if opens_hunk(line) {
                    if let (Some(file), Ok((start, count))) = (
                        st.current,
                        hunk(text::after_prefix(line, "@@"@)->Some_0),
                    ) {
                        if count > 0 {
                            lemma_with_range_holds(
                                a,
                                file,
                                (start, (start + count - 1) as usize),
                                p,
                            );
                        }
                    }
                }
            }
            assert forall|p: Seq<char>| #[trigger]
                has_file(b, p) <==> header_names(lines, n, p) by {
                let r = (0usize, 0usize);
                assert(has_range(b, p, r) <==> some_hunk_adds(lines, n, p, r));
            }
        }
    }
}

/// What a diff says of a span of lines, by the headers of its text: the file is unchanged where
/// no header names it; the span is on an added line where a hunk of the file adds a line of
/// it; and it is elsewhere in a changed file otherwise.
pub proof fn lemma_relation_by_headers(t: Seq<char>, file: Seq<char>, start: usize, end: usize)
    requires
        read_diff(t) is Read,
    ensures
        ({
            let lines = text::text_lines(t);
            let relation = related(read_diff(t)->Read_0.diff, file, start, end);
            let named = header_names(lines, lines.len(), forward(file));
            let added = exists|range: (usize, usize)| #[trigger]
                some_hunk_adds(lines, lines.len(), forward(file), range) && overlap(
                    range,
                    start,
                    end,
                );
            &&& relation == DiffRelation::InUnchangedFile <==> !named
            &&& relation == DiffRelation::OnAddedLine <==> named && added
            &&& relation == DiffRelation::InChangedFileUnchangedLine <==> named && !added
            &&& added ==> named
        }),
{
    let lines = text::text_lines(t);
    let n = lines.len();
    let diff = read_diff(t)->Read_0.diff;
    let p = forward(file);
    lemma_read_holds_headers(lines, n);
    lemma_related_by_ranges(diff, file, start, end);
    assert(has_file(diff.changed, p) <==> header_names(lines, n, p));
    if touches(diff.changed, p, start, end) {
        let range = choose|range: (usize, usize)| #[trigger]
            has_range(diff.changed, p, range) && overlap(range, start, end);
        assert(some_hunk_adds(lines, n, p, range));
    }
    if exists|range: (usize, usize)| #[trigger]
        some_hunk_adds(lines, n, p, range) && overlap(range, start, end) {
        let range = choose|range: (usize, usize)| #[trigger]
            some_hunk_adds(lines, n, p, range) && overlap(range, start, end);
        assert(has_range(diff.changed, p, range));
    }
}
/// Does every hunk follow a line that reads like the header of a file?
pub open spec fn hunks_follow_files(lines: Seq<Seq<char>>) -> bool {
    forall|i: int|
        0 <= i < lines.len() && opens_hunk(#[trigger] lines[i]) ==> file_seen(lines, i as nat)
}

/// Is one of the first `n` lines like the header of a file?
pub open spec fn file_seen(lines: Seq<Seq<char>>, n: nat) -> bool {
    exists|k: int| 0 <= k < n && like_file(#[trigger] lines[k])
}

/// Is what is to come of a hunk over when the first line like the header of a file comes?
pub open spec fn over_before_files(left: (usize, usize), lines: Seq<Seq<char>>) -> bool {
    forall|i: int|
        0 <= i < lines.len() && like_file(#[trigger] lines[i]) && !file_seen(lines, i as nat)
            ==> left_from(left, lines, i as nat) == (0usize, 0usize)
}

/// The stronger of two relations: an added line, then a changed file, then an unchanged one.
pub open spec fn stronger(a: DiffRelation, b: DiffRelation) -> DiffRelation {
    if a == DiffRelation::OnAddedLine || b == DiffRelation::OnAddedLine {
        DiffRelation::OnAddedLine
    } else if a == DiffRelation::InChangedFileUnchangedLine || b
        == DiffRelation::InChangedFileUnchangedLine {
        DiffRelation::InChangedFileUnchangedLine
    } else {
        DiffRelation::InUnchangedFile
    }
}

proof fn lemma_read_prefix(a: Seq<Seq<char>>, b: Seq<Seq<char>>, n: nat)
    requires
        n <= a.len(),
    ensures
        read_lines(a + b, n) == read_lines(a, n),
    decreases n,
{
    if n > 0 {
        lemma_read_prefix(a, b, (n - 1) as nat);
        assert((a + b)[n - 1] == a[n - 1]);
    }
}

/// Does a reading stand where two readings stand, the second of `n` lines behind the first?
spec fn stands_as_both(
    s: ReadingModel,
    a: ReadingModel,
    b: ReadingModel,
    lines: Seq<Seq<char>>,
    n: nat,
) -> bool {
    &&& s.diff.renames == a.diff.renames + b.diff.renames
    &&& s.rename_from == b.rename_from
    &&& s.left == left_from(a.left, lines, n)
    &&& b.left == left_from((0, 0), lines, n)
    &&& file_seen(lines, n) ==> s.left == b.left && s.current == b.current
    &&& !file_seen(lines, n) ==> b.left == (0usize, 0usize)
}

/// Do changed files hold a file and a range where one of two lists holds them?
spec fn changed_in_either(
    s: Seq<ChangeModel>,
    a: Seq<ChangeModel>,
    b: Seq<ChangeModel>,
    p: Seq<char>,
    r: (usize, usize),
) -> bool {
    &&& has_file(s, p) <==> has_file(a, p) || has_file(b, p)
    &&& has_range(s, p, r) <==> has_range(a, p, r) || has_range(b, p, r)
}

/// Does a reading hold what two readings hold, the second of `n` lines behind the first?
spec fn holds_both(
    s: ReadingModel,
    a: ReadingModel,
    b: ReadingModel,
    lines: Seq<Seq<char>>,
    n: nat,
) -> bool {
    &&& stands_as_both(s, a, b, lines, n)
    &&& forall|p: Seq<char>, r: (usize, usize)| #[trigger]
        changed_in_either(s.diff.changed, a.diff.changed, b.diff.changed, p, r)
}

proof fn lemma_file_seen_step(lines: Seq<Seq<char>>, n: nat)
    ensures
        file_seen(lines, n + 1) <==> file_seen(lines, n) || like_file(lines[n as int]),
{
    if file_seen(lines, n + 1) {
        let k = choose|k: int| 0 <= k < n + 1 && like_file(#[trigger] lines[k]);
        if k < n {
            assert(like_file(lines[k]));
        }
    }
    if file_seen(lines, n) {
        let k = choose|k: int| 0 <= k < n && like_file(#[trigger] lines[k]);
        assert(like_file(lines[k]));
    }
    if like_file(lines[n as int]) {
        assert(like_file(lines[n as int]));
    }
}

proof fn lemma_both_stand(
    s: ReadingModel,
    a: ReadingModel,
    b: ReadingModel,
    lines: Seq<Seq<char>>,
    n: nat,
)
    requires
        n < lines.len(),
        stands_as_both(s, a, b, lines, n),
        hunks_follow_files(lines),
        over_before_files(a.left, lines),
        after_line(b, lines[n as int]) is Read,
    ensures
        after_line(s, lines[n as int]) is Read,
        stands_as_both(
            after_line(s, lines[n as int])->Read_0,
            a,
            after_line(b, lines[n as int])->Read_0,
            lines,
            n + 1,
        ),
{
    let line = lines[n as int];
    lemma_kinds_apart(line);
    lemma_file_seen_step(lines, n);
    if like_file(line) && !file_seen(lines, n) {
        assert(left_from(a.left, lines, n) == (0usize, 0usize));
    }
    if opens_hunk(line) {
        assert(file_seen(lines, n));
    }
    let (x, y) = (after_line(s, line), after_line(b, line));
    assert(x is Read);
    let (s2, b2) = (x->Read_0, y->Read_0);
    if text::after_prefix(line, "rename to "@) is Some && s.rename_from is Some {
        let pair = b2.diff.renames.last();
        assert(b2.diff.renames == b.diff.renames.push(pair));
        assert(s2.diff.renames =~= a.diff.renames + b2.diff.renames);
    }
}

proof fn lemma_both_changed(
    s: ReadingModel,
    a: ReadingModel,
    b: ReadingModel,
    line: Seq<char>,
    p: Seq<char>,
    r: (usize, usize),
)
    requires
        changed_in_either(s.diff.changed, a.diff.changed, b.diff.changed, p, r),
        like_file(line) ==> (s.left == (0usize, 0usize) <==> b.left == (0usize, 0usize)),
        opens_hunk(line) ==> s.current == b.current,
        s.current matches Some(file) ==> has_file(s.diff.changed, file),
        b.current matches Some(file) ==> has_file(b.diff.changed, file),
        after_line(s, line) is Read,
        after_line(b, line) is Read,
    ensures
        changed_in_either(
            after_line(s, line)->Read_0.diff.changed,
            a.diff.changed,
            after_line(b, line)->Read_0.diff.changed,
            p,
            r,
        ),
{
    lemma_kinds_apart(line);
    let (fs, fb) = (s.diff.changed, b.diff.changed);
    if like_file(line) {
        if let (true, Some(path)) = (b.left == (0usize, 0usize), header_path(line)) {
            lemma_with_file_holds(fs, path, p);
            lemma_with_file_holds(fb, path, p);
        }
    } else if opens_hunk(line) {
        if let (Some(file), Ok((start, count))) = (
            b.current,
            hunk(text::after_prefix(line, "@@"@)->Some_0),
        ) {
            if count > 0 {
                let range = (start, (start + count - 1) as usize);
                lemma_with_range_holds(fs, file, range, p);
                lemma_with_range_holds(fb, file, range, p);
            }
        }
    }
}

proof fn lemma_both_step(
    s: ReadingModel,
    a: ReadingModel,
    b: ReadingModel,
    lines: Seq<Seq<char>>,
    n: nat,
)
    requires
        n < lines.len(),
        holds_both(s, a, b, lines, n),
        hunks_follow_files(lines),
        over_before_files(a.left, lines),
        s.current matches Some(file) ==> has_file(s.diff.changed, file),
        b.current matches Some(file) ==> has_file(b.diff.changed, file),
        after_line(b, lines[n as int]) is Read,
    ensures
        after_line(s, lines[n as int]) is Read,
        holds_both(
            after_line(s, lines[n as int])->Read_0,
            a,
            after_line(b, lines[n as int])->Read_0,
            lines,
            n + 1,
        ),
{
    let line = lines[n as int];
    lemma_both_stand(s, a, b, lines, n);
    let (x, y) = (after_line(s, line)->Read_0.diff.changed, after_line(b, line)->Read_0.diff.changed);
    assert forall|p: Seq<char>, r: (usize, usize)| #[trigger]
        changed_in_either(x, a.diff.changed, y, p, r) by {
        assert(changed_in_either(s.diff.changed, a.diff.changed, b.diff.changed, p, r));
        if like_file(line) && !file_seen(lines, n) {
            assert(left_from(a.left, lines, n) == (0usize, 0usize));
        }
        if opens_hunk(line) {
            assert(file_seen(lines, n));
        }
        lemma_both_changed(s, a, b, line, p, r);
    }
}

proof fn lemma_read_both(p: Seq<Seq<char>>, q: Seq<Seq<char>>, n: nat)
    requires
        n <= q.len(),
        read_lines(p, p.len()) is Read,
        read_lines(q, q.len()) is Read,
        read_lines(p, p.len())->Read_0.rename_from is None,
        hunks_follow_files(q),
        over_before_files(read_lines(p, p.len())->Read_0.left, q),
    ensures
        read_lines(q, n) is Read,
        read_lines(p + q, p.len() + n) is Read,
        holds_both(
            read_lines(p + q, p.len() + n)->Read_0,
            read_lines(p, p.len())->Read_0,
            read_lines(q, n)->Read_0,
            q,
            n,
        ),
    decreases n,
{
    let a = read_lines(p, p.len())->Read_0;
    if !(read_lines(q, n) is Read) {
        lemma_read_stops(q, n, q.len());
    }
    if n == 0 {
        lemma_read_prefix(p, q, p.len());
        let b = read_lines(q, 0)->Read_0;
        assert(a.diff.renames + b.diff.renames =~= a.diff.renames);
        assert forall|f: Seq<char>| !#[trigger] has_file(b.diff.changed, f) by {}
    } else {
        let m = (n - 1) as nat;
        lemma_read_both(p, q, m);
        lemma_read_lines_valid(p + q, p.len() + m);
        lemma_read_lines_valid(q, m);
        let (s, b) = (read_lines(p + q, p.len() + m)->Read_0, read_lines(q, m)->Read_0);
        assert((p + q)[(p.len() + m) as int] == q[m as int]);
        lemma_both_step(s, a, b, q, m);
    }
}

/// One diff after another: the renames of the first come before those of the second, and a
/// span of lines has the stronger of its relations to the two. The first diff leaves no rename
/// open, and no hunk that would take in the first `+++` line of the second; and the hunks of
/// the second follow such a line.
pub proof fn lemma_diffs_in_turn(
    p: Seq<char>,
    q: Seq<char>,
    file: Seq<char>,
    start: usize,
    end: usize,
)
    requires
        p.len() == 0 || p.last() == '\n',
        read_diff(p) is Read,
        read_diff(q) is Read,
        read_diff(p)->Read_0.rename_from is None,
        hunks_follow_files(text::text_lines(q)),
        over_before_files(read_diff(p)->Read_0.left, text::text_lines(q)),
    ensures
        read_diff(p + q) is Read,
        read_diff(p + q)->Read_0.diff.renames == read_diff(p)->Read_0.diff.renames + read_diff(
            q,
        )->Read_0.diff.renames,
        related(read_diff(p + q)->Read_0.diff, file, start, end) == stronger(
            related(read_diff(p)->Read_0.diff, file, start, end),
            related(read_diff(q)->Read_0.diff, file, start, end),
        ),
{
    let (a, b) = (text::text_lines(p), text::text_lines(q));
    text::lemma_lines_of_concat(p, q);
    lemma_read_both(a, b, b.len());
    let (x, y, z) = (
        read_diff(p)->Read_0.diff,
        read_diff(q)->Read_0.diff,
        read_diff(p + q)->Read_0.diff,
    );
    lemma_related_by_ranges(x, file, start, end);
    lemma_related_by_ranges(y, file, start, end);
    lemma_related_by_ranges(z, file, start, end);
    let f = forward(file);
    assert forall|r: (usize, usize)| #[trigger]
        has_range(z.changed, f, r) <==> has_range(x.changed, f, r) || has_range(y.changed, f, r) by {
        assert(changed_in_either(z.changed, x.changed, y.changed, f, r));
    }
    assert(changed_in_either(z.changed, x.changed, y.changed, f, (0, 0)));
    assert(touches(z.changed, f, start, end) <==> touches(x.changed, f, start, end) || touches(
        y.changed,
        f,
        start,
        end,
    )) by {
        if touches(z.changed, f, start, end) {
            let r = choose|r: (usize, usize)| #[trigger]
                has_range(z.changed, f, r) && overlap(r, start, end);
            assert(has_range(x.changed, f, r) || has_range(y.changed, f, r));
        }
        if touches(x.changed, f, start, end) {
            let r = choose|r: (usize, usize)| #[trigger]
                has_range(x.changed, f, r) && overlap(r, start, end);
            assert(has_range(z.changed, f, r));
        }
        if touches(y.changed, f, start, end) {
            let r = choose|r: (usize, usize)| #[trigger]
                has_range(y.changed, f, r) && overlap(r, start, end);
            assert(has_range(z.changed, f, r));
        }
    }
}

/// Does an added-line range of an entry for the file hold the line?
pub open spec fn entry_holds(diff: DiffModel, path: Seq<char>, k: int, i: int, line: int) -> bool {
    &&& 0 <= k < diff.changed.len()
    &&& diff.changed[k].path == path
    &&& 0 <= i < diff.changed[k].ranges.len()
    &&& diff.changed[k].ranges[i].0 <= line <= diff.changed[k].ranges[i].1
}

/// A span of lines in a change that lists each file once: its file is unchanged where no entry is
/// its file's, and the span is on an added line exactly where one of its lines is in a range of
/// such an entry.
pub proof fn lemma_relation_by_entries(diff: DiffModel, file: Seq<char>, start: usize, end: usize)
    requires
        listed_once(diff.changed),
        ranges_ordered(diff.changed),
        start <= end,
    ensures
        related(diff, file, start, end) == DiffRelation::InUnchangedFile <==> forall|k: int|
            0 <= k < diff.changed.len() ==> (#[trigger] diff.changed[k]).path != forward(file),
        related(diff, file, start, end) == DiffRelation::OnAddedLine <==> exists|
            k: int,
            i: int,
            line: int,
        | #[trigger]
            entry_holds(diff, forward(file), k, i, line) && start <= line <= end,
{
    let p = forward(file);
    let at = change_at(diff.changed, p);
    lemma_change_at(diff.changed, p);
    if related(diff, file, start, end) == DiffRelation::OnAddedLine {
        let i = choose|i: int|
            0 <= i < diff.changed[at].ranges.len() && overlap(
                #[trigger] diff.changed[at].ranges[i],
                start,
                end,
            );
        let (lo, hi) = diff.changed[at].ranges[i];
        assert(diff.changed[at].ranges[i].0 <= diff.changed[at].ranges[i].1);
        let line = if start >= lo {
            start as int
        } else {
            lo as int
        };
        assert(entry_holds(diff, p, at, i, line));
    }
    if exists|k: int, i: int, line: int| #[trigger]
        entry_holds(diff, p, k, i, line) && start <= line <= end {
        let (k, i, line) = choose|k: int, i: int, line: int| #[trigger]
            entry_holds(diff, p, k, i, line) && start <= line <= end;
        assert(at >= 0);
        if at != k {
            let (x, y) = if at < k {
                (at, k)
            } else {
                (k, at)
            };
            assert(diff.changed[x].path != diff.changed[y].path);
        }
        assert(overlap(diff.changed[at].ranges[i], start, end));
    }
}

/// A path with forward slashes has one wherever the path has a backslash, and is the path
/// everywhere else.
pub proof fn lemma_forward_at(path: Seq<char>, i: int)
    requires
        0 <= i < path.len(),
    ensures
        forward(path).len() == path.len(),
        path[i] == '\\' ==> forward(path)[i] == '/',
        path[i] != '\\' ==> forward(path)[i] == path[i],
{
}

proof fn lemma_plus_word_at(words: Seq<Seq<char>>, k: int)
    requires
        0 <= k < words.len(),
        words[k].len() > 0 && words[k][0] == '+',
        forall|i: int| 0 <= i < k ==> (#[trigger] words[i]).len() == 0 || words[i][0] != '+',
    ensures
        plus_word(words) == Some(words[k]),
    decreases words.len(),
{
    if k > 0 {
        let rest = words.drop_first();
        assert(words[0].len() == 0 || words[0][0] != '+');
        assert forall|i: int| 0 <= i < k - 1 implies (#[trigger] rest[i]).len() == 0 || rest[i][0]
            != '+' by {
            assert(rest[i] == words[i + 1]);
        }
        lemma_plus_word_at(rest, k - 1);
    }
}

proof fn lemma_no_plus_word(words: Seq<Seq<char>>)
    requires
        forall|i: int|
            0 <= i < words.len() ==> (#[trigger] words[i]).len() == 0 || words[i][0] != '+',
    ensures
        plus_word(words) is None,
    decreases words.len(),
{
    if words.len() > 0 {
        let rest = words.drop_first();
        assert(words[0].len() == 0 || words[0][0] != '+');
        assert forall|i: int| 0 <= i < rest.len() implies (#[trigger] rest[i]).len() == 0
            || rest[i][0] != '+' by {
            assert(rest[i] == words[i + 1]);
        }
        lemma_no_plus_word(rest);
    }
}

proof fn lemma_minus_word_at(words: Seq<Seq<char>>, k: int)
    requires
        0 <= k < words.len(),
        words[k].len() > 0 && words[k][0] == '-',
        forall|i: int| 0 <= i < k ==> (#[trigger] words[i]).len() == 0 || words[i][0] != '-',
    ensures
        minus_word(words) == Some(words[k]),
    decreases words.len(),
{
    if k > 0 {
        let rest = words.drop_first();
        assert(words[0].len() == 0 || words[0][0] != '-');
        assert forall|i: int| 0 <= i < k - 1 implies (#[trigger] rest[i]).len() == 0 || rest[i][0]
            != '-' by {
            assert(rest[i] == words[i + 1]);
        }
        lemma_minus_word_at(rest, k - 1);
    }
}

/// A hunk header by its words: the first that starts with `+` gives the first added line and,
/// behind a comma, the number of added lines, which is one where there is no comma. A part that
/// is no number, and a header without such a word, is an error of its own kind.
pub proof fn lemma_hunk_by_words(rest: Seq<char>, k: int, a: Seq<char>, b: Seq<char>)
    requires
        !a.contains(','),
    ensures
        ({
            let ws = text::words(rest);
            let first = 0 <= k < ws.len() && forall|i: int|
                0 <= i < k ==> (#[trigger] ws[i]).len() == 0 || ws[i][0] != '+';
            let both = first && ws[k] == seq!['+'] + a + seq![','] + b;
            let alone = first && ws[k] == seq!['+'] + a;
            &&& both || alone ==> text::usize_of(a) is None ==> hunk(rest) == Err::<
                (usize, usize),
                DiffError,
            >(DiffError::Start)
            &&& both ==> text::usize_of(a) is Some && text::usize_of(b) is None ==> hunk(rest)
                == Err::<(usize, usize), DiffError>(DiffError::Count)
            &&& both ==> (text::usize_of(a) matches Some(s) ==> (text::usize_of(b) matches Some(c)
                ==> hunk(rest) == Ok::<(usize, usize), DiffError>((s, c))))
            &&& alone ==> (text::usize_of(a) matches Some(s) ==> hunk(rest) == Ok::<
                (usize, usize),
                DiffError,
            >((s, 1)))
            &&& (forall|i: int| 0 <= i < ws.len() ==> (#[trigger] ws[i]).len() == 0 || ws[i][0]
                != '+') ==> hunk(rest) == Err::<(usize, usize), DiffError>(DiffError::NoPlus)
        }),
{
    let ws = text::words(rest);
    let both = seq!['+'] + a + seq![','] + b;
    let alone = seq!['+'] + a;
    text::lemma_pieces_one_by_one(a, ',', b);
    assert(both.skip(1) =~= a + seq![','] + b);
    assert(alone.skip(1) =~= a);
    if 0 <= k < ws.len() && (ws[k] == both || ws[k] == alone) && forall|i: int|
        0 <= i < k ==> (#[trigger] ws[i]).len() == 0 || ws[i][0] != '+' {
        lemma_plus_word_at(ws, k);
    }
    if forall|i: int| 0 <= i < ws.len() ==> (#[trigger] ws[i]).len() == 0 || ws[i][0] != '+' {
        lemma_no_plus_word(ws);
    }
}

/// What a hunk header announces, by its words: as many old lines as the first word that starts
/// with `-` says behind its comma, or one where it has none, and as many new lines as the hunk
/// adds.
pub proof fn lemma_announced_by_words(
    left: (usize, usize),
    rest: Seq<char>,
    k: int,
    a: Seq<char>,
    b: Seq<char>,
)
    requires
        !a.contains(','),
        0 <= k < text::words(rest).len(),
        forall|i: int|
            0 <= i < k ==> (#[trigger] text::words(rest)[i]).len() == 0 || text::words(rest)[i][0]
                != '-',
    ensures
        text::words(rest)[k] == seq!['-'] + a + seq![','] + b ==> (text::usize_of(b) matches Some(c)
            ==> left_after(left, "@@"@ + rest).0 == c),
        text::words(rest)[k] == seq!['-'] + a ==> left_after(left, "@@"@ + rest).0 == 1,
        hunk(rest) matches Ok((_, count)) ==> left_after(left, "@@"@ + rest).1 == count,
{
    let ws = text::words(rest);
    let both = seq!['-'] + a + seq![','] + b;
    let alone = seq!['-'] + a;
    text::lemma_pieces_one_by_one(a, ',', b);
    text::lemma_after_prefix("@@"@, rest, seq![], 0);
    assert(both.skip(1) =~= a + seq![','] + b);
    assert(alone.skip(1) =~= a);
    if ws[k] == both || ws[k] == alone {
        lemma_minus_word_at(ws, k);
    }
}

/// Is it a line of a hunk, or a remark in one?
pub open spec fn in_hunk(line: Seq<char>) -> bool {
    line.len() == 0 || line[0] == ' ' || line[0] == '+' || line[0] == '-' || line[0] == '\\'
}

/// How many of the lines are lines of the old file.
pub open spec fn old_lines(lines: Seq<Seq<char>>) -> nat {
    lines.filter(|l: Seq<char>| l.len() == 0 || l[0] == ' ' || l[0] == '-').len()
}

/// How many of the lines are lines of the new file.
pub open spec fn new_lines(lines: Seq<Seq<char>>) -> nat {
    lines.filter(|l: Seq<char>| l.len() == 0 || l[0] == ' ' || l[0] == '+').len()
}

/// A hunk is over when its lines are: each line of the old file is one less of the old ones to
/// come, each of the new file one less of the new ones, and a remark is neither.
pub proof fn lemma_hunk_counted_down(left: (usize, usize), lines: Seq<Seq<char>>)
    requires
        forall|i: int| 0 <= i < lines.len() ==> in_hunk(#[trigger] lines[i]),
        old_lines(lines) <= left.0,
        new_lines(lines) <= left.1,
    ensures
        left_from(left, lines, lines.len()).0 == left.0 - old_lines(lines),
        left_from(left, lines, lines.len()).1 == left.1 - new_lines(lines),
    decreases lines.len(),
{
    reveal(Seq::filter);
    reveal_strlit("@@");
    if lines.len() > 0 {
        let init = lines.drop_last();
        let n = init.len();
        assert forall|i: int| 0 <= i < n implies in_hunk(#[trigger] init[i]) by {
            assert(init[i] == lines[i]);
        }
        assert(old_lines(init) <= old_lines(lines));
        assert(new_lines(init) <= new_lines(lines));
        lemma_hunk_counted_down(left, init);
        lemma_left_from_same(left, init, lines, n);
        assert(in_hunk(lines[n as int]));
        text::lemma_after_prefix("@@"@, seq![], lines[n as int], 0);
    }
}

proof fn lemma_left_from_same(
    left: (usize, usize),
    a: Seq<Seq<char>>,
    b: Seq<Seq<char>>,
    n: nat,
)
    requires
        n <= a.len(),
        n <= b.len(),
        forall|i: int| 0 <= i < n ==> a[i] == b[i],
    ensures
        left_from(left, a, n) == left_from(left, b, n),
    decreases n,
{
    if n > 0 {
        lemma_left_from_same(left, a, b, (n - 1) as nat);
    }
}

/// A line that is none of a hunk's ends the hunk.
pub proof fn lemma_hunk_ended(left: (usize, usize), line: Seq<char>)
    requires
        !in_hunk(line),
        !opens_hunk(line),
    ensures
        left_after(left, line) == (0usize, 0usize),
{
}

/// The path in the header of a file that stands behind `a/` or `b/` is what stands there, up to a
/// tab, with forward slashes.
#[verifier::spinoff_prover]
pub proof fn lemma_header_path_of(side: Seq<char>, p: Seq<char>, tail: Seq<char>)
    requires
        side == "a/"@ || side == "b/"@,
        p.len() > 0,
        !p.contains('\t'),
        !text::is_space(p[0]),
        !text::is_space(p.last()),
    ensures
        header_path("+++ "@ + side + p) == Some(forward(p)),
        header_path("+++ "@ + side + p + seq!['\t'] + tail) == Some(forward(p)),
{
    lemma_side_stripped(side, p);
    let raw = side + p;
    assert(!raw.contains('\t')) by {
        if raw.contains('\t') {
            let k = choose|k: int| 0 <= k < raw.len() && raw[k] == '\t';
            if k >= 2 {
                assert(p[k - 2] == '\t');
            }
        }
    }
    assert(raw[0] == side[0] && raw.last() == p.last());
    lemma_post_image_of(raw, tail);
    assert("+++ "@ + side + p =~= "+++ "@ + raw);
    assert("+++ "@ + side + p + seq!['\t'] + tail =~= "+++ "@ + (raw + seq!['\t'] + tail));
}

/// The path in the header of a file that stands by itself is what stands there, up to a tab, with
/// forward slashes, unless it is `/dev/null`.
#[verifier::spinoff_prover]
pub proof fn lemma_header_path_alone(p: Seq<char>, tail: Seq<char>)
    requires
        p.len() > 0,
        !p.contains('\t'),
        !text::is_space(p[0]),
        !text::is_space(p.last()),
        p.len() < 2 || p[1] != '/' || (p[0] != 'a' && p[0] != 'b'),
    ensures
        header_path("+++ "@ + p) == if p == "/dev/null"@ {
            None
        } else {
            Some(forward(p))
        },
        header_path("+++ "@ + (p + seq!['\t'] + tail)) == header_path("+++ "@ + p),
{
    lemma_no_side(p);
    lemma_post_image_of(p, tail);
}

proof fn lemma_no_side(p: Seq<char>)
    requires
        p.len() < 2 || p[1] != '/' || (p[0] != 'a' && p[0] != 'b'),
    ensures
        without_side(p) == p,
{
    reveal_strlit("a/");
    reveal_strlit("b/");
    text::lemma_after_prefix("a/"@, p, p, 0);
    text::lemma_after_prefix("a/"@, p, p, 1);
    text::lemma_after_prefix("b/"@, p, p, 0);
    text::lemma_after_prefix("b/"@, p, p, 1);
}

proof fn lemma_side_stripped(side: Seq<char>, p: Seq<char>)
    requires
        side == "a/"@ || side == "b/"@,
    ensures
        without_side(side + p) == p,
        side + p != "/dev/null"@,
        side.len() == 2,
        side[0] == 'a' || side[0] == 'b',
        side[1] == '/',
{
    reveal_strlit("a/");
    reveal_strlit("b/");
    reveal_strlit("/dev/null");
    let all = side + p;
    assert(all[0] == side[0] && "/dev/null"@[0] == '/');
    text::lemma_after_prefix(side, p, seq![], 0);
    text::lemma_after_prefix("a/"@, p, all, 0);
}

proof fn lemma_post_image_of(p: Seq<char>, tail: Seq<char>)
    requires
        p.len() > 0,
        !p.contains('\t'),
        !text::is_space(p[0]),
        !text::is_space(p.last()),
    ensures
        text::after_prefix("+++ "@ + p, "+++ "@) == Some(p),
        text::after_prefix("+++ "@ + (p + seq!['\t'] + tail), "+++ "@) == Some(
            p + seq!['\t'] + tail,
        ),
        post_image(p) == p,
        post_image(p + seq!['\t'] + tail) == p,
{
    text::lemma_after_prefix("+++ "@, p, seq![], 0);
    text::lemma_after_prefix("+++ "@, p + seq!['\t'] + tail, seq![], 0);
    text::lemma_pieces_one_by_one(p, '\t', tail);
    text::lemma_trimmed_at(p, 0, p.len() as int);
    assert(p.subrange(0, p.len() as int) =~= p);
}

/// Does a rename go from the path on one line to the path on another? The lines say so, and no
/// line between them names a path of a rename.
pub open spec fn renamed_on(lines: Seq<Seq<char>>, i: int, j: int) -> bool {
    &&& 0 <= i < j < lines.len()
    &&& "rename from "@.is_prefix_of(lines[i])
    &&& "rename to "@.is_prefix_of(lines[j])
    &&& forall|m: int|
        i < m < j ==> !"rename from "@.is_prefix_of(#[trigger] lines[m])
            && !"rename to "@.is_prefix_of(lines[m])
}

/// Is the old path of a rename open after the first `n` lines, named on line `i`?
spec fn rename_open(lines: Seq<Seq<char>>, i: int, n: int) -> bool {
    &&& 0 <= i < n
    &&& "rename from "@.is_prefix_of(lines[i])
    &&& forall|m: int|
        i < m < n ==> !"rename from "@.is_prefix_of(#[trigger] lines[m])
            && !"rename to "@.is_prefix_of(lines[m])
}

/// Do the renames go from and to the paths on the lines?
pub open spec fn renames_on(
    renames: Seq<(Seq<char>, Seq<char>)>,
    lines: Seq<Seq<char>>,
    w: Seq<(int, int)>,
    n: int,
) -> bool {
    &&& w.len() == renames.len()
    &&& forall|k: int|
        0 <= k < w.len() ==> renamed_on(lines, (#[trigger] w[k]).0, w[k].1) && w[k].1 < n
            && renames[k] == (
            forward(text::trimmed(lines[w[k].0].skip(12))),
            forward(text::trimmed(lines[w[k].1].skip(10))),
        )
    &&& forall|k: int, l: int| 0 <= k < l < w.len() ==> (#[trigger] w[k]).1 < (#[trigger] w[l]).1
    &&& forall|i: int, j: int| #[trigger] renamed_on(lines, i, j) && j < n ==> w.contains((i, j))
}

#[verifier::spinoff_prover]
#[verifier::rlimit(60)]
proof fn lemma_renames_upto(lines: Seq<Seq<char>>, n: nat) -> (w: Seq<(int, int)>)
    requires
        n <= lines.len(),
        read_lines(lines, n) is Read,
    ensures
        renames_on(read_lines(lines, n)->Read_0.diff.renames, lines, w, n as int),
        read_lines(lines, n)->Read_0.rename_from matches Some(from) ==> exists|i: int| #[trigger]
            rename_open(lines, i, n as int) && from == forward(text::trimmed(lines[i].skip(12))),
        read_lines(lines, n)->Read_0.rename_from is None ==> forall|i: int|
            !#[trigger] rename_open(lines, i, n as int),
    decreases n,
{
    if n == 0 {
        seq![]
    } else {
        let m = (n - 1) as nat;
        let before = lemma_renames_upto(lines, m);
        let st = read_lines(lines, m)->Read_0;
        let next = read_lines(lines, n)->Read_0;
        let line = lines[m as int];
        lemma_kinds_apart(line);
        reveal_strlit("rename from ");
        reveal_strlit("rename to ");
        let from_here = "rename from "@.is_prefix_of(line);
        let to_here = "rename to "@.is_prefix_of(line);
        assert forall|i: int| 0 <= i < m implies (#[trigger] rename_open(lines, i, n as int) <==>
            rename_open(lines, i, m as int) && !from_here && !to_here) by {
            if rename_open(lines, i, n as int) {
                assert(!"rename from "@.is_prefix_of(lines[m as int]));
                assert forall|x: int| i < x < m implies !"rename from "@.is_prefix_of(
                    #[trigger] lines[x],
                ) && !"rename to "@.is_prefix_of(lines[x]) by {}
            }
        }
        assert(rename_open(lines, m as int, n as int) <==> from_here);
        assert forall|i: int| i < 0 || i >= n implies !#[trigger] rename_open(
            lines,
            i,
            n as int,
        ) by {}
        if from_here {
            assert(rename_open(lines, m as int, n as int));
        }
        assert forall|i: int, j: int| #[trigger]
            renamed_on(lines, i, j) && j < n implies j < m || (j == m && to_here && rename_open(
            lines,
            i,
            m as int,
        )) by {}
        if to_here && st.rename_from is Some {
            let i = choose|i: int| #[trigger]
                rename_open(lines, i, m as int) && st.rename_from->Some_0 == forward(
                    text::trimmed(lines[i].skip(12)),
                );
            assert(renamed_on(lines, i, m as int));
            let w = before.push((i, m as int));
            assert forall|x: int, y: int| #[trigger]
                renamed_on(lines, x, y) && y < n implies w.contains((x, y)) by {
                if y < m {
                    let k = choose|k: int| 0 <= k < before.len() && before[k] == (x, y);
                    assert(w[k] == (x, y));
                } else {
                    assert(x == i) by {
                        if x < i {
                            assert(!"rename from "@.is_prefix_of(lines[i]));
                        } else if i < x {
                            assert(!"rename from "@.is_prefix_of(lines[x]));
                        }
                    }
                    assert(w[before.len() as int] == (x, y));
                }
            }
            assert(next.rename_from is None);
            assert forall|k: int| 0 <= k < w.len() implies renamed_on(
                lines,
                (#[trigger] w[k]).0,
                w[k].1,
            ) && w[k].1 < n && next.diff.renames[k] == (
                forward(text::trimmed(lines[w[k].0].skip(12))),
                forward(text::trimmed(lines[w[k].1].skip(10))),
            ) by {
                if k < before.len() {
                    assert(w[k] == before[k]);
                    assert(next.diff.renames[k] == st.diff.renames[k]);
                }
            }
            w
        } else {
            assert(next.diff.renames == st.diff.renames);
            assert forall|x: int, y: int| #[trigger]
                renamed_on(lines, x, y) && y < n implies before.contains((x, y)) by {
                if y == m {
                    assert(rename_open(lines, x, m as int));
                }
            }
            if next.rename_from is Some && !from_here {
                let i = choose|i: int| #[trigger]
                    rename_open(lines, i, m as int) && st.rename_from->Some_0 == forward(
                        text::trimmed(lines[i].skip(12)),
                    );
                assert(rename_open(lines, i, n as int));
            }
            if next.rename_from is None {
                assert forall|i: int| !#[trigger] rename_open(lines, i, n as int) by {
                    if 0 <= i < m && rename_open(lines, i, n as int) {
                        assert(rename_open(lines, i, m as int));
                    }
                }
            }
            before
        }
    }
}

/// A diff has one rename for each `rename to` line that a `rename from` line comes before, with
/// no other such line between them, in the order of the lines: from the path on the one to the
/// path on the other, both trimmed and with forward slashes.
pub proof fn lemma_every_rename_read(t: Seq<char>) -> (w: Seq<(int, int)>)
    requires
        read_diff(t) is Read,
    ensures
        renames_on(
            read_diff(t)->Read_0.diff.renames,
            text::text_lines(t),
            w,
            text::text_lines(t).len() as int,
        ),
{
    let lines = text::text_lines(t);
    lemma_renames_upto(lines, lines.len())
}

/// Is it a hunk of a file whose header cannot be read, or that ends behind the last line number?
pub open spec fn unreadable(lines: Seq<Seq<char>>, i: int) -> bool {
    &&& opens_hunk(lines[i])
    &&& file_before(lines, i as nat) is Some
    &&& match hunk(text::after_prefix(lines[i], "@@"@)->Some_0) {
        Err(_) => true,
        Ok((start, count)) => count > 0 && start + count > usize::MAX,
    }
}

proof fn lemma_readable_upto(lines: Seq<Seq<char>>, n: nat)
    ensures
        read_lines(lines, n) is Read <==> forall|i: int|
            0 <= i < n ==> !#[trigger] unreadable(lines, i),
        read_lines(lines, n) matches ReadModel::Malformed(e) ==> exists|i: int|
            0 <= i < n && #[trigger] unreadable(lines, i) && (forall|j: int|
                0 <= j < i ==> !#[trigger] unreadable(lines, j)) && hunk(
                text::after_prefix(lines[i], "@@"@)->Some_0,
            ) == Err::<(usize, usize), DiffError>(e),
        read_lines(lines, n) is TooFar ==> exists|i: int|
            0 <= i < n && #[trigger] unreadable(lines, i) && (forall|j: int|
                0 <= j < i ==> !#[trigger] unreadable(lines, j)) && hunk(
                text::after_prefix(lines[i], "@@"@)->Some_0,
            ) is Ok,
    decreases n,
{
    if n > 0 {
        let m = (n - 1) as nat;
        lemma_readable_upto(lines, m);
        lemma_read_holds_headers(lines, m);
        lemma_kinds_apart(lines[m as int]);
        if read_lines(lines, m) is Read {
            assert(read_lines(lines, n) is Read <==> !unreadable(lines, m as int));
        } else {
            let i = choose|i: int| 0 <= i < m && #[trigger] unreadable(lines, i);
            assert(unreadable(lines, i));
        }
    }
}

/// A diff is read exactly where every hunk of a file can be: where one cannot, the first such
/// hunk says what is wrong.
pub proof fn lemma_readable(t: Seq<char>)
    ensures
        ({
            let lines = text::text_lines(t);
            &&& read_diff(t) is Read <==> forall|i: int|
                0 <= i < lines.len() ==> !#[trigger] unreadable(lines, i)
            &&& read_diff(t) matches ReadModel::Malformed(e) ==> exists|i: int|
                0 <= i < lines.len() && #[trigger] unreadable(lines, i) && (forall|j: int|
                    0 <= j < i ==> !#[trigger] unreadable(lines, j)) && hunk(
                    text::after_prefix(lines[i], "@@"@)->Some_0,
                ) == Err::<(usize, usize), DiffError>(e)
            &&& read_diff(t) is TooFar ==> exists|i: int|
                0 <= i < lines.len() && #[trigger] unreadable(lines, i) && (forall|j: int|
                    0 <= j < i ==> !#[trigger] unreadable(lines, j)) && hunk(
                    text::after_prefix(lines[i], "@@"@)->Some_0,
                ) is Ok
        }),
{
    let lines = text::text_lines(t);
    lemma_readable_upto(lines, lines.len());
}

/// A run that succeeded answers with its output, whatever it wrote besides; one that failed answers
/// with what was asked, word by word, and what it wrote, without space around it.
pub proof fn lemma_run_answers(args: Seq<Seq<char>>, out: GitOutput)
    ensures
        git_answer(args, out) is Ok <==> out.success,
        git_answer(args, out) matches Ok(t) ==> t == fingerprint::utf8_lossy(out.stdout@),
        git_answer(args, out) matches Err(e) ==> e == "git "@ + text::joined(args, " "@)
            + " failed: "@ + text::trimmed(fingerprint::utf8_lossy(out.stderr@)),
{
}

/// A repository is looked for from a directory itself, and from a file's directory: the one that
/// has the components of the file's path but the last.
pub proof fn lemma_searched_from(start: Seq<char>)
    ensures
        search_dir(start, true) == start,
        path::path_parts(start).len() > 0 && path::path_parts(start) != seq![path::Part::Root]
            ==> path::path_parts(search_dir(start, false)) == path::path_parts(start).drop_last(),
        path::path_parts(start).len() == 0 ==> search_dir(start, false) == "."@,
{
    path::lemma_parent_lacks_last(start);
}

/// What is asked about a base names it: the commit that the work diverged from is asked for by the
/// base and the current commit, and the change by that commit and the current one, with renames and
/// without lines of context.
pub proof fn lemma_asked_by_name(base: Seq<char>)
    ensures
        asked_merge_base(base) == seq!["merge-base"@, base, "HEAD"@],
        asked_diff(base)[0] == "diff"@,
        asked_diff(base).contains("-M"@),
        asked_diff(base).contains("--unified=0"@),
        asked_diff(base).len() == 5,
        asked_diff(base)[3] == base,
        asked_diff(base)[4] == "HEAD"@,
{
    assert(asked_diff(base)[1] == "-M"@ && asked_diff(base)[2] == "--unified=0"@);
}

/// A reference as one name is as long as the reference, has no separator in it, and is the reference
/// where that has none.
pub proof fn lemma_one_name(refname: Seq<char>, i: int)
    requires
        0 <= i < refname.len(),
    ensures
        flattened(refname).len() == refname.len(),
        refname[i] == '/' || refname[i] == '\\' || refname[i] == ':' ==> flattened(refname)[i] == '_',
        refname[i] != '/' && refname[i] != '\\' && refname[i] != ':' ==> flattened(refname)[i]
            == refname[i],
        !flattened(refname).contains('/'),
{
    if flattened(refname).contains('/') {
        let k = choose|k: int| 0 <= k < flattened(refname).len() && flattened(refname)[k] == '/';
        assert(flattened(refname)[k] != '/');
    }
}

/// Two processes never materialize a base in one directory, whatever the references are.
pub proof fn lemma_worktrees_apart(m: nat, a: Seq<char>, n: nat, b: Seq<char>)
    requires
        worktree_name(m, a) == worktree_name(n, b),
    ensures
        m == n,
        flattened(a) == flattened(b),
{
    reveal_strlit("-");
    let (x, y) = (text::decimal(m), text::decimal(n));
    let k = "crit-base-"@.len() as int;
    let (s, t) = (x + "-"@ + flattened(a), y + "-"@ + flattened(b));
    assert(worktree_name(m, a) =~= "crit-base-"@ + s);
    assert(worktree_name(n, b) =~= "crit-base-"@ + t);
    assert(worktree_name(m, a).skip(k) =~= s);
    assert(worktree_name(n, b).skip(k) =~= t);
    text::lemma_decimal_denotes(m);
    text::lemma_decimal_denotes(n);
    if x.len() < y.len() {
        assert(s[x.len() as int] == '-');
        assert(t[x.len() as int] == y[x.len() as int]);
        assert(text::is_digit(y[x.len() as int]));
    }
    if y.len() < x.len() {
        assert(t[y.len() as int] == '-');
        assert(s[y.len() as int] == x[y.len() as int]);
        assert(text::is_digit(x[y.len() as int]));
    }
    assert(s.take(x.len() as int) =~= x);
    assert(t.take(y.len() as int) =~= y);
    assert(s.skip(x.len() as int + 1) =~= flattened(a));
    assert(t.skip(y.len() as int + 1) =~= flattened(b));
}

} // verus!
