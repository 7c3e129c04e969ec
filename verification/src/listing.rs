//! Tables of the available languages and the loaded rules.

use vstd::prelude::*;

use crate::finding;
use crate::language;
use crate::language::LanguageRegistry;
use crate::rule;
use crate::rule::{Matcher, Rule};
use crate::text;

verus! {

/// A text with spaces behind it up to a width.
pub open spec fn left_aligned(s: Seq<char>, width: nat) -> Seq<char> {
    if s.len() >= width {
        s
    } else {
        s + text::repeated(' ', (width - s.len()) as nat)
    }
}

/// A line of four columns. The last one has no width.
pub open spec fn row(
    cells: (Seq<char>, Seq<char>, Seq<char>, Seq<char>),
    widths: (nat, nat, nat),
) -> Seq<char> {
    left_aligned(cells.0, widths.0) + " "@ + left_aligned(cells.1, widths.1) + " "@ + left_aligned(
        cells.2,
        widths.2,
    ) + " "@ + cells.3 + "\n"@
}

fn push_aligned(out: &mut String, s: &str, width: usize)
    ensures
        final(out)@ == old(out)@ + left_aligned(s@, width as nat),
{
    let ghost before = out@;
    out.append(s);
    let n = s.unicode_len();
    if n < width {
        text::push_repeated(out, ' ', width - n);
    }
    assert(out@ =~= before + left_aligned(s@, width as nat));
}

fn push_row(out: &mut String, a: &str, b: &str, c: &str, d: &str, widths: (usize, usize, usize))
    ensures
        final(out)@ == old(out)@ + row(
            (a@, b@, c@, d@),
            (widths.0 as nat, widths.1 as nat, widths.2 as nat),
        ),
{
    let ghost before = out@;
    let mut line = String::new();
    push_aligned(&mut line, a, widths.0);
    assert(line@ =~= left_aligned(a@, widths.0 as nat));
    line.append(" ");
    push_aligned(&mut line, b, widths.1);
    line.append(" ");
    push_aligned(&mut line, c, widths.2);
    line.append(" ");
    line.append(d);
    line.append("\n");
    out.append(line.as_str());
}

// ---------------------------------------------------------------------------
// Languages
// ---------------------------------------------------------------------------

/// The extensions of a language, each with its dot.
pub open spec fn dotted(extensions: Seq<Seq<char>>) -> Seq<char> {
    if extensions.len() == 0 {
        "-"@
    } else {
        text::joined(extensions.map_values(|e: Seq<char>| "."@ + e), ","@)
    }
}

/// The line of a language.
pub open spec fn language_row(e: language::EntryModel) -> Seq<char> {
    row(
        (
            e.id,
            if e.bundled {
                "bundled"@
            } else {
                "dynamic"@
            },
            dotted(e.extensions),
            e.description,
        ),
        (24, 8, 22),
    )
}

/// The lines of languages.
pub open spec fn language_rows(s: Seq<language::EntryModel>) -> Seq<char>
    decreases s.len(),
{
    if s.len() == 0 {
        seq![]
    } else {
        language_rows(s.drop_last()) + language_row(s.last())
    }
}

/// The table of the available languages.
pub open spec fn language_table(s: Seq<language::EntryModel>) -> Seq<char> {
    if s.len() == 0 {
        "No languages available. (Built with --no-default-features and no --languages-config?)\n"@
    } else {
        row(("ID"@, "SOURCE"@, "EXTENSIONS"@, "DESCRIPTION"@), (24, 8, 22)) + language_rows(s)
    }
}

fn dotted_text(extensions: &Vec<String>) -> (r: String)
    ensures
        r@ == dotted(text::texts(extensions@)),
{
    if extensions.len() == 0 {
        return "-".to_owned();
    }
    let ghost all = text::texts(extensions@).map_values(|e: Seq<char>| "."@ + e);
    let mut parts: Vec<String> = Vec::new();
    for i in 0..extensions.len()
        invariant
            all == text::texts(extensions@).map_values(|e: Seq<char>| "."@ + e),
            text::texts(parts@) == all.take(i as int),
    {
        let ghost before = text::texts(parts@);
        let mut part = ".".to_owned();
        part.append(extensions[i].as_str());
        let ghost added = part@;
        parts.push(part);
        assert(text::texts(parts@) =~= before.push(added));
        assert(all.take(i + 1) =~= before.push(all[i as int]));
    }
    assert(all.take(all.len() as int) =~= all);
    text::join(&parts, ",")
}

/// The table of the available languages.
pub fn list_languages(registry: &LanguageRegistry) -> (r: String)
    ensures
        r@ == language_table(registry@),
{
    let entries = registry.entries();
    if entries.len() == 0 {
        return
            "No languages available. (Built with --no-default-features and no --languages-config?)\n".to_owned();
    }
    let ghost all = registry@;
    let mut rows = String::new();
    assert(rows@ =~= language_rows(all.take(0)));
    for i in 0..entries.len()
        invariant
            all == registry@,
            all == language::entry_models(entries@),
            rows@ == language_rows(all.take(i as int)),
    {
        let e = &entries[i];
        assert(all.take(i + 1).drop_last() =~= all.take(i as int));
        assert(all.take(i + 1).last() == e@);
        let source = if e.is_bundled() {
            "bundled"
        } else {
            "dynamic"
        };
        let extensions = dotted_text(e.extensions());
        push_row(
            &mut rows,
            e.id().as_str(),
            source,
            extensions.as_str(),
            e.description().as_str(),
            (24, 8, 22),
        );
    }
    assert(all.take(all.len() as int) =~= all);
    let mut out = String::new();
    push_row(&mut out, "ID", "SOURCE", "EXTENSIONS", "DESCRIPTION", (24, 8, 22));
    assert(out@ =~= row(("ID"@, "SOURCE"@, "EXTENSIONS"@, "DESCRIPTION"@), (24, 8, 22)));
    out.append(rows.as_str());
    out
}

// ---------------------------------------------------------------------------
// Rules
// ---------------------------------------------------------------------------

/// The languages of a rule.
pub open spec fn rule_languages(languages: Seq<Seq<char>>) -> Seq<char> {
    if languages.len() == 0 {
        "*"@
    } else {
        text::joined(languages, ","@)
    }
}

/// How a rule is written.
pub open spec fn matcher_text(m: rule::MatcherModel) -> Seq<char> {
    match m {
        rule::MatcherModel::Query(_) => "query"@,
        rule::MatcherModel::Pattern(_) => "pattern"@,
        rule::MatcherModel::CrossFile { .. } => "cross-file"@,
    }
}

/// The line of a rule.
pub open spec fn rule_row(r: rule::RuleModel) -> Seq<char> {
    row(
        (
            r.id,
            finding::severity_text(r.severity),
            rule_languages(r.languages),
            matcher_text(r.matcher),
        ),
        (40, 9, 28),
    )
}

/// The lines of rules.
pub open spec fn rule_rows(s: Seq<rule::RuleModel>) -> Seq<char>
    decreases s.len(),
{
    if s.len() == 0 {
        seq![]
    } else {
        rule_rows(s.drop_last()) + rule_row(s.last())
    }
}

/// The table of the loaded rules.
pub open spec fn rule_table(s: Seq<rule::RuleModel>) -> Seq<char> {
    if s.len() == 0 {
        "No rules loaded.\n"@
    } else {
        row(("ID"@, "SEVERITY"@, "LANGUAGES"@, "FORMAT"@), (40, 9, 28)) + rule_rows(s) + "\n"@
            + text::decimal(s.len()) + " rule(s).\n"@
    }
}

/// The table of the loaded rules.
pub fn list_rules(rules: &Vec<Rule>) -> (r: String)
    ensures
        r@ == rule_table(rule::rule_models(rules@)),
{
    if rules.len() == 0 {
        return "No rules loaded.\n".to_owned();
    }
    let ghost all = rule::rule_models(rules@);
    let mut rows = String::new();
    assert(rows@ =~= rule_rows(all.take(0)));
    for i in 0..rules.len()
        invariant
            all == rule::rule_models(rules@),
            rows@ == rule_rows(all.take(i as int)),
    {
        let r = &rules[i];
        assert(all.take(i + 1).drop_last() =~= all.take(i as int));
        assert(all.take(i + 1).last() == r@);
        let languages = if r.languages.len() == 0 {
            "*".to_owned()
        } else {
            text::join(&r.languages, ",")
        };
        let format = match &r.matcher {
            Matcher::Query(_) => "query",
            Matcher::Pattern(_) => "pattern",
            Matcher::CrossFile { .. } => "cross-file",
        };
        push_row(
            &mut rows,
            r.id.as_str(),
            r.severity.as_str(),
            languages.as_str(),
            format,
            (40, 9, 28),
        );
    }
    assert(all.take(all.len() as int) =~= all);
    let mut out = String::new();
    push_row(&mut out, "ID", "SEVERITY", "LANGUAGES", "FORMAT", (40, 9, 28));
    assert(out@ =~= row(("ID"@, "SEVERITY"@, "LANGUAGES"@, "FORMAT"@), (40, 9, 28)));
    out.append(rows.as_str());
    out.append("\n");
    out.append(text::decimal_string(rules.len()).as_str());
    out.append(" rule(s).\n");
    out
}

/// A text that is aligned to the left comes first, has spaces behind it, and is as wide as asked
/// for where the text is no wider.
pub proof fn lemma_left_aligned(s: Seq<char>, width: nat, i: int)
    ensures
        ({
            let r = left_aligned(s, width);
            &&& r.len() == if s.len() >= width { s.len() } else { width }
            &&& s.is_prefix_of(r)
            &&& s.len() <= i < r.len() ==> r[i] == ' '
        }),
{
    let r = left_aligned(s, width);
    assert(r.subrange(0, s.len() as int) =~= s);
}

/// The columns of a line start at the same place on every line, as long as what stands before them
/// is no wider than its column: each cell behind the widths of those before it and one space more
/// for each of them. The line ends behind its last cell.
pub proof fn lemma_columns(
    cells: (Seq<char>, Seq<char>, Seq<char>, Seq<char>),
    widths: (nat, nat, nat),
)
    requires
        cells.0.len() <= widths.0,
        cells.1.len() <= widths.1,
        cells.2.len() <= widths.2,
    ensures
        ({
            let r = row(cells, widths);
            let second = widths.0 as int + 1;
            let third = second + widths.1 + 1;
            let fourth = third + widths.2 + 1;
            &&& r.len() == fourth + cells.3.len() + 1
            &&& r.subrange(0, cells.0.len() as int) == cells.0
            &&& r.subrange(second, second + cells.1.len()) == cells.1
            &&& r.subrange(third, third + cells.2.len()) == cells.2
            &&& r.subrange(fourth, fourth + cells.3.len()) == cells.3
            &&& r.last() == '\n'
            &&& r[second - 1] == ' ' && r[third - 1] == ' ' && r[fourth - 1] == ' '
        }),
{
    reveal_strlit(" ");
    reveal_strlit("\n");
    let r = row(cells, widths);
    let a = left_aligned(cells.0, widths.0);
    let b = left_aligned(cells.1, widths.1);
    let c = left_aligned(cells.2, widths.2);
    assert(a.len() == widths.0 && b.len() == widths.1 && c.len() == widths.2);
    let second = widths.0 as int + 1;
    let third = second + widths.1 + 1;
    let fourth = third + widths.2 + 1;
    assert(r.subrange(0, cells.0.len() as int) =~= cells.0);
    assert(r.subrange(second, second + cells.1.len()) =~= cells.1);
    assert(r.subrange(third, third + cells.2.len()) =~= cells.2);
    assert(r.subrange(fourth, fourth + cells.3.len()) =~= cells.3);
}

/// The table of languages has a line for each of them, in order, behind a line of titles; each has
/// the id, where the language is from, its extensions and its description.
pub proof fn lemma_every_language_listed(s: Seq<language::EntryModel>)
    ensures
        s.len() > 0 ==> language_table(s) == row(
            ("ID"@, "SOURCE"@, "EXTENSIONS"@, "DESCRIPTION"@),
            (24, 8, 22),
        ) + s.map_values(
            |e: language::EntryModel|
                row(
                    (
                        e.id,
                        if e.bundled {
                            "bundled"@
                        } else {
                            "dynamic"@
                        },
                        dotted(e.extensions),
                        e.description,
                    ),
                    (24, 8, 22),
                ),
        ).flatten(),
{
    let each = |e: language::EntryModel|
        row(
            (
                e.id,
                if e.bundled {
                    "bundled"@
                } else {
                    "dynamic"@
                },
                dotted(e.extensions),
                e.description,
            ),
            (24, 8, 22),
        );
    lemma_language_rows_flat(s);
    assert(s.map_values(each) =~= s.map_values(|e: language::EntryModel| language_row(e)));
}

proof fn lemma_language_rows_flat(s: Seq<language::EntryModel>)
    ensures
        language_rows(s) == s.map_values(|e: language::EntryModel| language_row(e)).flatten(),
    decreases s.len(),
{
    let each = |e: language::EntryModel| language_row(e);
    let all = s.map_values(each);
    all.lemma_flatten_and_flatten_alt_are_equivalent();
    if s.len() > 0 {
        let init = s.drop_last();
        lemma_language_rows_flat(init);
        init.map_values(each).lemma_flatten_and_flatten_alt_are_equivalent();
        assert(all.drop_last() =~= init.map_values(each));
        assert(all.last() == language_row(s.last()));
    }
}

/// The table of rules has a line for each of them, in order, between a line of titles and a line
/// with their number; each has the id, the severity, the languages and how the rule is written.
pub proof fn lemma_every_rule_listed(s: Seq<rule::RuleModel>)
    ensures
        s.len() > 0 ==> rule_table(s) == row(
            ("ID"@, "SEVERITY"@, "LANGUAGES"@, "FORMAT"@),
            (40, 9, 28),
        ) + s.map_values(
            |r: rule::RuleModel|
                row(
                    (
                        r.id,
                        finding::severity_text(r.severity),
                        rule_languages(r.languages),
                        matcher_text(r.matcher),
                    ),
                    (40, 9, 28),
                ),
        ).flatten() + "\n"@ + text::decimal(s.len()) + " rule(s).\n"@,
{
    let each = |r: rule::RuleModel|
        row(
            (
                r.id,
                finding::severity_text(r.severity),
                rule_languages(r.languages),
                matcher_text(r.matcher),
            ),
            (40, 9, 28),
        );
    lemma_rule_rows_flat(s);
    assert(s.map_values(each) =~= s.map_values(|r: rule::RuleModel| rule_row(r)));
}

proof fn lemma_rule_rows_flat(s: Seq<rule::RuleModel>)
    ensures
        rule_rows(s) == s.map_values(|r: rule::RuleModel| rule_row(r)).flatten(),
    decreases s.len(),
{
    let each = |r: rule::RuleModel| rule_row(r);
    let all = s.map_values(each);
    all.lemma_flatten_and_flatten_alt_are_equivalent();
    if s.len() > 0 {
        let init = s.drop_last();
        lemma_rule_rows_flat(init);
        init.map_values(each).lemma_flatten_and_flatten_alt_are_equivalent();
        assert(all.drop_last() =~= init.map_values(each));
        assert(all.last() == rule_row(s.last()));
    }
}

/// The extensions of a language are told apart at the commas, each behind a dot, and the languages
/// of a rule likewise; a dash stands for no extension, and a star for every language.
pub proof fn lemma_lists_read_back(names: Seq<Seq<char>>, i: int)
    requires
        forall|k: int| 0 <= k < names.len() ==> !(#[trigger] names[k]).contains(','),
    ensures
        names.len() == 0 ==> dotted(names) == "-"@ && rule_languages(names) == "*"@,
        names.len() > 0 ==> text::pieces(rule_languages(names), ',') == names,
        names.len() > 0 ==> text::pieces(dotted(names), ',').len() == names.len(),
        0 <= i < names.len() ==> text::pieces(dotted(names), ',')[i] == seq!['.'] + names[i],
{
    reveal_strlit(",");
    reveal_strlit(".");
    if names.len() > 0 {
        assert(","@ =~= seq![',']);
        text::lemma_pieces_of_joined(names, ',');
        let all = names.map_values(|e: Seq<char>| "."@ + e);
        assert forall|k: int| 0 <= k < all.len() implies !(#[trigger] all[k]).contains(',') by {
            if all[k].contains(',') {
                let j = choose|j: int| 0 <= j < all[k].len() && all[k][j] == ',';
                assert(j > 0);
                assert(names[k][j - 1] == ',');
                assert(names[k].contains(','));
            }
        }
        text::lemma_pieces_of_joined(all, ',');
        if 0 <= i < names.len() {
            assert(all[i] =~= seq!['.'] + names[i]);
        }
    }
}

/// How a rule is written is told by a word of its own.
pub proof fn lemma_matcher_words(m: rule::MatcherModel)
    ensures
        matcher_text(m) == "query"@ <==> m is Query,
        matcher_text(m) == "pattern"@ <==> m is Pattern,
        matcher_text(m) == "cross-file"@ <==> m is CrossFile,
{
    reveal_strlit("query");
    reveal_strlit("pattern");
    reveal_strlit("cross-file");
    assert("query"@.len() == 5 && "pattern"@.len() == 7 && "cross-file"@.len() == 10);
}

} // verus!
