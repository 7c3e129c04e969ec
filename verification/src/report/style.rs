//! Terminal styles.

use owo_colors::OwoColorize;
use vstd::prelude::*;

use crate::finding::Severity;

verus! {

/// A text between an opening and a closing escape sequence.
pub open spec fn styled(open: Seq<char>, s: Seq<char>, close: Seq<char>) -> Seq<char> {
    open + s + close
}

/// A text in red.
pub open spec fn in_red(s: Seq<char>) -> Seq<char> {
    styled("\x1b[31m"@, s, "\x1b[39m"@)
}

/// A text in yellow.
pub open spec fn in_yellow(s: Seq<char>) -> Seq<char> {
    styled("\x1b[33m"@, s, "\x1b[39m"@)
}

/// A text in blue.
pub open spec fn in_blue(s: Seq<char>) -> Seq<char> {
    styled("\x1b[34m"@, s, "\x1b[39m"@)
}

/// A text in cyan.
pub open spec fn in_cyan(s: Seq<char>) -> Seq<char> {
    styled("\x1b[36m"@, s, "\x1b[39m"@)
}

/// A text in bold.
pub open spec fn in_bold(s: Seq<char>) -> Seq<char> {
    styled("\x1b[1m"@, s, "\x1b[0m"@)
}

/// A text dimmed.
pub open spec fn in_dim(s: Seq<char>) -> Seq<char> {
    styled("\x1b[2m"@, s, "\x1b[0m"@)
}

/// `OwoColorize::red` displays a text between the escape sequences for red and for the
/// default color.
#[verifier::external_body]
fn red(s: &str) -> (r: String)
    ensures
        r@ == in_red(s@),
{
    s.red().to_string()
}

/// `OwoColorize::yellow` displays a text between the escape sequences for yellow and for the
/// default color.
#[verifier::external_body]
fn yellow(s: &str) -> (r: String)
    ensures
        r@ == in_yellow(s@),
{
    s.yellow().to_string()
}

/// `OwoColorize::blue` displays a text between the escape sequences for blue and for the
/// default color.
#[verifier::external_body]
fn blue(s: &str) -> (r: String)
    ensures
        r@ == in_blue(s@),
{
    s.blue().to_string()
}

/// `OwoColorize::cyan` displays a text between the escape sequences for cyan and for the
/// default color.
#[verifier::external_body]
fn cyan(s: &str) -> (r: String)
    ensures
        r@ == in_cyan(s@),
{
    s.cyan().to_string()
}

/// `OwoColorize::bold` displays a text between the escape sequences for bold and for no style.
#[verifier::external_body]
fn bold(s: &str) -> (r: String)
    ensures
        r@ == in_bold(s@),
{
    s.bold().to_string()
}

/// `OwoColorize::dimmed` displays a text between the escape sequences for dim and for no
/// style.
#[verifier::external_body]
fn dimmed(s: &str) -> (r: String)
    ensures
        r@ == in_dim(s@),
{
    s.dimmed().to_string()
}

/// The label of a severity.
pub open spec fn severity_label(sev: Severity) -> Seq<char> {
    match sev {
        Severity::Error => "ERROR"@,
        Severity::Warning => "WARNING"@,
        Severity::Info => "INFO"@,
        Severity::Note => "NOTE"@,
    }
}

/// The label of a severity in its style.
pub open spec fn severity_style(sev: Severity, color: bool) -> Seq<char> {
    let label = severity_label(sev);
    if !color {
        label
    } else {
        match sev {
            Severity::Error => in_bold(in_red(label)),
            Severity::Warning => in_bold(in_yellow(label)),
            Severity::Info => in_blue(label),
            Severity::Note => in_cyan(label),
        }
    }
}

/// The label of a severity in its style.
pub fn severity_styled(sev: Severity, color: bool) -> (r: String)
    ensures
        r@ == severity_style(sev, color),
{
    let label = match sev {
        Severity::Error => "ERROR",
        Severity::Warning => "WARNING",
        Severity::Info => "INFO",
        Severity::Note => "NOTE",
    };
    if !color {
        return label.to_owned();
    }
    match sev {
        Severity::Error => bold(red(label).as_str()),
        Severity::Warning => bold(yellow(label).as_str()),
        Severity::Info => blue(label),
        Severity::Note => cyan(label),
    }
}

/// A text in bold, where colors are on.
pub open spec fn maybe_bold(s: Seq<char>, color: bool) -> Seq<char> {
    if color {
        in_bold(s)
    } else {
        s
    }
}

/// A text dimmed, where colors are on.
pub open spec fn maybe_dim(s: Seq<char>, color: bool) -> Seq<char> {
    if color {
        in_dim(s)
    } else {
        s
    }
}

/// A caret underline in the color of a severity, where colors are on.
pub open spec fn caret_style(s: Seq<char>, sev: Severity, color: bool) -> Seq<char> {
    if !color {
        s
    } else {
        match sev {
            Severity::Error => in_red(s),
            Severity::Warning => in_yellow(s),
            _ => in_blue(s),
        }
    }
}

/// A text in bold, where colors are on.
pub fn bold_if(s: &str, color: bool) -> (r: String)
    ensures
        r@ == maybe_bold(s@, color),
{
    if color {
        bold(s)
    } else {
        s.to_owned()
    }
}

/// A text dimmed, where colors are on.
pub fn dim_if(s: &str, color: bool) -> (r: String)
    ensures
        r@ == maybe_dim(s@, color),
{
    if color {
        dimmed(s)
    } else {
        s.to_owned()
    }
}

/// A caret underline in the color of a severity, where colors are on.
pub fn caret_styled(s: &str, sev: Severity, color: bool) -> (r: String)
    ensures
        r@ == caret_style(s@, sev, color),
{
    if !color {
        return s.to_owned();
    }
    match sev {
        Severity::Error => red(s),
        Severity::Warning => yellow(s),
        _ => blue(s),
    }
}

/// Without colors every text is as it is; with them, a text stands whole between an escape sequence
/// that starts a style and one that ends it, and each severity has its own.
pub proof fn lemma_styles(s: Seq<char>, sev: Severity)
    ensures
        maybe_bold(s, false) == s && maybe_dim(s, false) == s && caret_style(s, sev, false) == s,
        severity_style(sev, false) == severity_label(sev),
        maybe_bold(s, true) == "\x1b[1m"@ + s + "\x1b[0m"@,
        maybe_dim(s, true) == "\x1b[2m"@ + s + "\x1b[0m"@,
        sev == Severity::Error ==> caret_style(s, sev, true) == "\x1b[31m"@ + s + "\x1b[39m"@
            && severity_style(sev, true) == "\x1b[1m"@ + ("\x1b[31m"@ + "ERROR"@ + "\x1b[39m"@)
            + "\x1b[0m"@,
        sev == Severity::Warning ==> caret_style(s, sev, true) == "\x1b[33m"@ + s + "\x1b[39m"@
            && severity_style(sev, true) == "\x1b[1m"@ + ("\x1b[33m"@ + "WARNING"@ + "\x1b[39m"@)
            + "\x1b[0m"@,
        sev == Severity::Info || sev == Severity::Note ==> caret_style(s, sev, true)
            == "\x1b[34m"@ + s + "\x1b[39m"@,
        sev == Severity::Info ==> severity_style(sev, true) == "\x1b[34m"@ + "INFO"@ + "\x1b[39m"@,
        sev == Severity::Note ==> severity_style(sev, true) == "\x1b[36m"@ + "NOTE"@ + "\x1b[39m"@,
{
}

} // verus!
