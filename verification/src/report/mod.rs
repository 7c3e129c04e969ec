//! Output formats for scan results.

pub mod human;
pub mod json;
pub mod sarif;
pub mod style;

pub use crate::report::human::{render_human, render_human_diff};
pub use crate::report::sarif::render_sarif;

use vstd::prelude::*;

use crate::text;

verus! {

/// Selectable output format.
#[derive(Debug, Clone, Copy, PartialEq, Eq, Structural)]
pub enum Format {
    Human,
    Sarif,
    Json,
    /// The complete set of findings, suitable as the next run's baseline. Always the full set,
    /// never a diff subset.
    Snapshot,
}

/// The format that a word names, in any ASCII case.
pub open spec fn format_of(s: Seq<char>) -> Option<Format> {
    let t = text::ascii_lower(s);
    if t == "human"@ || t == "text"@ {
        Some(Format::Human)
    } else if t == "sarif"@ {
        Some(Format::Sarif)
    } else if t == "json"@ {
        Some(Format::Json)
    } else if t == "snapshot"@ {
        Some(Format::Snapshot)
    } else {
        None
    }
}

/// What is said of a word that names no format.
pub open spec fn unknown_format(s: Seq<char>) -> Seq<char> {
    "unknown format '"@ + text::ascii_lower(s) + "' (expected human|sarif|json|snapshot)"@
}

impl Format {
    /// The format that a word names, in any ASCII case.
    pub fn from_str(s: &str) -> (r: Result<Self, String>)
        ensures
            match r {
                Ok(f) => format_of(s@) == Some(f),
                Err(e) => format_of(s@) is None && e@ == unknown_format(s@),
            },
    {
        let lower = text::to_ascii_lowercase(s);
        let t = lower.as_str();
        if text::same(t, "human") || text::same(t, "text") {
            Ok(Format::Human)
        } else if text::same(t, "sarif") {
            Ok(Format::Sarif)
        } else if text::same(t, "json") {
            Ok(Format::Json)
        } else if text::same(t, "snapshot") {
            Ok(Format::Snapshot)
        } else {
            let mut e = "unknown format '".to_owned();
            e.append(t);
            e.append("' (expected human|sarif|json|snapshot)");
            Err(e)
        }
    }
}

} // verus!
