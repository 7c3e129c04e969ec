//! crit: a tree-sitter based, language-agnostic source security scanner.

pub mod ast;
pub mod bundled;
pub mod cache;
pub mod compile;
pub mod crossfile;
pub mod diff;
pub mod engine;
pub mod finding;
pub mod fingerprint;
pub mod git;
pub mod grammars;
pub mod language;
pub mod listing;
pub mod matching;
pub mod order;
pub mod path;
pub mod pipeline;
pub mod report;
pub mod rule;
pub mod snapshot;
pub mod sort;
pub mod syntax;
pub mod text;
