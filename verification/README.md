# crit

A tree-sitter based, language-agnostic source security scanner, written in Verus.

Rules are tree-sitter queries, or structured patterns compiled to queries. A scan turns query
matches into findings with an identity that does not depend on line numbers, so that two scans
can be compared finding by finding: what is new, unchanged, updated or fixed.

## Layout

`src/` is the verified library.

| Module | What it holds |
|--------|---------------|
| `text`, `order`, `path`, `sort` | strings, comparisons, paths and the stable order of findings |
| `finding`, `fingerprint` | findings, their identity, and their canonical order |
| `compile`, `rule` | structured patterns, rule files and rule sets |
| `syntax`, `ast` | what is asked of tree-sitter, and printing of syntax trees |
| `bundled`, `language`, `grammars` | languages, how a file finds its own, and grammar versions |
| `matching`, `crossfile`, `engine` | from matches to findings, file by file and across files |
| `cache` | keys and places of cached findings |
| `snapshot`, `diff`, `git` | baselines, differences, renames and changed lines |
| `report`, `listing`, `pipeline` | output formats, tables, and the decisions of a run |

`app/` is the command around it: arguments, files, `git`, shared libraries and serialized forms.

`tests/` runs the library with the real outside crates.

## What is trusted

Calls into tree-sitter, sha2, serde_yaml, serde_json and owo-colors stand behind small wrappers
whose contracts say what is taken from those crates. Hash digests, syntax trees, query matches
and serialized JSON are named rather than spelled out: contracts speak of them as functions of
their inputs.
