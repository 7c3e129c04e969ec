//! Compiler from the structured `pattern:` rule format to a tree-sitter query.
//!
//! ```yaml
//! pattern:
//!   node: parameter              # required: the node kind to match
//!   capture: match               # optional: capture name
//!   text: { regex: "(?i)pw" }    # optional: constrain this node's source text
//!   children:                    # optional: direct named-child sub-patterns
//!     - node: parameter_name
//!       field: name              # optional: require it under this field
//! ```
//!
//! Children are direct named children: tree-sitter queries have no descendant combinator, so
//! each level of nesting maps to one level of the syntax tree. `text` accepts `regex`, `eq`,
//! `not_regex` and `not_eq`, compiled to the `#match?`, `#eq?`, `#not-match?` and `#not-eq?`
//! predicates.

use vstd::prelude::*;

use crate::text;

verus! {

/// A structured pattern node.
#[derive(Debug)]
pub struct Pattern {
    /// The node kind to match.
    pub node: String,
    /// When used as a sub-pattern, require it under this field name.
    pub field: Option<String>,
    /// Constrain the matched node's source text.
    pub text: Option<TextMatch>,
    /// Capture name. The root pattern's is given to the compiler.
    pub capture: Option<String>,
    /// Direct named-child sub-patterns, in order.
    pub children: Vec<Pattern>,
}

/// A text constraint on a node, compiled to text predicates.
#[derive(Debug)]
pub struct TextMatch {
    pub regex: Option<String>,
    pub eq: Option<String>,
    pub not_regex: Option<String>,
    pub not_eq: Option<String>,
}

// ---------------------------------------------------------------------------
// Predicates
// ---------------------------------------------------------------------------

/// How a character is written inside a query's string literal.
pub open spec fn escaped_char(c: char) -> Seq<char> {
    if c == '\\' || c == '"' {
        seq!['\\', c]
    } else {
        seq![c]
    }
}

/// How a text is written inside a query's string literal.
pub open spec fn escaped(s: Seq<char>) -> Seq<char>
    decreases s.len(),
{
    if s.len() == 0 {
        seq![]
    } else {
        escaped(s.drop_last()) + escaped_char(s.last())
    }
}

fn escape(s: &str) -> (r: String)
    ensures
        r@ == escaped(s@),
{
    let chars = text::chars_of(s);
    let mut out = String::new();
    for i in 0..chars.len()
        invariant
            chars@ == s@,
            out@ == escaped(s@.take(i as int)),
    {
        let c = chars[i];
        let ghost before = out@;
        if c == '\\' || c == '"' {
            out.push('\\');
        }
        out.push(c);
        assert(out@ =~= before + escaped_char(c));
        assert(s@.take(i + 1).drop_last() =~= s@.take(i as int));
    }
    assert(s@.take(s@.len() as int) =~= s@);
    out
}

/// A predicate that holds a capture against a literal.
pub open spec fn predicate(name: Seq<char>, capture: Seq<char>, literal: Seq<char>) -> Seq<char> {
    "("@ + name + " @"@ + capture + " \""@ + escaped(literal) + "\")"@
}

/// The predicate for one part of a text constraint, where it is set.
pub open spec fn predicate_for(
    name: Seq<char>,
    capture: Seq<char>,
    literal: Option<String>,
) -> Seq<Seq<char>> {
    match literal {
        Some(l) => seq![predicate(name, capture, l@)],
        None => seq![],
    }
}

/// The predicates of a text constraint on a capture.
pub open spec fn predicates_of(capture: Seq<char>, t: TextMatch) -> Seq<Seq<char>> {
    predicate_for("#match?"@, capture, t.regex) + predicate_for(
        "#not-match?"@,
        capture,
        t.not_regex,
    ) + predicate_for("#eq?"@, capture, t.eq) + predicate_for("#not-eq?"@, capture, t.not_eq)
}

/// Does a text constraint constrain anything?
pub open spec fn constrains(t: TextMatch) -> bool {
    t.regex is Some || t.not_regex is Some || t.eq is Some || t.not_eq is Some
}

fn push_predicate(name: &str, capture: &str, literal: &Option<String>, predicates: &mut Vec<String>)
    ensures
        text::texts(final(predicates)@) == text::texts(old(predicates)@) + predicate_for(
            name@,
            capture@,
            *literal,
        ),
{
    let ghost before = text::texts(predicates@);
    match literal {
        Some(l) => {
            let mut p = "(".to_owned();
            p.append(name);
            p.append(" @");
            p.append(capture);
            p.append(" \"");
            p.append(escape(l.as_str()).as_str());
            p.append("\")");
            let ghost model = p@;
            predicates.push(p);
            assert(text::texts(predicates@) =~= before + seq![model]);
        },
        None => {
            assert(text::texts(predicates@) =~= before + Seq::<Seq<char>>::empty());
        },
    }
}

fn emit_text_predicates(capture: &str, t: &TextMatch, predicates: &mut Vec<String>) -> (r: Result<
    (),
    String,
>)
    ensures
        r is Ok <==> constrains(*t),
        r is Ok ==> text::texts(final(predicates)@) == text::texts(old(predicates)@)
            + predicates_of(capture@, *t),
        r matches Err(e) ==> e@
            == "text constraint must set at least one of regex/eq/not_regex/not_eq"@,
{
    let ghost before = text::texts(predicates@);
    if t.regex.is_none() && t.not_regex.is_none() && t.eq.is_none() && t.not_eq.is_none() {
        return Err(
            "text constraint must set at least one of regex/eq/not_regex/not_eq".to_owned(),
        );
    }
    push_predicate("#match?", capture, &t.regex, predicates);
    push_predicate("#not-match?", capture, &t.not_regex, predicates);
    push_predicate("#eq?", capture, &t.eq, predicates);
    push_predicate("#not-eq?", capture, &t.not_eq, predicates);
    assert(text::texts(predicates@) =~= before + predicates_of(capture@, *t));
    Ok(())
}

// ---------------------------------------------------------------------------
// Nodes
// ---------------------------------------------------------------------------

/// What compiling nodes has come to: the text so far, how many captures were made up, and
/// the predicates.
#[verifier::ext_equal]
pub struct Emitted {
    pub text: Seq<char>,
    pub counter: nat,
    pub predicates: Seq<Seq<char>>,
}

/// The capture of a node: the given one for the root, the node's own one, or a made-up one
/// where a text constraint needs an anchor.
pub open spec fn capture_of(p: Pattern, root: Option<Seq<char>>, counter: nat) -> Option<Seq<char>> {
    match root {
        Some(c) => Some(c),
        None => match p.capture {
            Some(c) => Some(c@),
            None => if p.text is Some {
                Some("_c"@ + text::decimal(counter + 1))
            } else {
                None
            },
        },
    }
}

/// Is the node's capture a made-up one?
pub open spec fn makes_up(p: Pattern, root: Option<Seq<char>>) -> bool {
    root is None && p.capture is None && p.text is Some
}

/// What compiling the node comes to once its children are compiled.
pub open spec fn finished(p: Pattern, root: Option<Seq<char>>, inner: Emitted) -> Result<
    Emitted,
    Seq<char>,
> {
    let capture = capture_of(p, root, inner.counter);
    let body = inner.text + ")"@;
    let text = match capture {
        Some(c) => body + " @"@ + c,
        None => body,
    };
    let counter = if makes_up(p, root) {
        inner.counter + 1
    } else {
        inner.counter
    };
    match p.text {
        Some(t) => if constrains(t) {
            Ok(
                Emitted {
                    text,
                    counter,
                    predicates: inner.predicates + predicates_of(capture->Some_0, t),
                },
            )
        } else {
            Err("text constraint must set at least one of regex/eq/not_regex/not_eq"@)
        },
        None => Ok(Emitted { text, counter, predicates: inner.predicates }),
    }
}

/// A child's text under its field.
pub open spec fn under_field(child: Pattern, text: Seq<char>) -> Seq<char> {
    match child.field {
        Some(f) => " "@ + f@ + ": "@ + text,
        None => " "@ + text,
    }
}

/// What compiling a node comes to, given what was emitted before it.
pub open spec fn compiled_node(
    p: Pattern,
    root: Option<Seq<char>>,
    counter: nat,
    predicates: Seq<Seq<char>>,
) -> Result<Emitted, Seq<char>>
    decreases p, p.children@.len() + 1,
{
    if text::trimmed(p.node@).len() == 0 {
        Err("pattern node kind must not be empty"@)
    } else {
        match compiled_children(p, p.children@.len(), counter, predicates) {
            Ok(inner) => finished(p, root, inner),
            Err(e) => Err(e),
        }
    }
}

/// What compiling a node comes to up to and with its first `n` children.
pub open spec fn compiled_children(
    p: Pattern,
    n: nat,
    counter: nat,
    predicates: Seq<Seq<char>>,
) -> Result<Emitted, Seq<char>>
    decreases p, n,
{
    if n == 0 || n > p.children@.len() {
        Ok(Emitted { text: "("@ + p.node@, counter, predicates })
    } else {
        match compiled_children(p, (n - 1) as nat, counter, predicates) {
            Ok(before) => {
                let child = p.children@[n - 1];
                match compiled_node(child, None, before.counter, before.predicates) {
                    Ok(inner) => Ok(
                        Emitted { text: before.text + under_field(child, inner.text), ..inner },
                    ),
                    Err(e) => Err(e),
                }
            },
            Err(e) => Err(e),
        }
    }
}

proof fn lemma_children_stop(p: Pattern, i: nat, n: nat, counter: nat, predicates: Seq<Seq<char>>)
    requires
        i <= n <= p.children@.len(),
        compiled_children(p, i, counter, predicates) is Err,
    ensures
        compiled_children(p, n, counter, predicates) == compiled_children(
            p,
            i,
            counter,
            predicates,
        ),
    decreases n - i,
{
    if i < n {
        lemma_children_stop(p, i, (n - 1) as nat, counter, predicates);
    }
}

fn compile_node(
    p: &Pattern,
    root_capture: Option<&str>,
    counter: &mut usize,
    predicates: &mut Vec<String>,
) -> (r: Result<String, String>)
    requires
        *old(counter) <= old(predicates)@.len(),
    ensures
        match r {
            Ok(s) => compiled_node(
                *p,
                match root_capture {
                    Some(c) => Some(c@),
                    None => None,
                },
                *old(counter) as nat,
                text::texts(old(predicates)@),
            ) == Ok::<Emitted, Seq<char>>(
                Emitted {
                    text: s@,
                    counter: *final(counter) as nat,
                    predicates: text::texts(final(predicates)@),
                },
            ) && *final(counter) <= final(predicates)@.len(),
            Err(e) => compiled_node(
                *p,
                match root_capture {
                    Some(c) => Some(c@),
                    None => None,
                },
                *old(counter) as nat,
                text::texts(old(predicates)@),
            ) == Err::<Emitted, Seq<char>>(e@),
        },
    decreases p,
{
    let ghost root: Option<Seq<char>> = match root_capture {
        Some(c) => Some(c@),
        None => None,
    };
    let ghost c0 = *counter as nat;
    let ghost p0 = text::texts(predicates@);
    if text::trim(p.node.as_str()).as_str().is_empty() {
        return Err("pattern node kind must not be empty".to_owned());
    }
    let mut s = "(".to_owned();
    s.append(p.node.as_str());
    let ghost total = p.children@.len();
    for i in 0..p.children.len()
        invariant
            total == p.children@.len(),
            *counter <= predicates@.len(),
            compiled_children(*p, i as nat, c0, p0) == Ok::<Emitted, Seq<char>>(
                Emitted {
                    text: s@,
                    counter: *counter as nat,
                    predicates: text::texts(predicates@),
                },
            ),
            text::trimmed(p.node@).len() > 0,
            compiled_node(*p, root, c0, p0) == match compiled_children(*p, total, c0, p0) {
                Ok(inner) => finished(*p, root, inner),
                Err(e) => Err(e),
            },
            root == (match root_capture {
                Some(c) => Some(c@),
                None => None,
            }),
            c0 == *old(counter) as nat,
            p0 == text::texts(old(predicates)@),
    {
        let child = &p.children[i];
        let ghost before = s@;
        match compile_node(child, None, counter, predicates) {
            Ok(sexp) => {
                s.append(" ");
                if let Some(field) = &child.field {
                    s.append(field.as_str());
                    s.append(": ");
                }
                s.append(sexp.as_str());
                assert(s@ =~= before + under_field(*child, sexp@));
            },
            Err(e) => {
                proof {
                    lemma_children_stop(*p, (i + 1) as nat, total, c0, p0);
                }
                return Err(e);
            },
        }
    }
    let ghost inner = Emitted {
        text: s@,
        counter: *counter as nat,
        predicates: text::texts(predicates@),
    };
    s.append(")");
    let capture: Option<String> = match root_capture {
        Some(c) => Some(c.to_owned()),
        None => match &p.capture {
            Some(c) => Some(c.clone()),
            None => if p.text.is_some() {
                // Every made-up capture comes with a predicate, so there are no more of them
                // than a list can hold.
                predicates.push(String::new());
                let bound: usize = predicates.len();
                assert(*counter + 1 <= bound);
                let _ = predicates.pop();
                assert(text::texts(predicates@) =~= inner.predicates);
                *counter = *counter + 1;
                let mut name = "_c".to_owned();
                name.append(text::decimal_string(*counter).as_str());
                Some(name)
            } else {
                None
            },
        },
    };
    assert(text::opt_text(capture) == capture_of(*p, root, inner.counter));
    if let Some(cap) = &capture {
        s.append(" @");
        s.append(cap.as_str());
    }
    if let Some(t) = &p.text {
        if let Some(cap) = &capture {
            let ghost before = text::texts(predicates@);
            match emit_text_predicates(cap.as_str(), t, predicates) {
                Ok(_) => {
                    proof {
                        assert(text::texts(predicates@).len() == predicates@.len());
                        assert(before.len() == inner.predicates.len());
                        assert(predicates_of(cap@, *t).len() > 0);
                    }
                },
                Err(e) => {
                    return Err(e);
                },
            }
        }
    }
    Ok(s)
}

// ---------------------------------------------------------------------------
// Queries
// ---------------------------------------------------------------------------

/// Each predicate on a line of its own.
pub open spec fn on_lines(predicates: Seq<Seq<char>>) -> Seq<char>
    decreases predicates.len(),
{
    if predicates.len() == 0 {
        seq![]
    } else {
        on_lines(predicates.drop_last()) + "\n"@ + predicates.last()
    }
}

/// The query that a pattern compiles to. Predicates are grouped with their pattern inside an
/// outer paren, since otherwise each would be a pattern of its own.
pub open spec fn query_of(p: Pattern, root_capture: Seq<char>) -> Result<Seq<char>, Seq<char>> {
    match compiled_node(p, Some(root_capture), 0, seq![]) {
        Ok(e) => if e.predicates.len() == 0 {
            Ok(e.text)
        } else {
            Ok("("@ + e.text + on_lines(e.predicates) + ")"@)
        },
        Err(e) => Err(e),
    }
}

/// Compile a structured pattern into a tree-sitter query. `root_capture` is the capture name
/// that marks the finding location.
pub fn compile(pattern: &Pattern, root_capture: &str) -> (r: Result<String, String>)
    ensures
        match r {
            Ok(s) => query_of(*pattern, root_capture@) == Ok::<Seq<char>, Seq<char>>(s@),
            Err(e) => query_of(*pattern, root_capture@) == Err::<Seq<char>, Seq<char>>(e@),
        },
{
    let mut counter: usize = 0;
    let mut predicates: Vec<String> = Vec::new();
    assert(text::texts(predicates@) =~= seq![]);
    let body = match compile_node(pattern, Some(root_capture), &mut counter, &mut predicates) {
        Ok(body) => body,
        Err(e) => {
            return Err(e);
        },
    };
    let ghost all = text::texts(predicates@);
    assert(all.len() == predicates@.len());
    if predicates.len() == 0 {
        return Ok(body);
    }
    let mut out = "(".to_owned();
    out.append(body.as_str());
    let ghost head = out@;
    assert(head =~= head + on_lines(all.take(0)));
    for i in 0..predicates.len()
        invariant
            all == text::texts(predicates@),
            out@ == head + on_lines(all.take(i as int)),
    {
        assert(all.take(i + 1).drop_last() =~= all.take(i as int));
        assert(all.take(i + 1).last() == predicates@[i as int]@);
        out.append("\n");
        out.append(predicates[i].as_str());
        assert(out@ =~= head + on_lines(all.take(i + 1)));
    }
    assert(all.take(all.len() as int) =~= all);
    out.append(")");
    Ok(out)
}

// ---------------------------------------------------------------------------
// What compiling promises
// ---------------------------------------------------------------------------

/// What a query's string literal stands for.
pub open spec fn unescaped(s: Seq<char>) -> Seq<char>
    decreases s.len(),
{
    if s.len() == 0 {
        seq![]
    } else if s[0] == '\\' && s.len() > 1 {
        seq![s[1]] + unescaped(s.skip(2))
    } else {
        seq![s[0]] + unescaped(s.drop_first())
    }
}

proof fn lemma_escaped_first(c: char, s: Seq<char>)
    ensures
        escaped(seq![c] + s) == escaped_char(c) + escaped(s),
    decreases s.len(),
{
    let all = seq![c] + s;
    if s.len() == 0 {
        assert(all.drop_last() =~= seq![]);
        assert(all.last() == c);
        assert(escaped(all.drop_last()) =~= seq![]);
        assert(escaped(s) =~= seq![]);
        assert(escaped(all) =~= escaped_char(c) + escaped(s));
    } else {
        lemma_escaped_first(c, s.drop_last());
        assert(all.drop_last() =~= seq![c] + s.drop_last());
        assert(escaped(all) =~= escaped_char(c) + escaped(s));
    }
}

/// A literal stands for the text that was escaped into it, so no two texts share a literal.
pub proof fn lemma_escape_faithful(s: Seq<char>)
    ensures
        unescaped(escaped(s)) == s,
    decreases s.len(),
{
    if s.len() == 0 {
        assert(unescaped(escaped(s)) =~= s);
    } else {
        let rest = s.drop_first();
        assert(s =~= seq![s[0]] + rest);
        lemma_escape_faithful(rest);
        lemma_escaped_first(s[0], rest);
        let e = escaped(s);
        if s[0] == '\\' || s[0] == '"' {
            assert(e.skip(2) =~= escaped(rest));
        } else {
            assert(e.drop_first() =~= escaped(rest));
        }
        assert(unescaped(e) =~= s);
    }
}

/// Can the pattern be compiled? Every node kind is there, and every text constraint
/// constrains something.
pub open spec fn compilable(p: Pattern) -> bool
    decreases p, p.children@.len() + 1,
{
    &&& text::trimmed(p.node@).len() > 0
    &&& compilable_children(p, p.children@.len())
    &&& p.text is Some ==> constrains(p.text->Some_0)
}

/// Can the first `n` children be compiled?
pub open spec fn compilable_children(p: Pattern, n: nat) -> bool
    decreases p, n,
{
    if n == 0 || n > p.children@.len() {
        true
    } else {
        compilable_children(p, (n - 1) as nat) && compilable(p.children@[n - 1])
    }
}

proof fn lemma_node_ok(p: Pattern, root: Option<Seq<char>>, counter: nat, predicates: Seq<Seq<char>>)
    ensures
        compiled_node(p, root, counter, predicates) is Ok <==> compilable(p),
    decreases p, p.children@.len() + 1,
{
    lemma_children_ok(p, p.children@.len(), counter, predicates);
}

proof fn lemma_children_ok(p: Pattern, n: nat, counter: nat, predicates: Seq<Seq<char>>)
    ensures
        compiled_children(p, n, counter, predicates) is Ok <==> compilable_children(p, n),
    decreases p, n,
{
    if n == 0 || n > p.children@.len() {
    } else {
        lemma_children_ok(p, (n - 1) as nat, counter, predicates);
        if compiled_children(p, (n - 1) as nat, counter, predicates) is Ok {
            let before = compiled_children(p, (n - 1) as nat, counter, predicates)->Ok_0;
            lemma_node_ok(p.children@[n - 1], None, before.counter, before.predicates);
        }
    }
}

/// A pattern compiles exactly when every node kind in it is there and every text constraint
/// in it constrains something, whatever the root capture is.
pub proof fn lemma_compiles(p: Pattern, root_capture: Seq<char>)
    ensures
        query_of(p, root_capture) is Ok <==> compilable(p),
{
    lemma_node_ok(p, Some(root_capture), 0, seq![]);
}

// ---------------------------------------------------------------------------
// Where captures go
// ---------------------------------------------------------------------------

/// One list of texts behind another, with the last of the first and the first of the second run
/// together.
pub open spec fn run_on(a: Seq<Seq<char>>, b: Seq<Seq<char>>) -> Seq<Seq<char>> {
    a.drop_last() + seq![a.last() + b[0]] + b.drop_first()
}

/// What a node looks like in the query, with a gap wherever a capture is made up: the texts before,
/// between and behind the gaps. A node with a capture of its own, or with the root's, has it at its
/// end; a node without one has a gap there where its text is constrained.
pub open spec fn frame(p: Pattern, root: Option<Seq<char>>) -> Seq<Seq<char>>
    decreases p, p.children@.len() + 1,
{
    let inner = run_on(frame_upto(p, p.children@.len()), seq![")"@]);
    match (root, p.capture) {
        (Some(c), _) => run_on(inner, seq![" @"@ + c]),
        (None, Some(c)) => run_on(inner, seq![" @"@ + c@]),
        (None, None) => if p.text is Some {
            run_on(inner, seq![" @"@, seq![]])
        } else {
            inner
        },
    }
}

/// What a node looks like in the query up to and with its first `n` children.
pub open spec fn frame_upto(p: Pattern, n: nat) -> Seq<Seq<char>>
    decreases p, n,
{
    if n == 0 || n > p.children@.len() {
        seq!["("@ + p.node@]
    } else {
        let child = p.children@[n - 1];
        let lead = match child.field {
            Some(f) => " "@ + f@ + ": "@,
            None => " "@,
        };
        run_on(run_on(frame_upto(p, (n - 1) as nat), seq![lead]), frame(child, None))
    }
}

/// The `k`-th capture that is made up.
pub open spec fn made_up(k: nat) -> Seq<char> {
    "_c"@ + text::decimal(k)
}

/// Texts with their gaps filled by made-up captures, the first of them behind the `c`-th.
pub open spec fn filled(s: Seq<Seq<char>>, c: nat) -> Seq<char>
    decreases s.len(),
{
    if s.len() <= 1 {
        s[0]
    } else {
        filled(s.drop_last(), c) + made_up((c + s.len() - 1) as nat) + s.last()
    }
}

/// The text constraints of a pattern, those of the children before that of the node: each with the
/// capture that its node has by itself or as the root, if it has one.
pub open spec fn anchors(p: Pattern, root: Option<Seq<char>>) -> Seq<
    (Option<Seq<char>>, TextMatch),
>
    decreases p, p.children@.len() + 1,
{
    let inner = anchors_upto(p, p.children@.len());
    match p.text {
        Some(t) => inner.push(
            (
                match root {
                    Some(c) => Some(c),
                    None => text::opt_text(p.capture),
                },
                t,
            ),
        ),
        None => inner,
    }
}

/// The text constraints of the first `n` children of a node.
pub open spec fn anchors_upto(p: Pattern, n: nat) -> Seq<(Option<Seq<char>>, TextMatch)>
    decreases p, n,
{
    if n == 0 || n > p.children@.len() {
        seq![]
    } else {
        anchors_upto(p, (n - 1) as nat) + anchors(p.children@[n - 1], None)
    }
}

/// How many of the constraints have no capture to hold on to.
pub open spec fn unanchored(s: Seq<(Option<Seq<char>>, TextMatch)>) -> nat
    decreases s.len(),
{
    if s.len() == 0 {
        0
    } else {
        unanchored(s.drop_last()) + if s.last().0 is None {
            1nat
        } else {
            0nat
        }
    }
}

/// The capture of the `i`-th constraint: the one it has, or else the made-up one whose number is
/// one more than there are constraints without a capture before it, and than `c`.
pub open spec fn anchor(s: Seq<(Option<Seq<char>>, TextMatch)>, i: int, c: nat) -> Seq<char> {
    match s[i].0 {
        Some(name) => name,
        None => made_up(c + unanchored(s.take(i)) + 1),
    }
}

/// The predicates of the constraints, each on its own capture.
pub open spec fn anchored_predicates(s: Seq<(Option<Seq<char>>, TextMatch)>, c: nat) -> Seq<
    Seq<char>,
>
    decreases s.len(),
{
    if s.len() == 0 {
        seq![]
    } else {
        anchored_predicates(s.drop_last(), c) + predicates_of(
            anchor(s, s.len() - 1, c),
            s.last().1,
        )
    }
}

proof fn lemma_filled_run_on(a: Seq<Seq<char>>, b: Seq<Seq<char>>, c: nat)
    requires
        a.len() > 0,
        b.len() > 0,
    ensures
        run_on(a, b).len() == a.len() + b.len() - 1,
        filled(run_on(a, b), c) == filled(a, c) + filled(b, (c + a.len() - 1) as nat),
    decreases b.len(),
{
    let all = run_on(a, b);
    if b.len() == 1 {
        assert(all =~= a.drop_last().push(a.last() + b[0]));
        if a.len() > 1 {
            assert(all.drop_last() =~= a.drop_last());
        }
        assert(filled(all, c) =~= filled(a, c) + filled(b, (c + a.len() - 1) as nat));
    } else {
        lemma_filled_run_on(a, b.drop_last(), c);
        assert(all.drop_last() =~= run_on(a, b.drop_last()));
        assert(all.last() == b.last());
        let d = (c + a.len() - 1) as nat;
        assert(c + all.len() - 1 == d + b.len() - 1);
        assert(filled(all, c) =~= filled(a, c) + filled(b, d));
    }
}

proof fn lemma_unanchored_add(
    a: Seq<(Option<Seq<char>>, TextMatch)>,
    b: Seq<(Option<Seq<char>>, TextMatch)>,
)
    ensures
        unanchored(a + b) == unanchored(a) + unanchored(b),
    decreases b.len(),
{
    if b.len() == 0 {
        assert(a + b =~= a);
    } else {
        assert((a + b).drop_last() =~= a + b.drop_last());
        lemma_unanchored_add(a, b.drop_last());
    }
}

proof fn lemma_anchored_add(
    a: Seq<(Option<Seq<char>>, TextMatch)>,
    b: Seq<(Option<Seq<char>>, TextMatch)>,
    c: nat,
)
    ensures
        anchored_predicates(a + b, c) == anchored_predicates(a, c) + anchored_predicates(
            b,
            c + unanchored(a),
        ),
    decreases b.len(),
{
    let all = a + b;
    if b.len() == 0 {
        assert(all =~= a);
        assert(anchored_predicates(all, c) =~= anchored_predicates(a, c) + anchored_predicates(
            b,
            c + unanchored(a),
        ));
    } else {
        let init = b.drop_last();
        assert(all.drop_last() =~= a + init);
        lemma_anchored_add(a, init, c);
        lemma_unanchored_add(a, init);
        assert(all.take(all.len() - 1) =~= a + init);
        assert(b.take(b.len() - 1) =~= init);
        assert(anchored_predicates(all, c) =~= anchored_predicates(a, c) + anchored_predicates(
            b,
            c + unanchored(a),
        ));
    }
}

#[verifier::spinoff_prover]
#[verifier::rlimit(60)]
proof fn lemma_node_filled(
    p: Pattern,
    root: Option<Seq<char>>,
    counter: nat,
    predicates: Seq<Seq<char>>,
)
    requires
        compiled_node(p, root, counter, predicates) is Ok,
    ensures
        ({
            let e = compiled_node(p, root, counter, predicates)->Ok_0;
            let f = frame(p, root);
            let a = anchors(p, root);
            &&& f.len() == unanchored(a) + 1
            &&& e.counter == counter + unanchored(a)
            &&& e.text == filled(f, counter)
            &&& e.predicates == predicates + anchored_predicates(a, counter)
        }),
    decreases p, p.children@.len() + 1,
{
    let n = p.children@.len();
    lemma_children_filled(p, n, counter, predicates);
    let inner = compiled_children(p, n, counter, predicates)->Ok_0;
    let e = compiled_node(p, root, counter, predicates)->Ok_0;
    let g = frame_upto(p, n);
    let b = anchors_upto(p, n);
    let body = run_on(g, seq![")"@]);
    lemma_filled_run_on(g, seq![")"@], counter);
    assert(filled(body, counter) == inner.text + ")"@);
    let f = frame(p, root);
    match (root, p.capture) {
        (Some(c), _) => {
            lemma_filled_run_on(body, seq![" @"@ + c], counter);
            assert(e.text =~= filled(f, counter));
        },
        (None, Some(c)) => {
            lemma_filled_run_on(body, seq![" @"@ + c@], counter);
            assert(e.text =~= filled(f, counter));
        },
        (None, None) => {
            if p.text is Some {
                let tail = seq![" @"@, Seq::<char>::empty()];
                lemma_filled_run_on(body, tail, counter);
                let d = (counter + body.len() - 1) as nat;
                assert(d == inner.counter);
                assert(tail.drop_last() =~= seq![" @"@]);
                assert(filled(tail.drop_last(), d) == " @"@);
                assert(filled(tail, d) =~= " @"@ + made_up(d + 1));
                assert(e.text =~= filled(f, counter));
            }
        },
    }
    let a = anchors(p, root);
    if let Some(t) = p.text {
        assert(a.drop_last() =~= b);
        assert(a.take(a.len() - 1) =~= b);
        assert(anchor(a, a.len() - 1, counter) == capture_of(p, root, inner.counter)->Some_0);
        assert(e.predicates =~= predicates + anchored_predicates(a, counter));
    }
}

#[verifier::spinoff_prover]
#[verifier::rlimit(60)]
proof fn lemma_children_filled(p: Pattern, n: nat, counter: nat, predicates: Seq<Seq<char>>)
    requires
        n <= p.children@.len(),
        compiled_children(p, n, counter, predicates) is Ok,
    ensures
        ({
            let e = compiled_children(p, n, counter, predicates)->Ok_0;
            let f = frame_upto(p, n);
            let a = anchors_upto(p, n);
            &&& f.len() == unanchored(a) + 1
            &&& e.counter == counter + unanchored(a)
            &&& e.text == filled(f, counter)
            &&& e.predicates == predicates + anchored_predicates(a, counter)
        }),
    decreases p, n,
{
    if n == 0 {
        assert(predicates + anchored_predicates(anchors_upto(p, 0), counter) =~= predicates);
    } else {
        let m = (n - 1) as nat;
        lemma_children_filled(p, m, counter, predicates);
        let before = compiled_children(p, m, counter, predicates)->Ok_0;
        let child = p.children@[n - 1];
        lemma_node_filled(child, None, before.counter, before.predicates);
        let inner = compiled_node(child, None, before.counter, before.predicates)->Ok_0;
        let lead = match child.field {
            Some(f) => " "@ + f@ + ": "@,
            None => " "@,
        };
        let g = frame_upto(p, m);
        let h = frame(child, None);
        let (a, b) = (anchors_upto(p, m), anchors(child, None));
        lemma_filled_run_on(g, seq![lead], counter);
        lemma_filled_run_on(run_on(g, seq![lead]), h, counter);
        lemma_unanchored_add(a, b);
        lemma_anchored_add(a, b, counter);
        let e = compiled_children(p, n, counter, predicates)->Ok_0;
        assert(anchors_upto(p, n) == a + b);
        assert(frame_upto(p, n) == run_on(run_on(g, seq![lead]), h));
        assert(filled(seq![lead], (counter + g.len() - 1) as nat) == lead);
        assert(e.text =~= before.text + lead + inner.text);
        assert(e.predicates =~= predicates + anchored_predicates(a + b, counter));
    }
}

proof fn lemma_on_lines(s: Seq<Seq<char>>)
    requires
        s.len() > 0,
    ensures
        on_lines(s) == "\n"@ + text::joined(s, "\n"@),
    decreases s.len(),
{
    if s.len() == 1 {
        assert(on_lines(s.drop_last()) =~= seq![]);
        assert(on_lines(s) =~= "\n"@ + text::joined(s, "\n"@));
    } else {
        lemma_on_lines(s.drop_last());
        assert(on_lines(s) =~= "\n"@ + text::joined(s, "\n"@));
    }
}

/// What a pattern compiles to: its nodes in parentheses one inside the other, with the captures that
/// they have and with `_c1`, `_c2` and so on, in this order, where one is made up; and then, where
/// texts are constrained, the predicates of all constraints on lines of their own, each on the
/// capture of its own node. A pattern without constraints is its nodes alone.
pub proof fn lemma_query_made_of(p: Pattern, root_capture: Seq<char>)
    requires
        query_of(p, root_capture) is Ok,
    ensures
        ({
            let body = filled(frame(p, Some(root_capture)), 0);
            let a = anchors(p, Some(root_capture));
            &&& a.len() == 0 ==> query_of(p, root_capture)->Ok_0 == body
            &&& a.len() > 0 ==> query_of(p, root_capture)->Ok_0 == "("@ + body + "\n"@
                + text::joined(anchored_predicates(a, 0), "\n"@) + ")"@
            &&& frame(p, Some(root_capture)).len() == unanchored(a) + 1
        }),
{
    lemma_compiles(p, root_capture);
    lemma_node_filled(p, Some(root_capture), 0, seq![]);
    lemma_anchors_constrain(p, Some(root_capture));
    let e = compiled_node(p, Some(root_capture), 0, seq![])->Ok_0;
    let a = anchors(p, Some(root_capture));
    let ps = anchored_predicates(a, 0);
    assert(e.predicates =~= ps);
    lemma_predicates_abound(a, 0);
    if a.len() > 0 {
        lemma_on_lines(ps);
        assert(query_of(p, root_capture)->Ok_0 =~= "("@ + filled(frame(p, Some(root_capture)), 0)
            + "\n"@ + text::joined(ps, "\n"@) + ")"@);
    }
}

proof fn lemma_anchors_constrain(p: Pattern, root: Option<Seq<char>>)
    requires
        compilable(p),
    ensures
        forall|i: int| 0 <= i < anchors(p, root).len() ==> constrains((#[trigger] anchors(p, root)[i]).1),
    decreases p, p.children@.len() + 1,
{
    lemma_anchors_upto_constrain(p, p.children@.len());
    let a = anchors(p, root);
    let b = anchors_upto(p, p.children@.len());
    assert forall|i: int| 0 <= i < a.len() implies constrains((#[trigger] a[i]).1) by {
        if i < b.len() {
            assert(a[i] == b[i]);
        }
    }
}

proof fn lemma_anchors_upto_constrain(p: Pattern, n: nat)
    requires
        compilable_children(p, n),
    ensures
        forall|i: int|
            0 <= i < anchors_upto(p, n).len() ==> constrains((#[trigger] anchors_upto(p, n)[i]).1),
    decreases p, n,
{
    if n == 0 || n > p.children@.len() {
    } else {
        lemma_anchors_upto_constrain(p, (n - 1) as nat);
        lemma_anchors_constrain(p.children@[n - 1], None);
        let (a, b) = (anchors_upto(p, (n - 1) as nat), anchors(p.children@[n - 1], None));
        assert forall|i: int| 0 <= i < anchors_upto(p, n).len() implies constrains(
            (#[trigger] anchors_upto(p, n)[i]).1,
        ) by {
            if i < a.len() {
                assert(anchors_upto(p, n)[i] == a[i]);
            } else {
                assert(anchors_upto(p, n)[i] == b[i - a.len()]);
            }
        }
    }
}

proof fn lemma_predicates_abound(s: Seq<(Option<Seq<char>>, TextMatch)>, c: nat)
    requires
        forall|i: int| 0 <= i < s.len() ==> constrains((#[trigger] s[i]).1),
    ensures
        anchored_predicates(s, c).len() >= s.len(),
    decreases s.len(),
{
    if s.len() > 0 {
        let init = s.drop_last();
        assert forall|i: int| 0 <= i < init.len() implies constrains((#[trigger] init[i]).1) by {
            assert(init[i] == s[i]);
        }
        lemma_predicates_abound(init, c);
        assert(s.last() == s[s.len() - 1]);
    }
}

/// Captures that are made up are told apart by their numbers.
pub proof fn lemma_made_up_apart(i: nat, j: nat)
    requires
        made_up(i) == made_up(j),
    ensures
        i == j,
{
    reveal_strlit("_c");
    assert(made_up(i).skip(2) =~= text::decimal(i));
    assert(made_up(j).skip(2) =~= text::decimal(j));
    text::lemma_decimal_denotes(i);
    text::lemma_decimal_denotes(j);
}

/// No two constraints without a capture of their own share the one that is made up for them: the
/// `k`-th of them has `_c` and `k`.
pub proof fn lemma_made_up_distinct(
    s: Seq<(Option<Seq<char>>, TextMatch)>,
    i: int,
    j: int,
)
    requires
        0 <= i < j < s.len(),
        s[i].0 is None,
        s[j].0 is None,
    ensures
        anchor(s, i, 0) == made_up(unanchored(s.take(i)) + 1),
        anchor(s, i, 0) != anchor(s, j, 0),
{
    lemma_unanchored_grows(s, i, j);
    if anchor(s, i, 0) == anchor(s, j, 0) {
        lemma_made_up_apart(unanchored(s.take(i)) + 1, unanchored(s.take(j)) + 1);
    }
}

proof fn lemma_unanchored_grows(s: Seq<(Option<Seq<char>>, TextMatch)>, i: int, j: int)
    requires
        0 <= i < j <= s.len(),
        s[i].0 is None,
    ensures
        unanchored(s.take(i)) < unanchored(s.take(j)),
    decreases j - i,
{
    assert(s.take(j).drop_last() =~= s.take(j - 1));
    if j - 1 > i {
        lemma_unanchored_grows(s, i, j - 1);
    }
}

/// The predicates of a constraint are one for each part that is set, on the constraint's capture:
/// a regex is matched, an equal is compared, and their opposites are refused.
pub proof fn lemma_constraint_predicates(capture: Seq<char>, t: TextMatch)
    ensures
        ({
            let ps = predicates_of(capture, t);
            let says = |name: Seq<char>, l: Seq<char>|
                "("@ + name + " @"@ + capture + " \""@ + escaped(l) + "\")"@;
            let set = |l: Option<String>| if l is Some { 1int } else { 0int };
            &&& ps.len() == set(t.regex) + set(t.not_regex) + set(t.eq) + set(t.not_eq)
            &&& t.regex matches Some(l) ==> ps.contains(says("#match?"@, l@))
            &&& t.not_regex matches Some(l) ==> ps.contains(says("#not-match?"@, l@))
            &&& t.eq matches Some(l) ==> ps.contains(says("#eq?"@, l@))
            &&& t.not_eq matches Some(l) ==> ps.contains(says("#not-eq?"@, l@))
        }),
{
    let ps = predicates_of(capture, t);
    let a = predicate_for("#match?"@, capture, t.regex);
    let b = predicate_for("#not-match?"@, capture, t.not_regex);
    let c = predicate_for("#eq?"@, capture, t.eq);
    let d = predicate_for("#not-eq?"@, capture, t.not_eq);
    if let Some(l) = t.regex {
        assert(ps[0] == predicate("#match?"@, capture, l@));
    }
    if let Some(l) = t.not_regex {
        assert(ps[a.len() as int] == predicate("#not-match?"@, capture, l@));
    }
    if let Some(l) = t.eq {
        assert(ps[(a.len() + b.len()) as int] == predicate("#eq?"@, capture, l@));
    }
    if let Some(l) = t.not_eq {
        assert(ps[(a.len() + b.len() + c.len()) as int] == predicate("#not-eq?"@, capture, l@));
    }
}

/// What a string literal holds, read from behind its opening quote up to its closing one, and what
/// follows it: a backslash takes the character behind it as it is.
pub open spec fn read_literal(s: Seq<char>) -> Option<(Seq<char>, Seq<char>)>
    decreases s.len(),
{
    if s.len() == 0 {
        None
    } else if s[0] == '"' {
        Some((seq![], s.drop_first()))
    } else if s[0] == '\\' {
        if s.len() == 1 {
            None
        } else {
            match read_literal(s.skip(2)) {
                Some((held, rest)) => Some((seq![s[1]] + held, rest)),
                None => None,
            }
        }
    } else {
        match read_literal(s.drop_first()) {
            Some((held, rest)) => Some((seq![s[0]] + held, rest)),
            None => None,
        }
    }
}

/// A literal is read back as the text that was put into it, whatever quotes and backslashes the
/// text has, and ends where it was ended.
pub proof fn lemma_literal_read_back(s: Seq<char>, rest: Seq<char>)
    ensures
        read_literal(escaped(s) + seq!['"'] + rest) == Some((s, rest)),
    decreases s.len(),
{
    let all = escaped(s) + seq!['"'] + rest;
    if s.len() == 0 {
        assert(escaped(s) =~= seq![]);
        assert(all.drop_first() =~= rest);
        assert(read_literal(all)->Some_0.0 =~= s);
    } else {
        let tail = s.drop_first();
        assert(s =~= seq![s[0]] + tail);
        lemma_literal_read_back(tail, rest);
        lemma_escaped_first(s[0], tail);
        let more = escaped(tail) + seq!['"'] + rest;
        if s[0] == '\\' || s[0] == '"' {
            assert(all.skip(2) =~= more);
            assert(all[0] == '\\' && all[1] == s[0]);
        } else {
            assert(all.drop_first() =~= more);
            assert(all[0] == s[0]);
        }
        assert(read_literal(all)->Some_0.0 =~= s);
    }
}

} // verus!
