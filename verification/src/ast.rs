//! Printing syntax trees, for authoring rules.

use tree_sitter::{Language, Node, Tree};
use vstd::prelude::*;

use crate::fingerprint;
use crate::syntax;
use crate::syntax::ParseFailure;
use crate::text;

verus! {

/// A node of a syntax tree with the named nodes below it.
#[derive(Debug)]
pub struct Ast {
    pub kind: String,
    pub start_byte: usize,
    pub end_byte: usize,
    pub children: Vec<Ast>,
}

/// A node of a syntax tree with the named nodes below it.
#[verifier::ext_equal]
pub struct AstModel {
    pub kind: Seq<char>,
    pub start_byte: usize,
    pub end_byte: usize,
    pub children: Seq<AstModel>,
}

/// What a tree holds.
pub open spec fn ast_model(a: Ast) -> AstModel
    decreases a,
{
    AstModel {
        kind: a.kind@,
        start_byte: a.start_byte,
        end_byte: a.end_byte,
        children: Seq::new(
            a.children@.len(),
            |i: int|
                if 0 <= i < a.children@.len() {
                    ast_model(a.children@[i])
                } else {
                    arbitrary()
                },
        ),
    }
}

/// What a list of trees holds.
pub open spec fn ast_models(s: Seq<Ast>) -> Seq<AstModel> {
    s.map_values(|a: Ast| ast_model(a))
}

// ---------------------------------------------------------------------------
// Reading a tree
// ---------------------------------------------------------------------------

/// The named nodes directly below a node, with what is below them.
pub uninterp spec fn node_children(node: Node<'_>) -> Seq<AstModel>;

/// A node with the named nodes below it.
pub open spec fn node_ast(node: Node<'_>) -> AstModel {
    AstModel {
        kind: syntax::node_model(node).kind,
        start_byte: syntax::node_model(node).start_byte,
        end_byte: syntax::node_model(node).end_byte,
        children: node_children(node),
    }
}

/// `Node::named_children` gives the named nodes directly below a node, in source order. A tree
/// is finite, so each of them has less below it than the node has.
#[verifier::external_body]
fn named_children<'t>(node: &Node<'t>) -> (r: Vec<Node<'t>>)
    ensures
        r@.map_values(|c: Node<'t>| node_ast(c)) == node_children(*node),
{
    let mut cursor = node.walk();
    node.named_children(&mut cursor).collect()
}

/// A node with the named nodes below it, as a plain value.
fn read_ast(node: &Node<'_>) -> (r: Ast)
    ensures
        ast_model(r) == node_ast(*node),
    decreases node_ast(*node),
{
    let (start_byte, end_byte) = syntax::node_bytes(node);
    let below = named_children(node);
    let ghost all = node_children(*node);
    assert(all.len() == below@.len());
    let mut children: Vec<Ast> = Vec::new();
    for i in 0..below.len()
        invariant
            all == node_children(*node),
            all == below@.map_values(|c: Node<'_>| node_ast(c)),
            all.len() == below@.len(),
            ast_models(children@) == all.take(i as int),
    {
        let ghost before = ast_models(children@);
        assert(all[i as int] == node_ast(below@[i as int]));
        assert(decreases_to!(node_ast(*node) => node_ast(*node).children[i as int]));
        let child = read_ast(&below[i]);
        let ghost model = ast_model(child);
        children.push(child);
        assert(ast_models(children@) =~= before.push(model));
        assert(all.take(i + 1) =~= before.push(all[i as int]));
    }
    assert(all.take(all.len() as int) =~= all);
    let out = Ast { kind: syntax::node_kind(node).to_owned(), start_byte, end_byte, children };
    assert(ast_model(out).children =~= ast_models(children@));
    out
}
/// A syntax tree from its root.
pub uninterp spec fn tree_ast(tree: Tree) -> AstModel;

/// `Tree::root_node` gives the root of a tree.
#[verifier::external_body]
fn root_node<'t>(tree: &'t Tree) -> (r: Node<'t>)
    ensures
        node_ast(r) == tree_ast(*tree),
{
    tree.root_node()
}

/// Whether a tree has a syntax error in it.
pub uninterp spec fn tree_error(tree: Tree) -> bool;

/// `Node::has_error`, of the root of a tree, says whether there is a syntax error anywhere in
/// the tree.
#[verifier::external_body]
fn has_error(tree: &Tree) -> (r: bool)
    ensures
        r == tree_error(*tree),
{
    tree.root_node().has_error()
}

// ---------------------------------------------------------------------------
// Printing a tree
// ---------------------------------------------------------------------------

/// Does every leaf of a tree span a part of the source?
pub open spec fn spans_within(a: AstModel, len: nat) -> bool
    decreases a,
{
    &&& a.children.len() == 0 ==> a.start_byte <= a.end_byte <= len
    &&& forall|i: int| 0 <= i < a.children.len() ==> spans_within(#[trigger] a.children[i], len)
}

/// A text in quotes, with escapes.
pub uninterp spec fn quoted(s: Seq<char>) -> Seq<char>;

/// The `Debug` form of a string: the text in quotes, with escapes. It depends on the text
/// alone.
#[verifier::external_body]
fn debug_text(s: &str) -> (r: String)
    ensures
        r@ == quoted(s@),
{
    format!("{s:?}")
}

/// The source text that a leaf shows behind its kind.
pub open spec fn leaf_text(a: AstModel, source: Seq<u8>) -> Seq<char> {
    if a.children.len() == 0 {
        "  "@ + quoted(
            fingerprint::utf8_lossy(source.subrange(a.start_byte as int, a.end_byte as int)),
        )
    } else {
        seq![]
    }
}

/// A node and what is below it, one node on a line, each level two spaces further in.
pub open spec fn sexp(a: AstModel, source: Seq<u8>, indent: Seq<char>) -> Seq<char>
    decreases a, a.children.len() + 1,
{
    indent + "("@ + a.kind + leaf_text(a, source) + ")\n"@ + sexps(
        a,
        a.children.len(),
        source,
        indent + "  "@,
    )
}

/// What is below a node, up to its `n`th child.
pub open spec fn sexps(a: AstModel, n: nat, source: Seq<u8>, indent: Seq<char>) -> Seq<char>
    decreases a, n,
{
    if n == 0 || n > a.children.len() {
        seq![]
    } else {
        sexps(a, (n - 1) as nat, source, indent) + sexp(a.children[n - 1], source, indent)
    }
}

/// Does every leaf of a tree span a part of a source of the given length?
pub fn fits(a: &Ast, len: usize) -> (r: bool)
    ensures
        r == spans_within(ast_model(*a), len as nat),
    decreases a,
{
    let ghost model = ast_model(*a);
    if a.children.len() == 0 && !(a.start_byte <= a.end_byte && a.end_byte <= len) {
        return false;
    }
    for i in 0..a.children.len()
        invariant
            model == ast_model(*a),
            model.children.len() == a.children@.len(),
            forall|k: int| 0 <= k < i ==> spans_within(#[trigger] model.children[k], len as nat),
    {
        assert(model.children[i as int] == ast_model(a.children@[i as int]));
        if !fits(&a.children[i], len) {
            return false;
        }
    }
    true
}

/// Write a node and what is below it, one node on a line, each level two spaces further in.
/// A node without named children shows its source.
pub fn write_sexp(a: &Ast, source: &[u8], indent: &str, out: &mut String)
    requires
        spans_within(ast_model(*a), source@.len()),
    ensures
        final(out)@ == old(out)@ + sexp(ast_model(*a), source@, indent@),
    decreases a,
{
    let ghost model = ast_model(*a);
    let ghost start = out@;
    let mut line = indent.to_owned();
    line.append("(");
    line.append(a.kind.as_str());
    if a.children.len() == 0 {
        let part = vstd::slice::slice_subrange(source, a.start_byte, a.end_byte);
        let shown = fingerprint::from_utf8_lossy(part);
        line.append("  ");
        line.append(debug_text(shown.as_str()).as_str());
    }
    line.append(")\n");
    let ghost head = indent@ + "("@ + model.kind + leaf_text(model, source@) + ")\n"@;
    assert(line@ =~= head);
    out.append(line.as_str());
    let mut deeper = indent.to_owned();
    deeper.append("  ");
    assert(out@ =~= start + (head + sexps(model, 0, source@, deeper@)));
    for i in 0..a.children.len()
        invariant
            model == ast_model(*a),
            model.children.len() == a.children@.len(),
            spans_within(model, source@.len()),
            out@ == start + (head + sexps(model, i as nat, source@, deeper@)),
    {
        let ghost before = sexps(model, i as nat, source@, deeper@);
        assert(model.children[i as int] == ast_model(a.children@[i as int]));
        assert(spans_within(model.children[i as int], source@.len()));
        write_sexp(&a.children[i], source, deeper.as_str(), out);
        assert(out@ =~= start + (head + (before + sexp(
            model.children[i as int],
            source@,
            deeper@,
        ))));
    }
}

/// A printed syntax tree.
#[derive(Debug)]
pub struct Dump {
    pub text: String,
    /// Is there a syntax error in the tree?
    pub has_error: bool,
}

/// Why there is nothing to print.
#[derive(Debug, Clone, Copy, PartialEq, Eq, Structural)]
pub enum DumpFailure {
    /// There is no syntax tree.
    Parse(ParseFailure),
    /// A node spans bytes behind the end of the source.
    Stray,
}

/// Is `r` the printed syntax tree of a source text, or why there is none?
pub open spec fn dumped(r: Result<Dump, DumpFailure>, language: Language, source: Seq<u8>) -> bool {
    match syntax::parsed(language, source) {
        Err(e) => r == Err::<Dump, DumpFailure>(DumpFailure::Parse(e)),
        Ok(tree) => if spans_within(tree_ast(tree), source.len()) {
            r matches Ok(d) && d.text@ == sexp(tree_ast(tree), source, seq![]) && d.has_error
                == tree_error(tree)
        } else {
            r == Err::<Dump, DumpFailure>(DumpFailure::Stray)
        },
    }
}

/// Parse a source text and print its syntax tree.
pub fn dump_ast(language: &Language, source: &[u8]) -> (r: Result<Dump, DumpFailure>)
    ensures
        dumped(r, *language, source@),
{
    match syntax::parse(language, source) {
        Err(e) => Err(DumpFailure::Parse(e)),
        Ok(tree) => {
            let a = read_ast(&root_node(&tree));
            if !fits(&a, source.len()) {
                return Err(DumpFailure::Stray);
            }
            let mut out = String::new();
            write_sexp(&a, source, "", &mut out);
            proof {
                reveal_strlit("");
                assert(""@ =~= seq![]);
            }
            assert(out@ =~= sexp(tree_ast(tree), source@, seq![]));
            Ok(Dump { text: out, has_error: has_error(&tree) })
        },
    }
}

/// A node and all below it in source order, each with how far below it stands.
pub open spec fn walk(a: AstModel, depth: nat) -> Seq<(nat, AstModel)>
    decreases a, a.children.len() + 1,
{
    seq![(depth, a)] + walk_below(a, a.children.len(), depth + 1)
}

/// All below a node up to its `n`th child, each with how far below it stands.
pub open spec fn walk_below(a: AstModel, n: nat, depth: nat) -> Seq<(nat, AstModel)>
    decreases a, n,
{
    if n == 0 || n > a.children.len() {
        seq![]
    } else {
        walk_below(a, (n - 1) as nat, depth) + walk(a.children[n - 1], depth)
    }
}

/// The line of a node: two spaces for each level, its kind in parentheses, and where nothing is
/// below it the text that it spans, in quotes.
pub open spec fn node_line(source: Seq<u8>, node: (nat, AstModel)) -> Seq<char> {
    text::repeated(' ', 2 * node.0) + "("@ + node.1.kind + (if node.1.children.len() == 0 {
        "  "@ + quoted(
            fingerprint::utf8_lossy(
                source.subrange(node.1.start_byte as int, node.1.end_byte as int),
            ),
        )
    } else {
        Seq::<char>::empty()
    }) + ")\n"@
}

/// A printed tree has one line for each of its nodes, in source order, and nothing else.
pub proof fn lemma_every_node_printed(a: AstModel, source: Seq<u8>, depth: nat)
    ensures
        sexp(a, source, text::repeated(' ', 2 * depth)) == walk(a, depth).map_values(
            |node: (nat, AstModel)| node_line(source, node),
        ).flatten(),
    decreases a, a.children.len() + 1,
{
    reveal_strlit("  ");
    let each = |node: (nat, AstModel)| node_line(source, node);
    let indent = text::repeated(' ', 2 * depth);
    let below = walk_below(a, a.children.len(), depth + 1);
    lemma_every_node_below_printed(a, a.children.len(), source, depth + 1);
    assert(indent + "  "@ =~= text::repeated(' ', 2 * (depth + 1)));
    let all = walk(a, depth).map_values(each);
    assert(all.first() == node_line(source, (depth, a)));
    assert(all.drop_first() =~= below.map_values(each));
    assert(all.flatten() == node_line(source, (depth, a)) + below.map_values(each).flatten());
    assert(sexp(a, source, indent) =~= node_line(source, (depth, a)) + sexps(
        a,
        a.children.len(),
        source,
        indent + "  "@,
    ));
}

proof fn lemma_every_node_below_printed(a: AstModel, n: nat, source: Seq<u8>, depth: nat)
    ensures
        sexps(a, n, source, text::repeated(' ', 2 * depth)) == walk_below(a, n, depth).map_values(
            |node: (nat, AstModel)| node_line(source, node),
        ).flatten(),
    decreases a, n,
{
    let each = |node: (nat, AstModel)| node_line(source, node);
    if n == 0 || n > a.children.len() {
        assert(walk_below(a, n, depth).map_values(each) =~= seq![]);
    } else {
        let child = a.children[n - 1];
        lemma_every_node_below_printed(a, (n - 1) as nat, source, depth);
        lemma_every_node_printed(child, source, depth);
        let (x, y) = (walk_below(a, (n - 1) as nat, depth), walk(child, depth));
        assert((x + y).map_values(each) =~= x.map_values(each) + y.map_values(each));
        lemma_flatten_add(x.map_values(each), y.map_values(each));
    }
}

proof fn lemma_flatten_add(a: Seq<Seq<char>>, b: Seq<Seq<char>>)
    ensures
        (a + b).flatten() == a.flatten() + b.flatten(),
    decreases a.len(),
{
    if a.len() == 0 {
        assert(a + b =~= b);
        assert(a.flatten() + b.flatten() =~= b.flatten());
    } else {
        assert((a + b).drop_first() =~= a.drop_first() + b);
        lemma_flatten_add(a.drop_first(), b);
        assert((a + b).flatten() =~= a.flatten() + b.flatten());
    }
}

/// A walk passes a node before all below it, and every child at the next level.
pub proof fn lemma_walk_passes_children(a: AstModel, depth: nat, i: int)
    requires
        0 <= i < a.children.len(),
    ensures
        walk(a, depth)[0] == (depth, a),
        walk(a, depth).contains((depth + 1, a.children[i])),
{
    lemma_walk_below_passes(a, a.children.len(), depth + 1, i);
    let below = walk_below(a, a.children.len(), depth + 1);
    let k = choose|k: int| 0 <= k < below.len() && below[k] == (depth + 1, a.children[i]);
    assert(walk(a, depth)[k + 1] == below[k]);
}

proof fn lemma_walk_below_passes(a: AstModel, n: nat, depth: nat, i: int)
    requires
        0 <= i < n <= a.children.len(),
    ensures
        walk_below(a, n, depth).contains((depth, a.children[i])),
    decreases n,
{
    let (x, y) = (walk_below(a, (n - 1) as nat, depth), walk(a.children[n - 1], depth));
    if i < n - 1 {
        lemma_walk_below_passes(a, (n - 1) as nat, depth, i);
        let k = choose|k: int| 0 <= k < x.len() && x[k] == (depth, a.children[i]);
        assert((x + y)[k] == x[k]);
    } else {
        assert(y[0] == (depth, a.children[i]));
        assert((x + y)[x.len() as int] == y[0]);
    }
}

} // verus!
