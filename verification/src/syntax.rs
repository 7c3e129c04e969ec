//! Syntax trees: what the library asks of tree-sitter, and syntax nodes as plain values.
//!
//! Languages, parsers, trees, queries and nodes are tree-sitter's own and opaque here. What a
//! node is follows from `node_model`; everything behind a query match is plain.

use streaming_iterator::StreamingIterator;
use tree_sitter::{Language, LanguageError, Node, Parser, Query, QueryCursor, QueryError, Tree};
use vstd::prelude::*;

verus! {

/// A 0-based row and column in a source file.
#[derive(Debug, Clone, Copy, PartialEq, Eq, Structural)]
pub struct Point {
    pub row: usize,
    pub column: usize,
}

/// A node on the way from a syntax node to the root of its tree.
#[derive(Debug)]
pub struct Ancestor {
    pub kind: String,
    /// Named nodes have a rule of their own in the grammar; punctuation has not.
    pub named: bool,
}

/// A syntax node: its kind, the source it spans, and the nodes around it.
#[derive(Debug)]
pub struct SyntaxNode {
    pub kind: String,
    pub start_byte: usize,
    pub end_byte: usize,
    pub start: Point,
    pub end: Point,
    /// The nodes around this one, nearest first.
    pub ancestors: Vec<Ancestor>,
}

/// What an ancestor holds.
#[verifier::ext_equal]
pub struct AncestorModel {
    pub kind: Seq<char>,
    pub named: bool,
}

/// What a syntax node holds.
#[verifier::ext_equal]
pub struct NodeModel {
    pub kind: Seq<char>,
    pub start_byte: usize,
    pub end_byte: usize,
    pub start: Point,
    pub end: Point,
    pub ancestors: Seq<AncestorModel>,
}

impl View for Ancestor {
    type V = AncestorModel;

    open spec fn view(&self) -> AncestorModel {
        AncestorModel { kind: self.kind@, named: self.named }
    }
}

impl View for SyntaxNode {
    type V = NodeModel;

    open spec fn view(&self) -> NodeModel {
        NodeModel {
            kind: self.kind@,
            start_byte: self.start_byte,
            end_byte: self.end_byte,
            start: self.start,
            end: self.end,
            ancestors: self.ancestors@.map_values(|a: Ancestor| a@),
        }
    }
}

// ---------------------------------------------------------------------------
// tree-sitter's types
// ---------------------------------------------------------------------------

/// `tree_sitter::Language`: a grammar.
#[verifier::external_type_specification]
#[verifier::external_body]
pub struct ExLanguage(tree_sitter::Language);

/// `tree_sitter::LanguageError`: a grammar of a version that tree-sitter does not support.
#[verifier::external_type_specification]
#[verifier::external_body]
pub struct ExLanguageError(tree_sitter::LanguageError);

/// `tree_sitter::Parser`: a parser, with the language it was given.
#[verifier::external_type_specification]
#[verifier::external_body]
pub struct ExParser(tree_sitter::Parser);

/// `tree_sitter::Tree`: a syntax tree.
#[verifier::external_type_specification]
#[verifier::external_body]
pub struct ExTree(tree_sitter::Tree);

/// `tree_sitter::Node`: a node of a syntax tree.
#[verifier::external_type_specification]
#[verifier::external_body]
pub struct ExNode<'tree>(tree_sitter::Node<'tree>);

/// `tree_sitter::Query`: a compiled query.
#[verifier::external_type_specification]
#[verifier::external_body]
pub struct ExQuery(tree_sitter::Query);

/// `tree_sitter::QueryError`: why a query does not compile.
#[verifier::external_type_specification]
#[verifier::external_body]
pub struct ExQueryError(tree_sitter::QueryError);

// ---------------------------------------------------------------------------
// Languages and trees
// ---------------------------------------------------------------------------

/// The ABI version of a grammar.
pub uninterp spec fn abi_version_of(language: Language) -> usize;

/// `Language::abi_version` gives the ABI version that the grammar was generated for, a number
/// fixed in the grammar.
#[verifier::external_body]
pub(crate) fn abi_version(language: &Language) -> (r: usize)
    ensures
        r == abi_version_of(*language),
{
    language.abi_version()
}

/// The language that a parser was given.
pub uninterp spec fn parser_language(parser: Parser) -> Option<Language>;

/// `Parser::new` makes a parser that has no language yet.
#[verifier::external_body]
fn new_parser() -> (r: Parser)
    ensures
        parser_language(r) is None,
{
    Parser::new()
}

/// `Parser::set_language` gives a parser its language. It fails exactly for a grammar whose
/// ABI version is not one that tree-sitter supports, 13 to 15.
#[verifier::external_body]
fn set_language(parser: &mut Parser, language: &Language) -> (r: Result<(), LanguageError>)
    ensures
        r is Ok <==> 13 <= abi_version_of(*language) <= 15,
        r is Ok ==> parser_language(*final(parser)) == Some(*language),
{
    parser.set_language(language)
}

/// The syntax tree of a source text in a language.
pub uninterp spec fn tree_of(language: Language, source: Seq<u8>) -> Option<Tree>;

/// `Parser::parse`, without an earlier tree, parses a source text. With no limit on its time
/// the result depends on the parser's language and on the source alone.
#[verifier::external_body]
fn parse_with(parser: Parser, source: &[u8]) -> (r: Option<Tree>)
    requires
        parser_language(parser) is Some,
    ensures
        r == tree_of(parser_language(parser)->Some_0, source@),
{
    let mut parser = parser;
    parser.parse(source, None)
}

/// Why a source text has no syntax tree.
#[derive(Debug, Clone, Copy, PartialEq, Eq, Structural)]
pub enum ParseFailure {
    /// The grammar's version is not supported.
    Language,
    /// The parser gave up.
    Parse,
}

/// The syntax tree of a source text, or why there is none.
pub open spec fn parsed(language: Language, source: Seq<u8>) -> Result<Tree, ParseFailure> {
    if 13 <= abi_version_of(language) <= 15 {
        match tree_of(language, source) {
            Some(tree) => Ok(tree),
            None => Err(ParseFailure::Parse),
        }
    } else {
        Err(ParseFailure::Language)
    }
}

/// Parse a source text.
pub(crate) fn parse(language: &Language, source: &[u8]) -> (r: Result<Tree, ParseFailure>)
    ensures
        r == parsed(*language, source@),
{
    let mut parser = new_parser();
    match set_language(&mut parser, language) {
        Err(_) => Err(ParseFailure::Language),
        Ok(_) => match parse_with(parser, source) {
            Some(tree) => Ok(tree),
            None => Err(ParseFailure::Parse),
        },
    }
}

// ---------------------------------------------------------------------------
// Nodes
// ---------------------------------------------------------------------------

/// What a node is: its kind, the source it spans, and the nodes around it.
pub uninterp spec fn node_model(node: Node<'_>) -> NodeModel;

/// Whether a node has a rule of its own in the grammar.
pub uninterp spec fn node_named(node: Node<'_>) -> bool;

/// `Node::kind` gives the name of the node's kind in the grammar.
#[verifier::external_body]
pub(crate) fn node_kind(node: &Node<'_>) -> (r: &'static str)
    ensures
        r@ == node_model(*node).kind,
{
    node.kind()
}

/// `Node::is_named` says whether the node has a rule of its own in the grammar.
#[verifier::external_body]
fn node_is_named(node: &Node<'_>) -> (r: bool)
    ensures
        r == node_named(*node),
{
    node.is_named()
}

/// `Node::byte_range` gives the source bytes that the node spans.
#[verifier::external_body]
pub(crate) fn node_bytes(node: &Node<'_>) -> (r: (usize, usize))
    ensures
        r == (node_model(*node).start_byte, node_model(*node).end_byte),
{
    let range = node.byte_range();
    (range.start, range.end)
}

/// `Node::start_position` gives the 0-based row and column where the node starts.
#[verifier::external_body]
fn node_start(node: &Node<'_>) -> (r: Point)
    ensures
        r == node_model(*node).start,
{
    let point = node.start_position();
    Point { row: point.row, column: point.column }
}

/// `Node::end_position` gives the 0-based row and column where the node ends.
#[verifier::external_body]
fn node_end(node: &Node<'_>) -> (r: Point)
    ensures
        r == node_model(*node).end,
{
    let point = node.end_position();
    Point { row: point.row, column: point.column }
}

/// `Node::parent` gives the node directly around a node; the root of a tree has none.
#[verifier::external_body]
fn node_parent<'t>(node: &Node<'t>) -> (r: Option<Node<'t>>)
    ensures
        match r {
            Some(p) => node_model(*node).ancestors == seq![
                AncestorModel { kind: node_model(p).kind, named: node_named(p) },
            ] + node_model(p).ancestors,
            None => node_model(*node).ancestors.len() == 0,
        },
{
    node.parent()
}

/// The ancestors held by a list.
pub open spec fn ancestor_models(s: Seq<Ancestor>) -> Seq<AncestorModel> {
    s.map_values(|a: Ancestor| a@)
}

/// A node as a plain value.
pub(crate) fn read_node(node: &Node<'_>) -> (r: SyntaxNode)
    ensures
        r@ == node_model(*node),
{
    let (start_byte, end_byte) = node_bytes(node);
    let ghost all = node_model(*node).ancestors;
    let mut ancestors: Vec<Ancestor> = Vec::new();
    let mut cur = node_parent(node);
    assert(ancestor_models(ancestors@) =~= seq![]);
    loop
        invariant
            match cur {
                Some(p) => all == ancestor_models(ancestors@) + (seq![
                    AncestorModel { kind: node_model(p).kind, named: node_named(p) },
                ] + node_model(p).ancestors),
                None => all == ancestor_models(ancestors@),
            },
        ensures
            all == ancestor_models(ancestors@),
        decreases
                match cur {
                    Some(p) => 1 + node_model(p).ancestors.len(),
                    None => 0,
                },
    {
        match cur {
            None => {
                break;
            },
            Some(p) => {
                let ghost before = ancestor_models(ancestors@);
                let ghost here = AncestorModel {
                    kind: node_model(p).kind,
                    named: node_named(p),
                };
                ancestors.push(Ancestor { kind: node_kind(&p).to_owned(), named: node_is_named(&p) });
                assert(ancestor_models(ancestors@) =~= before.push(here));
                cur = node_parent(&p);
                assert(all =~= ancestor_models(ancestors@) + node_model(p).ancestors);
            },
        }
    }
    SyntaxNode {
        kind: node_kind(node).to_owned(),
        start_byte,
        end_byte,
        start: node_start(node),
        end: node_end(node),
        ancestors,
    }
}

// ---------------------------------------------------------------------------
// Queries
// ---------------------------------------------------------------------------

/// What a query text compiles to in a language.
pub uninterp spec fn query_of(language: Language, text: Seq<char>) -> Result<Query, QueryError>;

/// `Query::new` compiles a query text for a language. The result depends on both alone.
#[verifier::external_body]
pub(crate) fn new_query(language: &Language, text: &str) -> (r: Result<Query, QueryError>)
    ensures
        r == query_of(*language, text@),
{
    Query::new(language, text)
}

/// A query error in words.
pub uninterp spec fn query_error_text(error: QueryError) -> Seq<char>;

/// `QueryError` displays itself as text that depends on the error alone.
#[verifier::external_body]
pub(crate) fn describe_query_error(error: &QueryError) -> (r: String)
    ensures
        r@ == query_error_text(*error),
{
    error.to_string()
}

/// The number of the capture with the given name in a query.
pub uninterp spec fn capture_number(query: Query, name: Seq<char>) -> Option<u32>;

/// `Query::capture_index_for_name` gives the number of the capture with the given name, if the
/// query has one.
#[verifier::external_body]
pub(crate) fn capture_index(query: &Query, name: &str) -> (r: Option<u32>)
    ensures
        r == capture_number(*query, name@),
{
    query.capture_index_for_name(name)
}

/// A captured node: the number of its capture, and the node.
#[derive(Debug)]
pub struct Capture {
    pub index: u32,
    pub node: SyntaxNode,
}

/// A captured node.
#[verifier::ext_equal]
pub struct CaptureModel {
    pub index: u32,
    pub node: NodeModel,
}

impl View for Capture {
    type V = CaptureModel;

    open spec fn view(&self) -> CaptureModel {
        CaptureModel { index: self.index, node: self.node@ }
    }
}

/// What a list of captures holds.
pub open spec fn capture_models(s: Seq<Capture>) -> Seq<CaptureModel> {
    s.map_values(|c: Capture| c@)
}

/// What a list of matches holds.
pub open spec fn match_models(s: Seq<Vec<Capture>>) -> Seq<Seq<CaptureModel>> {
    s.map_values(|m: Vec<Capture>| capture_models(m@))
}

/// The captures of one match as tree-sitter gives them.
pub open spec fn raw_captures(s: Seq<(u32, Node<'_>)>) -> Seq<CaptureModel> {
    s.map_values(|c: (u32, Node<'_>)| CaptureModel { index: c.0, node: node_model(c.1) })
}

/// The matches of a query in a syntax tree, in the order in which they are found.
pub uninterp spec fn matches_of(query: Query, tree: Tree, source: Seq<u8>) -> Seq<Seq<CaptureModel>>;

/// Was the tree parsed from the source, in whatever language?
pub open spec fn parsed_from(tree: Tree, source: Seq<u8>) -> bool {
    exists|language: Language| #[trigger] tree_of(language, source) == Some(tree)
}

/// `QueryCursor::matches` finds the matches of a query below a tree's root whose text
/// predicates hold, each with its captures in order. The query compares the numbers of node
/// kinds and fields with those in the tree, whichever language either is of. The result
/// depends on the query, the tree and the source alone.
#[verifier::external_body]
fn raw_matches<'t>(query: &Query, tree: &'t Tree, source: &[u8]) -> (r: Vec<Vec<(u32, Node<'t>)>>)
    requires
        parsed_from(*tree, source@),
    ensures
        r@.map_values(|m: Vec<(u32, Node<'t>)>| raw_captures(m@)) == matches_of(
            *query,
            *tree,
            source@,
        ),
{
    QueryCursor::new()
        .matches(query, tree.root_node(), source)
        .map_deref(|m| m.captures.iter().map(|c| (c.index, c.node)).collect())
        .collect()
}

fn read_captures(raw: &Vec<(u32, Node<'_>)>) -> (r: Vec<Capture>)
    ensures
        capture_models(r@) == raw_captures(raw@),
{
    let mut out: Vec<Capture> = Vec::new();
    for i in 0..raw.len()
        invariant
            capture_models(out@) == raw_captures(raw@).take(i as int),
    {
        let ghost before = capture_models(out@);
        let (index, node) = &raw[i];
        out.push(Capture { index: *index, node: read_node(node) });
        assert(capture_models(out@) =~= before.push(raw_captures(raw@)[i as int]));
        assert(capture_models(out@) =~= raw_captures(raw@).take(i + 1));
    }
    assert(raw_captures(raw@).take(raw@.len() as int) =~= raw_captures(raw@));
    out
}

/// The matches of a query in a syntax tree, as plain values.
pub(crate) fn query_matches(query: &Query, tree: &Tree, source: &[u8]) -> (r: Vec<Vec<Capture>>)
    requires
        parsed_from(*tree, source@),
    ensures
        match_models(r@) == matches_of(*query, *tree, source@),
{
    let raw = raw_matches(query, tree, source);
    let ghost all = matches_of(*query, *tree, source@);
    assert(all.len() == raw@.len());
    let mut out: Vec<Vec<Capture>> = Vec::new();
    for i in 0..raw.len()
        invariant
            all == raw@.map_values(|m: Vec<(u32, Node<'_>)>| raw_captures(m@)),
            match_models(out@) == all.take(i as int),
    {
        let ghost before = match_models(out@);
        out.push(read_captures(&raw[i]));
        assert(match_models(out@) =~= before.push(raw_captures(raw@[i as int]@)));
        assert(match_models(out@) =~= all.take(i + 1));
    }
    assert(all.take(all.len() as int) =~= all);
    out
}

} // verus!
