//! The boundary to tree-sitter: parsing a source with one of the bundled
//! grammars and reading back, node by node in pre-order, the plain facts the
//! extractors need (kind, field name, depth, byte range, start position).

use vstd::prelude::*;
use vstd::utf8::*;

verus! {

#[verifier::external_type_specification]
#[verifier::external_body]
pub struct ExTree(tree_sitter::Tree);

#[verifier::external_type_specification]
#[verifier::external_body]
pub struct ExLanguageFn(tree_sitter_language::LanguageFn);

#[verifier::external_type_specification]
#[verifier::external_body]
pub struct ExUtf8Error(core::str::Utf8Error);

/// `core::str::from_utf8` accepts exactly the valid UTF-8 slices and then
/// yields the characters they encode.
pub assume_specification[ core::str::from_utf8 ](v: &[u8]) -> (r: core::result::Result<&str, core::str::Utf8Error>)
    ensures
        r is Ok <==> valid_utf8(v@),
        r matches Ok(s) ==> s@ == decode_utf8(v@),
;

/// The tree-sitter grammars bundled with this crate.
#[derive(Debug, Clone, Copy, PartialEq, Eq, Structural)]
pub enum Grammar {
    Bash,
    C,
    Cpp,
    Go,
    Hcl,
    Java,
    Kotlin,
    Php,
    Python,
    Ruby,
    Rust,
    Solidity,
}

/// The entry point of a bundled grammar, tagged with the grammar it belongs to.
pub struct GrammarFn {
    f: tree_sitter_language::LanguageFn,
    grammar: Grammar,
}

impl GrammarFn {
    pub closed spec fn grammar(&self) -> Grammar {
        self.grammar
    }
}

/// A source parsed with a grammar, kept together with the grammar and text.
pub struct ParsedSource {
    tree: tree_sitter::Tree,
    grammar: Grammar,
    text: String,
}

impl ParsedSource {
    pub closed spec fn grammar(&self) -> Grammar {
        self.grammar
    }

    pub closed spec fn text(&self) -> Seq<char> {
        self.text@
    }
}

/// The facts of one syntax node, as plain values.
pub struct NodeView {
    pub kind: Seq<char>,
    pub named: bool,
    pub field: Option<Seq<char>>,
    pub depth: nat,
    pub start: nat,
    pub end: nat,
    pub row: nat,
    pub col: nat,
}

/// One syntax node as read from tree-sitter.
#[derive(Debug, Clone)]
pub struct RawNode {
    /// Grammar node kind (`function_item`, `identifier`, …).
    pub kind: String,
    /// Named (as opposed to anonymous punctuation/keyword) node.
    pub named: bool,
    /// The field name under which the node hangs from its parent.
    pub field: Option<String>,
    /// Depth below the root (the root has depth 0).
    pub depth: usize,
    /// Byte range `[start, end)` into the UTF-8 source.
    pub start: usize,
    pub end: usize,
    /// 0-based row and byte column of the first byte.
    pub row: usize,
    pub col: usize,
}

pub open spec fn opt_view(o: Option<String>) -> Option<Seq<char>> {
    match o {
        Some(s) => Some(s@),
        None => None,
    }
}

impl View for RawNode {
    type V = NodeView;

    open spec fn view(&self) -> NodeView {
        NodeView {
            kind: self.kind@,
            named: self.named,
            field: opt_view(self.field),
            depth: self.depth as nat,
            start: self.start as nat,
            end: self.end as nat,
            row: self.row as nat,
            col: self.col as nat,
        }
    }
}

/// The number of nodes tree-sitter's grammar `g` parses `text` into
/// (`Node::descendant_count` of the root).
pub uninterp spec fn ts_node_count(g: Grammar, text: Seq<char>) -> nat;

/// The `i`-th node, in pre-order, of the tree grammar `g` parses `text` into
/// (the node a fresh `TreeCursor` reaches with `goto_descendant(i)`).
pub uninterp spec fn ts_node(g: Grammar, text: Seq<char>, i: int) -> NodeView;

/// `tree_sitter_bash::LANGUAGE`, tagged as the Bash grammar.
#[verifier::external_body]
fn bash_grammar() -> (r: GrammarFn)
    ensures
        r.grammar() == Grammar::Bash,
{
    GrammarFn { f: tree_sitter_bash::LANGUAGE, grammar: Grammar::Bash }
}

/// `tree_sitter_c::LANGUAGE`, tagged as the C grammar.
#[verifier::external_body]
fn c_grammar() -> (r: GrammarFn)
    ensures
        r.grammar() == Grammar::C,
{
    GrammarFn { f: tree_sitter_c::LANGUAGE, grammar: Grammar::C }
}

/// `tree_sitter_cpp::LANGUAGE`, tagged as the Cpp grammar.
#[verifier::external_body]
fn cpp_grammar() -> (r: GrammarFn)
    ensures
        r.grammar() == Grammar::Cpp,
{
    GrammarFn { f: tree_sitter_cpp::LANGUAGE, grammar: Grammar::Cpp }
}

/// `tree_sitter_go::LANGUAGE`, tagged as the Go grammar.
#[verifier::external_body]
fn go_grammar() -> (r: GrammarFn)
    ensures
        r.grammar() == Grammar::Go,
{
    GrammarFn { f: tree_sitter_go::LANGUAGE, grammar: Grammar::Go }
}

/// `tree_sitter_hcl::LANGUAGE`, tagged as the Hcl grammar.
#[verifier::external_body]
fn hcl_grammar() -> (r: GrammarFn)
    ensures
        r.grammar() == Grammar::Hcl,
{
    GrammarFn { f: tree_sitter_hcl::LANGUAGE, grammar: Grammar::Hcl }
}

/// `tree_sitter_java::LANGUAGE`, tagged as the Java grammar.
#[verifier::external_body]
fn java_grammar() -> (r: GrammarFn)
    ensures
        r.grammar() == Grammar::Java,
{
    GrammarFn { f: tree_sitter_java::LANGUAGE, grammar: Grammar::Java }
}

/// `tree_sitter_kotlin_ng::LANGUAGE`, tagged as the Kotlin grammar.
#[verifier::external_body]
fn kotlin_grammar() -> (r: GrammarFn)
    ensures
        r.grammar() == Grammar::Kotlin,
{
    GrammarFn { f: tree_sitter_kotlin_ng::LANGUAGE, grammar: Grammar::Kotlin }
}

/// `tree_sitter_php::LANGUAGE_PHP`, tagged as the Php grammar.
#[verifier::external_body]
fn php_grammar() -> (r: GrammarFn)
    ensures
        r.grammar() == Grammar::Php,
{
    GrammarFn { f: tree_sitter_php::LANGUAGE_PHP, grammar: Grammar::Php }
}

/// `tree_sitter_python::LANGUAGE`, tagged as the Python grammar.
#[verifier::external_body]
fn python_grammar() -> (r: GrammarFn)
    ensures
        r.grammar() == Grammar::Python,
{
    GrammarFn { f: tree_sitter_python::LANGUAGE, grammar: Grammar::Python }
}

/// `tree_sitter_ruby::LANGUAGE`, tagged as the Ruby grammar.
#[verifier::external_body]
fn ruby_grammar() -> (r: GrammarFn)
    ensures
        r.grammar() == Grammar::Ruby,
{
    GrammarFn { f: tree_sitter_ruby::LANGUAGE, grammar: Grammar::Ruby }
}

/// `tree_sitter_rust::LANGUAGE`, tagged as the Rust grammar.
#[verifier::external_body]
fn rust_grammar() -> (r: GrammarFn)
    ensures
        r.grammar() == Grammar::Rust,
{
    GrammarFn { f: tree_sitter_rust::LANGUAGE, grammar: Grammar::Rust }
}

/// `tree_sitter_solidity::LANGUAGE`, tagged as the Solidity grammar.
#[verifier::external_body]
fn solidity_grammar() -> (r: GrammarFn)
    ensures
        r.grammar() == Grammar::Solidity,
{
    GrammarFn { f: tree_sitter_solidity::LANGUAGE, grammar: Grammar::Solidity }
}

/// The entry point of a bundled grammar.
pub fn grammar_fn(g: Grammar) -> (r: GrammarFn)
    ensures
        r.grammar() == g,
{
    match g {
        Grammar::Bash => bash_grammar(),
        Grammar::C => c_grammar(),
        Grammar::Cpp => cpp_grammar(),
        Grammar::Go => go_grammar(),
        Grammar::Hcl => hcl_grammar(),
        Grammar::Java => java_grammar(),
        Grammar::Kotlin => kotlin_grammar(),
        Grammar::Php => php_grammar(),
        Grammar::Python => python_grammar(),
        Grammar::Ruby => ruby_grammar(),
        Grammar::Rust => rust_grammar(),
        Grammar::Solidity => solidity_grammar(),
    }
}

/// Whether tree-sitter, given grammar `g`, parses `text` into a tree:
/// `Parser::set_language` accepts the grammar (its ABI version is one the
/// library supports) and `Parser::parse` (no timeout, no cancellation, no old
/// tree) returns one.
pub uninterp spec fn ts_parses(g: Grammar, text: Seq<char>) -> bool;

/// `Parser::new`, `Parser::set_language` with the grammar's language, then
/// `Parser::parse(source, None)`: a tree exactly when tree-sitter parses the
/// text with that grammar; a parse that succeeds remembers its grammar and
/// text.
#[verifier::external_body]
pub(crate) fn parse_source(gf: &GrammarFn, source: &str) -> (r: Option<ParsedSource>)
    ensures
        r is Some <==> ts_parses(gf.grammar(), source@),
        r matches Some(p) ==> p.grammar() == gf.grammar() && p.text() == source@,
{
    let mut parser = tree_sitter::Parser::new();
    if parser.set_language(&tree_sitter::Language::new(gf.f)).is_err() {
        return None;
    }
    let tree = parser.parse(source, None)?;
    Some(ParsedSource { tree, grammar: gf.grammar, text: source.to_string() })
}

/// `Node::descendant_count` of the root: how many nodes the tree has.
#[verifier::external_body]
pub(crate) fn node_count(p: &ParsedSource) -> (r: usize)
    ensures
        r == ts_node_count(p.grammar(), p.text()),
{
    p.tree.root_node().descendant_count()
}

/// The `i`-th node in pre-order: `TreeCursor::goto_descendant(i)` on a fresh
/// cursor, then the node's kind, named flag, byte range and start position and
/// the cursor's field name and depth.
#[verifier::external_body]
pub(crate) fn node_at(p: &ParsedSource, i: usize) -> (r: RawNode)
    requires
        i < ts_node_count(p.grammar(), p.text()),
    ensures
        r@ == ts_node(p.grammar(), p.text(), i as int),
{
    let mut c = p.tree.walk();
    c.goto_descendant(i);
    let n = c.node();
    let field = c.field_name().map(|f| f.to_string());
    let (row, col) = (n.start_position().row, n.start_position().column);
    let kind = n.kind().to_string();
    let depth = c.depth() as usize;
    RawNode { kind, named: n.is_named(), field, depth, start: n.start_byte(), end: n.end_byte(), row, col }
}

} // verus!
