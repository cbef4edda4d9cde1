//! Incremental parsing with tree-sitter: a parser for C++ that keeps the
//! last tree it made, and the edits applied to that tree before the next
//! parse.

use vstd::prelude::*;
use std::ops::Range;
use tree_sitter::{InputEdit, LanguageError, Parser, Point, Tree};
use crate::util::text::{byte_len, utf8_len};

verus! {

/// A position in source text: row and column.
#[derive(Debug, Clone, Copy)]
pub struct Position {
    pub row: usize,
    pub column: usize,
}

impl Position {
    /// The start of the text.
    pub fn zero() -> (res: Self)
        ensures
            res.row == 0,
            res.column == 0,
    {
        Position { row: 0, column: 0 }
    }
}

/// An edit of source text, in bytes and positions.
#[derive(Debug, Clone)]
pub struct Edit {
    pub start_byte: usize,
    pub old_end_byte: usize,
    pub new_end_byte: usize,
    pub start_position: Position,
    pub old_end_position: Position,
    pub new_end_position: Position,
}

impl Edit {
    /// The edit that replaces the bytes `range` by `new_text`, with every
    /// position at the start of the text.
    pub fn simple(range: Range<usize>, new_text: &str) -> (res: Self)
        requires
            range.start + utf8_len(new_text@) <= usize::MAX,
        ensures
            res.start_byte == range.start,
            res.old_end_byte == range.end,
            res.new_end_byte == range.start + utf8_len(new_text@),
            res.start_position.row == 0 && res.start_position.column == 0,
            res.old_end_position.row == 0 && res.old_end_position.column == 0,
            res.new_end_position.row == 0 && res.new_end_position.column == 0,
    {
        let len = byte_len(new_text);
        Edit {
            start_byte: range.start,
            old_end_byte: range.end,
            new_end_byte: range.start + len,
            start_position: Position::zero(),
            old_end_position: Position::zero(),
            new_end_position: Position::zero(),
        }
    }
}

#[verifier::external_type_specification]
#[verifier::external_body]
pub struct ExParser(Parser);

#[verifier::external_type_specification]
#[verifier::external_body]
pub struct ExTree(Tree);

#[verifier::external_type_specification]
#[verifier::external_body]
pub struct ExLanguageError(LanguageError);

/// A parser without a language.
///
/// Calls `tree_sitter::Parser::new`.
#[verifier::external_body]
fn parser_new() -> (res: Parser) {
    Parser::new()
}

/// A tree-sitter parser that has the C++ grammar of `tree_sitter_cpp`, with
/// the last tree it made, if it keeps one.
///
/// Only `parser_set_cpp` makes one, after giving the parser that grammar;
/// the kept tree is only ever one that this parser made.
struct CppParser {
    parser: Parser,
    tree: Option<Tree>,
}

/// Gives `parser` the C++ grammar of `tree_sitter_cpp`.
///
/// Calls `Parser::set_language`, which fails only for a grammar whose ABI
/// version is outside what this tree-sitter reads (13 to 15) or that has no
/// lexer.  The C++ grammar has ABI version 14 and a lexer, so the call
/// succeeds.
#[verifier::external_body]
fn parser_set_cpp(parser: Parser) -> (res: Result<CppParser, LanguageError>)
    ensures
        res is Ok,
        res matches Ok(p) ==> p.tree is None,
{
    let mut parser = parser;
    match parser.set_language(&tree_sitter_cpp::LANGUAGE.into()) {
        Ok(()) => Ok(CppParser { parser, tree: None }),
        Err(e) => Err(e),
    }
}

/// The tree that tree-sitter's `Parser::parse` makes of `text` with the C++
/// grammar, reusing `old`.
pub uninterp spec fn cpp_parse(text: Seq<char>, old: Option<Tree>) -> Tree;

/// The tree that tree-sitter's `Tree::edit` makes of `tree` under `edit`.
pub uninterp spec fn edited_tree(tree: Tree, edit: Edit) -> Tree;

/// Parses `text`, reusing the kept tree where the text is unchanged.
///
/// Calls `Parser::parse`, which gives no tree only when the parser has no
/// language, when the old tree was made with another language, or when a
/// progress callback or a WebAssembly grammar stops it.  A `CppParser` has
/// the C++ grammar, keeps only trees it made, and has neither of the last
/// two, so a tree comes back; the contract names it `cpp_parse` of the text
/// and the kept tree.  The kept tree is left as it is.
#[verifier::external_body]
fn parser_parse(parser: &mut CppParser, text: &str) -> (res: Option<Tree>)
    ensures
        res == Some(cpp_parse(text@, old(parser).tree)),
        final(parser).tree == old(parser).tree,
{
    parser.parser.parse(text, parser.tree.as_ref())
}

/// A copy of a tree.
///
/// Calls `Tree::clone`, which makes a shallow copy sharing every node of
/// `tree`: the same syntax tree.
#[verifier::external_body]
fn tree_clone(tree: &Tree) -> (res: Tree)
    ensures
        res == *tree,
{
    tree.clone()
}

/// Applies an edit to a tree, as tree-sitter's `InputEdit`.
///
/// Calls `Tree::edit`, which adjusts the tree's positions in place; the
/// contract names the result `edited_tree` of the tree and the edit.
#[verifier::external_body]
fn tree_edit(tree: &mut Tree, edit: &Edit)
    ensures
        *final(tree) == edited_tree(*old(tree), *edit),
{
    let point = |p: &Position| Point { row: p.row, column: p.column };
    tree.edit(&InputEdit {
        start_byte: edit.start_byte,
        old_end_byte: edit.old_end_byte,
        new_end_byte: edit.new_end_byte,
        start_position: point(&edit.start_position),
        old_end_position: point(&edit.old_end_position),
        new_end_position: point(&edit.new_end_position),
    });
}

/// Why a parser could not be made.
#[derive(Debug, Clone, Copy, PartialEq, Eq, Structural)]
pub enum ParserError {
    /// The C++ grammar cannot be used with this tree-sitter.
    Language,
}

/// A C++ parser that keeps the last tree it made, to re-parse edited text
/// from it.
pub struct IncrementalParser {
    parser: CppParser,
}

impl IncrementalParser {
    /// Whether a tree is kept.
    pub closed spec fn has_cached_tree(&self) -> bool {
        self.parser.tree is Some
    }

    /// The kept tree, if any.
    pub closed spec fn kept_tree(&self) -> Option<Tree> {
        self.parser.tree
    }

    /// A C++ parser with no tree kept.  The C++ grammar is one this
    /// tree-sitter reads, so this succeeds.
    pub fn new() -> (res: Result<Self, ParserError>)
        ensures
            res is Ok,
            res matches Ok(p) ==> !p.has_cached_tree(),
    {
        let parser = parser_new();
        match parser_set_cpp(parser) {
            Ok(parser) => Ok(IncrementalParser { parser }),
            Err(_) => Err(ParserError::Language),
        }
    }

    /// Parses `source` from the kept tree, if any; the new tree is kept and
    /// a copy of it returned.
    pub fn parse(&mut self, source: &str) -> (res: Option<Tree>)
        ensures
            res == Some(cpp_parse(source@, old(self).kept_tree())),
            final(self).kept_tree() == res,
            final(self).has_cached_tree(),
    {
        let tree = parser_parse(&mut self.parser, source);
        match tree {
            Some(t) => {
                self.parser.tree = Some(tree_clone(&t));
                Some(t)
            },
            None => None,
        }
    }

    /// Applies `edit` to the kept tree, if any, then parses `source` as
    /// `parse` does, from the edited tree.
    pub fn edit(&mut self, source: &str, edit: Edit) -> (res: Option<Tree>)
        ensures
            res == Some(
                cpp_parse(
                    source@,
                    match old(self).kept_tree() {
                        Some(t) => Some(edited_tree(t, edit)),
                        None => None,
                    },
                ),
            ),
            final(self).kept_tree() == res,
            final(self).has_cached_tree(),
    {
        match &mut self.parser.tree {
            Some(tree) => tree_edit(tree, &edit),
            None => {},
        }
        self.parse(source)
    }

    /// The kept tree.
    pub fn cached_tree(&self) -> (res: Option<&Tree>)
        ensures
            res is Some == self.has_cached_tree(),
            res matches Some(t) ==> self.kept_tree() == Some(*t),
    {
        self.parser.tree.as_ref()
    }

    /// Drops the kept tree.
    pub fn clear_cache(&mut self)
        ensures
            !final(self).has_cached_tree(),
    {
        self.parser.tree = None;
    }
}

impl Default for IncrementalParser {
    /// A C++ parser with no tree kept, as `new` makes it.
    fn default() -> (res: Self)
        ensures
            !res.has_cached_tree(),
    {
        Self::new().unwrap()
    }
}

} // verus!
