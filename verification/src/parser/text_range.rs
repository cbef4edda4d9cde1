//! Source ranges of tree-sitter syntax nodes.

use vstd::prelude::*;
use tree_sitter::Node;
use crate::util::{FileId, Span, TextRange};

verus! {

#[verifier::external_type_specification]
#[verifier::external_body]
pub struct ExNode<'tree>(Node<'tree>);

/// The byte offset where tree-sitter's `Node::start_byte` says a node
/// starts.
pub uninterp spec fn node_start(node: Node) -> usize;

/// The byte offset where tree-sitter's `Node::end_byte` says a node ends.
pub uninterp spec fn node_end(node: Node) -> usize;

/// The byte where a node starts.
///
/// Calls `Node::start_byte`, which reads the offset stored in the node
/// itself; the contract names it `node_start`.
#[verifier::external_body]
fn node_start_byte(node: &Node) -> (res: usize)
    ensures
        res == node_start(*node),
{
    node.start_byte()
}

/// The byte where a node ends.
///
/// Calls `Node::end_byte`, which computes the offset from the node itself;
/// the contract names it `node_end`.
#[verifier::external_body]
fn node_end_byte(node: &Node) -> (res: usize)
    ensures
        res == node_end(*node),
{
    node.end_byte()
}

/// The source range of a syntax node.
pub trait TextRangeExt {
    /// The node's bytes as a span of file `file_id`.
    fn to_span(&self, file_id: FileId) -> (res: Span)
        ensures
            res.file_id == file_id;

    /// The node's bytes as a text range.
    fn to_text_range(&self) -> (res: TextRange);
}

impl<'tree> TextRangeExt for Node<'tree> {
    /// The node's start and end bytes, as `u32` offsets (truncated as `as`
    /// truncates), in file `file_id`.
    fn to_span(&self, file_id: FileId) -> (res: Span)
        ensures
            res.start == node_start(*self) as u32,
            res.end == node_end(*self) as u32,
    {
        let start = node_start_byte(self);
        let end = node_end_byte(self);
        Span { file_id, start: start as u32, end: end as u32 }
    }

    /// The node's start and end bytes, as `u32` offsets (truncated as `as`
    /// truncates).
    fn to_text_range(&self) -> (res: TextRange)
        ensures
            res.start == node_start(*self) as u32,
            res.end == node_end(*self) as u32,
    {
        let start = node_start_byte(self);
        let end = node_end_byte(self);
        TextRange { start: start as u32, end: end as u32 }
    }
}

} // verus!
