//! Source location tracking: file IDs, spans, positions, and text ranges.

use vstd::prelude::*;
use vstd::string::StringExecFns;
use crate::util::text::{decimal, u64_to_decimal};

verus! {

/// Unique identifier for a source file.
#[derive(Debug, Clone, Copy, PartialEq, Eq, Structural, Hash, PartialOrd, Ord)]
pub struct FileId(pub u32);

impl FileId {
    /// Create a new file ID.
    pub fn new(id: u32) -> (res: Self)
        ensures
            res.0 == id,
    {
        FileId(id)
    }

    /// The raw ID value.
    pub fn as_u32(self) -> (res: u32)
        ensures
            res == self.0,
    {
        self.0
    }

    /// The display text of this ID: `FileId(<n>)`.
    pub open spec fn display_text(self) -> Seq<char> {
        "FileId("@ + decimal(self.0 as nat) + ")"@
    }

    /// Renders this ID as `FileId(<n>)`.
    pub fn to_string(&self) -> (res: String)
        ensures
            res@ == self.display_text(),
    {
        let mut s = String::from_str("FileId(");
        let digits = u64_to_decimal(self.0 as u64);
        s.append(digits.as_str());
        s.append(")");
        s
    }
}

/// A span: a byte range in one source file.
#[derive(Debug, Clone, Copy, PartialEq, Eq, Structural, Hash)]
pub struct Span {
    /// The file this span belongs to.
    pub file_id: FileId,
    /// Start byte offset.
    pub start: u32,
    /// End byte offset (exclusive).
    pub end: u32,
}

impl Span {
    /// Create a new span.
    pub fn new(file_id: FileId, start: u32, end: u32) -> (res: Self)
        ensures
            res == (Span { file_id, start, end }),
    {
        Span { file_id, start, end }
    }

    /// The number of bytes covered by this span.
    pub fn len(&self) -> (res: u32)
        requires
            self.start <= self.end,
        ensures
            res == self.end - self.start,
    {
        self.end - self.start
    }

    /// True when the span covers no byte.
    pub fn is_empty(&self) -> (res: bool)
        ensures
            res == (self.start >= self.end),
    {
        self.start >= self.end
    }

    /// Whether the span covers a byte offset.
    pub open spec fn spec_contains(self, offset: u32) -> bool {
        self.start <= offset && offset < self.end
    }

    /// True when the span covers the byte at `offset`.
    pub fn contains(&self, offset: u32) -> (res: bool)
        ensures
            res == self.spec_contains(offset),
    {
        self.start <= offset && offset < self.end
    }

    /// Whether two spans share a byte of one file.
    pub open spec fn spec_overlaps(self, other: Span) -> bool {
        self.file_id == other.file_id && self.start < other.end && other.start < self.end
    }

    /// True when both spans lie in one file and share at least one byte.
    pub fn overlaps(&self, other: &Span) -> (res: bool)
        ensures
            res == self.spec_overlaps(*other),
    {
        self.file_id == other.file_id && self.start < other.end && other.start < self.end
    }

    /// The smallest span covering both spans, when they lie in one file.
    pub open spec fn spec_merge(self, other: Span) -> Option<Span> {
        if self.file_id != other.file_id {
            None
        } else {
            Some(
                Span {
                    file_id: self.file_id,
                    start: if self.start <= other.start { self.start } else { other.start },
                    end: if self.end >= other.end { self.end } else { other.end },
                },
            )
        }
    }

    /// Merge two spans into the span that covers both; `None` when they lie
    /// in different files.
    pub fn merge(&self, other: &Span) -> (res: Option<Span>)
        ensures
            res == self.spec_merge(*other),
    {
        if self.file_id != other.file_id {
            return None;
        }
        let start = if self.start <= other.start { self.start } else { other.start };
        let end = if self.end >= other.end { self.end } else { other.end };
        Some(Span { file_id: self.file_id, start, end })
    }

    /// The byte range of this span, without its file.
    pub fn to_range(&self) -> (res: TextRange)
        ensures
            res == (TextRange { start: self.start, end: self.end }),
    {
        TextRange { start: self.start, end: self.end }
    }

    /// The display text of this span: `FileId(<f>):<start>..<end>`.
    pub open spec fn display_text(self) -> Seq<char> {
        self.file_id.display_text() + ":"@ + decimal(self.start as nat) + ".."@ + decimal(
            self.end as nat,
        )
    }

    /// Renders this span as `FileId(<f>):<start>..<end>`.
    pub fn to_string(&self) -> (res: String)
        ensures
            res@ == self.display_text(),
    {
        let mut s = self.file_id.to_string();
        s.append(":");
        let a = u64_to_decimal(self.start as u64);
        s.append(a.as_str());
        s.append("..");
        let b = u64_to_decimal(self.end as u64);
        s.append(b.as_str());
        s
    }
}

/// A position in a source file (0-based line and column).
#[derive(Debug, Clone, Copy, PartialEq, Eq, Structural, Hash)]
pub struct Position {
    /// 0-based line number.
    pub line: u32,
    /// 0-based column number (in UTF-8 bytes).
    pub column: u32,
}

impl Position {
    /// Create a new position.
    pub fn new(line: u32, column: u32) -> (res: Self)
        ensures
            res == (Position { line, column }),
    {
        Position { line, column }
    }

    /// The origin position (0, 0).
    pub fn origin() -> (res: Self)
        ensures
            res == (Position { line: 0, column: 0 }),
    {
        Position { line: 0, column: 0 }
    }

    /// The display text: 1-based `<line>:<column>`.
    pub open spec fn display_text(self) -> Seq<char> {
        decimal(self.line as nat + 1) + ":"@ + decimal(self.column as nat + 1)
    }

    /// Renders this position 1-based, as `<line + 1>:<column + 1>`.
    pub fn to_string(&self) -> (res: String)
        requires
            self.line < u32::MAX,
            self.column < u32::MAX,
        ensures
            res@ == self.display_text(),
    {
        let mut s = u64_to_decimal(self.line as u64 + 1);
        s.append(":");
        let c = u64_to_decimal(self.column as u64 + 1);
        s.append(c.as_str());
        s
    }
}

/// A text range: byte offsets within a file.
#[derive(Debug, Clone, Copy, PartialEq, Eq, Structural, Hash)]
pub struct TextRange {
    /// Start byte offset.
    pub start: u32,
    /// End byte offset (exclusive).
    pub end: u32,
}

impl TextRange {
    /// Create a new text range.
    pub fn new(start: u32, end: u32) -> (res: Self)
        ensures
            res == (TextRange { start, end }),
    {
        TextRange { start, end }
    }

    /// An empty range at an offset.
    pub fn empty(at: u32) -> (res: Self)
        ensures
            res == (TextRange { start: at, end: at }),
    {
        TextRange { start: at, end: at }
    }

    /// The number of bytes in the range.
    pub fn len(&self) -> (res: u32)
        requires
            self.start <= self.end,
        ensures
            res == self.end - self.start,
    {
        self.end - self.start
    }

    /// True when the range covers no byte.
    pub fn is_empty(&self) -> (res: bool)
        ensures
            res == (self.start >= self.end),
    {
        self.start >= self.end
    }

    /// True when the range covers the byte at `offset`.
    pub fn contains(&self, offset: u32) -> (res: bool)
        ensures
            res == (self.start <= offset && offset < self.end),
    {
        self.start <= offset && offset < self.end
    }

    /// The range as a standard `usize` range.
    pub fn to_std_range(&self) -> (res: std::ops::Range<usize>)
        ensures
            res.start == self.start as usize,
            res.end == self.end as usize,
    {
        std::ops::Range { start: self.start as usize, end: self.end as usize }
    }

    /// The display text: `<start>..<end>`.
    pub open spec fn display_text(self) -> Seq<char> {
        decimal(self.start as nat) + ".."@ + decimal(self.end as nat)
    }

    /// Renders this range as `<start>..<end>`.
    pub fn to_string(&self) -> (res: String)
        ensures
            res@ == self.display_text(),
    {
        let mut s = u64_to_decimal(self.start as u64);
        s.append("..");
        let e = u64_to_decimal(self.end as u64);
        s.append(e.as_str());
        s
    }
}

/// The merge of two spans of one file covers every byte that either covers.
pub proof fn lemma_merge_covers(a: Span, b: Span, offset: u32)
    requires
        a.file_id == b.file_id,
        a.spec_contains(offset) || b.spec_contains(offset),
    ensures
        a.spec_merge(b) matches Some(m) && m.spec_contains(offset),
{
}

/// Merging is symmetric: merging `a` with `b` gives the span that merging
/// `b` with `a` gives.
pub proof fn lemma_merge_symmetric(a: Span, b: Span)
    ensures
        a.spec_merge(b) == b.spec_merge(a),
{
}

/// Overlap is symmetric.
pub proof fn lemma_overlaps_symmetric(a: Span, b: Span)
    ensures
        a.spec_overlaps(b) == b.spec_overlaps(a),
{
}

/// Two overlapping non-empty spans share a byte that both contain.
pub proof fn lemma_overlap_shares_byte(a: Span, b: Span)
    requires
        a.start < a.end,
        b.start < b.end,
        a.spec_overlaps(b),
    ensures
        exists|o: u32| a.spec_contains(o) && b.spec_contains(o),
{
    let o: u32 = if a.start >= b.start { a.start } else { b.start };
    assert(a.spec_contains(o) && b.spec_contains(o));
}

} // verus!
