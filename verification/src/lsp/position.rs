//! Conversion between byte offsets in a text and the line/character
//! positions of the language server protocol.
//!
//! A position counts lines by `\n` and characters as Unicode scalar values
//! since the start of the line; an offset counts UTF-8 bytes.

use vstd::prelude::*;
use lsp_types::Position as LspPosition;
use lsp_types::Range as LspRange;
use crate::util::span::{FileId, Span};
use crate::util::text::{byte_len, char_width, chars_of, utf8_len, utf8_width};

verus! {

/// `lsp_types::Position`: a zero-based line and character, both `u32`.
#[verifier::external_type_specification]
pub struct ExPosition(LspPosition);

/// `lsp_types::Range`: a start and an end position.
#[verifier::external_type_specification]
pub struct ExRange(LspRange);

/// The line that index `k` of `s` lies on: the `\n`s before it.
pub open spec fn line_at(s: Seq<char>, k: int) -> nat
    decreases k,
{
    if k <= 0 {
        0
    } else if s[k - 1] == '\n' {
        line_at(s, k - 1) + 1
    } else {
        line_at(s, k - 1)
    }
}

/// The character that index `k` of `s` is within its line.
pub open spec fn column_at(s: Seq<char>, k: int) -> nat
    decreases k,
{
    if k <= 0 {
        0
    } else if s[k - 1] == '\n' {
        0
    } else {
        column_at(s, k - 1) + 1
    }
}

/// The byte offset of index `k` of `s`.
pub open spec fn byte_at(s: Seq<char>, k: int) -> nat {
    utf8_len(s.subrange(0, k))
}

/// The first index from `k` on (up to the end) at line `line` and character
/// `ch`.
pub open spec fn first_index_at(s: Seq<char>, line: nat, ch: nat, k: int) -> Option<int>
    decreases s.len() + 1 - k,
{
    if k < 0 || k > s.len() {
        None
    } else if line_at(s, k) == line && column_at(s, k) == ch {
        Some(k)
    } else {
        first_index_at(s, line, ch, k + 1)
    }
}

/// The first index from `k` on whose byte offset reaches `offset`, or the
/// end of the text.
pub open spec fn first_index_reaching(s: Seq<char>, offset: nat, k: int) -> int
    decreases s.len() + 1 - k,
{
    if k >= s.len() {
        s.len() as int
    } else if byte_at(s, k) >= offset {
        k
    } else {
        first_index_reaching(s, offset, k + 1)
    }
}

/// The position of index `k` of `s`, each coordinate cut to 32 bits.
pub open spec fn position_at(s: Seq<char>, k: int) -> LspPosition {
    LspPosition { line: line_at(s, k) as u32, character: column_at(s, k) as u32 }
}

proof fn lemma_byte_step(s: Seq<char>, k: int)
    requires
        0 <= k < s.len(),
    ensures
        byte_at(s, k + 1) == byte_at(s, k) + utf8_width(s[k]),
{
    assert(s.subrange(0, k + 1).drop_last() =~= s.subrange(0, k));
}

proof fn lemma_byte_increasing(s: Seq<char>, i: int, j: int)
    requires
        0 <= i < j <= s.len(),
    ensures
        byte_at(s, i) < byte_at(s, j),
    decreases j - i,
{
    lemma_byte_step(s, j - 1);
    if i < j - 1 {
        lemma_byte_increasing(s, i, j - 1);
    }
}

proof fn lemma_byte_bound(s: Seq<char>, k: int)
    requires
        0 <= k <= s.len(),
    ensures
        byte_at(s, k) <= utf8_len(s),
{
    if k < s.len() {
        lemma_byte_increasing(s, k, s.len() as int);
    }
    assert(s.subrange(0, s.len() as int) =~= s);
}

proof fn lemma_line_column_bound(s: Seq<char>, k: int)
    requires
        0 <= k <= s.len(),
    ensures
        line_at(s, k) <= k,
        column_at(s, k) <= k,
    decreases k,
{
    if k > 0 {
        lemma_line_column_bound(s, k - 1);
    }
}

proof fn lemma_first_reaching_from(s: Seq<char>, offset: nat, k: int, t: int)
    requires
        0 <= k <= t <= s.len(),
        forall|u: int| k <= u < t ==> byte_at(s, u) < offset,
        t < s.len() ==> byte_at(s, t) >= offset,
    ensures
        first_index_reaching(s, offset, k) == t,
    decreases t - k,
{
    if k < t {
        lemma_first_reaching_from(s, offset, k + 1, t);
    }
}

/// The byte offset of the position at line `position.line` and character
/// `position.character`: the offset of the first index of the text at that
/// position, or `None` when no index is (past the end of a line, or past
/// the last line).
pub fn position_to_offset(text: &str, position: LspPosition) -> (res: Option<usize>)
    ensures
        res is Some <==> position_to_offset_spec(text@, position) is Some,
        res matches Some(o) ==> position_to_offset_spec(text@, position) == Some(o as nat),
{
    let ghost s = text@;
    let total = byte_len(text);
    let cs = chars_of(text);
    let n = cs.len();
    let target_line = position.line as usize;
    let target_char = position.character as usize;
    let mut line: usize = 0;
    let mut character: usize = 0;
    let mut byte_offset: usize = 0;
    let mut k: usize = 0;
    proof {
        assert(s.subrange(0, 0) =~= Seq::<char>::empty());
    }
    while k < n
        invariant
            s == text@,
            cs@ == s,
            n == s.len(),
            total == utf8_len(s),
            target_line == position.line,
            target_char == position.character,
            k <= n,
            line == line_at(s, k as int),
            character == column_at(s, k as int),
            byte_offset == byte_at(s, k as int),
            first_index_at(s, position.line as nat, position.character as nat, 0) == first_index_at(
                s,
                position.line as nat,
                position.character as nat,
                k as int,
            ),
        decreases n - k,
    {
        if line == target_line && character == target_char {
            proof {
                assert(first_index_at(s, position.line as nat, position.character as nat, k as int)
                    == Some(k as int));
            }
            return Some(byte_offset);
        }
        proof {
            lemma_byte_step(s, k as int);
            lemma_byte_bound(s, k + 1);
            lemma_line_column_bound(s, k as int);
        }
        let ch = cs[k];
        if ch == '\n' {
            line = line + 1;
            character = 0;
        } else {
            character = character + 1;
        }
        byte_offset = byte_offset + char_width(ch);
        k = k + 1;
    }
    proof {
        assert(first_index_at(s, position.line as nat, position.character as nat, n as int + 1)
            == None::<int>);
    }
    if line == target_line && character == target_char {
        proof {
            assert(first_index_at(s, position.line as nat, position.character as nat, n as int)
                == Some(n as int));
        }
        Some(byte_offset)
    } else {
        None
    }
}

/// The position of the first index of the text whose byte offset reaches
/// `offset`, or of the end of the text when none does.
pub fn offset_to_position(text: &str, offset: usize) -> (res: LspPosition)
    ensures
        res == position_at(text@, first_index_reaching(text@, offset as nat, 0)),
{
    let ghost s = text@;
    let total = byte_len(text);
    let cs = chars_of(text);
    let n = cs.len();
    let mut line: usize = 0;
    let mut character: usize = 0;
    let mut current: usize = 0;
    let mut k: usize = 0;
    proof {
        assert(s.subrange(0, 0) =~= Seq::<char>::empty());
    }
    while k < n && current < offset
        invariant
            cs@ == s,
            n == s.len(),
            total == utf8_len(s),
            k <= n,
            line == line_at(s, k as int),
            character == column_at(s, k as int),
            current == byte_at(s, k as int),
            first_index_reaching(s, offset as nat, 0) == first_index_reaching(
                s,
                offset as nat,
                k as int,
            ),
        decreases n - k,
    {
        proof {
            lemma_byte_step(s, k as int);
            lemma_byte_bound(s, k + 1);
            lemma_line_column_bound(s, k as int);
        }
        let ch = cs[k];
        if ch == '\n' {
            line = line + 1;
            character = 0;
        } else {
            character = character + 1;
        }
        current = current + char_width(ch);
        k = k + 1;
    }
    proof {
        lemma_first_reaching_from(s, offset as nat, k as int, k as int);
    }
    LspPosition { line: line as u32, character: character as u32 }
}

/// The range of positions of a span's start and end offsets.
pub fn span_to_range(text: &str, span: Span) -> (res: LspRange)
    ensures
        res.start == position_at(text@, first_index_reaching(text@, span.start as nat, 0)),
        res.end == position_at(text@, first_index_reaching(text@, span.end as nat, 0)),
{
    LspRange {
        start: offset_to_position(text, span.start as usize),
        end: offset_to_position(text, span.end as usize),
    }
}

/// The span in `file_id` between the offsets of a range's positions, each
/// cut to 32 bits; `None` when either position is not in the text.
pub fn range_to_span(text: &str, range: LspRange, file_id: FileId) -> (res: Option<Span>)
    ensures
        res == (match (position_to_offset_spec(text@, range.start), position_to_offset_spec(
            text@,
            range.end,
        )) {
            (Some(a), Some(b)) => Some(Span { file_id, start: a as u32, end: b as u32 }),
            _ => None::<Span>,
        }),
{
    let start = match position_to_offset(text, range.start) {
        Some(o) => o,
        None => return None,
    };
    let end = match position_to_offset(text, range.end) {
        Some(o) => o,
        None => return None,
    };
    Some(Span::new(file_id, start as u32, end as u32))
}

/// The byte offset that `position_to_offset` gives for a position.
pub open spec fn position_to_offset_spec(s: Seq<char>, p: LspPosition) -> Option<nat> {
    match first_index_at(s, p.line as nat, p.character as nat, 0) {
        Some(k) => Some(byte_at(s, k)),
        None => None,
    }
}

/// Indices found by `first_index_at` are at the position asked for.
proof fn lemma_first_index_at(s: Seq<char>, line: nat, ch: nat, k: int)
    requires
        0 <= k,
    ensures
        first_index_at(s, line, ch, k) matches Some(t) ==> k <= t <= s.len() && line_at(s, t) == line
            && column_at(s, t) == ch,
    decreases s.len() + 1 - k,
{
    if k <= s.len() && !(line_at(s, k) == line && column_at(s, k) == ch) {
        lemma_first_index_at(s, line, ch, k + 1);
    }
}

/// Converting a position to an offset and back gives the position again.
pub proof fn lemma_position_round_trip(text: Seq<char>, p: LspPosition)
    requires
        position_to_offset_spec(text, p) is Some,
    ensures
        position_at(
            text,
            first_index_reaching(text, position_to_offset_spec(text, p)->Some_0, 0),
        ) == p,
{
    lemma_first_index_at(text, p.line as nat, p.character as nat, 0);
    let k = first_index_at(text, p.line as nat, p.character as nat, 0)->Some_0;
    let o = byte_at(text, k);
    assert forall|u: int| 0 <= u < k implies byte_at(text, u) < o by {
        lemma_byte_increasing(text, u, k);
    }
    lemma_first_reaching_from(text, o, 0, k);
}

} // verus!
