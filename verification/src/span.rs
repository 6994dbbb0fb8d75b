//! Source positions and spans.
//!
//! Grammars report 1-based `(line, column)` pairs; the editor protocol uses
//! 0-based pairs. Values of `Pos` and `Span` carry whichever convention the
//! context states; the well-formedness predicates below describe the 1-based
//! internal form in which token spans are cached.

use vstd::prelude::*;

verus! {

/// A `(line, column)` position.
#[derive(Clone, Copy, PartialEq, Eq, Structural, Debug)]
pub struct Pos {
    pub line: usize,
    pub col: usize,
}

/// A start/end pair of positions delimiting a contiguous source region.
/// The end is exclusive: it names the position just past the last byte.
#[derive(Clone, Copy, PartialEq, Eq, Structural, Debug)]
pub struct Span {
    pub start: Pos,
    pub end: Pos,
}

/// Lexicographic order on positions: `a` is at or before `b`.
pub open spec fn pos_le(a: Pos, b: Pos) -> bool {
    a.line < b.line || (a.line == b.line && a.col <= b.col)
}

/// Strict lexicographic order on positions.
pub open spec fn pos_lt(a: Pos, b: Pos) -> bool {
    a.line < b.line || (a.line == b.line && a.col < b.col)
}

pub proof fn lemma_pos_le_trans(a: Pos, b: Pos, c: Pos)
    requires
        pos_le(a, b),
        pos_le(b, c),
    ensures
        pos_le(a, c),
{
}

/// Executable test for `pos_le`.
pub fn pos_le_exec(a: &Pos, b: &Pos) -> (r: bool)
    ensures
        r == pos_le(*a, *b),
{
    a.line < b.line || (a.line == b.line && a.col <= b.col)
}

/// A span is well formed when both endpoints are 1-based and the start is
/// at or before the end.
pub open spec fn span_wf(s: Span) -> bool {
    &&& 1 <= s.start.line
    &&& 1 <= s.start.col
    &&& 1 <= s.end.line
    &&& 1 <= s.end.col
    &&& pos_le(s.start, s.end)
}

/// The spans start in document order.
pub open spec fn spans_ordered(s: Seq<Span>) -> bool {
    forall|i: int, j: int|
        0 <= i < j < s.len() ==> pos_le(#[trigger] s[i].start, #[trigger] s[j].start)
}

/// Any two spans either nest (the later one ends within the earlier one) or
/// are disjoint (the later one starts at or after the earlier one's end).
pub open spec fn spans_nested(s: Seq<Span>) -> bool {
    forall|i: int, j: int|
        0 <= i < j < s.len() ==> (pos_le(#[trigger] s[j].end, s[i].end) || pos_le(
            #[trigger] s[i].end,
            s[j].start,
        ))
}

/// A position lies strictly within a span: at or after its start and
/// strictly before its (exclusive) end.
pub open spec fn span_contains(s: Span, p: Pos) -> bool {
    pos_le(s.start, p) && pos_lt(p, s.end)
}

} // verus!
