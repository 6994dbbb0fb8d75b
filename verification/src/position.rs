//! Conversion between 0-based editor positions and byte offsets, and the
//! splicing of ranged edits into a byte buffer.
//!
//! Lines are delimited by the byte `0x0A`; a column counts bytes from the
//! line start. Out-of-range positions (a line past the end of the text, or a
//! column past the end of its line) degrade to the empty byte range `[0, 0)`
//! rather than failing: a malformed edit range then splices at the front of
//! the buffer. This best-effort fallback is deliberate.

use vstd::prelude::*;

verus! {

/// A 0-based editor position: line number and byte column within the line.
#[derive(Clone, Copy, PartialEq, Eq, Structural, Debug)]
pub struct EditorPos {
    pub line: usize,
    pub character: usize,
}

/// A half-open range of editor positions.
#[derive(Clone, Copy, PartialEq, Eq, Structural, Debug)]
pub struct EditorRange {
    pub start: EditorPos,
    pub end: EditorPos,
}

pub const NEWLINE: u8 = 10;

/// Byte index where line `remaining` (counting from the line that starts at
/// `i`) begins, or `None` if the text has too few lines.
pub open spec fn find_line_start(src: Seq<u8>, i: int, remaining: nat) -> Option<int>
    decreases src.len() - i,
{
    if remaining == 0 {
        Some(i)
    } else if i < 0 || i >= src.len() {
        None
    } else {
        find_line_start(
            src,
            i + 1,
            if src[i] == NEWLINE {
                (remaining - 1) as nat
            } else {
                remaining
            },
        )
    }
}

/// Byte index just past the last byte of the line that starts at or
/// continues through `i`: the next newline, or the end of the text.
pub open spec fn line_end_from(src: Seq<u8>, i: int) -> int
    decreases src.len() - i,
{
    if i < 0 || i >= src.len() {
        src.len() as int
    } else if src[i] == NEWLINE {
        i
    } else {
        line_end_from(src, i + 1)
    }
}

/// Byte offset of an editor position, or `None` when the position is out of
/// range. A column may point one past the last byte of its line.
pub open spec fn position_offset(src: Seq<u8>, p: EditorPos) -> Option<int> {
    match find_line_start(src, 0, p.line as nat) {
        Some(ls) => if p.character <= line_end_from(src, ls) - ls {
            Some(ls + p.character)
        } else {
            None
        },
        None => None,
    }
}

/// The byte range `[a, b)` that a ranged edit replaces. A range whose
/// endpoints do not both resolve, or that is inverted, degrades to `[0, 0)`.
pub open spec fn edit_byte_range(src: Seq<u8>, r: EditorRange) -> (int, int) {
    match (position_offset(src, r.start), position_offset(src, r.end)) {
        (Some(a), Some(b)) => if a <= b {
            (a, b)
        } else {
            (0, 0)
        },
        _ => (0, 0),
    }
}

/// `src` with the byte range `[a, b)` replaced by `text`.
pub open spec fn splice(src: Seq<u8>, a: int, b: int, text: Seq<u8>) -> Seq<u8> {
    src.take(a) + text + src.skip(b)
}

proof fn lemma_find_line_start_in_range(src: Seq<u8>, i: int, remaining: nat)
    requires
        0 <= i <= src.len(),
    ensures
        match find_line_start(src, i, remaining) {
            Some(ls) => i <= ls <= src.len(),
            None => true,
        },
    decreases src.len() - i,
{
    if remaining == 0 {
    } else if i < src.len() {
        lemma_find_line_start_in_range(
            src,
            i + 1,
            if src[i] == NEWLINE {
                (remaining - 1) as nat
            } else {
                remaining
            },
        );
    }
}

proof fn lemma_line_end_in_range(src: Seq<u8>, i: int)
    requires
        0 <= i <= src.len(),
    ensures
        i <= line_end_from(src, i) <= src.len(),
    decreases src.len() - i,
{
    if i < src.len() && src[i] != NEWLINE {
        lemma_line_end_in_range(src, i + 1);
    }
}

/// The byte range an edit replaces always lies within the text.
pub proof fn lemma_edit_byte_range_in_bounds(src: Seq<u8>, r: EditorRange)
    ensures
        ({
            let (a, b) = edit_byte_range(src, r);
            0 <= a <= b <= src.len()
        }),
{
    lemma_find_line_start_in_range(src, 0, r.start.line as nat);
    lemma_find_line_start_in_range(src, 0, r.end.line as nat);
    if let Some(ls) = find_line_start(src, 0, r.start.line as nat) {
        lemma_line_end_in_range(src, ls);
    }
    if let Some(ls) = find_line_start(src, 0, r.end.line as nat) {
        lemma_line_end_in_range(src, ls);
    }
}

/// Executable byte offset of line `line`'s start, mirroring
/// `find_line_start`.
fn line_start_exec(src: &Vec<u8>, line: usize) -> (r: Option<usize>)
    ensures
        match r {
            Some(ls) => find_line_start(src@, 0, line as nat) == Some(ls as int) && ls
                <= src.len(),
            None => find_line_start(src@, 0, line as nat) is None,
        },
{
    let mut i: usize = 0;
    let mut remaining: usize = line;
    while remaining > 0 && i < src.len()
        invariant
            0 <= i <= src.len(),
            find_line_start(src@, 0, line as nat) == find_line_start(
                src@,
                i as int,
                remaining as nat,
            ),
        decreases src.len() - i,
    {
        if src[i] == NEWLINE {
            remaining = remaining - 1;
        }
        i = i + 1;
    }
    if remaining == 0 {
        Some(i)
    } else {
        None
    }
}

/// Executable end of the line that runs through `i`, mirroring
/// `line_end_from`.
fn line_end_exec(src: &Vec<u8>, i: usize) -> (r: usize)
    requires
        i <= src@.len(),
    ensures
        r == line_end_from(src@, i as int),
        i <= r <= src@.len(),
{
    let mut j: usize = i;
    while j < src.len() && src[j] != NEWLINE
        invariant
            i <= j <= src.len(),
            line_end_from(src@, i as int) == line_end_from(src@, j as int),
        decreases src.len() - j,
    {
        j = j + 1;
    }
    j
}

/// Executable byte offset of an editor position.
pub fn position_offset_exec(src: &Vec<u8>, p: EditorPos) -> (r: Option<usize>)
    ensures
        match r {
            Some(o) => position_offset(src@, p) == Some(o as int) && o <= src@.len(),
            None => position_offset(src@, p) is None,
        },
{
    match line_start_exec(src, p.line) {
        Some(ls) => {
            let le = line_end_exec(src, ls);
            if p.character <= le - ls {
                Some(ls + p.character)
            } else {
                None
            }
        },
        None => None,
    }
}

/// Executable byte range of a ranged edit, with the degraded `[0, 0)`
/// fallback for positions that do not resolve.
pub fn edit_byte_range_exec(src: &Vec<u8>, r: &EditorRange) -> (res: (usize, usize))
    ensures
        (res.0 as int, res.1 as int) == edit_byte_range(src@, *r),
        res.0 <= res.1 <= src@.len(),
{
    let a = position_offset_exec(src, r.start);
    let b = position_offset_exec(src, r.end);
    match (a, b) {
        (Some(a), Some(b)) => if a <= b {
            (a, b)
        } else {
            (0, 0)
        },
        _ => (0, 0),
    }
}

/// Executable splice of `text` into `src` over the byte range `[a, b)`.
pub fn splice_exec(src: &Vec<u8>, a: usize, b: usize, text: &Vec<u8>) -> (r: Vec<u8>)
    requires
        a <= b <= src@.len(),
        a + text@.len() + (src@.len() - b) < usize::MAX,
    ensures
        r@ == splice(src@, a as int, b as int, text@),
        r@.len() < usize::MAX,
{
    let mut out: Vec<u8> = Vec::new();
    let mut i: usize = 0;
    while i < a
        invariant
            i <= a <= src@.len(),
            out@ == src@.take(i as int),
        decreases a - i,
    {
        out.push(src[i]);
        i = i + 1;
    }
    let mut j: usize = 0;
    while j < text.len()
        invariant
            j <= text@.len(),
            a <= src@.len(),
            out@ == src@.take(a as int) + text@.take(j as int),
        decreases text@.len() - j,
    {
        out.push(text[j]);
        j = j + 1;
    }
    let mut k: usize = b;
    while k < src.len()
        invariant
            b <= k <= src@.len(),
            out@ == src@.take(a as int) + text@ + src@.subrange(b as int, k as int),
        decreases src@.len() - k,
    {
        out.push(src[k]);
        k = k + 1;
    }
    proof {
        assert(text@.take(text@.len() as int) == text@);
        assert(src@.subrange(b as int, src@.len() as int) == src@.skip(b as int));
        assert(out@ == splice(src@, a as int, b as int, text@));
    }
    out
}

} // verus!
