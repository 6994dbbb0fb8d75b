//! The generic structural grammar: a flat s-expression tokenizer.
//!
//! The grammar recognises, between runs of whitespace, four kinds of leaf
//! token: a double-quoted string (no escapes; it may not span lines), a run
//! of decimal digits, an identifier (a letter or `_`, then letters, digits,
//! `_` or `-`), and any other single byte. It emits the leaves in document
//! order and fails only on a string literal that is not closed before the
//! end of its line or of the text. Positions are 1-based; columns count
//! bytes from the line start.

use vstd::prelude::*;
use crate::span::{Pos, Span, pos_le, span_wf, spans_ordered, spans_nested};
use crate::token::{RawNode, GrammarError, TagClass, RuleTag, nodes_wf};

verus! {

/// The closed rule set of the generic grammar.
#[derive(Clone, Copy, PartialEq, Eq, Structural, Debug)]
pub enum SexRule {
    StringLit,
    Number,
    Ident,
    Other,
}

impl TagClass for SexRule {
    /// The classifier used for syntax highlighting: identifiers map to the
    /// legend's `variable` entry, strings and numbers to theirs, and every
    /// unmapped rule to the sentinel 99.
    open spec fn type_code(&self) -> u32 {
        match *self {
            SexRule::StringLit => 1,
            SexRule::Number => 2,
            SexRule::Ident => 0,
            SexRule::Other => 99,
        }
    }
}

impl RuleTag for SexRule {
    fn token_type(&self) -> (t: u32) {
        match *self {
            SexRule::StringLit => 1,
            SexRule::Number => 2,
            SexRule::Ident => 0,
            SexRule::Other => 99,
        }
    }

    fn dup(&self) -> (r: Self) {
        *self
    }
}

pub open spec fn is_ws(b: u8) -> bool {
    b == 32 || b == 9 || b == 13 || b == 10
}

pub open spec fn is_digit(b: u8) -> bool {
    48 <= b <= 57
}

pub open spec fn is_ident_start(b: u8) -> bool {
    (65 <= b <= 90) || (97 <= b <= 122) || b == 95
}

pub open spec fn is_ident_cont(b: u8) -> bool {
    is_ident_start(b) || is_digit(b) || b == 45
}

/// First index at or past `i` that does not continue a digit run.
pub open spec fn digits_end(src: Seq<u8>, i: int) -> int
    decreases src.len() - i,
{
    if i < 0 || i >= src.len() || !is_digit(src[i]) {
        i
    } else {
        digits_end(src, i + 1)
    }
}

/// First index at or past `i` that does not continue an identifier.
pub open spec fn ident_end(src: Seq<u8>, i: int) -> int
    decreases src.len() - i,
{
    if i < 0 || i >= src.len() || !is_ident_cont(src[i]) {
        i
    } else {
        ident_end(src, i + 1)
    }
}

/// First index at or past `i` holding a closing quote or a newline, or the
/// end of the text: where a string literal's body stops.
pub open spec fn string_stop(src: Seq<u8>, i: int) -> int
    decreases src.len() - i,
{
    if i < 0 || i >= src.len() {
        src.len() as int
    } else if src[i] == 34 || src[i] == 10 {
        i
    } else {
        string_stop(src, i + 1)
    }
}

pub proof fn lemma_digits_end_bounds(src: Seq<u8>, i: int)
    requires
        0 <= i <= src.len(),
    ensures
        i <= digits_end(src, i) <= src.len(),
    decreases src.len() - i,
{
    if i < src.len() && is_digit(src[i]) {
        lemma_digits_end_bounds(src, i + 1);
    }
}

pub proof fn lemma_ident_end_bounds(src: Seq<u8>, i: int)
    requires
        0 <= i <= src.len(),
    ensures
        i <= ident_end(src, i) <= src.len(),
    decreases src.len() - i,
{
    if i < src.len() && is_ident_cont(src[i]) {
        lemma_ident_end_bounds(src, i + 1);
    }
}

pub proof fn lemma_string_stop_bounds(src: Seq<u8>, i: int)
    requires
        0 <= i <= src.len(),
    ensures
        i <= string_stop(src, i) <= src.len(),
    decreases src.len() - i,
{
    if i < src.len() && src[i] != 34 && src[i] != 10 {
        lemma_string_stop_bounds(src, i + 1);
    }
}

/// A leaf node on line `line` starting at column `col`, covering bytes
/// `[sb, eb)`.
pub open spec fn leaf(line: int, col: int, sb: int, eb: int, tag: SexRule) -> RawNode<SexRule> {
    RawNode {
        span: Span {
            start: Pos { line: line as usize, col: col as usize },
            end: Pos { line: line as usize, col: (col + (eb - sb)) as usize },
        },
        start_byte: sb as usize,
        end_byte: eb as usize,
        tag,
    }
}

/// Prepends a node to a scan result, keeping a failure as it is.
pub open spec fn push_node(n: RawNode<SexRule>, rest: Result<Seq<RawNode<SexRule>>, Span>) -> Result<
    Seq<RawNode<SexRule>>,
    Span,
> {
    match rest {
        Ok(s) => Ok(seq![n] + s),
        Err(e) => Err(e),
    }
}

/// The generic grammar's parse of `src` from byte `i`, with the cursor at
/// 1-based `(line, col)`: the document-ordered leaf tokens, or the span of
/// an unterminated string literal.
pub open spec fn scan(src: Seq<u8>, i: int, line: int, col: int) -> Result<
    Seq<RawNode<SexRule>>,
    Span,
>
    decreases src.len() - i,
    via scan_decreases
{
    if i < 0 || i >= src.len() {
        Ok(Seq::empty())
    } else if src[i] == 10 {
        scan(src, i + 1, line + 1, 1)
    } else if is_ws(src[i]) {
        scan(src, i + 1, line, col + 1)
    } else if is_digit(src[i]) {
        let j = digits_end(src, i);
        push_node(leaf(line, col, i, j, SexRule::Number), scan(src, j, line, col + (j - i)))
    } else if src[i] == 34 {
        let j = string_stop(src, i + 1);
        if j < src.len() && src[j] == 34 {
            push_node(
                leaf(line, col, i, j + 1, SexRule::StringLit),
                scan(src, j + 1, line, col + (j + 1 - i)),
            )
        } else {
            Err(
                Span {
                    start: Pos { line: line as usize, col: col as usize },
                    end: Pos { line: line as usize, col: (col + (j - i)) as usize },
                },
            )
        }
    } else if is_ident_start(src[i]) {
        let j = ident_end(src, i);
        push_node(leaf(line, col, i, j, SexRule::Ident), scan(src, j, line, col + (j - i)))
    } else {
        push_node(
            leaf(line, col, i, i + 1, SexRule::Other),
            scan(src, i + 1, line, col + 1),
        )
    }
}

#[via_fn]
proof fn scan_decreases(src: Seq<u8>, i: int, line: int, col: int) {
    if 0 <= i < src.len() {
        if is_digit(src[i]) {
            lemma_digits_end_bounds(src, i + 1);
            assert(digits_end(src, i) == digits_end(src, i + 1));
        }
        if src[i] == 34 {
            lemma_string_stop_bounds(src, i + 1);
        }
        if is_ident_start(src[i]) && !is_digit(src[i]) {
            lemma_ident_end_bounds(src, i + 1);
            assert(ident_end(src, i) == ident_end(src, i + 1));
        }
    }
}

/// The parse of a whole text: tokens from the start, cursor at `(1, 1)`.
pub open spec fn sex_parse_m(src: Seq<u8>) -> Result<Seq<RawNode<SexRule>>, Span> {
    scan(src, 0, 1, 1)
}

/// The message every failure of this grammar carries.
pub open spec fn unterminated_msg() -> Seq<char> {
    "unterminated string literal"@
}

fn digits_end_exec(src: &Vec<u8>, i: usize) -> (j: usize)
    requires
        i <= src@.len(),
    ensures
        j == digits_end(src@, i as int),
        i <= j <= src@.len(),
{
    let mut j: usize = i;
    while j < src.len() && src[j] >= 48 && src[j] <= 57
        invariant
            i <= j <= src@.len(),
            digits_end(src@, i as int) == digits_end(src@, j as int),
        decreases src@.len() - j,
    {
        j = j + 1;
    }
    j
}

fn ident_end_exec(src: &Vec<u8>, i: usize) -> (j: usize)
    requires
        i <= src@.len(),
    ensures
        j == ident_end(src@, i as int),
        i <= j <= src@.len(),
{
    let mut j: usize = i;
    while j < src.len() && (is_ident_start_exec(src[j]) || (src[j] >= 48 && src[j] <= 57) || src[j]
        == 45)
        invariant
            i <= j <= src@.len(),
            ident_end(src@, i as int) == ident_end(src@, j as int),
        decreases src@.len() - j,
    {
        j = j + 1;
    }
    j
}

fn string_stop_exec(src: &Vec<u8>, i: usize) -> (j: usize)
    requires
        i <= src@.len(),
    ensures
        j == string_stop(src@, i as int),
        i <= j <= src@.len(),
{
    let mut j: usize = i;
    while j < src.len() && src[j] != 34 && src[j] != 10
        invariant
            i <= j <= src@.len(),
            string_stop(src@, i as int) == string_stop(src@, j as int),
        decreases src@.len() - j,
    {
        j = j + 1;
    }
    j
}

fn is_ident_start_exec(b: u8) -> (r: bool)
    ensures
        r == is_ident_start(b),
{
    (b >= 65 && b <= 90) || (b >= 97 && b <= 122) || b == 95
}

/// The generic grammar's parser.
pub struct SexParser;

impl SexParser {
    /// Parses `src` under the generic grammar: the document-ordered leaf
    /// tokens of `sex_parse_m`, or the normal-form failure for an
    /// unterminated string literal, with its 1-based span.
    pub fn parse(src: &Vec<u8>) -> (r: Result<Vec<RawNode<SexRule>>, GrammarError>)
        requires
            src@.len() < usize::MAX,
        ensures
            match r {
                Ok(v) => sex_parse_m(src@) == Ok::<_, Span>(v@) && nodes_wf(v@),
                Err(e) => sex_parse_m(src@) == Err::<Seq<RawNode<SexRule>>, _>(e.span) && e.message@
                    == unterminated_msg() && span_wf(e.span),
            },
    {
        let len = src.len();
        let mut out: Vec<RawNode<SexRule>> = Vec::new();
        let mut i: usize = 0;
        let mut line: usize = 1;
        let mut col: usize = 1;
        proof {
            assert(out@ + Seq::<RawNode<SexRule>>::empty() =~= out@);
        }
        while i < len
            invariant
                len == src@.len(),
                len < usize::MAX,
                i <= len,
                1 <= line <= i + 1,
                1 <= col <= i + 1,
                match scan(src@, i as int, line as int, col as int) {
                    Ok(rest) => sex_parse_m(src@) == Ok::<_, Span>(out@ + rest),
                    Err(e) => sex_parse_m(src@) == Err::<Seq<RawNode<SexRule>>, _>(e),
                },
                forall|k: int|
                    0 <= k < out@.len() ==> span_wf(#[trigger] out@[k].span) && out@[k].start_byte
                        <= out@[k].end_byte,
                forall|k: int|
                    0 <= k < out@.len() ==> pos_le(
                        (#[trigger] out@[k]).span.end,
                        Pos { line: line as usize, col: col as usize },
                    ),
                forall|k1: int, k2: int|
                    0 <= k1 < k2 < out@.len() ==> pos_le(
                        (#[trigger] out@[k1]).span.end,
                        (#[trigger] out@[k2]).span.start,
                    ),
            decreases len - i,
        {
            let ghost prev_out = out@;
            let ghost cur = Pos { line: line as usize, col: col as usize };
            let b = src[i];
            if b == 10 {
                i = i + 1;
                line = line + 1;
                col = 1;
                proof {
                    let nc = Pos { line: line as usize, col: col as usize };
                    assert(pos_le(cur, nc));
                    assert forall|k: int| 0 <= k < out@.len() implies pos_le(
                        (#[trigger] out@[k]).span.end,
                        nc,
                    ) by {
                        crate::span::lemma_pos_le_trans(out@[k].span.end, cur, nc);
                    }
                }
            } else if b == 32 || b == 9 || b == 13 {
                i = i + 1;
                col = col + 1;
                proof {
                    let nc = Pos { line: line as usize, col: col as usize };
                    assert forall|k: int| 0 <= k < out@.len() implies pos_le(
                        (#[trigger] out@[k]).span.end,
                        nc,
                    ) by {
                        crate::span::lemma_pos_le_trans(out@[k].span.end, cur, nc);
                    }
                }
            } else {
                let (j, tag): (usize, SexRule) = if b >= 48 && b <= 57 {
                    let j = digits_end_exec(src, i);
                    proof {
                        lemma_digits_end_bounds(src@, i as int + 1);
                        assert(digits_end(src@, i as int) == digits_end(src@, i as int + 1));
                    }
                    (j, SexRule::Number)
                } else if b == 34 {
                    let j = string_stop_exec(src, i + 1);
                    if j < len && src[j] == 34 {
                        (j + 1, SexRule::StringLit)
                    } else {
                        let err = GrammarError {
                            message: "unterminated string literal".to_owned(),
                            span: Span {
                                start: Pos { line, col },
                                end: Pos { line, col: col + (j - i) },
                            },
                        };
                        proof {
                            assert(scan(src@, i as int, line as int, col as int) == Err::<
                                Seq<RawNode<SexRule>>,
                                _,
                            >(err.span));
                        }
                        return Err(err);
                    }
                } else if is_ident_start_exec(b) {
                    let j = ident_end_exec(src, i);
                    proof {
                        lemma_ident_end_bounds(src@, i as int + 1);
                        assert(ident_end(src@, i as int) == ident_end(src@, i as int + 1));
                    }
                    (j, SexRule::Ident)
                } else {
                    (i + 1, SexRule::Other)
                };
                let node = RawNode {
                    span: Span {
                        start: Pos { line, col },
                        end: Pos { line, col: col + (j - i) },
                    },
                    start_byte: i,
                    end_byte: j,
                    tag,
                };
                proof {
                    let rest = scan(src@, j as int, line as int, col as int + (j - i));
                    assert(scan(src@, i as int, line as int, col as int) == push_node(
                        leaf(line as int, col as int, i as int, j as int, tag),
                        rest,
                    ));
                    assert(node == leaf(line as int, col as int, i as int, j as int, tag));
                    if let Ok(r2) = rest {
                        assert((out@ + seq![node]) + r2 =~= out@ + (seq![node] + r2));
                    }
                    assert(prev_out.push(node) =~= prev_out + seq![node]);
                }
                out.push(node);
                col = col + (j - i);
                i = j;
                proof {
                    let nc = Pos { line: line as usize, col: col as usize };
                    assert(pos_le(node.span.start, node.span.end));
                    assert(node.span.end == nc);
                    assert forall|k: int| 0 <= k < out@.len() implies pos_le(
                        (#[trigger] out@[k]).span.end,
                        nc,
                    ) by {
                        if k < out@.len() - 1 {
                            crate::span::lemma_pos_le_trans(out@[k].span.end, cur, nc);
                        }
                    }
                    assert forall|k1: int, k2: int| 0 <= k1 < k2 < out@.len() implies pos_le(
                        (#[trigger] out@[k1]).span.end,
                        (#[trigger] out@[k2]).span.start,
                    ) by {
                        if k2 == out@.len() - 1 {
                            assert(out@[k2].span.start == cur);
                            assert(pos_le(out@[k1].span.end, cur));
                        }
                    }
                }
            }
        }
        proof {
            assert(scan(src@, i as int, line as int, col as int) == Ok::<_, Span>(
                Seq::<RawNode<SexRule>>::empty(),
            ));
            assert(out@ + Seq::<RawNode<SexRule>>::empty() =~= out@);
            let spans = out@.map_values(|n: RawNode<SexRule>| n.span);
            assert forall|a: int, b2: int| 0 <= a < b2 < spans.len() implies pos_le(
                #[trigger] spans[a].start,
                #[trigger] spans[b2].start,
            ) by {
                assert(spans[a] == out@[a].span);
                assert(spans[b2] == out@[b2].span);
                assert(pos_le(out@[a].span.start, out@[a].span.end));
                assert(pos_le(out@[a].span.end, out@[b2].span.start));
                crate::span::lemma_pos_le_trans(
                    out@[a].span.start,
                    out@[a].span.end,
                    out@[b2].span.start,
                );
            }
            assert forall|a: int, b2: int| 0 <= a < b2 < spans.len() implies (pos_le(
                #[trigger] spans[b2].end,
                spans[a].end,
            ) || pos_le(#[trigger] spans[a].end, spans[b2].start)) by {
                assert(spans[a] == out@[a].span);
                assert(spans[b2] == out@[b2].span);
            }
            assert(forall|k: int|
                0 <= k < spans.len() ==> span_wf(#[trigger] spans[k]) && out@[k].start_byte
                    <= out@[k].end_byte);
            assert(nodes_wf(out@));
        }
        Ok(out)
    }
}

} // verus!
