//! Tokens and the delta encoding of the semantic-token protocol.
//!
//! A grammar pass reports a flattened, document-ordered list of raw nodes:
//! a 1-based span, the byte offsets it covers, and a rule tag. Each node is
//! turned into a token carrying its protocol form: line and start column
//! relative to the previous token's start, length in bytes, and a type code
//! supplied by the grammar's classifier.

use vstd::prelude::*;
use crate::span::{Pos, Span, pos_le, span_wf, spans_ordered, spans_nested};

verus! {

/// A flattened parse-tree node as a grammar pass reports it.
pub struct RawNode<T> {
    /// 1-based span of the node.
    pub span: Span,
    /// Byte offset of the first byte the node covers.
    pub start_byte: usize,
    /// Byte offset just past the last byte the node covers.
    pub end_byte: usize,
    /// The grammar rule that matched.
    pub tag: T,
}

/// A token in the protocol's delta-compressed form, relative to the
/// previous token's start position.
#[derive(Clone, Copy, PartialEq, Eq, Structural, Debug)]
pub struct DeltaToken {
    pub delta_line: usize,
    pub delta_start: usize,
    /// Length in bytes, so multi-byte encodings are measured correctly.
    pub length: usize,
    pub token_type: u32,
    pub modifier_bits: u32,
}

/// A cached token: span, rule tag, and its precomputed protocol form.
pub struct Token<T> {
    pub span: Span,
    pub tag: T,
    pub delta: DeltaToken,
}

/// A normalized grammar failure: a message and the span it points at.
pub struct GrammarError {
    pub message: String,
    pub span: Span,
}

/// What a rule tag contributes to a token, at the specification level.
pub trait TagClass {
    /// The protocol type code the classifier assigns to this rule.
    spec fn type_code(&self) -> u32;
}

/// An executable rule tag: classifiable and copyable.
pub trait RuleTag: TagClass + Sized {
    /// Executable classifier, agreeing with `type_code`.
    fn token_type(&self) -> (t: u32)
        ensures
            t == self.type_code(),
    ;

    /// An equal copy of the tag.
    fn dup(&self) -> (r: Self)
        ensures
            r == *self,
    ;
}

impl TagClass for String {
    /// Domain-grammar rules are not used for syntax highlighting; they all
    /// classify to type code 0.
    open spec fn type_code(&self) -> u32 {
        0
    }
}

impl RuleTag for String {
    fn token_type(&self) -> (t: u32) {
        0
    }

    fn dup(&self) -> (r: Self) {
        self.clone()
    }
}

/// A node list is well formed when every span is 1-based with start at or
/// before end, byte offsets are ordered, starts come in document order and
/// spans nest.
pub open spec fn nodes_wf<T>(s: Seq<RawNode<T>>) -> bool {
    &&& forall|i: int|
        0 <= i < s.len() ==> span_wf(#[trigger] s[i].span) && s[i].start_byte <= s[i].end_byte
    &&& spans_ordered(s.map_values(|n: RawNode<T>| n.span))
    &&& spans_nested(s.map_values(|n: RawNode<T>| n.span))
}

/// The delta form of `n` when the previous token starts at `prev`: the line
/// difference, the column difference when on the same line (else the
/// column's offset from line start), and the byte length.
pub open spec fn delta_of<T: TagClass>(prev: Pos, n: RawNode<T>) -> DeltaToken {
    DeltaToken {
        delta_line: (n.span.start.line - prev.line) as usize,
        delta_start: if n.span.start.line == prev.line {
            (n.span.start.col - prev.col) as usize
        } else {
            (n.span.start.col - 1) as usize
        },
        length: (n.end_byte - n.start_byte) as usize,
        token_type: n.tag.type_code(),
        modifier_bits: 0,
    }
}

/// The token list built from `nodes` with the delta baseline `prev`: each
/// node's delta is taken against the previous node's start.
pub open spec fn tokens_from<T: TagClass>(nodes: Seq<RawNode<T>>, prev: Pos) -> Seq<Token<T>>
    decreases nodes.len(),
{
    if nodes.len() == 0 {
        Seq::empty()
    } else {
        seq![
            Token { span: nodes[0].span, tag: nodes[0].tag, delta: delta_of(prev, nodes[0]) },
        ] + tokens_from(nodes.drop_first(), nodes[0].span.start)
    }
}

/// The token list of a node list; the delta baseline starts at `(1, 1)`.
pub open spec fn tokens_of<T: TagClass>(nodes: Seq<RawNode<T>>) -> Seq<Token<T>> {
    tokens_from(nodes, Pos { line: 1, col: 1 })
}

/// Encoding keeps each node's span and tag, in order.
pub proof fn lemma_tokens_from_shape<T: TagClass>(nodes: Seq<RawNode<T>>, prev: Pos)
    ensures
        tokens_from(nodes, prev).len() == nodes.len(),
        forall|i: int|
            0 <= i < nodes.len() ==> (#[trigger] tokens_from(nodes, prev)[i]).span == nodes[i].span
                && tokens_from(nodes, prev)[i].tag == nodes[i].tag,
    decreases nodes.len(),
{
    if nodes.len() > 0 {
        lemma_tokens_from_shape(nodes.drop_first(), nodes[0].span.start);
    }
}

/// Builds the cached token list of a well-formed node list.
pub fn build_tokens<T: RuleTag>(nodes: &Vec<RawNode<T>>) -> (r: Vec<Token<T>>)
    requires
        nodes_wf(nodes@),
    ensures
        r@ == tokens_of(nodes@),
{
    let mut out: Vec<Token<T>> = Vec::new();
    let mut prev = Pos { line: 1, col: 1 };
    let mut i: usize = 0;
    proof {
        assert(nodes@.skip(0) =~= nodes@);
        assert(out@ + tokens_from(nodes@, prev) =~= tokens_from(nodes@, prev));
    }
    while i < nodes.len()
        invariant
            0 <= i <= nodes@.len(),
            nodes_wf(nodes@),
            1 <= prev.line,
            1 <= prev.col,
            i == 0 ==> prev == (Pos { line: 1, col: 1 }),
            i > 0 ==> prev == nodes@[i - 1].span.start,
            tokens_of(nodes@) == out@ + tokens_from(nodes@.skip(i as int), prev),
            out@.len() == i,
        decreases nodes@.len() - i,
    {
        let n = &nodes[i];
        proof {
            assert(nodes@.map_values(|m: RawNode<T>| m.span)[i as int] == n.span);
            if i > 0 {
                assert(nodes@.map_values(|m: RawNode<T>| m.span)[i - 1] == nodes@[i - 1].span);
                assert(pos_le(nodes@[i - 1].span.start, n.span.start));
            }
            assert(span_wf(n.span));
        }
        let delta_line = n.span.start.line - prev.line;
        let delta_start = if n.span.start.line == prev.line {
            n.span.start.col - prev.col
        } else {
            n.span.start.col - 1
        };
        let tok = Token {
            span: n.span,
            tag: n.tag.dup(),
            delta: DeltaToken {
                delta_line,
                delta_start,
                length: n.end_byte - n.start_byte,
                token_type: n.tag.token_type(),
                modifier_bits: 0,
            },
        };
        proof {
            let rest = nodes@.skip(i as int);
            assert(rest[0] == nodes@[i as int]);
            assert(rest.drop_first() == nodes@.skip(i as int + 1));
            assert(tok.delta == delta_of(prev, nodes@[i as int]));
            assert(tokens_from(rest, prev) == seq![
                Token {
                    span: nodes@[i as int].span,
                    tag: nodes@[i as int].tag,
                    delta: delta_of(prev, nodes@[i as int]),
                },
            ] + tokens_from(nodes@.skip(i as int + 1), nodes@[i as int].span.start));
        }
        prev = n.span.start;
        out.push(tok);
        i = i + 1;
    }
    proof {
        assert(nodes@.skip(nodes@.len() as int) =~= Seq::<RawNode<T>>::empty());
        assert(out@ + tokens_from(nodes@.skip(nodes@.len() as int), prev) =~= out@);
    }
    out
}

/// A raw grammar failure is well formed when its span is 1-based.
pub open spec fn raw_error_wf(e: GrammarError) -> bool {
    span_wf(e.span)
}

/// The editor-facing form of a raw grammar failure: line numbers shift down
/// by one into 0-based editor coordinates while columns pass through
/// unchanged. The asymmetry is deliberate and load-bearing.
pub open spec fn normalize_error_m(e: GrammarError) -> GrammarError {
    GrammarError {
        message: e.message,
        span: Span {
            start: Pos { line: (e.span.start.line - 1) as usize, col: e.span.start.col },
            end: Pos { line: (e.span.end.line - 1) as usize, col: e.span.end.col },
        },
    }
}

/// Shifts a raw grammar failure into editor coordinates.
pub fn normalize_error(e: GrammarError) -> (r: GrammarError)
    requires
        raw_error_wf(e),
    ensures
        r == normalize_error_m(e),
{
    let GrammarError { message, span } = e;
    GrammarError {
        message,
        span: Span {
            start: Pos { line: span.start.line - 1, col: span.start.col },
            end: Pos { line: span.end.line - 1, col: span.end.col },
        },
    }
}

} // verus!
