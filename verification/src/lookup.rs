//! Innermost-token lookup for hover and highlight queries.
//!
//! The cursor arrives in 0-based editor coordinates and is converted to the
//! grammars' 1-based convention. Over a document-ordered token sequence the
//! scan keeps the last token whose span starts at or before the cursor —
//! on an ordered, nested sequence that is the most deeply nested candidate
//! — and returns it with its span converted back to 0-based coordinates.

use vstd::prelude::*;
use crate::position::EditorPos;
use crate::span::{Pos, Span, pos_le, pos_lt, span_wf, span_contains};
use crate::token::{Token, RuleTag};

verus! {

/// The cursor in the grammars' 1-based convention.
pub open spec fn cursor_internal(p: EditorPos) -> Pos {
    Pos { line: (p.line + 1) as usize, col: (p.character + 1) as usize }
}

/// Index of the last token whose span starts at or before `c`.
pub open spec fn last_at_or_before<T>(toks: Seq<Token<T>>, c: Pos) -> Option<int>
    decreases toks.len(),
{
    if toks.len() == 0 {
        None
    } else if pos_le(toks.last().span.start, c) {
        Some(toks.len() - 1)
    } else {
        last_at_or_before(toks.drop_last(), c)
    }
}

/// A 1-based span shifted into 0-based editor coordinates.
pub open spec fn shift_span(s: Span) -> Span {
    Span {
        start: Pos { line: (s.start.line - 1) as usize, col: (s.start.col - 1) as usize },
        end: Pos { line: (s.end.line - 1) as usize, col: (s.end.col - 1) as usize },
    }
}

/// The token a lookup returns: the selected token with its span shifted to
/// editor coordinates.
pub open spec fn lookup_m<T>(toks: Seq<Token<T>>, p: EditorPos) -> Option<Token<T>> {
    match last_at_or_before(toks, cursor_internal(p)) {
        Some(i) => Some(
            Token { span: shift_span(toks[i].span), tag: toks[i].tag, delta: toks[i].delta },
        ),
        None => None,
    }
}

/// Facts about the selected index: it starts at or before the cursor and is
/// the last to do so.
pub proof fn lemma_last_props<T>(toks: Seq<Token<T>>, c: Pos)
    ensures
        match last_at_or_before(toks, c) {
            Some(i) => 0 <= i < toks.len() && pos_le(toks[i].span.start, c) && (forall|j: int|
                i < j < toks.len() ==> !pos_le((#[trigger] toks[j]).span.start, c)),
            None => forall|j: int| 0 <= j < toks.len() ==> !pos_le((#[trigger] toks[j]).span.start, c),
        },
    decreases toks.len(),
{
    if toks.len() > 0 && !pos_le(toks.last().span.start, c) {
        lemma_last_props(toks.drop_last(), c);
        assert(forall|j: int|
            0 <= j < toks.len() - 1 ==> toks.drop_last()[j] == (#[trigger] toks[j]));
    }
}

/// Looks up the innermost token at `p`: the last token of the
/// document-ordered sequence whose span starts at or before the cursor,
/// with its span shifted back to 0-based editor coordinates.
pub fn lookup_token<T: RuleTag>(toks: &Vec<Token<T>>, p: EditorPos) -> (r: Option<Token<T>>)
    requires
        p.line < usize::MAX,
        p.character < usize::MAX,
        forall|k: int| 0 <= k < toks@.len() ==> span_wf((#[trigger] toks@[k]).span),
    ensures
        r == lookup_m(toks@, p),
{
    let c = Pos { line: p.line + 1, col: p.character + 1 };
    let mut best: Option<usize> = None;
    let mut k: usize = 0;
    proof {
        assert(toks@.take(0) =~= Seq::<Token<T>>::empty());
    }
    while k < toks.len()
        invariant
            k <= toks@.len(),
            c == cursor_internal(p),
            forall|m: int| 0 <= m < toks@.len() ==> span_wf((#[trigger] toks@[m]).span),
            match best {
                Some(b) => b < k && last_at_or_before(toks@.take(k as int), c) == Some(b as int),
                None => last_at_or_before(toks@.take(k as int), c) is None,
            },
        decreases toks@.len() - k,
    {
        proof {
            let t = toks@.take(k as int + 1);
            assert(t.last() == toks@[k as int]);
            assert(t.drop_last() =~= toks@.take(k as int));
        }
        if crate::span::pos_le_exec(&toks[k].span.start, &c) {
            best = Some(k);
        }
        k = k + 1;
    }
    proof {
        assert(toks@.take(toks@.len() as int) =~= toks@);
    }
    match best {
        Some(b) => {
            let t = &toks[b];
            Some(
                Token {
                    span: Span {
                        start: Pos { line: t.span.start.line - 1, col: t.span.start.col - 1 },
                        end: Pos { line: t.span.end.line - 1, col: t.span.end.col - 1 },
                    },
                    tag: t.tag.dup(),
                    delta: t.delta,
                },
            )
        },
        None => None,
    }
}

/// On an ordered, nested token sequence the lookup finds a token whenever
/// some token's span contains the cursor; and whenever the cursor lies
/// within the span of the token the scan selects, that token is the most
/// deeply nested one containing the cursor: its span lies within the span
/// of every containing token.
///
/// A cursor inside an enclosing span but past the start of that span's last
/// inner token selects the inner token instead; the containment half below
/// is therefore conditioned on the selected token containing the cursor.
pub proof fn lemma_lookup_innermost<T>(toks: Seq<Token<T>>, c: Pos)
    requires
        forall|k: int| 0 <= k < toks.len() ==> span_wf((#[trigger] toks[k]).span),
        forall|a: int, b: int|
            0 <= a < b < toks.len() ==> pos_le(
                (#[trigger] toks[a]).span.start,
                (#[trigger] toks[b]).span.start,
            ),
        forall|a: int, b: int|
            0 <= a < b < toks.len() ==> (pos_le((#[trigger] toks[b]).span.end, toks[a].span.end)
                || pos_le((#[trigger] toks[a]).span.end, toks[b].span.start)),
    ensures
        (exists|k: int| 0 <= k < toks.len() && span_contains((#[trigger] toks[k]).span, c))
            ==> last_at_or_before(toks, c) is Some,
        match last_at_or_before(toks, c) {
            Some(i) => span_contains(toks[i].span, c) ==> forall|k: int|
                0 <= k < toks.len() && span_contains((#[trigger] toks[k]).span, c) ==> (pos_le(
                    toks[k].span.start,
                    toks[i].span.start,
                ) && pos_le(toks[i].span.end, toks[k].span.end)),
            None => true,
        },
{
    lemma_last_props(toks, c);
    if exists|k: int| 0 <= k < toks.len() && span_contains((#[trigger] toks[k]).span, c) {
        let k = choose|k: int| 0 <= k < toks.len() && span_contains((#[trigger] toks[k]).span, c);
        assert(pos_le(toks[k].span.start, c));
        if last_at_or_before(toks, c) is None {
            assert(!pos_le(toks[k].span.start, c));
            assert(false);
        }
    }
    if let Some(i) = last_at_or_before(toks, c) {
        if span_contains(toks[i].span, c) {
            assert forall|k: int|
                0 <= k < toks.len() && span_contains((#[trigger] toks[k]).span, c) implies (pos_le(
                toks[k].span.start,
                toks[i].span.start,
            ) && pos_le(toks[i].span.end, toks[k].span.end)) by {
                if k > i {
                    assert(pos_le(toks[k].span.start, c));
                    assert(false);
                } else if k < i {
                    if pos_le(toks[k].span.end, toks[i].span.start) {
                        assert(pos_le(toks[i].span.start, c));
                        crate::span::lemma_pos_le_trans(toks[k].span.end, toks[i].span.start, c);
                        assert(pos_lt(c, toks[k].span.end));
                        assert(false);
                    }
                }
            }
        }
    }
}

} // verus!
