//! The per-document state machine and the diagnostics policy.
//!
//! The store owns, per open document, the current source text and the two
//! grammars' latest outcomes. Opening runs both grammars; every change
//! applies its edits in order and re-runs both grammars over the whole new
//! text; closing drops only the domain grammar's token cache — the generic
//! cache and the text deliberately persist. The generic grammar is parsed
//! here; the domain grammar is a black-box capability whose flattened,
//! document-ordered report the caller hands in alongside the text it was
//! produced from.

use vstd::prelude::*;
use crate::position::{EditorPos, EditorRange, edit_byte_range, edit_byte_range_exec, splice,
    splice_exec, lemma_edit_byte_range_in_bounds};
use crate::span::{Pos, Span, span_wf};
use crate::token::{RawNode, Token, DeltaToken, GrammarError, nodes_wf, tokens_of, build_tokens,
    lemma_tokens_from_shape, raw_error_wf, normalize_error};
use crate::sexpr::{SexParser, SexRule, sex_parse_m, unterminated_msg};
use crate::lookup::{lookup_m, lookup_token};

verus! {

/// What a grammar pass reports: flattened nodes in document order, or a
/// failure with its raw 1-based span.
pub type GrammarReport = Result<Vec<RawNode<String>>, GrammarError>;

/// A report is well formed when its nodes are, or its failure span is
/// 1-based.
pub open spec fn report_wf(rep: GrammarReport) -> bool {
    match rep {
        Ok(ns) => nodes_wf(ns@),
        Err(e) => raw_error_wf(e),
    }
}

/// Checks that a domain-grammar report is well formed; callers establish
/// the precondition of `open` and `change` with it.
pub fn check_report(rep: &GrammarReport) -> (r: bool)
    ensures
        r == report_wf(*rep),
{
    match rep {
        Ok(ns) => check_nodes(ns),
        Err(e) => {
            e.span.start.line >= 1 && e.span.start.col >= 1 && e.span.end.line >= 1
                && e.span.end.col >= 1 && crate::span::pos_le_exec(&e.span.start, &e.span.end)
        },
    }
}

/// Whether one node's span is well formed and its byte offsets are ordered.
pub open spec fn node_wf<T>(n: RawNode<T>) -> bool {
    span_wf(n.span) && n.start_byte <= n.end_byte
}

fn check_one_node(n: &RawNode<String>) -> (r: bool)
    ensures
        r == node_wf(*n),
{
    n.span.start.line >= 1 && n.span.start.col >= 1 && n.span.end.line >= 1 && n.span.end.col >= 1
        && crate::span::pos_le_exec(&n.span.start, &n.span.end) && n.start_byte <= n.end_byte
}

/// Checks that a node list is well formed, as `nodes_wf` states it.
pub fn check_nodes(ns: &Vec<RawNode<String>>) -> (r: bool)
    ensures
        r == nodes_wf(ns@),
{
    let ghost spans = ns@.map_values(|n: RawNode<String>| n.span);
    proof {
        assert(forall|m: int| 0 <= m < spans.len() ==> spans[m] == ns@[m].span);
    }
    let mut k: usize = 0;
    while k < ns.len()
        invariant
            k <= ns@.len(),
            forall|m: int| 0 <= m < k ==> node_wf(#[trigger] ns@[m]),
        decreases ns@.len() - k,
    {
        if !check_one_node(&ns[k]) {
            proof {
                assert(!node_wf(ns@[k as int]));
                assert(!nodes_wf(ns@));
            }
            return false;
        }
        k = k + 1;
    }
    proof {
        assert(forall|m: int|
            0 <= m < ns@.len() ==> span_wf((#[trigger] ns@[m]).span) && ns@[m].start_byte
                <= ns@[m].end_byte);
    }
    let mut b: usize = 1;
    while b < ns.len()
        invariant
            1 <= b <= ns@.len() || ns@.len() == 0,
            spans == ns@.map_values(|n: RawNode<String>| n.span),
            forall|m: int| 0 <= m < spans.len() ==> spans[m] == ns@[m].span,
            forall|m: int| 0 <= m < ns@.len() ==> node_wf(#[trigger] ns@[m]),
            forall|x: int, y: int|
                0 <= x < y < b && y < ns@.len() ==> crate::span::pos_le(
                    (#[trigger] ns@[x]).span.start,
                    (#[trigger] ns@[y]).span.start,
                ) && (crate::span::pos_le(ns@[y].span.end, ns@[x].span.end)
                    || crate::span::pos_le(ns@[x].span.end, ns@[y].span.start)),
        decreases ns@.len() - b,
    {
        let mut a: usize = 0;
        while a < b
            invariant
                a <= b < ns@.len(),
                spans == ns@.map_values(|n: RawNode<String>| n.span),
                forall|m: int| 0 <= m < spans.len() ==> spans[m] == ns@[m].span,
                forall|x: int|
                    0 <= x < a ==> crate::span::pos_le(
                        (#[trigger] ns@[x]).span.start,
                        ns@[b as int].span.start,
                    ) && (crate::span::pos_le(ns@[b as int].span.end, ns@[x].span.end)
                        || crate::span::pos_le(ns@[x].span.end, ns@[b as int].span.start)),
            decreases b - a,
        {
            let ordered = crate::span::pos_le_exec(&ns[a].span.start, &ns[b].span.start);
            let nested = crate::span::pos_le_exec(&ns[b].span.end, &ns[a].span.end)
                || crate::span::pos_le_exec(&ns[a].span.end, &ns[b].span.start);
            if !(ordered && nested) {
                proof {
                    assert(spans[a as int] == ns@[a as int].span);
                    assert(spans[b as int] == ns@[b as int].span);
                    if !ordered {
                        assert(!crate::span::spans_ordered(spans)) by {
                            assert(!crate::span::pos_le(
                                spans[a as int].start,
                                spans[b as int].start,
                            ));
                        }
                    } else {
                        assert(!crate::span::spans_nested(spans)) by {
                            assert(!(crate::span::pos_le(
                                spans[b as int].end,
                                spans[a as int].end,
                            ) || crate::span::pos_le(
                                spans[a as int].end,
                                spans[b as int].start,
                            )));
                        }
                    }
                    assert(!nodes_wf(ns@));
                }
                return false;
            }
            a = a + 1;
        }
        b = b + 1;
    }
    proof {
        assert(nodes_wf(ns@));
    }
    true
}

/// A grammar failure at the specification level.
pub struct ErrM {
    pub message: Seq<char>,
    pub span: Span,
}

pub open spec fn err_m(e: GrammarError) -> ErrM {
    ErrM { message: e.message@, span: e.span }
}

pub open spec fn opt_err_m(e: Option<GrammarError>) -> Option<ErrM> {
    match e {
        Some(e) => Some(err_m(e)),
        None => None,
    }
}

/// The editor-facing form of a failure: lines shift down by one, columns
/// pass through unchanged.
pub open spec fn shift_err(e: ErrM) -> ErrM {
    ErrM {
        message: e.message,
        span: Span {
            start: Pos { line: (e.span.start.line - 1) as usize, col: e.span.start.col },
            end: Pos { line: (e.span.end.line - 1) as usize, col: e.span.end.col },
        },
    }
}

/// A document's state at the specification level.
pub struct DocM {
    pub source: Seq<u8>,
    pub gen_tokens: Seq<Token<SexRule>>,
    pub gen_err: Option<ErrM>,
    pub dom_tokens: Option<Seq<Token<String>>>,
    pub dom_err: Option<ErrM>,
}

/// The generic grammar's contribution to a fresh document state: its tokens,
/// or no tokens and its normalized failure.
pub open spec fn gen_outcome_m(text: Seq<u8>) -> (Seq<Token<SexRule>>, Option<ErrM>) {
    match sex_parse_m(text) {
        Ok(ns) => (tokens_of(ns), None),
        Err(sp) => (
            Seq::empty(),
            Some(shift_err(ErrM { message: unterminated_msg(), span: sp })),
        ),
    }
}

/// The domain grammar's contribution, from the report the caller handed in.
pub open spec fn dom_outcome_m(rep: GrammarReport) -> (Seq<Token<String>>, Option<ErrM>) {
    match rep {
        Ok(ns) => (tokens_of(ns@), None),
        Err(e) => (Seq::empty(), Some(shift_err(err_m(e)))),
    }
}

/// The document state a reparse of `text` establishes, both grammars run in
/// full and their outcomes wholly replacing whatever was cached before.
pub open spec fn fresh_doc_m(text: Seq<u8>, rep: GrammarReport) -> DocM {
    DocM {
        source: text,
        gen_tokens: gen_outcome_m(text).0,
        gen_err: gen_outcome_m(text).1,
        dom_tokens: Some(dom_outcome_m(rep).0),
        dom_err: dom_outcome_m(rep).1,
    }
}

/// Closing a document drops only the domain grammar's token cache.
pub open spec fn close_doc_m(d: DocM) -> DocM {
    DocM { dom_tokens: None, ..d }
}

/// An incremental edit: a whole-buffer replacement, or new text spliced
/// over the byte range a 0-based editor range resolves to.
pub enum Edit {
    Full(Vec<u8>),
    Ranged(EditorRange, Vec<u8>),
}

pub open spec fn apply_edit_m(src: Seq<u8>, e: Edit) -> Seq<u8> {
    match e {
        Edit::Full(t) => t@,
        Edit::Ranged(r, t) => {
            let (a, b) = edit_byte_range(src, r);
            splice(src, a, b, t@)
        },
    }
}

/// Edits within one change apply strictly in order, each against the buffer
/// the previous one left.
pub open spec fn apply_edits_m(src: Seq<u8>, es: Seq<Edit>) -> Seq<u8>
    decreases es.len(),
{
    if es.len() == 0 {
        src
    } else {
        apply_edits_m(apply_edit_m(src, es[0]), es.drop_first())
    }
}

/// Every intermediate buffer a change produces stays within the machine's
/// addressable size.
pub open spec fn edits_fit_m(src: Seq<u8>, es: Seq<Edit>) -> bool
    decreases es.len(),
{
    if es.len() == 0 {
        true
    } else {
        apply_edit_m(src, es[0]).len() < usize::MAX && edits_fit_m(
            apply_edit_m(src, es[0]),
            es.drop_first(),
        )
    }
}

fn apply_edit(src: &Vec<u8>, e: &Edit) -> (r: Vec<u8>)
    requires
        src@.len() < usize::MAX,
        apply_edit_m(src@, *e).len() < usize::MAX,
    ensures
        r@ == apply_edit_m(src@, *e),
{
    match e {
        Edit::Full(t) => vstd::slice::slice_to_vec(t.as_slice()),
        Edit::Ranged(range, t) => {
            proof {
                lemma_edit_byte_range_in_bounds(src@, *range);
            }
            let (a, b) = edit_byte_range_exec(src, range);
            proof {
                assert(splice(src@, a as int, b as int, t@).len() == a + t@.len() + (src@.len()
                    - b));
            }
            splice_exec(src, a, b, t)
        },
    }
}

/// Applies a change's edits in order; `None` when an intermediate buffer
/// would exceed the machine's addressable size.
pub fn apply_edits(src: &Vec<u8>, es: &Vec<Edit>) -> (r: Option<Vec<u8>>)
    requires
        src@.len() < usize::MAX,
    ensures
        match r {
            Some(v) => edits_fit_m(src@, es@) && v@ == apply_edits_m(src@, es@) && v@.len()
                < usize::MAX,
            None => !edits_fit_m(src@, es@),
        },
{
    let mut cur: Vec<u8> = vstd::slice::slice_to_vec(src.as_slice());
    let mut i: usize = 0;
    proof {
        assert(es@.skip(0) =~= es@);
    }
    while i < es.len()
        invariant
            i <= es@.len(),
            cur@.len() < usize::MAX,
            apply_edits_m(src@, es@) == apply_edits_m(cur@, es@.skip(i as int)),
            edits_fit_m(src@, es@) == edits_fit_m(cur@, es@.skip(i as int)),
        decreases es@.len() - i,
    {
        let e = &es[i];
        proof {
            assert(es@.skip(i as int)[0] == es@[i as int]);
            assert(es@.skip(i as int).drop_first() =~= es@.skip(i as int + 1));
        }
        let fits = match e {
            Edit::Full(t) => t.len() < usize::MAX,
            Edit::Ranged(range, t) => {
                proof {
                    lemma_edit_byte_range_in_bounds(cur@, *range);
                }
                let (a, b) = edit_byte_range_exec(&cur, range);
                proof {
                    assert(splice(cur@, a as int, b as int, t@).len() == a + t@.len() + (cur@.len()
                        - b));
                }
                t.len() < usize::MAX - a - (cur.len() - b)
            },
        };
        if !fits {
            return None;
        }
        cur = apply_edit(&cur, e);
        i = i + 1;
    }
    proof {
        assert(es@.skip(es@.len() as int) =~= Seq::<Edit>::empty());
    }
    Some(cur)
}

/// One open document: its text and both grammars' cached outcomes.
pub struct DocState {
    pub uri: String,
    pub source: Vec<u8>,
    pub gen_tokens: Vec<Token<SexRule>>,
    pub gen_err: Option<GrammarError>,
    pub dom_tokens: Option<Vec<Token<String>>>,
    pub dom_err: Option<GrammarError>,
}

impl DocState {
    pub open spec fn model(&self) -> DocM {
        DocM {
            source: self.source@,
            gen_tokens: self.gen_tokens@,
            gen_err: opt_err_m(self.gen_err),
            dom_tokens: match self.dom_tokens {
                Some(v) => Some(v@),
                None => None,
            },
            dom_err: opt_err_m(self.dom_err),
        }
    }

    pub open spec fn wf(&self) -> bool {
        &&& self.source@.len() < usize::MAX
        &&& forall|k: int|
            0 <= k < self.gen_tokens@.len() ==> span_wf((#[trigger] self.gen_tokens@[k]).span)
        &&& match self.dom_tokens {
            Some(v) => forall|k: int| 0 <= k < v@.len() ==> span_wf((#[trigger] v@[k]).span),
            None => true,
        }
    }
}

/// Index of the document with the given identifier.
pub open spec fn find_doc(docs: Seq<DocState>, uri: Seq<char>) -> Option<int>
    decreases docs.len(),
{
    if docs.len() == 0 {
        None
    } else if docs[0].uri@ == uri {
        Some(0)
    } else {
        match find_doc(docs.drop_first(), uri) {
            Some(i) => Some(i + 1),
            None => None,
        }
    }
}

proof fn lemma_find_doc_props(docs: Seq<DocState>, uri: Seq<char>)
    ensures
        match find_doc(docs, uri) {
            Some(i) => 0 <= i < docs.len() && docs[i].uri@ == uri,
            None => forall|j: int| 0 <= j < docs.len() ==> (#[trigger] docs[j]).uri@ != uri,
        },
    decreases docs.len(),
{
    if docs.len() > 0 && docs[0].uri@ != uri {
        lemma_find_doc_props(docs.drop_first(), uri);
        match find_doc(docs.drop_first(), uri) {
            Some(i) => {
                assert(docs.drop_first()[i] == docs[i + 1]);
            },
            None => {
                assert forall|j: int| 0 <= j < docs.len() implies (#[trigger] docs[j]).uri@
                    != uri by {
                    if j > 0 {
                        assert(docs.drop_first()[j - 1] == docs[j]);
                    }
                }
            },
        }
    }
}

proof fn lemma_find_doc_at(docs: Seq<DocState>, uri: Seq<char>, i: int)
    requires
        0 <= i < docs.len(),
        docs[i].uri@ == uri,
        forall|j: int| 0 <= j < i ==> (#[trigger] docs[j]).uri@ != uri,
    ensures
        find_doc(docs, uri) == Some(i),
    decreases docs.len(),
{
    if i > 0 {
        assert(forall|j: int|
            0 <= j < docs.len() - 1 ==> docs.drop_first()[j] == #[trigger] docs[j + 1]);
        assert(forall|j: int| 0 <= j < i - 1 ==> (#[trigger] docs.drop_first()[j]).uri@ != uri);
        lemma_find_doc_at(docs.drop_first(), uri, i - 1);
    }
}

proof fn lemma_find_doc_same_uris(docs: Seq<DocState>, docs2: Seq<DocState>, uri: Seq<char>)
    requires
        docs.len() == docs2.len(),
        forall|k: int| 0 <= k < docs.len() ==> (#[trigger] docs2[k]).uri@ == docs[k].uri@,
    ensures
        find_doc(docs2, uri) == find_doc(docs, uri),
    decreases docs.len(),
{
    if docs.len() > 0 {
        assert(docs2[0].uri@ == docs[0].uri@);
        assert(forall|k: int|
            0 <= k < docs.len() - 1 ==> (#[trigger] docs.drop_first()[k]) == docs[k + 1]);
        assert(forall|k: int|
            0 <= k < docs2.len() - 1 ==> (#[trigger] docs2.drop_first()[k]) == docs2[k + 1]);
        lemma_find_doc_same_uris(docs.drop_first(), docs2.drop_first(), uri);
    }
}

proof fn lemma_find_doc_push(docs: Seq<DocState>, d: DocState, uri: Seq<char>)
    ensures
        find_doc(docs.push(d), uri) == (match find_doc(docs, uri) {
            Some(i) => Some(i),
            None => if d.uri@ == uri {
                Some(docs.len() as int)
            } else {
                None
            }
        }),
    decreases docs.len(),
{
    if docs.len() == 0 {
        assert(docs.push(d)[0] == d);
        assert(docs.push(d).drop_first() =~= Seq::<DocState>::empty());
        assert(find_doc(Seq::<DocState>::empty(), uri) is None);
        assert(find_doc(docs, uri) is None);
        if d.uri@ == uri {
            assert(find_doc(docs.push(d), uri) == Some(0int));
        } else {
            assert(find_doc(docs.push(d), uri) is None);
        }
    } else {
        assert(docs.push(d)[0] == docs[0]);
        assert(docs.push(d).drop_first() =~= docs.drop_first().push(d));
        lemma_find_doc_push(docs.drop_first(), d, uri);
        if docs[0].uri@ != uri {
            match find_doc(docs.drop_first(), uri) {
                Some(i) => {
                    assert(find_doc(docs, uri) == Some(i + 1));
                    assert(find_doc(docs.drop_first().push(d), uri) == Some(i));
                    assert(find_doc(docs.push(d), uri) == Some(i + 1));
                },
                None => {
                    assert(find_doc(docs, uri) is None);
                    assert(docs.drop_first().len() == docs.len() - 1);
                },
            }
        }
    }
}

/// The document store: all per-document state the backend owns.
pub struct DocumentStore {
    docs: Vec<DocState>,
}

impl DocumentStore {
    /// Every identifier names at most one document, and every cached token
    /// span is 1-based and well formed.
    pub closed spec fn inv(&self) -> bool {
        &&& forall|i: int, j: int|
            0 <= i < j < self.docs@.len() ==> (#[trigger] self.docs@[i]).uri@ != (
            #[trigger] self.docs@[j]).uri@
        &&& forall|i: int| 0 <= i < self.docs@.len() ==> (#[trigger] self.docs@[i]).wf()
    }

    /// The state of the document named `uri`, if it is known to the store.
    pub closed spec fn doc_m(&self, uri: Seq<char>) -> Option<DocM> {
        match find_doc(self.docs@, uri) {
            Some(i) => Some(self.docs@[i].model()),
            None => None,
        }
    }

    pub fn new() -> (s: Self)
        ensures
            s.inv(),
            forall|u: Seq<char>| s.doc_m(u) is None,
    {
        let s = DocumentStore { docs: Vec::new() };
        proof {
            assert forall|u: Seq<char>| s.doc_m(u) is None by {
                lemma_find_doc_props(s.docs@, u);
            }
        }
        s
    }

    /// Opens a document: a no-op when the identifier is already known —
    /// not even the text is updated then — else both grammars' outcomes are
    /// cached for the given text. `report` is the domain grammar's output
    /// for `text`.
    pub fn open(&mut self, uri: String, text: Vec<u8>, report: GrammarReport)
        requires
            old(self).inv(),
            text@.len() < usize::MAX,
            report_wf(report),
        ensures
            final(self).inv(),
            match old(self).doc_m(uri@) {
                Some(_) => *final(self) == *old(self),
                None => final(self).doc_m(uri@) == Some(fresh_doc_m(text@, report)) && (forall|
                    u: Seq<char>,
                |
                    u != uri@ ==> final(self).doc_m(u) == old(self).doc_m(u)),
            },
    {
        let ghost u0 = uri@;
        match self.find_index(&uri) {
            Some(_) => {
            },
            None => {
                let (gt, ge) = gen_ingest(&text);
                let (dt, de) = dom_ingest(report);
                let doc = DocState {
                    uri,
                    source: text,
                    gen_tokens: gt,
                    gen_err: ge,
                    dom_tokens: Some(dt),
                    dom_err: de,
                };
                let ghost old_docs = self.docs@;
                proof {
                    lemma_find_doc_props(old_docs, u0);
                }
                self.docs.push(doc);
                proof {
                    assert(self.docs@ == old_docs.push(doc));
                    lemma_find_doc_push(old_docs, doc, u0);
                    assert(self.docs@[old_docs.len() as int] == doc);
                    assert(doc.model() == fresh_doc_m(doc.source@, report));
                    assert forall|u: Seq<char>| u != u0 implies self.doc_m(u) == old(self).doc_m(
                        u,
                    ) by {
                        lemma_find_doc_push(old_docs, doc, u);
                        if let Some(i) = find_doc(old_docs, u) {
                            lemma_find_doc_props(old_docs, u);
                            assert(self.docs@[i] == old_docs[i]);
                        }
                    }
                    assert forall|i: int, j: int| 0 <= i < j < self.docs@.len() implies (
                    #[trigger] self.docs@[i]).uri@ != (#[trigger] self.docs@[j]).uri@ by {
                        if j == self.docs@.len() - 1 {
                            assert(self.docs@[i] == old_docs[i]);
                        }
                    }
                    assert forall|i: int| 0 <= i < self.docs@.len() implies (
                    #[trigger] self.docs@[i]).wf() by {
                        if i < self.docs@.len() - 1 {
                            assert(self.docs@[i] == old_docs[i]);
                        }
                    }
                }
            },
        }
    }

    /// Applies a change's edits to the stored text, in order, and re-runs
    /// both grammars on the result; `report` is the domain grammar's output
    /// for the edited text. When an intermediate buffer would exceed the
    /// machine's addressable size the whole change is ignored.
    pub fn change(&mut self, uri: &String, edits: &Vec<Edit>, report: GrammarReport)
        requires
            old(self).inv(),
            report_wf(report),
            old(self).doc_m(uri@) is Some,
        ensures
            final(self).inv(),
            match old(self).doc_m(uri@) {
                Some(d) => if edits_fit_m(d.source, edits@) {
                    final(self).doc_m(uri@) == Some(
                        fresh_doc_m(apply_edits_m(d.source, edits@), report),
                    ) && (forall|u: Seq<char>|
                        u != uri@ ==> final(self).doc_m(u) == old(self).doc_m(u))
                } else {
                    forall|u: Seq<char>| final(self).doc_m(u) == old(self).doc_m(u)
                },
                None => false,
            },
    {
        let i = match self.find_index(uri) {
            Some(i) => i,
            None => {
                proof {
                    assert(false);
                }
                return ;
            },
        };
        let ghost old_docs = self.docs@;
        let d = self.docs.remove(i);
        let new_source = match apply_edits(&d.source, edits) {
            Some(s) => s,
            None => {
                self.docs.insert(i, d);
                proof {
                    assert(self.docs@ =~= old_docs);
                }
                return ;
            },
        };
        let (gt, ge) = gen_ingest(&new_source);
        let (dt, de) = dom_ingest(report);
        let doc = DocState {
            uri: d.uri,
            source: new_source,
            gen_tokens: gt,
            gen_err: ge,
            dom_tokens: Some(dt),
            dom_err: de,
        };
        self.docs.insert(i, doc);
        proof {
            assert(self.docs@ =~= old_docs.update(i as int, doc));
            self.lemma_after_update(old_docs, i as int, doc, uri@);
            assert(doc.model() == fresh_doc_m(
                apply_edits_m(old_docs[i as int].model().source, edits@),
                report,
            ));
        }
    }

    /// The text a change's edits would produce, without applying anything:
    /// callers run the domain grammar over it and hand the report to
    /// `change`. Nothing for an unknown document, or when an intermediate
    /// buffer would exceed the machine's addressable size.
    pub fn preview_change(&self, uri: &String, edits: &Vec<Edit>) -> (r: Option<Vec<u8>>)
        requires
            self.inv(),
        ensures
            match (r, self.doc_m(uri@)) {
                (Some(v), Some(d)) => edits_fit_m(d.source, edits@) && v@ == apply_edits_m(
                    d.source,
                    edits@,
                ),
                (None, Some(d)) => !edits_fit_m(d.source, edits@),
                (None, None) => true,
                (Some(_), None) => false,
            },
    {
        match self.find_index(uri) {
            Some(i) => apply_edits(&self.docs[i].source, edits),
            None => None,
        }
    }

    /// Closing drops only the domain grammar's cached tokens: the generic
    /// grammar's cache and the source text persist deliberately. Closing an
    /// unknown document does nothing.
    pub fn close(&mut self, uri: &String)
        requires
            old(self).inv(),
        ensures
            final(self).inv(),
            match old(self).doc_m(uri@) {
                Some(d) => final(self).doc_m(uri@) == Some(close_doc_m(d)) && (forall|u: Seq<char>|
                    u != uri@ ==> final(self).doc_m(u) == old(self).doc_m(u)),
                None => *final(self) == *old(self),
            },
    {
        let i = match self.find_index(uri) {
            Some(i) => i,
            None => {
                return ;
            },
        };
        let ghost old_docs = self.docs@;
        let mut d = self.docs.remove(i);
        d.dom_tokens = None;
        self.docs.insert(i, d);
        proof {
            assert(self.docs@ =~= old_docs.update(i as int, d));
            self.lemma_after_update(old_docs, i as int, d, uri@);
            assert(d.model() == close_doc_m(old_docs[i as int].model()));
        }
    }

    /// After replacing the document at `i` (its identifier kept), lookups
    /// behave as an update of the old store.
    proof fn lemma_after_update(&self, old_docs: Seq<DocState>, i: int, doc: DocState, uri: Seq<char>)
        requires
            forall|a: int, b: int|
                0 <= a < b < old_docs.len() ==> (#[trigger] old_docs[a]).uri@ != (
                #[trigger] old_docs[b]).uri@,
            forall|a: int| 0 <= a < old_docs.len() ==> (#[trigger] old_docs[a]).wf(),
            0 <= i < old_docs.len(),
            find_doc(old_docs, uri) == Some(i),
            doc.uri@ == old_docs[i].uri@,
            doc.wf(),
            self.docs@ == old_docs.update(i, doc),
        ensures
            self.inv(),
            self.doc_m(uri) == Some(doc.model()),
            forall|u: Seq<char>|
                u != uri ==> self.doc_m(u) == (match find_doc(old_docs, u) {
                    Some(j) => Some(old_docs[j].model()),
                    None => None,
                }),
    {
        lemma_find_doc_props(old_docs, uri);
        assert(old_docs[i].uri@ == uri);
        assert(self.docs@.len() == old_docs.len());
        assert(forall|k: int|
            0 <= k < old_docs.len() ==> (#[trigger] self.docs@[k]).uri@ == old_docs[k].uri@);
        lemma_find_doc_same_uris(old_docs, self.docs@, uri);
        assert forall|u: Seq<char>| u != uri implies self.doc_m(u) == (match find_doc(old_docs, u) {
            Some(j) => Some(old_docs[j].model()),
            None => None,
        }) by {
            lemma_find_doc_same_uris(old_docs, self.docs@, u);
            if let Some(j) = find_doc(old_docs, u) {
                lemma_find_doc_props(old_docs, u);
                assert(j != i);
                assert(self.docs@[j] == old_docs[j]);
            }
        }
        assert forall|a: int, b: int| 0 <= a < b < self.docs@.len() implies (
        #[trigger] self.docs@[a]).uri@ != (#[trigger] self.docs@[b]).uri@ by {
            assert(self.docs@[a].uri@ == old_docs[a].uri@);
            assert(self.docs@[b].uri@ == old_docs[b].uri@);
        }
        assert forall|a: int| 0 <= a < self.docs@.len() implies (#[trigger] self.docs@[a]).wf() by {
            if a != i {
                assert(self.docs@[a] == old_docs[a]);
            }
        }
    }

    /// Hover: the rule tag of the innermost domain-grammar token at the
    /// cursor, as text; nothing once the document is closed or unknown, or
    /// while the domain grammar is failing.
    pub fn hover(&self, uri: &String, pos: EditorPos) -> (r: Option<String>)
        requires
            self.inv(),
            pos.line < usize::MAX,
            pos.character < usize::MAX,
        ensures
            match (r, self.hover_m(uri@, pos)) {
                (Some(s), Some(t)) => s@ == t,
                (None, None) => true,
                _ => false,
            },
    {
        let i = match self.find_index(uri) {
            Some(i) => i,
            None => {
                return None;
            },
        };
        let doc = &self.docs[i];
        match &doc.dom_tokens {
            Some(toks) => {
                match lookup_token(toks, pos) {
                    Some(t) => Some(t.tag),
                    None => None,
                }
            },
            None => None,
        }
    }

    pub open spec fn hover_m(&self, uri: Seq<char>, p: EditorPos) -> Option<Seq<char>> {
        match self.doc_m(uri) {
            Some(d) => hover_m_doc(d, p),
            None => None,
        }
    }

    /// Highlight: the 0-based span of the innermost domain-grammar token at
    /// the cursor.
    pub fn highlight(&self, uri: &String, pos: EditorPos) -> (r: Option<Span>)
        requires
            self.inv(),
            pos.line < usize::MAX,
            pos.character < usize::MAX,
        ensures
            r == self.highlight_m(uri@, pos),
    {
        let i = match self.find_index(uri) {
            Some(i) => i,
            None => {
                return None;
            },
        };
        let doc = &self.docs[i];
        match &doc.dom_tokens {
            Some(toks) => {
                match lookup_token(toks, pos) {
                    Some(t) => Some(t.span),
                    None => None,
                }
            },
            None => None,
        }
    }

    pub open spec fn highlight_m(&self, uri: Seq<char>, p: EditorPos) -> Option<Span> {
        match self.doc_m(uri) {
            Some(d) => highlight_m_doc(d, p),
            None => None,
        }
    }

    /// The generic grammar's cached delta-encoded token stream: a pure
    /// projection of the precomputed protocol forms, in sequence order;
    /// nothing for an unknown document, an empty stream while the generic
    /// grammar is failing.
    pub fn semantic_tokens(&self, uri: &String) -> (r: Option<Vec<DeltaToken>>)
        requires
            self.inv(),
        ensures
            match (r, self.doc_m(uri@)) {
                (Some(v), Some(d)) => v@ == sem_m_doc(d),
                (None, None) => true,
                _ => false,
            },
    {
        let i = match self.find_index(uri) {
            Some(i) => i,
            None => {
                return None;
            },
        };
        let doc = &self.docs[i];
        let mut out: Vec<DeltaToken> = Vec::new();
        let mut k: usize = 0;
        while k < doc.gen_tokens.len()
            invariant
                k <= doc.gen_tokens@.len(),
                out@.len() == k,
                forall|m: int| 0 <= m < k ==> out@[m] == (#[trigger] doc.gen_tokens@[m]).delta,
            decreases doc.gen_tokens@.len() - k,
        {
            out.push(doc.gen_tokens[k].delta);
            k = k + 1;
        }
        proof {
            assert(out@ =~= sem_m_doc(doc.model()));
        }
        Some(out)
    }

    /// The diagnostics policy: at most one entry. A generic-grammar failure
    /// is reported alone; otherwise a domain-grammar failure is reported
    /// alone; otherwise the list is empty. The two failures are never
    /// combined, and an unknown document reports nothing.
    pub fn diagnostics(&self, uri: &String) -> (r: Vec<Diagnostic>)
        requires
            self.inv(),
        ensures
            r@.map_values(|d: Diagnostic| diag_m(d)) == self.diags_m(uri@),
    {
        let mut out: Vec<Diagnostic> = Vec::new();
        let i = match self.find_index(uri) {
            Some(i) => i,
            None => {
                proof {
                    assert(out@.map_values(|d: Diagnostic| diag_m(d)) =~= self.diags_m(uri@));
                }
                return out;
            },
        };
        let doc = &self.docs[i];
        if let Some(e) = &doc.gen_err {
            out.push(
                Diagnostic {
                    code: "S-Expression parser error".to_owned(),
                    message: e.message.clone(),
                    span: e.span,
                },
            );
        } else if let Some(e) = &doc.dom_err {
            out.push(
                Diagnostic {
                    code: "Marlowe parser error".to_owned(),
                    message: e.message.clone(),
                    span: e.span,
                },
            );
        }
        proof {
            assert(out@.map_values(|d: Diagnostic| diag_m(d)) =~= self.diags_m(uri@));
        }
        out
    }

    pub open spec fn diags_m(&self, uri: Seq<char>) -> Seq<DiagM> {
        match self.doc_m(uri) {
            Some(d) => diags_m_doc(d),
            None => Seq::empty(),
        }
    }

    fn find_index(&self, uri: &String) -> (r: Option<usize>)
        ensures
            match r {
                Some(i) => find_doc(self.docs@, uri@) == Some(i as int) && i < self.docs@.len(),
                None => find_doc(self.docs@, uri@) is None,
            },
    {
        let mut k: usize = 0;
        while k < self.docs.len()
            invariant
                k <= self.docs@.len(),
                forall|j: int| 0 <= j < k ==> (#[trigger] self.docs@[j]).uri@ != uri@,
            decreases self.docs@.len() - k,
        {
            if self.docs[k].uri.eq(uri) {
                proof {
                    lemma_find_doc_at(self.docs@, uri@, k as int);
                }
                return Some(k);
            }
            k = k + 1;
        }
        proof {
            lemma_find_doc_props(self.docs@, uri@);
            if find_doc(self.docs@, uri@) is Some {
                assert(false);
            }
        }
        None
    }
}

/// Runs the generic grammar over the text: its token cache and, on failure,
/// its normalized error beside an empty cache.
fn gen_ingest(source: &Vec<u8>) -> (r: (Vec<Token<SexRule>>, Option<GrammarError>))
    requires
        source@.len() < usize::MAX,
    ensures
        r.0@ == gen_outcome_m(source@).0,
        opt_err_m(r.1) == gen_outcome_m(source@).1,
        forall|k: int| 0 <= k < r.0@.len() ==> span_wf((#[trigger] r.0@[k]).span),
{
    match SexParser::parse(source) {
        Ok(ns) => {
            let toks = build_tokens(&ns);
            proof {
                lemma_tokens_from_shape(ns@, Pos { line: 1, col: 1 });
                assert forall|k: int| 0 <= k < toks@.len() implies span_wf(
                    (#[trigger] toks@[k]).span,
                ) by {
                    assert(toks@[k].span == ns@[k].span);
                    assert(span_wf(ns@[k].span));
                }
            }
            (toks, None)
        },
        Err(e) => {
            let ghost sp = e.span;
            let ghost msg = e.message@;
            let ne = normalize_error(e);
            proof {
                assert(err_m(ne) == shift_err(ErrM { message: msg, span: sp }));
            }
            (Vec::new(), Some(ne))
        },
    }
}

/// Folds the domain grammar's report into its token cache and, on failure,
/// its normalized error beside an empty cache.
fn dom_ingest(report: GrammarReport) -> (r: (Vec<Token<String>>, Option<GrammarError>))
    requires
        report_wf(report),
    ensures
        r.0@ == dom_outcome_m(report).0,
        opt_err_m(r.1) == dom_outcome_m(report).1,
        forall|k: int| 0 <= k < r.0@.len() ==> span_wf((#[trigger] r.0@[k]).span),
{
    match report {
        Ok(ns) => {
            let toks = build_tokens(&ns);
            proof {
                lemma_tokens_from_shape(ns@, Pos { line: 1, col: 1 });
                assert forall|k: int| 0 <= k < toks@.len() implies span_wf(
                    (#[trigger] toks@[k]).span,
                ) by {
                    assert(toks@[k].span == ns@[k].span);
                    assert(span_wf(ns@[k].span));
                }
            }
            (toks, None)
        },
        Err(e) => {
            let ghost em = err_m(e);
            let ne = normalize_error(e);
            proof {
                assert(err_m(ne) == shift_err(em));
            }
            (Vec::new(), Some(ne))
        },
    }
}

/// Hover answers with the innermost domain token's rule tag, as text.
pub open spec fn hover_m_doc(d: DocM, p: EditorPos) -> Option<Seq<char>> {
    match d.dom_tokens {
        Some(toks) => match lookup_m(toks, p) {
            Some(t) => Some(t.tag@),
            None => None,
        },
        None => None,
    }
}

/// Highlight answers with the innermost domain token's 0-based span.
pub open spec fn highlight_m_doc(d: DocM, p: EditorPos) -> Option<Span> {
    match d.dom_tokens {
        Some(toks) => match lookup_m(toks, p) {
            Some(t) => Some(t.span),
            None => None,
        },
        None => None,
    }
}

/// The semantic-token stream: each cached generic token's protocol form.
pub open spec fn sem_m_doc(d: DocM) -> Seq<DeltaToken> {
    d.gen_tokens.map_values(|t: Token<SexRule>| t.delta)
}

/// A reported diagnostic: which grammar failed, its message, and the span
/// in editor coordinates.
pub struct Diagnostic {
    pub code: String,
    pub message: String,
    pub span: Span,
}

/// A diagnostic at the specification level.
pub struct DiagM {
    pub code: Seq<char>,
    pub message: Seq<char>,
    pub span: Span,
}

pub open spec fn diag_m(d: Diagnostic) -> DiagM {
    DiagM { code: d.code@, message: d.message@, span: d.span }
}

pub open spec fn generic_code() -> Seq<char> {
    "S-Expression parser error"@
}

pub open spec fn domain_code() -> Seq<char> {
    "Marlowe parser error"@
}

/// The diagnostics policy over one document's error states: the generic
/// grammar's failure alone when it has one, else the domain grammar's
/// failure alone, else nothing — never both.
pub open spec fn diags_m_doc(d: DocM) -> Seq<DiagM> {
    match d.gen_err {
        Some(e) => seq![DiagM { code: generic_code(), message: e.message, span: e.span }],
        None => match d.dom_err {
            Some(e) => seq![DiagM { code: domain_code(), message: e.message, span: e.span }],
            None => Seq::empty(),
        },
    }
}

/// Law: applying a full-text-replace edit with content `x` to any prior
/// document state yields the same parsed token streams and error state as
/// opening a fresh document with text `x`, given the same domain-grammar
/// report for `x`.
pub proof fn lemma_full_replace_matches_fresh_open(
    prior_source: Seq<u8>,
    x: Vec<u8>,
    report: GrammarReport,
)
    ensures
        apply_edits_m(prior_source, seq![Edit::Full(x)]) == x@,
        fresh_doc_m(apply_edits_m(prior_source, seq![Edit::Full(x)]), report) == fresh_doc_m(
            x@,
            report,
        ),
{
    let es = seq![Edit::Full(x)];
    assert(es.drop_first() =~= Seq::<Edit>::empty());
    assert(apply_edits_m(prior_source, es) == apply_edits_m(apply_edit_m(prior_source, es[0]), es.drop_first()));
    assert(apply_edit_m(prior_source, es[0]) == x@);
}

/// Law: a ranged edit that replaces the byte range `[a, b)` its editor
/// range resolves to is equivalent to a full-text replace of
/// `source[0..a] + text + source[b..]`.
pub proof fn lemma_ranged_edit_matches_full_replace(
    src: Seq<u8>,
    r: EditorRange,
    text: Vec<u8>,
    full: Vec<u8>,
)
    requires
        ({
            let (a, b) = edit_byte_range(src, r);
            full@ == splice(src, a, b, text@)
        }),
    ensures
        apply_edit_m(src, Edit::Ranged(r, text)) == apply_edit_m(src, Edit::Full(full)),
{
}

/// Law: when both grammars report errors at once, the diagnostics are
/// exactly the generic grammar's error — one entry, never both and never
/// the domain grammar's.
pub proof fn lemma_diagnostics_priority(d: DocM)
    requires
        d.gen_err is Some,
        d.dom_err is Some,
    ensures
        diags_m_doc(d).len() == 1,
        d.gen_err matches Some(g) ==> diags_m_doc(d) == seq![
            DiagM { code: generic_code(), message: g.message, span: g.span },
        ],
        diags_m_doc(d)[0].code != domain_code(),
{
    reveal_strlit("S-Expression parser error");
    reveal_strlit("Marlowe parser error");
    assert(generic_code().len() != domain_code().len());
}

/// Law: after a close, hover and highlight answer nothing — the domain
/// token cache is gone — while the semantic-token stream, both recorded
/// errors and the source text are unchanged (stale by design until the
/// document is changed again).
pub proof fn lemma_close_asymmetry(d: DocM, p: EditorPos)
    ensures
        hover_m_doc(close_doc_m(d), p) is None,
        highlight_m_doc(close_doc_m(d), p) is None,
        sem_m_doc(close_doc_m(d)) == sem_m_doc(d),
        diags_m_doc(close_doc_m(d)) == diags_m_doc(d),
        close_doc_m(d).source == d.source,
{
}

/// Hover and highlight share one lookup and select the same token: hover
/// answers with its tag exactly when highlight answers with its span.
pub proof fn lemma_hover_highlight_agree(d: DocM, p: EditorPos)
    ensures
        hover_m_doc(d, p) is Some <==> highlight_m_doc(d, p) is Some,
        match (d.dom_tokens, hover_m_doc(d, p), highlight_m_doc(d, p)) {
            (Some(toks), Some(tag), Some(sp)) => lookup_m(toks, p) matches Some(t) && t.tag@ == tag
                && t.span == sp,
            (_, None, None) => true,
            _ => false,
        },
{
}

/// Law: the cached token stream of a well-formed flatten keeps its nodes'
/// spans: tokens come sorted by span start, and any two spans either nest
/// or are disjoint — a child's token sits after its parent's and within the
/// parent's span.
pub proof fn lemma_token_order<T: crate::token::TagClass>(nodes: Seq<RawNode<T>>)
    requires
        nodes_wf(nodes),
    ensures
        forall|a: int, b: int|
            0 <= a < b < tokens_of(nodes).len() ==> crate::span::pos_le(
                (#[trigger] tokens_of(nodes)[a]).span.start,
                (#[trigger] tokens_of(nodes)[b]).span.start,
            ),
        forall|a: int, b: int|
            0 <= a < b < tokens_of(nodes).len() ==> (crate::span::pos_le(
                (#[trigger] tokens_of(nodes)[b]).span.end,
                tokens_of(nodes)[a].span.end,
            ) || crate::span::pos_le(
                (#[trigger] tokens_of(nodes)[a]).span.end,
                tokens_of(nodes)[b].span.start,
            )),
{
    lemma_tokens_from_shape(nodes, Pos { line: 1, col: 1 });
    let spans = nodes.map_values(|n: RawNode<T>| n.span);
    assert(forall|m: int| 0 <= m < spans.len() ==> spans[m] == nodes[m].span);
    assert forall|a: int, b: int| 0 <= a < b < tokens_of(nodes).len() implies crate::span::pos_le(
        (#[trigger] tokens_of(nodes)[a]).span.start,
        (#[trigger] tokens_of(nodes)[b]).span.start,
    ) && (crate::span::pos_le(tokens_of(nodes)[b].span.end, tokens_of(nodes)[a].span.end)
        || crate::span::pos_le(tokens_of(nodes)[a].span.end, tokens_of(nodes)[b].span.start)) by {
        assert(tokens_of(nodes)[a].span == nodes[a].span && nodes[a].span == spans[a]);
        assert(tokens_of(nodes)[b].span == nodes[b].span && nodes[b].span == spans[b]);
        assert(crate::span::pos_le(spans[a].start, spans[b].start));
    }
}

} // verus!
