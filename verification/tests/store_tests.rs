use marlowe_lsp::position::{EditorPos, EditorRange};
use marlowe_lsp::span::{Pos, Span};
use marlowe_lsp::store::{check_report, DocumentStore, Edit, GrammarReport};
use marlowe_lsp::token::{GrammarError, RawNode};

fn uri(s: &str) -> String {
    s.to_string()
}

fn txt(s: &str) -> Vec<u8> {
    s.as_bytes().to_vec()
}

fn pos(line: usize, character: usize) -> EditorPos {
    EditorPos { line, character }
}

fn span(sl: usize, sc: usize, el: usize, ec: usize) -> Span {
    Span {
        start: Pos { line: sl, col: sc },
        end: Pos { line: el, col: ec },
    }
}

fn err_report(msg: &str, sl: usize, sc: usize, el: usize, ec: usize) -> GrammarReport {
    Err(GrammarError {
        message: msg.to_string(),
        span: span(sl, sc, el, ec),
    })
}

fn node(tag: &str, sl: usize, sc: usize, el: usize, ec: usize, sb: usize, eb: usize) -> RawNode<String> {
    RawNode {
        span: span(sl, sc, el, ec),
        start_byte: sb,
        end_byte: eb,
        tag: tag.to_string(),
    }
}

/// The domain grammar's flattened report for the text `Close`: the top rule
/// first, the leaf it matched after it, both over the same span.
fn close_report() -> GrammarReport {
    Ok(vec![
        node("Contract", 1, 1, 1, 6, 0, 5),
        node("Close", 1, 1, 1, 6, 0, 5),
    ])
}

#[test]
fn number_document_has_one_semantic_token() {
    let mut store = DocumentStore::new();
    let rep = err_report("expected Contract", 1, 1, 1, 1);
    assert!(check_report(&rep));
    store.open(uri("file:///a"), txt("42"), rep);
    let toks = store.semantic_tokens(&uri("file:///a")).unwrap();
    assert_eq!(toks.len(), 1);
    assert_eq!(toks[0].delta_line, 0);
    assert_eq!(toks[0].delta_start, 0);
    assert_eq!(toks[0].length, 2);
    assert_eq!(toks[0].token_type, 2);
    assert_eq!(toks[0].modifier_bits, 0);
}

#[test]
fn domain_invalid_text_reports_domain_error_and_no_hover() {
    let mut store = DocumentStore::new();
    let rep = err_report("expected Contract, found `(`", 1, 1, 1, 1);
    store.open(uri("file:///a"), txt("(foo"), rep);
    let diags = store.diagnostics(&uri("file:///a"));
    assert_eq!(diags.len(), 1);
    assert_eq!(diags[0].code, "Marlowe parser error");
    assert_eq!(diags[0].message, "expected Contract, found `(`");
    assert_eq!(diags[0].span, span(0, 1, 0, 1));
    for character in 0..5 {
        assert!(store.hover(&uri("file:///a"), pos(0, character)).is_none());
    }
}

#[test]
fn hover_and_highlight_find_innermost_token() {
    let mut store = DocumentStore::new();
    store.open(uri("file:///c"), txt("Close"), close_report());
    let hover = store.hover(&uri("file:///c"), pos(0, 0));
    assert_eq!(hover.unwrap(), "Close");
    let hl = store.highlight(&uri("file:///c"), pos(0, 0)).unwrap();
    assert_eq!(hl, span(0, 0, 0, 5));
}

#[test]
fn close_drops_hover_but_keeps_semantic_tokens() {
    let mut store = DocumentStore::new();
    store.open(uri("file:///c"), txt("Close"), close_report());
    assert!(store.hover(&uri("file:///c"), pos(0, 0)).is_some());
    let before = store.semantic_tokens(&uri("file:///c")).unwrap();
    store.close(&uri("file:///c"));
    assert!(store.hover(&uri("file:///c"), pos(0, 0)).is_none());
    assert!(store.highlight(&uri("file:///c"), pos(0, 0)).is_none());
    let after = store.semantic_tokens(&uri("file:///c")).unwrap();
    assert_eq!(before, after);
}

#[test]
fn full_replace_matches_fresh_open() {
    let mut edited = DocumentStore::new();
    edited.open(uri("file:///a"), txt("abc"), err_report("e1", 1, 1, 1, 1));
    edited.change(
        &uri("file:///a"),
        &vec![Edit::Full(txt("42"))],
        err_report("e2", 1, 1, 1, 2),
    );

    let mut fresh = DocumentStore::new();
    fresh.open(uri("file:///a"), txt("42"), err_report("e2", 1, 1, 1, 2));

    assert_eq!(
        edited.semantic_tokens(&uri("file:///a")),
        fresh.semantic_tokens(&uri("file:///a"))
    );
    let d1 = edited.diagnostics(&uri("file:///a"));
    let d2 = fresh.diagnostics(&uri("file:///a"));
    assert_eq!(d1.len(), d2.len());
    assert_eq!(d1[0].code, d2[0].code);
    assert_eq!(d1[0].message, d2[0].message);
    assert_eq!(d1[0].span, d2[0].span);
    assert_eq!(
        edited.hover(&uri("file:///a"), pos(0, 0)),
        fresh.hover(&uri("file:///a"), pos(0, 0))
    );
}

#[test]
fn ranged_edit_matches_full_replace_of_spliced_text() {
    let range = EditorRange {
        start: pos(0, 6),
        end: pos(0, 11),
    };
    let mut ranged = DocumentStore::new();
    ranged.open(uri("file:///a"), txt("hello world"), err_report("e", 1, 1, 1, 1));
    let preview = ranged
        .preview_change(&uri("file:///a"), &vec![Edit::Ranged(range, txt("there"))])
        .unwrap();
    assert_eq!(preview, txt("hello there"));
    ranged.change(
        &uri("file:///a"),
        &vec![Edit::Ranged(range, txt("there"))],
        err_report("e", 1, 1, 1, 1),
    );

    let mut full = DocumentStore::new();
    full.open(uri("file:///a"), txt("hello there"), err_report("e", 1, 1, 1, 1));
    assert_eq!(
        ranged.semantic_tokens(&uri("file:///a")),
        full.semantic_tokens(&uri("file:///a"))
    );
}

#[test]
fn out_of_range_edit_degrades_to_front_splice() {
    let mut store = DocumentStore::new();
    store.open(uri("file:///a"), txt("abc"), err_report("e", 1, 1, 1, 1));
    let range = EditorRange {
        start: pos(99, 0),
        end: pos(99, 1),
    };
    let preview = store
        .preview_change(&uri("file:///a"), &vec![Edit::Ranged(range, txt("X"))])
        .unwrap();
    assert_eq!(preview, txt("Xabc"));
}

#[test]
fn generic_error_takes_priority_over_domain_error() {
    let mut store = DocumentStore::new();
    store.open(
        uri("file:///a"),
        txt("\"unterminated"),
        err_report("domain failure", 1, 1, 1, 5),
    );
    let diags = store.diagnostics(&uri("file:///a"));
    assert_eq!(diags.len(), 1);
    assert_eq!(diags[0].code, "S-Expression parser error");
    assert_eq!(diags[0].message, "unterminated string literal");
    assert_eq!(diags[0].span, span(0, 1, 0, 14));
    assert!(store.semantic_tokens(&uri("file:///a")).unwrap().is_empty());
}

#[test]
fn delta_encoding_across_lines() {
    let mut store = DocumentStore::new();
    store.open(uri("file:///a"), txt("a 42\nb \"x\""), err_report("e", 1, 1, 1, 1));
    let toks = store.semantic_tokens(&uri("file:///a")).unwrap();
    let got: Vec<(usize, usize, usize, u32)> = toks
        .iter()
        .map(|t| (t.delta_line, t.delta_start, t.length, t.token_type))
        .collect();
    assert_eq!(
        got,
        vec![(0, 0, 1, 0), (0, 2, 2, 2), (1, 0, 1, 0), (0, 2, 3, 1)]
    );
}

#[test]
fn other_bytes_classify_to_sentinel() {
    let mut store = DocumentStore::new();
    store.open(uri("file:///a"), txt("(foo"), err_report("e", 1, 1, 1, 1));
    let toks = store.semantic_tokens(&uri("file:///a")).unwrap();
    let got: Vec<(usize, usize, usize, u32)> = toks
        .iter()
        .map(|t| (t.delta_line, t.delta_start, t.length, t.token_type))
        .collect();
    assert_eq!(got, vec![(0, 0, 1, 99), (0, 1, 3, 0)]);
}

#[test]
fn hover_prefers_later_starting_token() {
    let mut store = DocumentStore::new();
    let rep: GrammarReport = Ok(vec![
        node("Parent", 1, 1, 1, 10, 0, 9),
        node("Child", 1, 2, 1, 4, 1, 3),
    ]);
    store.open(uri("file:///n"), txt("(abc def)"), rep);
    assert_eq!(store.hover(&uri("file:///n"), pos(0, 0)).unwrap(), "Parent");
    assert_eq!(store.hover(&uri("file:///n"), pos(0, 2)).unwrap(), "Child");
}

#[test]
fn reopening_a_known_document_changes_nothing() {
    let mut store = DocumentStore::new();
    store.open(uri("file:///a"), txt("a"), err_report("e", 1, 1, 1, 1));
    let before = store.semantic_tokens(&uri("file:///a"));
    store.open(uri("file:///a"), txt("bbbb"), err_report("e", 1, 1, 1, 1));
    assert_eq!(before, store.semantic_tokens(&uri("file:///a")));
}

#[test]
fn queries_on_unknown_documents_answer_nothing() {
    let store = DocumentStore::new();
    assert!(store.semantic_tokens(&uri("file:///nope")).is_none());
    assert!(store.hover(&uri("file:///nope"), pos(0, 0)).is_none());
    assert!(store.highlight(&uri("file:///nope"), pos(0, 0)).is_none());
    assert!(store.diagnostics(&uri("file:///nope")).is_empty());
}

#[test]
fn cursor_before_every_token_answers_nothing() {
    let mut store = DocumentStore::new();
    let rep: GrammarReport = Ok(vec![node("Close", 1, 3, 1, 8, 2, 7)]);
    store.open(uri("file:///n"), txt("  Close"), rep);
    assert!(store.hover(&uri("file:///n"), pos(0, 0)).is_none());
    assert!(store.highlight(&uri("file:///n"), pos(0, 0)).is_none());
    assert_eq!(store.hover(&uri("file:///n"), pos(0, 4)).unwrap(), "Close");
}

#[test]
fn check_report_rejects_malformed_reports() {
    assert!(!check_report(&err_report("zero line", 0, 1, 0, 1)));
    let unsorted: GrammarReport = Ok(vec![
        node("B", 1, 5, 1, 6, 4, 5),
        node("A", 1, 1, 1, 2, 0, 1),
    ]);
    assert!(!check_report(&unsorted));
    assert!(check_report(&close_report()));
    assert!(check_report(&err_report("fine", 1, 1, 2, 3)));
}

#[test]
fn string_tokens_measure_length_in_bytes() {
    let mut store = DocumentStore::new();
    store.open(uri("file:///a"), txt("\"ab\""), err_report("e", 1, 1, 1, 1));
    let toks = store.semantic_tokens(&uri("file:///a")).unwrap();
    assert_eq!(toks.len(), 1);
    assert_eq!(toks[0].length, 4);
    assert_eq!(toks[0].token_type, 1);
}

#[test]
fn change_after_close_restores_domain_tokens() {
    let mut store = DocumentStore::new();
    store.open(uri("file:///c"), txt("Close"), close_report());
    store.close(&uri("file:///c"));
    assert!(store.hover(&uri("file:///c"), pos(0, 0)).is_none());
    store.change(
        &uri("file:///c"),
        &vec![Edit::Full(txt("Close"))],
        close_report(),
    );
    assert_eq!(store.hover(&uri("file:///c"), pos(0, 0)).unwrap(), "Close");
}
