//! Language-intelligence core for documents parsed under two grammars.
//!
//! The crate keeps, per open document, the current source text and two token
//! streams: one from a generic s-expression grammar, parsed here, and one
//! from the Marlowe contract grammar, a black-box capability whose
//! flattened report the caller hands in with each mutation. Edits are
//! applied incrementally to the text, both grammars are re-run in full
//! after every mutation, and editor queries (hover, highlight, semantic
//! tokens, diagnostics) are answered from the cached results.

pub mod lookup;
pub mod position;
pub mod sexpr;
pub mod span;
pub mod store;
pub mod token;
