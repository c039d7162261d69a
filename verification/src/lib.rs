//! A verified parser for a small, fixed subset of HTML-like markup.
//!
//! The library turns a character stream into a token stream (`tokenizer`),
//! assembles the tokens into a document tree with an explicit stack
//! (`parser`), and resolves tag and attribute names against small closed
//! vocabularies (`tag`, `attribute`) that fall back to an `Unknown` variant
//! instead of failing.  Structural failures are reported through `error`.
//! A serializer (`serializer`) re-emits a tree as markup, with proofs that
//! any tree a parse returns can be re-emitted and parsed back unchanged;
//! `depth` proves that a rebuilt tree is exactly as deep as the builder's
//! stack got while rebuilding it.
#![verifier::loop_isolation(false)]

pub mod attribute;
pub mod depth;
pub mod error;
pub mod parser;
pub mod serializer;
pub mod tag;
pub mod tokenizer;
pub mod util;
