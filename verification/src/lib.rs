//! An auto-link insertion engine: a keyword index over a document corpus,
//! n-gram phrase matching with exact offset tracking, conflict-free and
//! deduplicated candidate selection per paragraph and per document, and a
//! splicer that rewrites a document tree's text leaves into links.

pub mod document;
pub mod front_matter;
pub mod index;
pub mod keyword;
pub mod ngram;
pub mod rng;
pub mod select;
pub mod text;
pub mod tree;
