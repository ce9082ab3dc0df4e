//! Extraction of searchable terms from stored text documents.
//!
//! The library turns a document's raw bytes into its list of canonical
//! terms: the bytes are decoded as UTF-8, lowercased with full Unicode
//! case folding, stripped of every character that is neither alphabetic
//! nor whitespace, split on whitespace runs, and finally cleared of
//! one-character tokens.  A second entry point maps storage-read and
//! decoding failures to structured, per-document errors for the indexing
//! engine that drives the extraction.

pub mod adapter;
pub mod extract;
pub mod text;
