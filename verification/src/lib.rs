//! Interactive line-editing core for a terminal database shell.
//!
//! The library turns a stream of key events into a submitted query string,
//! offering chronological command-history recall and schema-symbol
//! tab-completion, both backed by a prefix trie that can be written to and
//! restored from a textual snapshot.

pub mod completion;
pub mod connector;
pub mod formatter;
pub mod query;
pub mod trie;
pub mod ui;
pub mod text;
