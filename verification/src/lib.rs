//! Incremental prefix-trie word index for autocomplete.
//!
//! The heart of the crate is [`trie::Trie`], a character-keyed prefix tree
//! that keeps a non-negative occurrence count per word and prunes nodes
//! eagerly once they no longer contribute to any stored word.  Around it
//! stand the tokenizer and completion-query helpers of the language-server
//! backend, snippet-file parsing, and the word lists scraped from terminal
//! panes.

pub mod basecode_lsp;
pub mod file;
pub mod snippets;
pub mod tmux;
mod text;
pub mod trie;
