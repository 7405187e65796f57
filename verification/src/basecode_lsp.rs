//! The language-server side of the crate: tokenizing, completion queries,
//! document synchronization, and per-source word lists.

pub mod file;
pub mod sync;
pub mod tmux;
pub mod util;
