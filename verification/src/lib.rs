//! A text snapshot of a directory tree: which file types it holds, its
//! listing, the text of its files, and what was left out.

pub mod entry;
pub mod filter;
pub mod guarantees;
pub mod histogram;
pub mod path;
pub mod snapshot;
pub mod text;
pub mod walk;
