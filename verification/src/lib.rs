//! A persistent directory-shortcut store: short names bound to directory
//! paths, kept in a plain-text backing file, one `name:path` line per entry.
//!
//! The crate is split along the data flow of the command-line tool built on
//! it: [`text`] holds character-level search primitives, [`codec`] the line
//! format and its parse/serialize contract, [`store`] the in-memory mapping
//! and its operations, [`paths`] path helpers, [`dispatch`] the translation
//! of command-line tokens into operation requests, and [`shell`] the shell
//! integration snippet.

pub mod codec;
pub mod dispatch;
pub mod paths;
pub mod shell;
pub mod store;
pub mod text;
