//! Discovery of the files that may hold class-name candidates, and of the
//! watch globs that cover them.
//!
//! The library decides and the caller acts: it is handed what a walk of the
//! file system admitted and what a listing of a base directory holds, and is
//! lent the functions that read a file, pre-process content, extract
//! candidates and optimize globs.
//!
//! - [`sources`]: the source directives and the entries they become.
//! - [`walker`]: the ignore compiler, which makes the walker's configuration.
//! - [`rules`] and [`paths`]: the built-in ignore rules and the path classifier;
//!   [`table_order`] shows that the table of known extensions is sorted.
//! - [`text`] and [`glob`]: the order of texts and bytes, and the watch globs.
//! - [`mtime`]: the change filter and the effective modification time.
//! - [`tree`] and [`detect_sources`]: listings, and the glob resolver.
//! - [`invariants`]: what holds of every classification the resolver makes.
//! - [`content`]: lines, candidates and their positions.
//! - [`scanner`]: the orchestrator.
//! - [`debug`]: whether tracing is wanted.
//! - [`collections`], [`gitignore`]: what the library takes on trust from the
//!   crates `fxhash` and `ignore`; `bstr` and `rayon` are used in [`content`].

pub mod collections;
pub mod content;
pub mod debug;
pub mod detect_sources;
pub mod gitignore;
pub mod glob;
pub mod invariants;
pub mod mtime;
pub mod paths;
pub mod rules;
pub mod scanner;
pub mod sources;
pub mod table_order;
pub mod text;
pub mod tree;
pub mod walker;

pub use glob::GlobEntry;
pub use scanner::{ChangedContent, ScanOptions, ScanResult, Scanner};
pub use sources::PublicSourceEntry;
