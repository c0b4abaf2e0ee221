//! Backwards-compatibility checks for Cap'n Proto schemas.
//!
//! Two sets of schema files, an earlier and a later one, are compared node by node and
//! ordinal by ordinal. The comparison reports what breaks readers, writers or callers of
//! the earlier schemas, and remarks on what is wrong or unwise about the files.
//!
//! - `text`, `order`, `names` and `path` are the ground: texts, orders, maps with names
//!   as keys, and file paths.
//! - `lexer`, `parser` and `file_id` read a schema text, in which `comments` count for
//!   nothing; `snapshot` puts the files of one side together.
//! - `lint` and `compare` compare the two sides; `compatibility` says what it takes for
//!   them to be compatible; `report` prints the outcome.
//! - `config` and `mode` read the command line; `glob`, `listing` and `discover` select
//!   files; `git`, `command` and `export` say what to take out of a repository and how.
//! - `check` ties all of it together. What touches the outside world is left to the
//!   caller: a check asks for an action and goes on with what came of it.
//! - `moved` and `trees` say what holds of trees that were taken out of a repository,
//!   wherever they were put.
//! - `laws` says what all of these are for: how what they give back relates to what they
//!   are given.

pub mod check;
pub mod command;
pub mod comments;
pub mod compare;
pub mod compatibility;
pub mod config;
pub mod discover;
pub mod export;
pub mod file_id;
pub mod git;
pub mod glob;
pub mod laws;
pub mod lexer;
pub mod lint;
pub mod listing;
pub mod mode;
pub mod moved;
pub mod names;
pub mod order;
pub mod parser;
pub mod path;
pub mod report;
pub mod schema;
pub mod snapshot;
pub mod text;
pub mod trees;

pub use crate::check::check;
pub use crate::compare::compare;
pub use crate::config::{parse_args, usage, CheckConfig};
pub use crate::discover::{discover_capnp_files, discover_capnp_sources, DiscoveredSources};
pub use crate::parser::parse_schema;
pub use crate::report::{format_report, violation_paths};
pub use crate::schema::{
    EnumValue, Error, Field, Lint, LintSeverity, Method, Node, NodeKind, Report, SchemaFile,
    SchemaSet, Snapshot, Violation,
};
pub use crate::snapshot::snapshot_files;
