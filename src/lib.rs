//! Keeps a machine-managed section of a Markdown file up to date with a list of repositories.
//!
//! The section is delimited by the comment markers `<!--START_SECTION:name-->` and
//! `<!--END_SECTION:name-->`. The library locates those markers, computes the replaced file
//! content, formats repository records as Markdown list items and decides the steps of a run;
//! reading and writing files, running the listing command and JSON encoding are left to the
//! caller.

pub mod error;
pub mod format;
pub mod locate;
pub mod markdown;
pub mod marker;
pub mod model;
pub mod path;
pub mod run;
pub mod section;
pub mod text;

pub use crate::error::{AppError, ErrorColor, ParserError, PrinterError};
pub use crate::marker::{CommentBlock, Marker};
pub use crate::model::{Config, GitRepo, GitRepoListItem, List, RepositoryTopic, DB};
pub use crate::run::{App, RunAction, RunEvent, RunState};
