//! Change detection for a workspace of managed documents.
//!
//! The crate classifies files by a structured frontmatter marker, enumerates
//! the managed documents under a workspace root, suppresses notifications for
//! writes the application itself performed, and turns raw filesystem
//! notifications into classified domain events.

pub mod classifier;
pub mod guard;
pub mod paths;
pub mod scanner;
pub mod skip;
pub mod sorting;
pub mod text;
pub mod watcher;
