//! Bulk renaming of filesystem paths through an editable text listing.
//!
//! The crate computes and validates rename plans; it performs no I/O.


pub mod ancestor;
pub mod collector;
pub mod error;
pub mod executor;
pub mod laws;
pub mod listing;
pub mod renamed;
pub mod report;
pub mod targets;
pub mod text;
pub mod validator;

pub use ancestor::get_ancestor;
pub use collector::{collect, reads_stdin, PathList};
pub use error::{AncestorConflict, ConflictReport, DuplicateTarget, RenameError};
pub use executor::RenameStep;
pub use listing::{parse_listing, render_listing};
pub use validator::{validate, RenamePlan};
