//! Finds the test cases touched by a change to feature documents and renders
//! them as a commit message trailer.

pub mod aggregate;
pub mod classify;
pub mod document;
pub mod error;
pub mod extract;
pub mod identifier;
pub mod message;
pub mod offsets;
pub mod options;
pub mod resolve;
pub mod span;
pub mod text;
pub mod trailer;

pub use crate::classify::{changes_in_tests, Change, DiffLine, Version};
pub use crate::error::ExtractNumberError;
pub use crate::extract::{changed_test_numbers, ChangedDocument, Extraction};
pub use crate::options::Options;
pub use crate::message::extend_message;
pub use crate::trailer::format_issue_references;
