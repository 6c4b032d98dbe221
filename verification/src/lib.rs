//! Persistent data layer of a personal budgeting tool.
//!
//! The library owns the durable representation of budget groups and their
//! transactions: it models the entities, serializes each group to a single
//! JSON document, parses such documents back, and tracks the in-memory group
//! collection together with the change events that presentation code consumes.
//! All file and directory access is left to the embedding application, which
//! hands file contents in and receives document text and filenames back.

use vstd::prelude::*;

pub mod datetime;
pub mod group;
pub mod groupdoc;
pub mod ids;
pub mod jsonstr;
pub mod save_data;
pub mod scaled;
pub mod text;
pub mod transaction;

verus! {

/// The error taxonomy of the data layer.
///
/// `IOError` is reserved for the embedding application's file access;
/// the library itself reports `ParseError` for a malformed document,
/// `NotFoundError` for an id absent from a collection, and
/// `ValidationError` for a rejected field value.
#[derive(Clone, Copy, Debug, PartialEq, Eq, Structural)]
pub enum DataError {
    IOError,
    ParseError,
    NotFoundError,
    ValidationError,
}

} // verus!
