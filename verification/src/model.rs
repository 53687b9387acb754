//! Models for the `WordPress` REST API.

pub mod discovery;
pub mod extensions;
pub mod link;
pub mod media;
pub mod resource;

use crate::clock::Timestamp;
use vstd::prelude::*;

verus! {

/// A JSON value whose shape is not modelled, as text.
#[derive(Clone, Debug, Eq, PartialEq)]
pub struct Json {
    pub text: String,
}

/// The JSON value `null`, where no other was observed.
#[derive(Clone, Copy, Debug, Eq, PartialEq)]
pub struct Null {}

/// A `{ "rendered": … }` value, as returned for titles, content, and excerpts.
#[derive(Clone, Debug, Eq, PartialEq)]
pub struct Rendered {
    pub rendered: String,
    pub protected: Option<bool>,
}

/// The local and UTC publication dates that occur together on content resources.
///
/// A date without a zone is held as the point in time that it denotes in UTC.
#[derive(Clone, Copy, Debug, Eq, PartialEq)]
pub struct PublicationDates {
    pub date: Option<Timestamp>,
    pub date_gmt: Option<Timestamp>,
}

impl PublicationDates {
    /// The publication time, from the UTC field.
    #[must_use]
    pub fn timestamp(&self) -> (timestamp: Option<Timestamp>)
        ensures
            timestamp == self.date_gmt,
    {
        self.date_gmt
    }
}

/// The local and UTC modification dates that occur together on mutable resources.
///
/// A date without a zone is held as the point in time that it denotes in UTC.
#[derive(Clone, Copy, Debug, Eq, PartialEq)]
pub struct ModificationDates {
    pub modified: Option<Timestamp>,
    pub modified_gmt: Option<Timestamp>,
}

/// A GMT offset represented as either a JSON number or a numeric string.
#[derive(Clone, Debug, Eq, PartialEq)]
pub enum GmtOffset {
    /// The number, as JSON writes it.
    Number(String),
    /// The string.
    String(String),
}

} // verus!
