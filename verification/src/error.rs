//! What can go wrong, and the words for it.

use crate::text::{between, surround};
use vstd::prelude::*;

verus! {

/// Why an input was refused.
#[derive(Debug, PartialEq, Eq)]
pub enum Error {
    /// A filter is not of the form `field:op:value`. Holds the filter.
    BadFilter(String),
    /// A filter has an operator that does not exist. Holds the operator.
    UnknownFilterOp(String),
    /// An order has no direction.
    BadOrder,
    /// An order has a direction that does not exist. Holds the direction.
    UnknownDirection(String),
    /// A text is no JSON. Holds what the parser says of it.
    InvalidJson(String),
    /// A text is JSON, but no object.
    NotAnObject,
    /// A value for a document is no object.
    NotADocument,
    /// A grant names an ability that does not exist. Holds the ability.
    UnknownAbility(String),
    /// A grant names no ability.
    NoAbility,
    /// There is no directory for data.
    NoDataDir,
    /// A path is not of the form `collection/doc_id`. Holds the path.
    BadPath(String),
}

/// The mathematical model of [`Error`].
pub enum Refusal {
    /// A filter is not of the form `field:op:value`.
    BadFilter(Seq<char>),
    /// A filter has an operator that does not exist.
    UnknownFilterOp(Seq<char>),
    /// An order has no direction.
    BadOrder,
    /// An order has a direction that does not exist.
    UnknownDirection(Seq<char>),
    /// A text is no JSON.
    InvalidJson(Seq<char>),
    /// A text is JSON, but no object.
    NotAnObject,
    /// A value for a document is no object.
    NotADocument,
    /// A grant names an ability that does not exist.
    UnknownAbility(Seq<char>),
    /// A grant names no ability.
    NoAbility,
    /// There is no directory for data.
    NoDataDir,
    /// A path is not of the form `collection/doc_id`.
    BadPath(Seq<char>),
}

impl View for Error {
    type V = Refusal;

    open spec fn view(&self) -> Refusal {
        match self {
            Error::BadFilter(filter) => Refusal::BadFilter(filter@),
            Error::UnknownFilterOp(op) => Refusal::UnknownFilterOp(op@),
            Error::BadOrder => Refusal::BadOrder,
            Error::UnknownDirection(dir) => Refusal::UnknownDirection(dir@),
            Error::InvalidJson(reason) => Refusal::InvalidJson(reason@),
            Error::NotAnObject => Refusal::NotAnObject,
            Error::NotADocument => Refusal::NotADocument,
            Error::UnknownAbility(ability) => Refusal::UnknownAbility(ability@),
            Error::NoAbility => Refusal::NoAbility,
            Error::NoDataDir => Refusal::NoDataDir,
            Error::BadPath(path) => Refusal::BadPath(path@),
        }
    }
}

impl Refusal {
    /// The words for the error.
    pub open spec fn words(self) -> Seq<char> {
        match self {
            Refusal::BadFilter(filter) => between(
                "--where must be 'field:op:value', got '",
                filter,
                "'",
            ),
            Refusal::UnknownFilterOp(op) => between(
                "unknown filter op '",
                op,
                "' (eq|ne|gt|ge|lt|le|contains)",
            ),
            Refusal::BadOrder => "--order must be 'field:asc' or 'field:desc'"@,
            Refusal::UnknownDirection(dir) => between(
                "unknown order direction '",
                dir,
                "' (use asc|desc)",
            ),
            Refusal::InvalidJson(_) => "document must be valid JSON"@,
            Refusal::NotAnObject => "document must be a JSON object, e.g. '{\"name\":\"x\"}'"@,
            Refusal::NotADocument => "document must serialize to a JSON object"@,
            Refusal::UnknownAbility(ability) => between(
                "unknown ability '",
                ability,
                "' (use db:read, db:write, db:admin)",
            ),
            Refusal::NoAbility => "at least one ability is required"@,
            Refusal::NoDataDir => "could not resolve a platform data dir; set CE_DATA_DIR"@,
            Refusal::BadPath(path) => between(
                "path must be 'collection/doc_id', got '",
                path,
                "'",
            ),
        }
    }
}

impl Error {
    /// The words for the error.
    pub fn message(&self) -> (r: String)
        ensures
            r@ == self@.words(),
    {
        match self {
            Error::BadFilter(filter) => surround(
                "--where must be 'field:op:value', got '",
                filter,
                "'",
            ),
            Error::UnknownFilterOp(op) => surround(
                "unknown filter op '",
                op,
                "' (eq|ne|gt|ge|lt|le|contains)",
            ),
            Error::BadOrder => "--order must be 'field:asc' or 'field:desc'".to_owned(),
            Error::UnknownDirection(dir) => surround(
                "unknown order direction '",
                dir,
                "' (use asc|desc)",
            ),
            Error::InvalidJson(_) => "document must be valid JSON".to_owned(),
            Error::NotAnObject => {
                "document must be a JSON object, e.g. '{\"name\":\"x\"}'".to_owned()
            },
            Error::NotADocument => "document must serialize to a JSON object".to_owned(),
            Error::UnknownAbility(ability) => surround(
                "unknown ability '",
                ability,
                "' (use db:read, db:write, db:admin)",
            ),
            Error::NoAbility => "at least one ability is required".to_owned(),
            Error::NoDataDir => {
                "could not resolve a platform data dir; set CE_DATA_DIR".to_owned()
            },
            Error::BadPath(path) => surround(
                "path must be 'collection/doc_id', got '",
                path,
                "'",
            ),
        }
    }
}

} // verus!
