//! A document store whose replicas converge.
//!
//! A collection maps ids to JSON documents. Every device writes operations under keys that order
//! all operations of all devices, and every device folds the operations that have reached it, in
//! the order of their keys. What it reads is a function of the set of operations, whatever order
//! they arrived in.
//!
//! * [`json`], [`number`], [`map`] and [`text`] are the values that documents are made of.
//! * [`doc`] is the fold of one operation after the other.
//! * [`merge`] is the union of the operations that have reached a device.
//! * [`convergence`] states what holds of every collection.
//! * [`collection`] is one device's part of a collection: its clock, its writes and its reads.
//! * [`query`] and [`sort`] filter, order and limit documents.
//! * [`laws`] states what all of this means, in terms of sequences, maps and strings alone.
//! * [`parse`], [`write`], [`path`], [`grant`], [`report`] and [`error`] are what a command line
//!   needs: reading its arguments, and the lines that it shows.

pub mod collection;
pub mod convergence;
pub mod doc;
pub mod error;
pub mod grant;
pub mod json;
pub mod laws;
pub mod map;
pub mod merge;
pub mod number;
pub mod parse;
pub mod path;
pub mod query;
pub mod report;
pub mod sort;
pub mod text;
pub mod write;

pub use collection::{Collection, Snapshot};
pub use doc::{DbMachine, DocOp, OpKey, OpKind};
pub use error::Error;
pub use grant::{ABILITY_ADMIN, ABILITY_READ, ABILITY_WRITE};
pub use json::{Document, Value};
pub use map::StringMap;
pub use merge::OpSet;
pub use number::Number;
pub use path::DocPath;
pub use query::{Dir, Filter, Op, Query};
