//! Where a document is found, and where a device keeps its data.

use crate::error::{Error, Refusal};
use crate::text::{same_text, split_first, split_once};
use vstd::prelude::*;

verus! {

/// The address of a document: `collection/doc_id`.
#[derive(Debug, PartialEq, Eq)]
pub struct DocPath {
    /// The collection.
    pub collection: String,
    /// The document.
    pub doc_id: String,
}

/// The collection and the document in an address. Neither may be empty. A document id may hold
/// slashes.
pub open spec fn path_parts(s: Seq<char>) -> Option<(Seq<char>, Seq<char>)> {
    match split_first(s, '/') {
        Some((collection, doc_id)) => if collection.len() > 0 && doc_id.len() > 0 {
            Some((collection, doc_id))
        } else {
            None
        },
        None => None,
    }
}

impl DocPath {
    /// Reads an address.
    pub fn parse(s: &str) -> (r: Result<DocPath, Error>)
        ensures
            match r {
                Ok(path) => path_parts(s@) == Some((path.collection@, path.doc_id@)),
                Err(error) => path_parts(s@) is None && error@ == Refusal::BadPath(s@),
            },
    {
        proof {
            reveal_strlit("");
        }
        match split_once(s, '/') {
            Some((collection, doc_id)) => {
                assert(collection@.len() == 0 ==> collection@ =~= ""@);
                assert(doc_id@.len() == 0 ==> doc_id@ =~= ""@);
                if same_text(&collection, "") || same_text(&doc_id, "") {
                    Err(Error::BadPath(s.to_owned()))
                } else {
                    Ok(DocPath { collection, doc_id })
                }
            },
            None => Err(Error::BadPath(s.to_owned())),
        }
    }
}

/// The directory for data: the one that is named, or else the one of the platform.
pub fn data_dir<D>(named: Option<D>, platform: Option<D>) -> (r: Result<D, Error>)
    ensures
        match r {
            Ok(dir) => named == Some(dir) || (named is None && platform == Some(dir)),
            Err(error) => named is None && platform is None && error@ == Refusal::NoDataDir,
        },
{
    match named {
        Some(dir) => Ok(dir),
        None => match platform {
            Some(dir) => Ok(dir),
            None => Err(Error::NoDataDir),
        },
    }
}

} // verus!
