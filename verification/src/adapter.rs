//! The per-document indexing step: joins the outcome of a storage read
//! with the term extractor and maps each failure to a structured,
//! attributable error, so that one document's failure never masks
//! another's result.

use vstd::prelude::*;

use vstd::utf8::valid_utf8;

use crate::extract::{extract_terms, terms_of};

verus! {

/// Why indexing one document failed.  Both kinds abort indexing for that
/// single document only and carry the document's identifier, so the
/// engine can attribute the failure.
#[derive(Debug)]
pub enum IndexingError {
    /// The document's bytes could not be fetched; carries the document
    /// identifier and the storage collaborator's cause message.
    StorageReadError { name: String, cause: String },
    /// The fetched bytes are not valid UTF-8 text; carries the document
    /// identifier and a prefix length up to which the bytes are valid
    /// UTF-8 while one byte more no longer is.
    DecodeError { name: String, valid_up_to: usize },
}

/// Indexes one document.  Given the document's identifier and the outcome
/// of reading its bytes from storage, returns the document's full term
/// list; a failed read becomes a `StorageReadError` and bytes that are
/// not valid UTF-8 become a `DecodeError`, each naming exactly the given
/// document.
pub fn index_document(name: String, read: Result<Vec<u8>, String>) -> (r: Result<
    Vec<String>,
    IndexingError,
>)
    ensures
        read is Err ==> r == Result::<Vec<String>, IndexingError>::Err(
            IndexingError::StorageReadError { name, cause: read->Err_0 },
        ),
        read is Ok ==> {
            &&& (r is Ok <==> valid_utf8(read->Ok_0@))
            &&& (r is Ok ==> r->Ok_0.deep_view() == terms_of(read->Ok_0@))
            &&& (r is Err ==> (r->Err_0 matches IndexingError::DecodeError {
                name: n,
                valid_up_to: p,
            } && n == name && p < read->Ok_0@.len() && valid_utf8(read->Ok_0@.take(p as int))
                && !valid_utf8(read->Ok_0@.take(p as int + 1))))
        },
{
    match read {
        Err(cause) => Err(IndexingError::StorageReadError { name, cause }),
        Ok(bytes) => match extract_terms(bytes.as_slice()) {
            Ok(terms) => Ok(terms),
            Err(pos) => Err(IndexingError::DecodeError { name, valid_up_to: pos }),
        },
    }
}

} // verus!
