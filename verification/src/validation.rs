//! The engine's limits, and the checks that need nothing but a number or a name.
use vstd::prelude::*;
use vstd::utf8::*;

use crate::error;
use crate::error::{DbError, ErrorModel, NameRejection, ValidationError, ValidationModel};

pub use crate::format::catalog::MAX_DIMENSION;

verus! {

/// The longest a document id may be, in bytes.
pub const MAX_DOC_ID_LEN: usize = 512;

/// The longest a collection name may be, in bytes.
pub const MAX_COLLECTION_NAME_LEN: usize = 64;

/// The most results a search may ask for.
pub const MAX_TOP_K: usize = 10_000;

/// The most operations a batch may hold.
pub const MAX_BATCH_OPS: usize = 100_000;

/// The most bytes a document's content may take.
pub const MAX_CONTENT_BYTES: usize = 16_777_216;

/// The most bytes a document's metadata may take once encoded.
pub const MAX_METADATA_BYTES: usize = 1_048_576;

/// The most nodes a filter may have.
pub const MAX_FILTER_NODES: usize = 1024;

/// The deepest a filter may nest.
pub const MAX_FILTER_DEPTH: usize = 32;

/// Check how many operations a batch holds.
///
/// # Errors
/// [`ValidationError::BatchTooLarge`].
pub fn check_batch_size(ops: usize) -> (r: Result<(), DbError>)
    ensures
        r is Ok == (ops <= MAX_BATCH_OPS),
        ops > MAX_BATCH_OPS ==> error::failed(
            r,
            ErrorModel::Validation(ValidationModel::BatchTooLarge { ops, max: MAX_BATCH_OPS }),
        ),
{
    if ops > MAX_BATCH_OPS {
        return Err(DbError::Validation(ValidationError::BatchTooLarge { ops, max: MAX_BATCH_OPS }));
    }
    Ok(())
}

/// Check how many results a search asks for.
///
/// # Errors
/// [`ValidationError::TopKOutOfRange`] for zero or above [`MAX_TOP_K`].
pub fn check_top_k(top_k: usize) -> (r: Result<(), DbError>)
    ensures
        r is Ok == (0 < top_k <= MAX_TOP_K),
        !(0 < top_k <= MAX_TOP_K) ==> error::failed(
            r,
            ErrorModel::Validation(
                ValidationModel::TopKOutOfRange { requested: top_k, max: MAX_TOP_K },
            ),
        ),
{
    if top_k == 0 || top_k > MAX_TOP_K {
        return Err(
            DbError::Validation(
                ValidationError::TopKOutOfRange { requested: top_k, max: MAX_TOP_K },
            ),
        );
    }
    Ok(())
}

/// Whether a collection name may hold this byte.
pub open spec fn name_byte(b: u8) -> bool {
    (0x30 <= b <= 0x39) || (0x41 <= b <= 0x5a) || (0x61 <= b <= 0x7a) || b == 0x5f || b == 0x2d
}

/// What is wrong with a collection name, if anything.
///
/// Names become directory names, so only characters every file system agrees on are allowed.
pub open spec fn name_rejected(name: Seq<u8>) -> Option<NameRejection> {
    if name.len() == 0 {
        Some(NameRejection::Empty)
    } else if name.len() > MAX_COLLECTION_NAME_LEN {
        Some(NameRejection::TooLong)
    } else if name =~= seq![0x2eu8] || name =~= seq![0x2eu8, 0x2eu8] {
        Some(NameRejection::Reserved)
    } else if exists|i: int| 0 <= i < name.len() && !name_byte(#[trigger] name[i]) {
        Some(NameRejection::IllegalCharacter)
    } else {
        None
    }
}

fn rejected_name(name: &[u8]) -> (r: Option<NameRejection>)
    ensures
        r == name_rejected(name@),
{
    if name.len() == 0 {
        return Some(NameRejection::Empty);
    }
    if name.len() > MAX_COLLECTION_NAME_LEN {
        return Some(NameRejection::TooLong);
    }
    if name[0] == 0x2e && (name.len() == 1 || (name.len() == 2 && name[1] == 0x2e)) {
        assert(name@ =~= seq![0x2eu8] || name@ =~= seq![0x2eu8, 0x2eu8]);
        return Some(NameRejection::Reserved);
    }
    assert(!(name@ =~= seq![0x2eu8]) && !(name@ =~= seq![0x2eu8, 0x2eu8]));
    let mut i: usize = 0;
    while i < name.len()
        invariant
            i <= name@.len(),
            forall|j: int| 0 <= j < i ==> name_byte(#[trigger] name@[j]),
            0 < name@.len() <= MAX_COLLECTION_NAME_LEN,
            !(name@ =~= seq![0x2eu8]),
            !(name@ =~= seq![0x2eu8, 0x2eu8]),
        decreases name.len() - i,
    {
        let b: u8 = name[i];
        if !((0x30 <= b && b <= 0x39) || (0x41 <= b && b <= 0x5a) || (0x61 <= b && b <= 0x7a) || b
            == 0x5f || b == 0x2d) {
            assert(!name_byte(name@[i as int]));
            return Some(NameRejection::IllegalCharacter);
        }
        i += 1;
    }
    None
}

/// Check a collection name.
///
/// # Errors
/// [`ValidationError::InvalidCollectionName`], naming why.
pub fn check_collection_name(name: &str) -> (r: Result<(), DbError>)
    ensures
        match name_rejected(encode_utf8(name@)) {
            Some(reason) => error::failed(
                r,
                ErrorModel::Validation(
                    ValidationModel::InvalidCollectionName { name: name@, reason },
                ),
            ),
            None => r is Ok,
        },
{
    match rejected_name(name.as_bytes()) {
        Some(reason) => Err(
            DbError::Validation(
                ValidationError::InvalidCollectionName { name: name.to_owned(), reason },
            ),
        ),
        None => Ok(()),
    }
}

} // verus!
