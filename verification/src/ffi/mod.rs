//! What the C boundary decides.
//!
//! Receiving pointers and handing them out is done outside; here is what a call means once its
//! arguments are plain values, and which status it ends in.
use vstd::prelude::*;
use vstd::utf8::*;

use crate::api::config;
use crate::api::config::DatabaseConfig;
use crate::bytes::text_of;
use crate::document;
use crate::document::{DocId, IdKind};
use crate::error::code;
use crate::error::DbError;
use crate::format::catalog::Metric;
use crate::format::FORMAT_VERSION;
use crate::persistence::Durability;

pub mod filter;
pub mod results;

verus! {

/// Success.
pub const VDB_OK: i32 = 0;

/// A required pointer was null.
pub const VDB_NULL_POINTER: i32 = -1;

/// A panic was caught at the boundary. Always a bug in the engine.
pub const VDB_INTERNAL: i32 = -2;

/// A string argument was not valid UTF-8.
pub const VDB_INVALID_UTF8: i32 = -3;

/// A discriminant argument was outside its defined range.
pub const VDB_INVALID_ARGUMENT: i32 = -4;

/// The ABI revision.
///
/// Bumped on any change to the boundary. A binding checks it at load and refuses a mismatch,
/// which is the difference between a clear error and a crash when an application ships a prebuilt
/// library and an SDK that were built at different times.
pub const VDB_ABI_VERSION: u32 = 1;

/// The discriminant of the cosine metric.
pub const METRIC_COSINE: i32 = 1;

/// The discriminant of the Euclidean metric.
pub const METRIC_L2: i32 = 2;

/// The discriminant of the inner product.
pub const METRIC_DOT: i32 = 3;

/// The discriminant of full durability.
pub const DURABILITY_FULL: i32 = 1;

/// The discriminant of batch durability.
pub const DURABILITY_BATCH: i32 = 2;

/// The discriminant of relaxed durability.
pub const DURABILITY_RELAXED: i32 = 3;

/// A failure at the boundary, before or after the engine was involved.
#[derive(Debug)]
pub enum Boundary {
    /// A required pointer was null.
    Null,
    /// A string argument was not UTF-8.
    Utf8,
    /// A discriminant was outside its range.
    InvalidArgument,
    /// The engine itself reported a failure.
    Db(DbError),
}

/// The ABI revision this library implements. See [`VDB_ABI_VERSION`].
pub fn vdb_abi_version() -> (r: u32)
    ensures
        r == VDB_ABI_VERSION,
{
    VDB_ABI_VERSION
}

/// The on-disk format version this library writes.
pub fn vdb_format_version() -> (r: u32)
    ensures
        r == FORMAT_VERSION,
{
    FORMAT_VERSION as u32
}

/// The status that a failure is reported as.
pub open spec fn status_of(e: Boundary) -> i32 {
    match e {
        Boundary::Null => VDB_NULL_POINTER,
        Boundary::Utf8 => VDB_INVALID_UTF8,
        Boundary::InvalidArgument => VDB_INVALID_ARGUMENT,
        Boundary::Db(e) => code::code_of(e@) as i32,
    }
}

/// The status that a failure is reported as: the engine's own code where the engine failed.
pub fn status(e: &Boundary) -> (r: i32)
    ensures
        r == status_of(*e),
        r != VDB_OK,
        (r > 0) == (e is Db),
{
    match e {
        Boundary::Null => VDB_NULL_POINTER,
        Boundary::Utf8 => VDB_INVALID_UTF8,
        Boundary::InvalidArgument => VDB_INVALID_ARGUMENT,
        Boundary::Db(e) => {
            proof {
                code::lemma_every_failure_has_a_code(e@);
                let i = choose|i: int|
                    0 <= i < code::RELEASED@.len() && #[trigger] code::RELEASED@[i]
                        == code::code_of(e@);
                code::lemma_codes_are_banded(i);
            }
            e.code().0 as i32
        },
    }
}

/// The metric that a discriminant stands for.
///
/// # Errors
/// [`Boundary::InvalidArgument`] for any other number.
pub fn metric_of(discriminant: i32) -> (r: Result<Metric, Boundary>)
    ensures
        r == if discriminant == 1 {
            Ok::<Metric, Boundary>(Metric::Cosine)
        } else if discriminant == 2 {
            Ok(Metric::L2)
        } else if discriminant == 3 {
            Ok(Metric::Dot)
        } else {
            Err(Boundary::InvalidArgument)
        },
{
    if discriminant == METRIC_COSINE {
        Ok(Metric::Cosine)
    } else if discriminant == METRIC_L2 {
        Ok(Metric::L2)
    } else if discriminant == METRIC_DOT {
        Ok(Metric::Dot)
    } else {
        Err(Boundary::InvalidArgument)
    }
}

/// The durability that a discriminant stands for.
///
/// # Errors
/// [`Boundary::InvalidArgument`] for any other number.
pub fn durability_of(discriminant: i32) -> (r: Result<Durability, Boundary>)
    ensures
        r == if discriminant == 1 {
            Ok::<Durability, Boundary>(Durability::Full)
        } else if discriminant == 2 {
            Ok(Durability::Batch)
        } else if discriminant == 3 {
            Ok(Durability::Relaxed)
        } else {
            Err(Boundary::InvalidArgument)
        },
{
    if discriminant == DURABILITY_FULL {
        Ok(Durability::Full)
    } else if discriminant == DURABILITY_BATCH {
        Ok(Durability::Batch)
    } else if discriminant == DURABILITY_RELAXED {
        Ok(Durability::Relaxed)
    } else {
        Err(Boundary::InvalidArgument)
    }
}

/// The settings that an open asks for. A read-only open creates nothing.
///
/// # Errors
/// [`Boundary::InvalidArgument`] for an unknown durability.
pub fn open_config(create_if_missing: bool, read_only: bool, durability: i32) -> (r: Result<
    DatabaseConfig,
    Boundary,
>)
    ensures
        1 <= durability <= 3 ==> {
            &&& r matches Ok(c)
            &&& c.create_if_missing == (create_if_missing && !read_only)
            &&& c.read_only == read_only
            &&& c.durability == if durability == 1 {
                Durability::Full
            } else if durability == 2 {
                Durability::Batch
            } else {
                Durability::Relaxed
            }
            &&& c.flush_threshold_bytes == config::DEFAULT_FLUSH_THRESHOLD_BYTES
        },
        !(1 <= durability <= 3) ==> r == Err::<DatabaseConfig, Boundary>(
            Boundary::InvalidArgument,
        ),
{
    match durability_of(durability) {
        Ok(d) => Ok(
            DatabaseConfig::default().create_if_missing(create_if_missing && !read_only).read_only(
                read_only,
            ).durability(d),
        ),
        Err(e) => Err(e),
    }
}

/// A text argument.
///
/// # Errors
/// [`Boundary::Utf8`] for bytes that are none.
pub fn borrow_str(bytes: &[u8]) -> (r: Result<&str, Boundary>)
    ensures
        if valid_utf8(bytes@) {
            r matches Ok(s) && s@ == decode_utf8(bytes@)
        } else {
            r matches Err(e) && e is Utf8
        },
{
    match text_of(bytes) {
        Some(s) => Ok(s),
        None => Err(Boundary::Utf8),
    }
}

/// Interpret id bytes according to a collection's id kind.
///
/// # Errors
/// As [`DocId::from_bytes`].
pub fn decode_id(kind: IdKind, bytes: &[u8]) -> (r: Result<DocId, Boundary>)
    ensures
        match document::id_of(kind, bytes@) {
            Ok(m) => r matches Ok(id) && id@ == m,
            Err(e) => r matches Err(Boundary::Db(x)) && x@ == e,
        },
{
    match DocId::from_bytes(kind, bytes) {
        Ok(id) => Ok(id),
        Err(e) => Err(Boundary::Db(e)),
    }
}

/// A failure at the boundary has a negative status of its own, and one of the database the code that
/// the database gives it.
pub proof fn lemma_statuses(e: Boundary)
    ensures
        e is Null <==> status_of(e) == -1,
        e is Utf8 <==> status_of(e) == -3,
        e is InvalidArgument <==> status_of(e) == -4,
        e matches Boundary::Db(x) ==> status_of(e) == code::code_of(x@) && status_of(e) >= 1001,
{
    if let Boundary::Db(x) = e {
        code::lemma_codes_tell_failures_apart(x@);
    }
}

} // verus!
