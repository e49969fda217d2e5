//! Whether a handle may be used, and for what.
use vstd::prelude::*;

use crate::error;
use crate::error::{DbError, ErrorModel, LifecycleError, LifecycleModel};

verus! {

/// The state of a database handle.
#[derive(Debug, Clone, Copy, PartialEq, Eq, Structural)]
pub struct Access {
    /// Whether the database has been closed.
    pub closed: bool,
    /// Whether the handle never writes.
    pub read_only: bool,
}

/// The error for a closed database.
pub open spec fn closed() -> ErrorModel {
    ErrorModel::Lifecycle(LifecycleModel::DatabaseClosed)
}

impl Access {
    /// Why a write is refused, if it is.
    pub open spec fn refused(self, operation: &'static str) -> Option<ErrorModel> {
        if self.closed {
            Some(closed())
        } else if self.read_only {
            Some(ErrorModel::Lifecycle(LifecycleModel::ReadOnly { operation }))
        } else {
            None
        }
    }

    /// Whether the handle may be used at all.
    ///
    /// # Errors
    /// [`LifecycleError::DatabaseClosed`].
    pub fn check_open(self) -> (r: Result<(), DbError>)
        ensures
            if self.closed {
                error::failed(r, closed())
            } else {
                r is Ok
            },
    {
        if self.closed {
            return Err(DbError::Lifecycle(LifecycleError::DatabaseClosed));
        }
        Ok(())
    }

    /// Whether the handle may be used for a write.
    ///
    /// # Errors
    /// [`LifecycleError::DatabaseClosed`] or [`LifecycleError::ReadOnly`].
    pub fn check_writable(self, operation: &'static str) -> (r: Result<(), DbError>)
        ensures
            match self.refused(operation) {
                Some(e) => error::failed(r, e),
                None => r is Ok,
            },
    {
        match self.check_open() {
            Ok(()) => {},
            Err(e) => {
                return Err(e);
            },
        }
        if self.read_only {
            return Err(DbError::Lifecycle(LifecycleError::ReadOnly { operation }));
        }
        Ok(())
    }
}

} // verus!
