//! The lock gate.
//!
//! Every lockable row carries an optional `locked_at` timestamp in
//! seconds. A row with a timestamp at or before the present moment is
//! locked, and every flow asks here before such a row enters an
//! authentication decision.

use vstd::prelude::*;

use crate::errors::{AuthenticateError, Error, ValidationError};

verus! {

/// A record is locked when `locked_at` is set to a time at or before `now`.
pub open spec fn is_locked_spec(locked_at: Option<u64>, now: u64) -> bool {
    match locked_at {
        Some(t) => t <= now,
        None => false,
    }
}

/// Executable form of `is_locked_spec`.
pub fn is_locked(locked_at: &Option<u64>, now: u64) -> (r: bool)
    ensures
        r == is_locked_spec(*locked_at, now),
{
    match locked_at {
        Some(t) => *t <= now,
        None => false,
    }
}

/// The lock gate: pass, or fail with `Locked`.
pub fn check_lock(locked_at: &Option<u64>, now: u64) -> (r: Result<(), Error>)
    ensures
        r == if is_locked_spec(*locked_at, now) {
            Err::<(), Error>(Error::Authenticate(AuthenticateError::Locked))
        } else {
            Ok::<(), Error>(())
        },
{
    if is_locked(locked_at, now) {
        Err(Error::Authenticate(AuthenticateError::Locked))
    } else {
        Ok(())
    }
}

/// A lock timestamp may only be persisted if it does not lie in the future.
pub open spec fn lock_timestamp_ok(locked_at: Option<u64>, now: u64) -> bool {
    match locked_at {
        Some(t) => t <= now,
        None => true,
    }
}

/// Constraint check on a caller-supplied lock timestamp: a value in the
/// future is rejected with `InvalidLockTimestamp`.
pub fn validate_lock_timestamp(locked_at: &Option<u64>, now: u64) -> (r: Result<(), Error>)
    ensures
        r == if lock_timestamp_ok(*locked_at, now) {
            Ok::<(), Error>(())
        } else {
            Err::<(), Error>(Error::Validation(ValidationError::InvalidLockTimestamp))
        },
{
    match locked_at {
        Some(t) => {
            if *t <= now {
                Ok(())
            } else {
                Err(Error::Validation(ValidationError::InvalidLockTimestamp))
            }
        }
        None => Ok(()),
    }
}

} // verus!
