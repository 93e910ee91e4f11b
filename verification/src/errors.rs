//! The error taxonomy of the engine.
//!
//! Every business failure of the flows is one of these typed values; storage
//! and transport failures are not part of the library and stay with its
//! callers.

use vstd::prelude::*;

verus! {

/// Why an authentication step was refused.
#[derive(Clone, Copy, Debug, PartialEq, Eq, Structural)]
pub enum AuthenticateError {
    /// The password did not match, or the account cannot be used for login.
    WrongCredentials,
    /// A participating entity (realm, client, user, group, resource) is locked.
    Locked,
    /// A presented token is malformed, wrongly signed, or bound elsewhere.
    InvalidToken,
    /// A structurally valid, correctly signed token whose expiry has passed.
    Expired,
    /// The per-client ceiling on live sessions has been reached.
    MaxConcurrentSessions,
    /// The caller is not allowed to perform the action.
    ActionForbidden,
    /// No usable resource data exists for the request.
    NoResource,
}

/// A referenced record does not exist.
#[derive(Clone, Copy, Debug, PartialEq, Eq, Structural)]
pub enum NotFoundError {
    UserNotFound,
    GroupNotFound,
    ResourceNotFound,
    SessionNotFound,
}

/// A write would break an invariant that the caller must resolve first.
#[derive(Clone, Copy, Debug, PartialEq, Eq, Structural)]
pub enum ConflictError {
    /// The sole default resource group of a (user, client) pair cannot give
    /// up its default flag; another group must be made default first.
    CannotRemoveOnlyDefault,
    /// A user with this email already exists in the realm.
    DuplicateEmail,
    /// A resource with this name already exists for the (user, client) pair.
    DuplicateResourceName,
}

/// A request value is rejected before any record is touched.
#[derive(Clone, Copy, Debug, PartialEq, Eq, Structural)]
pub enum ValidationError {
    /// A lock timestamp to be persisted lies in the future.
    InvalidLockTimestamp,
    /// The client (or resource) does not belong to the named realm.
    BadRealmClientCombo,
}

/// Any business failure of the engine.
///
/// The kinds stay distinct here so callers can log and decide precisely;
/// the transport layer must still present `UserNotFound` and
/// `WrongCredentials` with one and the same outward message, so that a
/// caller cannot probe which accounts exist.
#[derive(Clone, Copy, Debug, PartialEq, Eq, Structural)]
pub enum Error {
    Authenticate(AuthenticateError),
    NotFound(NotFoundError),
    Conflict(ConflictError),
    Validation(ValidationError),
}

} // verus!
