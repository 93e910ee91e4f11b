//! Session, token, and access-grouping engine of a multi-tenant identity
//! provider, with machine-checked contracts.
//!
//! The library keeps the authoritative record set (realms, clients, users,
//! resource groups, resources, sessions, refresh tokens) as plain values and
//! implements the decisions of the authentication flows over them: the lock
//! gate, the default-resource-group invariant, session admission against a
//! per-client ceiling, refresh-token rotation with bounded reuse, and the
//! issuing and checking of signed access tokens.

pub mod claims;
pub mod codec;
pub mod errors;
pub mod flows;
pub mod groups;
pub mod lock;
pub mod mappers;
pub mod refresh;
pub mod sessions;
pub mod store;
pub mod token;
