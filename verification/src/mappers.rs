//! Request and response shapes of the service operations.
//!
//! Plain data types that the routing layer fills from requests and turns
//! back into responses; the flows themselves work on the byte-level types
//! of `store` and `flows`.

use vstd::prelude::*;

verus! {

/// A login request's credentials.
pub struct Credentials {
    pub email: String,
    pub password: String,
}

/// A logout request names the session by either of its tokens.
pub struct LogoutRequest {
    pub access_token: Option<String>,
    pub refresh_token: Option<String>,
}

pub struct IntrospectRequest {
    pub access_token: String,
}

pub struct RefreshTokenRequest {
    pub refresh_token: String,
}

pub struct RefreshTokenResponse {
    pub access_token: String,
    pub refresh_token: String,
    pub expires_in: usize,
}

pub struct UpdateResourceRequest {
    pub name: String,
    pub value: String,
    pub description: Option<String>,
    pub lock: Option<bool>,
}

pub struct UpdateResourceGroupRequest {
    pub name: String,
    pub description: Option<String>,
    pub is_default: Option<bool>,
    pub lock: Option<bool>,
}

pub struct SendEmailVerificationResponse {
    pub ok: bool,
}

pub struct VerifyEmailRequest {
    pub token: String,
}

pub struct VerifyEmailResponse {
    pub ok: bool,
}

pub struct InitiateForgotPasswordResponse {
    pub ok: bool,
    pub token: String,
    pub expires_at: usize,
}

pub struct ForgotPasswordRequest {
    pub password: String,
    pub password_confirmation: String,
    pub token: String,
}

pub struct ForgotPasswordResponse {
    pub ok: bool,
}

} // verus!
