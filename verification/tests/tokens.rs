//! Issuing and verifying signed tokens, including the expiry/forgery
//! distinction and the wire codec primitives.

use identity_core::claims::{Claims, RefreshClaims, TokenResource};
use identity_core::codec::{b64_decode, b64_encode, parse_hex_at, parse_lp_at, push_hex, push_lp};
use identity_core::errors::AuthenticateError;
use identity_core::token::{issue_access, issue_refresh, verify_access, verify_refresh};

fn b(s: &str) -> Vec<u8> {
    s.as_bytes().to_vec()
}

fn sample_claims(exp: u64, iat: u64) -> Claims {
    Claims {
        exp,
        iat,
        sub: 0x1111,
        sid: 0x2222,
        iss: b("https://idp.example"),
        first_name: b("Ada"),
        last_name: b("Lovelace"),
        email: b("ada@example.com"),
        phone: b(""),
        resource: Some(TokenResource {
            client_id: 0x3333,
            client_name: b("console"),
            group_name: Some(b("default_resource_group")),
            identifiers: vec![
                (b("role"), b("admin")),
                (b("realm"), b("master")),
            ],
        }),
    }
}

#[test]
fn access_token_round_trip_returns_the_claims() {
    let secret = b("signing-key-for-tests");
    let token = issue_access(&sample_claims(2_000, 1_000), &secret);
    let got = verify_access(&token, &secret, 1_500).expect("a fresh token verifies");
    assert_eq!(got.exp, 2_000);
    assert_eq!(got.iat, 1_000);
    assert_eq!(got.sub, 0x1111);
    assert_eq!(got.sid, 0x2222);
    assert_eq!(got.email, b("ada@example.com"));
    let res = got.resource.expect("the resource snapshot survives");
    assert_eq!(res.client_id, 0x3333);
    assert_eq!(res.group_name, Some(b("default_resource_group")));
    assert_eq!(
        res.identifiers,
        vec![(b("role"), b("admin")), (b("realm"), b("master"))]
    );
}

#[test]
fn expired_token_fails_distinctly_from_a_tampered_one() {
    let secret = b("signing-key-for-tests");
    // expired but structurally valid and correctly signed
    let token = issue_access(&sample_claims(1_000, 500), &secret);
    let expired = verify_access(&token, &secret, 1_000);
    assert_eq!(expired.unwrap_err(), AuthenticateError::Expired);
    // same token with a tampered signature byte: InvalidToken, not Expired
    let fresh = issue_access(&sample_claims(9_000, 500), &secret);
    let mut tampered = fresh.clone();
    let last = tampered.len() - 1;
    tampered[last] = if tampered[last] == b'A' { b'B' } else { b'A' };
    assert_eq!(
        verify_access(&tampered, &secret, 1_000).unwrap_err(),
        AuthenticateError::InvalidToken
    );
}

#[test]
fn wrong_secret_is_an_invalid_token() {
    let token = issue_access(&sample_claims(9_000, 500), &b("key-one"));
    assert_eq!(
        verify_access(&token, &b("key-two"), 1_000).unwrap_err(),
        AuthenticateError::InvalidToken
    );
}

#[test]
fn garbage_is_an_invalid_token() {
    let secret = b("signing-key-for-tests");
    assert_eq!(
        verify_access(&b("not.a.token"), &secret, 0).unwrap_err(),
        AuthenticateError::InvalidToken
    );
    assert_eq!(
        verify_access(&Vec::new(), &secret, 0).unwrap_err(),
        AuthenticateError::InvalidToken
    );
}

#[test]
fn token_carries_the_standard_header_segment() {
    let secret = b("signing-key-for-tests");
    let token = issue_access(&sample_claims(2_000, 1_000), &secret);
    let header = b"eyJ0eXAiOiJKV1QiLCJhbGciOiJIUzI1NiJ9.";
    assert_eq!(&token[..header.len()], &header[..]);
    // three segments separated by dots
    assert_eq!(token.iter().filter(|&&c| c == b'.').count(), 2);
}

#[test]
fn refresh_token_round_trip_and_binding() {
    let secret = b("signing-key-for-tests");
    let rc = RefreshClaims { sub: 7, rli: 8, cli: 9, exp: 5_000, iat: 1_000 };
    let token = issue_refresh(&rc, &secret);
    let got = verify_refresh(&token, &secret, 2_000).expect("a fresh refresh token verifies");
    assert_eq!(got, rc);
    assert_eq!(
        verify_refresh(&token, &secret, 5_000).unwrap_err(),
        AuthenticateError::Expired
    );
}

#[test]
fn a_refresh_token_is_not_an_access_token() {
    let secret = b("signing-key-for-tests");
    let rc = RefreshClaims { sub: 7, rli: 8, cli: 9, exp: 5_000, iat: 1_000 };
    let token = issue_refresh(&rc, &secret);
    assert_eq!(
        verify_access(&token, &secret, 2_000).unwrap_err(),
        AuthenticateError::InvalidToken
    );
    let access = issue_access(&sample_claims(5_000, 1_000), &secret);
    assert_eq!(
        verify_refresh(&access, &secret, 2_000).unwrap_err(),
        AuthenticateError::InvalidToken
    );
}

#[test]
fn base64url_armor_round_trip_and_exact_form() {
    assert_eq!(b64_encode(&b("Man")), b("TWFu"));
    assert_eq!(b64_encode(&b("Ma")), b("TWE"));
    assert_eq!(b64_encode(&b("M")), b("TQ"));
    // the url-safe alphabet, no padding
    assert_eq!(b64_encode(&vec![0xfbu8]), b("-w"));
    assert_eq!(b64_encode(&vec![0xffu8, 0xff]), b("__8"));
    let data = vec![0x00u8, 0xab, 0xff, 0x10, 0x7e];
    assert_eq!(b64_decode(&b64_encode(&data)), Some(data));
    assert_eq!(b64_decode(&b("A")), None);
    assert_eq!(b64_decode(&b("A*AA")), None);
}

#[test]
fn fixed_width_numbers_round_trip() {
    let mut out: Vec<u8> = Vec::new();
    push_hex(&mut out, 0xdeadbeef, 16);
    assert_eq!(out, b("00000000deadbeef"));
    let parsed = parse_hex_at(&out, 0, 16).expect("sixteen hex digits parse");
    assert_eq!(parsed, (0xdeadbeef, 16));
    assert_eq!(parse_hex_at(&b("12g4"), 0, 4), None);
    assert_eq!(parse_hex_at(&b("12"), 0, 4), None);
}

#[test]
fn length_prefixed_bytes_round_trip() {
    let mut out: Vec<u8> = Vec::new();
    push_lp(&mut out, &b("hello"));
    assert_eq!(out, b("00000005hello"));
    let parsed = parse_lp_at(&out, 0).expect("a well-formed string parses");
    assert_eq!(parsed.0, b("hello"));
    assert_eq!(parsed.1, 13);
    // a length prefix that overruns the input is rejected
    assert_eq!(parse_lp_at(&b("00000009hello"), 0), None);
}
