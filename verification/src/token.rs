//! Issuing and checking signed tokens.
//!
//! A token is three segments joined by `.`: the constant header of an
//! HS256-signed token, the base64url-armored claims bytes, and the HMAC-SHA256
//! signature of the first two segments under the deployment secret, as the
//! signing library hands it back (base64url). Verification re-computes the
//! signature, undoes the armor, parses the claims, and only then looks at
//! the expiry — so an expired token is told apart from a forged one.

use vstd::prelude::*;

use crate::claims::{
    enc_access_claims, enc_refresh_claims, encode_access_claims, encode_refresh_claims,
    lemma_parse_access_claims_enc, lemma_parse_refresh_claims_enc, parse_access_claims,
    parse_refresh_claims, spec_parse_access_claims, spec_parse_refresh_claims, Claims, ClaimsView,
    RefreshClaims, wf_claims,
};
use crate::codec::{
    b64_bytes, b64_decode, b64_encode, b64_val, bytes_eq, copy_range, lemma_b64_bytes_alphabet,
    lemma_unb64_b64, push_bytes, spec_unb64_bytes,
};
use crate::errors::AuthenticateError;

verus! {

/// The constant first segment of every token: the header of an HS256 token.
pub open spec fn header_seg() -> Seq<u8> {
    seq![
        101u8, 121, 74, 48, 101, 88, 65, 105, 79, 105, 74, 75, 86, 49, 81, 105, 76, 67, 74, 104,
        98, 71, 99, 105, 79, 105, 74, 73, 85, 122, 73, 49, 78, 105, 74, 57,
    ]
}

fn header_bytes() -> (r: Vec<u8>)
    ensures
        r@ == header_seg(),
{
    let v: Vec<u8> = vec![
        101u8, 121, 74, 48, 101, 88, 65, 105, 79, 105, 74, 75, 86, 49, 81, 105, 76, 67, 74, 104,
        98, 71, 99, 105, 79, 105, 74, 73, 85, 122, 73, 49, 78, 105, 74, 57,
    ];
    proof {
        assert(v@ =~= header_seg());
    }
    v
}

/// What the signing call returns for a given secret and message. HMAC is a
/// function of those two values alone; nothing more is assumed of it here.
pub uninterp spec fn hs256_of(secret: Seq<u8>, message: Seq<u8>) -> Seq<u8>;

/// Relies on `jsonwebtoken::crypto::sign` with `Algorithm::HS256` and a key
/// built by `EncodingKey::from_secret`: it returns the base64url form of the
/// HMAC-SHA256 tag of the message under the secret, a deterministic function
/// of the two arguments; an HMAC key accepts any secret length, so the call
/// cannot fail for this algorithm. The call goes through the crate's
/// process-wide `CryptoProvider`; this build compiles only the
/// deterministic HMAC backend, and an embedding process must not install
/// a different provider, or this contract no longer describes the call.
#[verifier::external_body]
fn hs256_sign(secret: &Vec<u8>, message: &Vec<u8>) -> (r: Vec<u8>)
    ensures
        r@ == hs256_of(secret@, message@),
{
    let key = jsonwebtoken::EncodingKey::from_secret(secret.as_slice());
    let sig = jsonwebtoken::crypto::sign(
        message.as_slice(),
        &key,
        jsonwebtoken::Algorithm::HS256,
    ).unwrap();
    sig.into_bytes()
}

/// The two signed segments of an access token.
pub open spec fn access_signing_input(c: ClaimsView) -> Seq<u8> {
    header_seg() + seq![0x2eu8] + b64_bytes(enc_access_claims(c))
}

/// The full access token for given claims and secret.
pub open spec fn access_token_of(c: ClaimsView, secret: Seq<u8>) -> Seq<u8> {
    access_signing_input(c) + seq![0x2eu8] + hs256_of(secret, access_signing_input(c))
}

/// The two signed segments of a refresh token.
pub open spec fn refresh_signing_input(c: RefreshClaims) -> Seq<u8> {
    header_seg() + seq![0x2eu8] + b64_bytes(enc_refresh_claims(c))
}

/// The full refresh token for given claims and secret.
pub open spec fn refresh_token_of(c: RefreshClaims, secret: Seq<u8>) -> Seq<u8> {
    refresh_signing_input(c) + seq![0x2eu8] + hs256_of(secret, refresh_signing_input(c))
}

/// First `.` at or after position `i`.
pub open spec fn find_dot(s: Seq<u8>, i: nat) -> Option<nat>
    decreases s.len() - i when i <= s.len()
{
    if i >= s.len() {
        None
    } else if s[i as int] == 0x2e {
        Some(i)
    } else {
        find_dot(s, i + 1)
    }
}

proof fn lemma_find_dot_skip(s: Seq<u8>, i: nat, j: nat)
    requires
        i <= j <= s.len(),
        forall|k: int| i <= k < j ==> s[k] != 0x2e,
    ensures
        find_dot(s, i) == find_dot(s, j),
    decreases j - i,
{
    if i < j {
        lemma_find_dot_skip(s, i + 1, j);
    }
}

/// The structure and verdict of access-token verification.
///
/// The error cases are distinct by construction: `Expired` is only reached
/// once the shape, the signature, and the claims have all been accepted.
pub open spec fn spec_verify_access(token: Seq<u8>, secret: Seq<u8>, now: u64) -> Result<
    ClaimsView,
    AuthenticateError,
> {
    let hl = header_seg().len() as int;
    if token.len() < hl + 2 || token.take(hl) != header_seg() || token[hl] != 0x2e {
        Err(AuthenticateError::InvalidToken)
    } else {
        match find_dot(token, (hl + 1) as nat) {
            None => Err(AuthenticateError::InvalidToken),
            Some(d) => {
                let msg = token.take(d as int);
                let sig = token.skip(d as int + 1);
                if sig != hs256_of(secret, msg) {
                    Err(AuthenticateError::InvalidToken)
                } else {
                    match spec_unb64_bytes(token.subrange(hl + 1, d as int)) {
                        None => Err(AuthenticateError::InvalidToken),
                        Some(cb) => match spec_parse_access_claims(cb) {
                            None => Err(AuthenticateError::InvalidToken),
                            Some(c) => if c.exp <= now {
                                Err(AuthenticateError::Expired)
                            } else {
                                Ok(c)
                            },
                        },
                    }
                }
            },
        }
    }
}

/// The structure and verdict of refresh-token verification.
pub open spec fn spec_verify_refresh(token: Seq<u8>, secret: Seq<u8>, now: u64) -> Result<
    RefreshClaims,
    AuthenticateError,
> {
    let hl = header_seg().len() as int;
    if token.len() < hl + 2 || token.take(hl) != header_seg() || token[hl] != 0x2e {
        Err(AuthenticateError::InvalidToken)
    } else {
        match find_dot(token, (hl + 1) as nat) {
            None => Err(AuthenticateError::InvalidToken),
            Some(d) => {
                let msg = token.take(d as int);
                let sig = token.skip(d as int + 1);
                if sig != hs256_of(secret, msg) {
                    Err(AuthenticateError::InvalidToken)
                } else {
                    match spec_unb64_bytes(token.subrange(hl + 1, d as int)) {
                        None => Err(AuthenticateError::InvalidToken),
                        Some(cb) => match spec_parse_refresh_claims(cb) {
                            None => Err(AuthenticateError::InvalidToken),
                            Some(c) => if c.exp <= now {
                                Err(AuthenticateError::Expired)
                            } else {
                                Ok(c)
                            },
                        },
                    }
                }
            },
        }
    }
}

/// Issue an access token: sign the header and armored claims.
pub fn issue_access(c: &Claims, secret: &Vec<u8>) -> (r: Vec<u8>)
    requires
        wf_claims(c@),
    ensures
        r@ == access_token_of(c@, secret@),
{
    let mut msg = header_bytes();
    msg.push(0x2eu8);
    let cb = encode_access_claims(c);
    let armored = b64_encode(&cb);
    push_bytes(&mut msg, &armored);
    proof {
        assert(msg@ =~= access_signing_input(c@));
    }
    let sig = hs256_sign(secret, &msg);
    let mut out = msg;
    out.push(0x2eu8);
    push_bytes(&mut out, &sig);
    proof {
        assert(out@ =~= access_token_of(c@, secret@));
    }
    out
}

/// Issue a refresh token: sign the header and armored claims.
pub fn issue_refresh(c: &RefreshClaims, secret: &Vec<u8>) -> (r: Vec<u8>)
    ensures
        r@ == refresh_token_of(*c, secret@),
{
    let mut msg = header_bytes();
    msg.push(0x2eu8);
    let cb = encode_refresh_claims(c);
    let armored = b64_encode(&cb);
    push_bytes(&mut msg, &armored);
    proof {
        assert(msg@ =~= refresh_signing_input(*c));
    }
    let sig = hs256_sign(secret, &msg);
    let mut out = msg;
    out.push(0x2eu8);
    push_bytes(&mut out, &sig);
    proof {
        assert(out@ =~= refresh_token_of(*c, secret@));
    }
    out
}

/// Shared structural work of verification: check the header, locate the
/// separator, check the signature, undo the armor. On success, the claims
/// bytes and a witness of what they are.
fn check_shape_and_signature(token: &Vec<u8>, secret: &Vec<u8>) -> (r: Option<Vec<u8>>)
    ensures
        ({
            let hl = header_seg().len() as int;
            let shape_ok = token@.len() >= hl + 2 && token@.take(hl) == header_seg()
                && token@[hl] == 0x2e;
            match r {
                Some(cb) => {
                    &&& shape_ok
                    &&& find_dot(token@, (hl + 1) as nat) is Some
                    &&& {
                        let d = find_dot(token@, (hl + 1) as nat).unwrap() as int;
                        &&& token@.skip(d + 1) == hs256_of(secret@, token@.take(d))
                        &&& spec_unb64_bytes(token@.subrange(hl + 1, d)) == Some(cb@)
                    }
                },
                None => !shape_ok || find_dot(token@, (hl + 1) as nat) is None || {
                    let d = find_dot(token@, (hl + 1) as nat).unwrap() as int;
                    token@.skip(d + 1) != hs256_of(secret@, token@.take(d))
                        || spec_unb64_bytes(token@.subrange(hl + 1, d)) is None
                },
            }
        }),
{
    let hv = header_bytes();
    let hl = hv.len();
    if token.len() < hl + 2 {
        return None;
    }
    let mut i: usize = 0;
    while i < hl
        invariant
            i <= hl,
            hl == header_seg().len(),
            hv@ == header_seg(),
            token@.len() >= hl + 2,
            forall|j: int| 0 <= j < i ==> token@[j] == header_seg()[j],
        decreases hl - i,
    {
        if token[i] != hv[i] {
            proof {
                assert(token@.take(hl as int)[i as int] != header_seg()[i as int]);
            }
            return None;
        }
        i += 1;
    }
    proof {
        assert(token@.take(hl as int) =~= header_seg());
    }
    if token[hl] != 0x2e {
        return None;
    }
    // locate the separator between the claims and the signature
    let tlen = token.len();
    let mut d: usize = hl + 1;
    while d < tlen && token[d] != 0x2e
        invariant
            hl + 1 <= d <= tlen,
            tlen == token@.len(),
            forall|k: int| hl + 1 <= k < d ==> token@[k] != 0x2e,
        decreases tlen - d,
    {
        d += 1;
    }
    proof {
        lemma_find_dot_skip(token@, (hl + 1) as nat, d as nat);
    }
    if d == tlen {
        return None;
    }
    let msg = copy_range(token, 0, d);
    let sig = copy_range(token, d + 1, tlen);
    proof {
        assert(msg@ =~= token@.take(d as int));
        assert(sig@ =~= token@.skip(d as int + 1));
    }
    let expected = hs256_sign(secret, &msg);
    if !bytes_eq(&sig, &expected) {
        return None;
    }
    let claims_seg = copy_range(token, hl + 1, d);
    proof {
        assert(claims_seg@ =~= token@.subrange(hl as int + 1, d as int));
    }
    b64_decode(&claims_seg)
}

/// Verify an access token against the secret at time `now`.
pub fn verify_access(token: &Vec<u8>, secret: &Vec<u8>, now: u64) -> (r: Result<
    Claims,
    AuthenticateError,
>)
    ensures
        match (r, spec_verify_access(token@, secret@, now)) {
            (Ok(c), Ok(cv)) => c@ == cv,
            (Err(e), Err(ev)) => e == ev,
            _ => false,
        },
{
    let cb = match check_shape_and_signature(token, secret) {
        Some(cb) => cb,
        None => {
            return Err(AuthenticateError::InvalidToken);
        },
    };
    let c = match parse_access_claims(&cb) {
        Some(c) => c,
        None => {
            return Err(AuthenticateError::InvalidToken);
        },
    };
    if c.exp <= now {
        Err(AuthenticateError::Expired)
    } else {
        Ok(c)
    }
}

/// Verify a refresh token against the secret at time `now`.
pub fn verify_refresh(token: &Vec<u8>, secret: &Vec<u8>, now: u64) -> (r: Result<
    RefreshClaims,
    AuthenticateError,
>)
    ensures
        match (r, spec_verify_refresh(token@, secret@, now)) {
            (Ok(c), Ok(cv)) => c == cv,
            (Err(e), Err(ev)) => e == ev,
            _ => false,
        },
{
    let cb = match check_shape_and_signature(token, secret) {
        Some(cb) => cb,
        None => {
            return Err(AuthenticateError::InvalidToken);
        },
    };
    let c = match parse_refresh_claims(&cb) {
        Some(c) => c,
        None => {
            return Err(AuthenticateError::InvalidToken);
        },
    };
    if c.exp <= now {
        Err(AuthenticateError::Expired)
    } else {
        Ok(c)
    }
}

/// The round trip of issuing and verifying an access token: for any claims
/// within the codec's bounds and any secret, verification of the issued
/// token returns exactly the claims that were issued while they are not
/// yet expired — and fails with `Expired`, not `InvalidToken`, from the
/// moment they are.
pub proof fn lemma_verify_access_round_trip(c: ClaimsView, secret: Seq<u8>, now: u64)
    requires
        wf_claims(c),
    ensures
        spec_verify_access(access_token_of(c, secret), secret, now) == if c.exp <= now {
            Err::<ClaimsView, AuthenticateError>(AuthenticateError::Expired)
        } else {
            Ok::<ClaimsView, AuthenticateError>(c)
        },
{
    let tok = access_token_of(c, secret);
    let si = access_signing_input(c);
    let hl = header_seg().len() as int;
    let cb = enc_access_claims(c);
    let armored = b64_bytes(cb);
    lemma_b64_bytes_alphabet(cb);
    let d = si.len() as int;
    assert(tok.take(hl) =~= header_seg());
    assert(tok[hl] == 0x2e);
    assert(tok[d] == 0x2e);
    assert forall|k: int| hl + 1 <= k < d implies tok[k] != 0x2e by {
        assert(tok[k] == armored[k - (hl + 1)]);
        assert(b64_val(armored[k - (hl + 1)]) >= 0);
    }
    lemma_find_dot_skip(tok, (hl + 1) as nat, d as nat);
    assert(find_dot(tok, d as nat) == Some(d as nat));
    assert(tok.take(d) =~= si);
    assert(tok.skip(d + 1) =~= hs256_of(secret, si));
    assert(tok.subrange(hl + 1, d) =~= armored);
    lemma_unb64_b64(cb);
    lemma_parse_access_claims_enc(c);
}

/// The round trip of issuing and verifying a refresh token, with the same
/// expiry distinction.
pub proof fn lemma_verify_refresh_round_trip(c: RefreshClaims, secret: Seq<u8>, now: u64)
    ensures
        spec_verify_refresh(refresh_token_of(c, secret), secret, now) == if c.exp <= now {
            Err::<RefreshClaims, AuthenticateError>(AuthenticateError::Expired)
        } else {
            Ok::<RefreshClaims, AuthenticateError>(c)
        },
{
    let tok = refresh_token_of(c, secret);
    let si = refresh_signing_input(c);
    let hl = header_seg().len() as int;
    let cb = enc_refresh_claims(c);
    let armored = b64_bytes(cb);
    lemma_b64_bytes_alphabet(cb);
    let d = si.len() as int;
    assert(tok.take(hl) =~= header_seg());
    assert(tok[hl] == 0x2e);
    assert(tok[d] == 0x2e);
    assert forall|k: int| hl + 1 <= k < d implies tok[k] != 0x2e by {
        assert(tok[k] == armored[k - (hl + 1)]);
        assert(b64_val(armored[k - (hl + 1)]) >= 0);
    }
    lemma_find_dot_skip(tok, (hl + 1) as nat, d as nat);
    assert(find_dot(tok, d as nat) == Some(d as nat));
    assert(tok.take(d) =~= si);
    assert(tok.skip(d + 1) =~= hs256_of(secret, si));
    assert(tok.subrange(hl + 1, d) =~= armored);
    lemma_unb64_b64(cb);
    lemma_parse_refresh_claims_enc(c);
}

} // verus!
