//! Token claims and their wire form.
//!
//! An access token carries the subject, the session, the issuer, validity
//! timestamps, the user's display fields, and a snapshot of the resolved
//! resource bundle. A refresh token carries the token id and the realm and
//! client it is bound to. Claims are encoded into a self-delimiting byte
//! string (a one-byte kind tag, fixed-width hex integers, length-prefixed
//! byte strings) and the round trip of encoder and parser is proved.

use vstd::prelude::*;

use crate::codec::{
    enc_lp, lemma_hex_value_bound, lemma_parse_hex_enc, lemma_parse_lp_enc, lemma_pow16_widths,
    parse_hex_at, parse_lp_at, push_hex, push_lp, spec_hex, spec_parse_hex, spec_parse_lp,
};

verus! {

/// Tag byte of an access-token claims string.
pub open spec fn access_tag() -> u8 {
    0x61
}

/// Tag byte of a refresh-token claims string.
pub open spec fn refresh_tag() -> u8 {
    0x72
}

/// The resource snapshot inside an access token: the client it was resolved
/// for, the resolved group, and the flattened name/value identifiers.
#[derive(Debug)]
pub struct TokenResource {
    pub client_id: u128,
    pub client_name: Vec<u8>,
    pub group_name: Option<Vec<u8>>,
    pub identifiers: Vec<(Vec<u8>, Vec<u8>)>,
}

/// Claims of an access token.
#[derive(Debug)]
pub struct Claims {
    pub exp: u64,
    pub iat: u64,
    pub sub: u128,
    pub sid: u128,
    pub iss: Vec<u8>,
    pub first_name: Vec<u8>,
    pub last_name: Vec<u8>,
    pub email: Vec<u8>,
    pub phone: Vec<u8>,
    pub resource: Option<TokenResource>,
}

/// Claims of a refresh token: the token id (`sub`), the realm and client it
/// is bound to, and its validity window.
#[derive(Clone, Copy, Debug, PartialEq, Eq, Structural)]
pub struct RefreshClaims {
    pub sub: u128,
    pub rli: u128,
    pub cli: u128,
    pub exp: u64,
    pub iat: u64,
}

/// Mathematical image of `TokenResource`.
pub struct TokenResourceView {
    pub client_id: u128,
    pub client_name: Seq<u8>,
    pub group_name: Option<Seq<u8>>,
    pub identifiers: Seq<(Seq<u8>, Seq<u8>)>,
}

/// Mathematical image of `Claims`.
pub struct ClaimsView {
    pub exp: u64,
    pub iat: u64,
    pub sub: u128,
    pub sid: u128,
    pub iss: Seq<u8>,
    pub first_name: Seq<u8>,
    pub last_name: Seq<u8>,
    pub email: Seq<u8>,
    pub phone: Seq<u8>,
    pub resource: Option<TokenResourceView>,
}

impl View for TokenResource {
    type V = TokenResourceView;

    open spec fn view(&self) -> TokenResourceView {
        TokenResourceView {
            client_id: self.client_id,
            client_name: self.client_name@,
            group_name: match self.group_name {
                Some(g) => Some(g@),
                None => None,
            },
            identifiers: self.identifiers@.map_values(|p: (Vec<u8>, Vec<u8>)| (p.0@, p.1@)),
        }
    }
}

impl View for Claims {
    type V = ClaimsView;

    open spec fn view(&self) -> ClaimsView {
        ClaimsView {
            exp: self.exp,
            iat: self.iat,
            sub: self.sub,
            sid: self.sid,
            iss: self.iss@,
            first_name: self.first_name@,
            last_name: self.last_name@,
            email: self.email@,
            phone: self.phone@,
            resource: match self.resource {
                Some(r) => Some(r@),
                None => None,
            },
        }
    }
}

/// Every byte string of the resource snapshot fits its length prefix.
pub open spec fn wf_resource(r: TokenResourceView) -> bool {
    &&& r.client_name.len() < 0x1_0000_0000
    &&& match r.group_name {
        Some(g) => g.len() < 0x1_0000_0000,
        None => true,
    }
    &&& r.identifiers.len() < 0x1_0000_0000
    &&& forall|i: int|
        0 <= i < r.identifiers.len() ==> #[trigger] r.identifiers[i].0.len() < 0x1_0000_0000
            && r.identifiers[i].1.len() < 0x1_0000_0000
}

/// Every byte string of the claims fits its length prefix.
pub open spec fn wf_claims(c: ClaimsView) -> bool {
    &&& c.iss.len() < 0x1_0000_0000
    &&& c.first_name.len() < 0x1_0000_0000
    &&& c.last_name.len() < 0x1_0000_0000
    &&& c.email.len() < 0x1_0000_0000
    &&& c.phone.len() < 0x1_0000_0000
    &&& match c.resource {
        Some(r) => wf_resource(r),
        None => true,
    }
}

// ------------------------------------------------------------------
// encoders
// ------------------------------------------------------------------

pub open spec fn enc_u64(n: u64) -> Seq<u8> {
    spec_hex(n as u128, 16)
}

pub open spec fn enc_u128(n: u128) -> Seq<u8> {
    spec_hex(n, 32)
}

pub open spec fn enc_opt_lp(b: Option<Seq<u8>>) -> Seq<u8> {
    match b {
        Some(x) => seq![0x31u8] + enc_lp(x),
        None => seq![0x30u8],
    }
}

pub open spec fn enc_pairs(ps: Seq<(Seq<u8>, Seq<u8>)>) -> Seq<u8>
    decreases ps.len(),
{
    if ps.len() == 0 {
        Seq::empty()
    } else {
        enc_lp(ps[0].0) + enc_lp(ps[0].1) + enc_pairs(ps.skip(1))
    }
}

pub open spec fn enc_resource(r: TokenResourceView) -> Seq<u8> {
    enc_u128(r.client_id) + enc_lp(r.client_name) + enc_opt_lp(r.group_name) + spec_hex(
        r.identifiers.len() as u128,
        8,
    ) + enc_pairs(r.identifiers)
}

pub open spec fn enc_opt_resource(r: Option<TokenResourceView>) -> Seq<u8> {
    match r {
        Some(x) => seq![0x31u8] + enc_resource(x),
        None => seq![0x30u8],
    }
}

/// The byte string of an access token's claims.
pub open spec fn enc_access_claims(c: ClaimsView) -> Seq<u8> {
    seq![access_tag()] + enc_u64(c.exp) + enc_u64(c.iat) + enc_u128(c.sub) + enc_u128(c.sid)
        + enc_lp(c.iss) + enc_lp(c.first_name) + enc_lp(c.last_name) + enc_lp(c.email) + enc_lp(
        c.phone,
    ) + enc_opt_resource(c.resource)
}

/// The byte string of a refresh token's claims.
pub open spec fn enc_refresh_claims(c: RefreshClaims) -> Seq<u8> {
    seq![refresh_tag()] + enc_u128(c.sub) + enc_u128(c.rli) + enc_u128(c.cli) + enc_u64(c.exp)
        + enc_u64(c.iat)
}

// ------------------------------------------------------------------
// parsers
// ------------------------------------------------------------------

pub open spec fn spec_parse_u64(s: Seq<u8>) -> Option<(u64, Seq<u8>)> {
    match spec_parse_hex(s, 16) {
        Some((n, r)) => Some((n as u64, r)),
        None => None,
    }
}

pub open spec fn spec_parse_u128(s: Seq<u8>) -> Option<(u128, Seq<u8>)> {
    spec_parse_hex(s, 32)
}

pub open spec fn spec_parse_opt_lp(s: Seq<u8>) -> Option<(Option<Seq<u8>>, Seq<u8>)> {
    if s.len() < 1 {
        None
    } else if s[0] == 0x31 {
        match spec_parse_lp(s.skip(1)) {
            Some((b, r)) => Some((Some(b), r)),
            None => None,
        }
    } else if s[0] == 0x30 {
        Some((None, s.skip(1)))
    } else {
        None
    }
}

pub open spec fn spec_parse_pairs(s: Seq<u8>, count: nat) -> Option<
    (Seq<(Seq<u8>, Seq<u8>)>, Seq<u8>),
>
    decreases count,
{
    if count == 0 {
        Some((Seq::empty(), s))
    } else {
        match spec_parse_lp(s) {
            None => None,
            Some((k, r1)) => match spec_parse_lp(r1) {
                None => None,
                Some((v, r2)) => match spec_parse_pairs(r2, (count - 1) as nat) {
                    None => None,
                    Some((ps, r3)) => Some((seq![(k, v)] + ps, r3)),
                },
            },
        }
    }
}

pub open spec fn spec_parse_resource(s: Seq<u8>) -> Option<(TokenResourceView, Seq<u8>)> {
    match spec_parse_u128(s) {
        None => None,
        Some((client_id, r1)) => match spec_parse_lp(r1) {
            None => None,
            Some((client_name, r2)) => match spec_parse_opt_lp(r2) {
                None => None,
                Some((group_name, r3)) => match spec_parse_hex(r3, 8) {
                    None => None,
                    Some((count, r4)) => match spec_parse_pairs(r4, count as nat) {
                        None => None,
                        Some((identifiers, r5)) => Some(
                            (
                                TokenResourceView {
                                    client_id,
                                    client_name,
                                    group_name,
                                    identifiers,
                                },
                                r5,
                            ),
                        ),
                    },
                },
            },
        },
    }
}

pub open spec fn spec_parse_opt_resource(s: Seq<u8>) -> Option<
    (Option<TokenResourceView>, Seq<u8>),
> {
    if s.len() < 1 {
        None
    } else if s[0] == 0x31 {
        match spec_parse_resource(s.skip(1)) {
            Some((r, rest)) => Some((Some(r), rest)),
            None => None,
        }
    } else if s[0] == 0x30 {
        Some((None, s.skip(1)))
    } else {
        None
    }
}

/// Parse a full access-token claims string; the whole input must be used.
pub open spec fn spec_parse_access_claims(s: Seq<u8>) -> Option<ClaimsView> {
    if s.len() < 1 || s[0] != access_tag() {
        None
    } else {
        match spec_parse_u64(s.skip(1)) {
            None => None,
            Some((exp, r1)) => match spec_parse_u64(r1) {
                None => None,
                Some((iat, r2)) => match spec_parse_u128(r2) {
                    None => None,
                    Some((sub, r3)) => match spec_parse_u128(r3) {
                        None => None,
                        Some((sid, r4)) => match spec_parse_lp(r4) {
                            None => None,
                            Some((iss, r5)) => match spec_parse_lp(r5) {
                                None => None,
                                Some((first_name, r6)) => match spec_parse_lp(r6) {
                                    None => None,
                                    Some((last_name, r7)) => match spec_parse_lp(r7) {
                                        None => None,
                                        Some((email, r8)) => match spec_parse_lp(r8) {
                                            None => None,
                                            Some((phone, r9)) => match spec_parse_opt_resource(
                                                r9,
                                            ) {
                                                None => None,
                                                Some((resource, r10)) => if r10.len() == 0 {
                                                    Some(
                                                        ClaimsView {
                                                            exp,
                                                            iat,
                                                            sub,
                                                            sid,
                                                            iss,
                                                            first_name,
                                                            last_name,
                                                            email,
                                                            phone,
                                                            resource,
                                                        },
                                                    )
                                                } else {
                                                    None
                                                },
                                            },
                                        },
                                    },
                                },
                            },
                        },
                    },
                },
            },
        }
    }
}

/// Parse a full refresh-token claims string; the whole input must be used.
pub open spec fn spec_parse_refresh_claims(s: Seq<u8>) -> Option<RefreshClaims> {
    if s.len() < 1 || s[0] != refresh_tag() {
        None
    } else {
        match spec_parse_u128(s.skip(1)) {
            None => None,
            Some((sub, r1)) => match spec_parse_u128(r1) {
                None => None,
                Some((rli, r2)) => match spec_parse_u128(r2) {
                    None => None,
                    Some((cli, r3)) => match spec_parse_u64(r3) {
                        None => None,
                        Some((exp, r4)) => match spec_parse_u64(r4) {
                            None => None,
                            Some((iat, r5)) => if r5.len() == 0 {
                                Some(RefreshClaims { sub, rli, cli, exp, iat })
                            } else {
                                None
                            },
                        },
                    },
                },
            },
        }
    }
}

// ------------------------------------------------------------------
// round trip
// ------------------------------------------------------------------

pub proof fn lemma_parse_u64_enc(n: u64, rest: Seq<u8>)
    ensures
        spec_parse_u64(enc_u64(n) + rest) == Some((n, rest)),
{
    lemma_pow16_widths();
    lemma_parse_hex_enc(n as u128, 16, rest);
}

pub proof fn lemma_parse_u128_enc(n: u128, rest: Seq<u8>)
    ensures
        spec_parse_u128(enc_u128(n) + rest) == Some((n, rest)),
{
    lemma_pow16_widths();
    lemma_parse_hex_enc(n, 32, rest);
}

pub proof fn lemma_parse_opt_lp_enc(b: Option<Seq<u8>>, rest: Seq<u8>)
    requires
        match b {
            Some(x) => x.len() < 0x1_0000_0000,
            None => true,
        },
    ensures
        spec_parse_opt_lp(enc_opt_lp(b) + rest) == Some((b, rest)),
{
    match b {
        Some(x) => {
            let s = enc_opt_lp(b) + rest;
            assert(s[0] == 0x31);
            assert(s.skip(1) =~= enc_lp(x) + rest);
            lemma_parse_lp_enc(x, rest);
        },
        None => {
            let s = enc_opt_lp(b) + rest;
            assert(s[0] == 0x30);
            assert(s.skip(1) =~= rest);
        },
    }
}

pub proof fn lemma_parse_pairs_enc(ps: Seq<(Seq<u8>, Seq<u8>)>, rest: Seq<u8>)
    requires
        forall|i: int|
            0 <= i < ps.len() ==> #[trigger] ps[i].0.len() < 0x1_0000_0000 && ps[i].1.len()
                < 0x1_0000_0000,
    ensures
        spec_parse_pairs(enc_pairs(ps) + rest, ps.len()) == Some((ps, rest)),
    decreases ps.len(),
{
    if ps.len() == 0 {
        assert(enc_pairs(ps) + rest =~= rest);
    } else {
        let k = ps[0].0;
        let v = ps[0].1;
        let tail = ps.skip(1);
        assert(enc_pairs(ps) + rest =~= enc_lp(k) + (enc_lp(v) + (enc_pairs(tail) + rest)));
        lemma_parse_lp_enc(k, enc_lp(v) + (enc_pairs(tail) + rest));
        lemma_parse_lp_enc(v, enc_pairs(tail) + rest);
        assert(forall|i: int|
            0 <= i < tail.len() ==> #[trigger] tail[i].0.len() < 0x1_0000_0000 && tail[i].1.len()
                < 0x1_0000_0000) by {
            assert(forall|i: int| 0 <= i < tail.len() ==> tail[i] == ps[i + 1]);
        }
        lemma_parse_pairs_enc(tail, rest);
        assert(seq![(k, v)] + tail =~= ps);
    }
}

pub proof fn lemma_parse_resource_enc(r: TokenResourceView, rest: Seq<u8>)
    requires
        wf_resource(r),
    ensures
        spec_parse_resource(enc_resource(r) + rest) == Some((r, rest)),
{
    let count_h = spec_hex(r.identifiers.len() as u128, 8);
    let s1 = enc_lp(r.client_name) + (enc_opt_lp(r.group_name) + (count_h + (enc_pairs(
        r.identifiers,
    ) + rest)));
    assert(enc_resource(r) + rest =~= enc_u128(r.client_id) + s1);
    lemma_parse_u128_enc(r.client_id, s1);
    let s2 = enc_opt_lp(r.group_name) + (count_h + (enc_pairs(r.identifiers) + rest));
    lemma_parse_lp_enc(r.client_name, s2);
    let s3 = count_h + (enc_pairs(r.identifiers) + rest);
    lemma_parse_opt_lp_enc(r.group_name, s3);
    lemma_pow16_widths();
    lemma_parse_hex_enc(r.identifiers.len() as u128, 8, enc_pairs(r.identifiers) + rest);
    lemma_parse_pairs_enc(r.identifiers, rest);
}

pub proof fn lemma_parse_opt_resource_enc(r: Option<TokenResourceView>, rest: Seq<u8>)
    requires
        match r {
            Some(x) => wf_resource(x),
            None => true,
        },
    ensures
        spec_parse_opt_resource(enc_opt_resource(r) + rest) == Some((r, rest)),
{
    match r {
        Some(x) => {
            let s = enc_opt_resource(r) + rest;
            assert(s[0] == 0x31);
            assert(s.skip(1) =~= enc_resource(x) + rest);
            lemma_parse_resource_enc(x, rest);
        },
        None => {
            let s = enc_opt_resource(r) + rest;
            assert(s[0] == 0x30);
            assert(s.skip(1) =~= rest);
        },
    }
}

/// The claims codec round trip: parsing an encoded access-token claims
/// string gives back exactly the claims that were encoded.
#[verifier::rlimit(100)]
pub proof fn lemma_parse_access_claims_enc(c: ClaimsView)
    requires
        wf_claims(c),
    ensures
        spec_parse_access_claims(enc_access_claims(c)) == Some(c),
{
    let s = enc_access_claims(c);
    let t10 = enc_opt_resource(c.resource);
    let t9 = enc_lp(c.phone) + t10;
    let t8 = enc_lp(c.email) + t9;
    let t7 = enc_lp(c.last_name) + t8;
    let t6 = enc_lp(c.first_name) + t7;
    let t5 = enc_lp(c.iss) + t6;
    let t4 = enc_u128(c.sid) + t5;
    let t3 = enc_u128(c.sub) + t4;
    let t2 = enc_u64(c.iat) + t3;
    let t1 = enc_u64(c.exp) + t2;
    assert(s[0] == access_tag());
    assert(s.skip(1) =~= t1);
    lemma_parse_u64_enc(c.exp, t2);
    lemma_parse_u64_enc(c.iat, t3);
    lemma_parse_u128_enc(c.sub, t4);
    lemma_parse_u128_enc(c.sid, t5);
    lemma_parse_lp_enc(c.iss, t6);
    lemma_parse_lp_enc(c.first_name, t7);
    lemma_parse_lp_enc(c.last_name, t8);
    lemma_parse_lp_enc(c.email, t9);
    lemma_parse_lp_enc(c.phone, t10);
    lemma_parse_opt_resource_enc(c.resource, Seq::empty());
    assert(t10 + Seq::<u8>::empty() =~= t10);
}

// ------------------------------------------------------------------
// executable encoders
// ------------------------------------------------------------------

/// View of an optional byte string.
pub open spec fn opt_view(b: Option<Vec<u8>>) -> Option<Seq<u8>> {
    match b {
        Some(x) => Some(x@),
        None => None,
    }
}

/// View of a name/value pair list.
pub open spec fn pairs_view(ps: Seq<(Vec<u8>, Vec<u8>)>) -> Seq<(Seq<u8>, Seq<u8>)> {
    ps.map_values(|p: (Vec<u8>, Vec<u8>)| (p.0@, p.1@))
}

fn push_resource(out: &mut Vec<u8>, r: &TokenResource)
    requires
        wf_resource(r@),
    ensures
        final(out)@ == old(out)@ + enc_resource(r@),
{
    push_hex(out, r.client_id, 32);
    push_lp(out, &r.client_name);
    match &r.group_name {
        Some(g) => {
            let prefix = Ghost(out@);
            out.push(0x31u8);
            push_lp(out, g);
            proof {
                assert(prefix@.push(0x31u8) + enc_lp(g@) =~= prefix@ + enc_opt_lp(r@.group_name));
            }
        },
        None => {
            let prefix = Ghost(out@);
            out.push(0x30u8);
            proof {
                assert(prefix@.push(0x30u8) =~= prefix@ + enc_opt_lp(r@.group_name));
            }
        },
    }
    push_hex(out, r.identifiers.len() as u128, 8);
    let base = Ghost(out@);
    let idv = Ghost(r@.identifiers);
    let mut i: usize = 0;
    proof {
        assert(idv@.skip(0) =~= idv@);
    }
    while i < r.identifiers.len()
        invariant
            i <= r.identifiers@.len(),
            wf_resource(r@),
            idv@ == r@.identifiers,
            idv@.len() == r.identifiers@.len(),
            out@ + enc_pairs(idv@.skip(i as int)) == base@ + enc_pairs(idv@),
        decreases r.identifiers@.len() - i,
    {
        let before = Ghost(out@);
        let pair = &r.identifiers[i];
        proof {
            assert(idv@[i as int] == (pair.0@, pair.1@));
        }
        push_lp(out, &pair.0);
        push_lp(out, &pair.1);
        proof {
            let rest = idv@.skip(i as int);
            assert(rest[0] == idv@[i as int]);
            assert(rest.skip(1) =~= idv@.skip(i as int + 1));
            assert(enc_pairs(rest) == enc_lp(pair.0@) + enc_lp(pair.1@) + enc_pairs(
                idv@.skip(i as int + 1),
            ));
            assert(((before@ + enc_lp(pair.0@)) + enc_lp(pair.1@)) + enc_pairs(
                idv@.skip(i as int + 1),
            ) =~= before@ + enc_pairs(rest));
        }
        i += 1;
    }
    proof {
        assert(idv@.skip(idv@.len() as int) =~= Seq::<(Seq<u8>, Seq<u8>)>::empty());
        assert(out@ + enc_pairs(idv@.skip(idv@.len() as int)) =~= out@);
        assert(out@ =~= old(out)@ + enc_resource(r@));
    }
}

/// Encode the claims of an access token.
pub fn encode_access_claims(c: &Claims) -> (r: Vec<u8>)
    requires
        wf_claims(c@),
    ensures
        r@ == enc_access_claims(c@),
{
    let mut out: Vec<u8> = Vec::new();
    out.push(0x61u8);
    proof {
        assert(out@ =~= seq![access_tag()]);
    }
    push_hex(&mut out, c.exp as u128, 16);
    push_hex(&mut out, c.iat as u128, 16);
    push_hex(&mut out, c.sub, 32);
    push_hex(&mut out, c.sid, 32);
    push_lp(&mut out, &c.iss);
    push_lp(&mut out, &c.first_name);
    push_lp(&mut out, &c.last_name);
    push_lp(&mut out, &c.email);
    push_lp(&mut out, &c.phone);
    match &c.resource {
        Some(res) => {
            let prefix = Ghost(out@);
            out.push(0x31u8);
            push_resource(&mut out, res);
            proof {
                assert(prefix@.push(0x31u8) + enc_resource(res@) =~= prefix@ + enc_opt_resource(
                    c@.resource,
                ));
            }
        },
        None => {
            let prefix = Ghost(out@);
            out.push(0x30u8);
            proof {
                assert(prefix@.push(0x30u8) =~= prefix@ + enc_opt_resource(c@.resource));
            }
        },
    }
    out
}

/// Encode the claims of a refresh token.
pub fn encode_refresh_claims(c: &RefreshClaims) -> (r: Vec<u8>)
    ensures
        r@ == enc_refresh_claims(*c),
{
    let mut out: Vec<u8> = Vec::new();
    out.push(0x72u8);
    proof {
        assert(out@ =~= seq![refresh_tag()]);
    }
    push_hex(&mut out, c.sub, 32);
    push_hex(&mut out, c.rli, 32);
    push_hex(&mut out, c.cli, 32);
    push_hex(&mut out, c.exp as u128, 16);
    push_hex(&mut out, c.iat as u128, 16);
    out
}

// ------------------------------------------------------------------
// executable parsers
// ------------------------------------------------------------------

fn parse_u64_at(input: &Vec<u8>, pos: usize) -> (r: Option<(u64, usize)>)
    requires
        pos <= input@.len(),
    ensures
        match (r, spec_parse_u64(input@.skip(pos as int))) {
            (Some(vp), Some(sp)) => {
                &&& vp.0 == sp.0
                &&& vp.1 as int == input@.len() - sp.1.len()
                &&& pos <= vp.1 <= input@.len()
                &&& sp.1 =~= input@.skip(vp.1 as int)
            },
            (None, None) => true,
            _ => false,
        },
{
    match parse_hex_at(input, pos, 16) {
        None => None,
        Some((n, p2)) => {
            proof {
                let s = input@.skip(pos as int);
                lemma_hex_value_bound(s.take(16));
                lemma_pow16_widths();
            }
            Some((n as u64, p2))
        },
    }
}

fn parse_u128_at(input: &Vec<u8>, pos: usize) -> (r: Option<(u128, usize)>)
    requires
        pos <= input@.len(),
    ensures
        match (r, spec_parse_u128(input@.skip(pos as int))) {
            (Some(vp), Some(sp)) => {
                &&& vp.0 == sp.0
                &&& vp.1 as int == input@.len() - sp.1.len()
                &&& pos <= vp.1 <= input@.len()
                &&& sp.1 =~= input@.skip(vp.1 as int)
            },
            (None, None) => true,
            _ => false,
        },
{
    parse_hex_at(input, pos, 32)
}

fn parse_opt_lp_at(input: &Vec<u8>, pos: usize) -> (r: Option<(Option<Vec<u8>>, usize)>)
    requires
        pos <= input@.len(),
    ensures
        match (r, spec_parse_opt_lp(input@.skip(pos as int))) {
            (Some(vp), Some(sp)) => {
                &&& opt_view(vp.0) == sp.0
                &&& vp.1 as int == input@.len() - sp.1.len()
                &&& pos <= vp.1 <= input@.len()
                &&& sp.1 =~= input@.skip(vp.1 as int)
            },
            (None, None) => true,
            _ => false,
        },
{
    if pos >= input.len() {
        return None;
    }
    let tag = input[pos];
    proof {
        assert(input@.skip(pos as int)[0] == input@[pos as int]);
        assert(input@.skip(pos as int).skip(1) =~= input@.skip(pos as int + 1));
    }
    if tag == 0x31 {
        match parse_lp_at(input, pos + 1) {
            Some((b, p2)) => Some((Some(b), p2)),
            None => None,
        }
    } else if tag == 0x30 {
        Some((None, pos + 1))
    } else {
        None
    }
}

fn parse_pairs_at(input: &Vec<u8>, pos: usize, count: u32) -> (r: Option<
    (Vec<(Vec<u8>, Vec<u8>)>, usize),
>)
    requires
        pos <= input@.len(),
    ensures
        match (r, spec_parse_pairs(input@.skip(pos as int), count as nat)) {
            (Some(vp), Some(sp)) => {
                &&& pairs_view(vp.0@) == sp.0
                &&& vp.1 as int == input@.len() - sp.1.len()
                &&& pos <= vp.1 <= input@.len()
                &&& sp.1 =~= input@.skip(vp.1 as int)
            },
            (None, None) => true,
            _ => false,
        },
{
    let mut acc: Vec<(Vec<u8>, Vec<u8>)> = Vec::new();
    let mut p: usize = pos;
    let mut i: u32 = 0;
    proof {
        assert(pairs_view(acc@) =~= Seq::<(Seq<u8>, Seq<u8>)>::empty());
    }
    while i < count
        invariant
            i <= count,
            pos <= p <= input@.len(),
            ({
                let full = spec_parse_pairs(input@.skip(pos as int), count as nat);
                let rem = spec_parse_pairs(input@.skip(p as int), (count - i) as nat);
                match (full, rem) {
                    (Some(f), Some(rm)) => f.0 == pairs_view(acc@) + rm.0 && f.1 == rm.1,
                    (None, None) => true,
                    _ => false,
                }
            }),
        decreases count - i,
    {
        let k = match parse_lp_at(input, p) {
            Some(kp) => kp,
            None => {
                return None;
            },
        };
        let v = match parse_lp_at(input, k.1) {
            Some(vp) => vp,
            None => {
                return None;
            },
        };
        proof {
            let accv = pairs_view(acc@);
            let rem = spec_parse_pairs(input@.skip(p as int), (count - i) as nat);
            let rem2 = spec_parse_pairs(input@.skip(v.1 as int), (count - i - 1) as nat);
            assert(pairs_view(acc@.push((k.0, v.0))) =~= accv.push((k.0@, v.0@)));
            match rem2 {
                Some(r2) => {
                    assert(rem == Some((seq![(k.0@, v.0@)] + r2.0, r2.1)));
                    assert(accv + (seq![(k.0@, v.0@)] + r2.0) =~= accv.push((k.0@, v.0@)) + r2.0);
                },
                None => {
                    assert(rem is None);
                },
            }
        }
        acc.push((k.0, v.0));
        p = v.1;
        i += 1;
    }
    proof {
        if spec_parse_pairs(input@.skip(pos as int), count as nat) is Some {
            assert(pairs_view(acc@) + Seq::<(Seq<u8>, Seq<u8>)>::empty() =~= pairs_view(acc@));
        }
    }
    Some((acc, p))
}

fn parse_opt_resource_at(input: &Vec<u8>, pos: usize) -> (r: Option<
    (Option<TokenResource>, usize),
>)
    requires
        pos <= input@.len(),
    ensures
        match (r, spec_parse_opt_resource(input@.skip(pos as int))) {
            (Some(vp), Some(sp)) => {
                &&& match (vp.0, sp.0) {
                    (Some(rr), Some(rv)) => rr@ == rv,
                    (None, None) => true,
                    _ => false,
                }
                &&& vp.1 as int == input@.len() - sp.1.len()
                &&& pos <= vp.1 <= input@.len()
                &&& sp.1 =~= input@.skip(vp.1 as int)
            },
            (None, None) => true,
            _ => false,
        },
{
    if pos >= input.len() {
        return None;
    }
    let tag = input[pos];
    proof {
        assert(input@.skip(pos as int)[0] == input@[pos as int]);
        assert(input@.skip(pos as int).skip(1) =~= input@.skip(pos as int + 1));
    }
    if tag == 0x31 {
        let p1 = pos + 1;
        let cid = match parse_u128_at(input, p1) {
            Some(x) => x,
            None => {
                return None;
            },
        };
        let cname = match parse_lp_at(input, cid.1) {
            Some(x) => x,
            None => {
                return None;
            },
        };
        let gname = match parse_opt_lp_at(input, cname.1) {
            Some(x) => x,
            None => {
                return None;
            },
        };
        let cnt = match parse_hex_at(input, gname.1, 8) {
            Some(x) => x,
            None => {
                return None;
            },
        };
        proof {
            lemma_hex_value_bound(input@.skip(gname.1 as int).take(8));
            lemma_pow16_widths();
        }
        let idents = match parse_pairs_at(input, cnt.1, cnt.0 as u32) {
            Some(x) => x,
            None => {
                return None;
            },
        };
        let res = TokenResource {
            client_id: cid.0,
            client_name: cname.0,
            group_name: gname.0,
            identifiers: idents.0,
        };
        Some((Some(res), idents.1))
    } else if tag == 0x30 {
        Some((None, pos + 1))
    } else {
        None
    }
}

/// Parse an access-token claims string; `None` exactly where the spec-level
/// parser rejects the input.
pub fn parse_access_claims(input: &Vec<u8>) -> (r: Option<Claims>)
    ensures
        match (r, spec_parse_access_claims(input@)) {
            (Some(c), Some(cv)) => c@ == cv,
            (None, None) => true,
            _ => false,
        },
{
    if input.len() < 1 {
        return None;
    }
    if input[0] != 0x61 {
        return None;
    }
    proof {
        assert(input@.skip(0).skip(1) =~= input@.skip(1));
        assert(input@[0] == input@.skip(0)[0]);
    }
    let exp = match parse_u64_at(input, 1) {
        Some(x) => x,
        None => {
            return None;
        },
    };
    let iat = match parse_u64_at(input, exp.1) {
        Some(x) => x,
        None => {
            return None;
        },
    };
    let sub = match parse_u128_at(input, iat.1) {
        Some(x) => x,
        None => {
            return None;
        },
    };
    let sid = match parse_u128_at(input, sub.1) {
        Some(x) => x,
        None => {
            return None;
        },
    };
    let iss = match parse_lp_at(input, sid.1) {
        Some(x) => x,
        None => {
            return None;
        },
    };
    let first_name = match parse_lp_at(input, iss.1) {
        Some(x) => x,
        None => {
            return None;
        },
    };
    let last_name = match parse_lp_at(input, first_name.1) {
        Some(x) => x,
        None => {
            return None;
        },
    };
    let email = match parse_lp_at(input, last_name.1) {
        Some(x) => x,
        None => {
            return None;
        },
    };
    let phone = match parse_lp_at(input, email.1) {
        Some(x) => x,
        None => {
            return None;
        },
    };
    let resource = match parse_opt_resource_at(input, phone.1) {
        Some(x) => x,
        None => {
            return None;
        },
    };
    if resource.1 != input.len() {
        return None;
    }
    Some(
        Claims {
            exp: exp.0,
            iat: iat.0,
            sub: sub.0,
            sid: sid.0,
            iss: iss.0,
            first_name: first_name.0,
            last_name: last_name.0,
            email: email.0,
            phone: phone.0,
            resource: resource.0,
        },
    )
}

/// Parse a refresh-token claims string; `None` exactly where the spec-level
/// parser rejects the input.
pub fn parse_refresh_claims(input: &Vec<u8>) -> (r: Option<RefreshClaims>)
    ensures
        match (r, spec_parse_refresh_claims(input@)) {
            (Some(c), Some(cv)) => c == cv,
            (None, None) => true,
            _ => false,
        },
{
    if input.len() < 1 {
        return None;
    }
    if input[0] != 0x72 {
        return None;
    }
    proof {
        assert(input@.skip(0).skip(1) =~= input@.skip(1));
        assert(input@[0] == input@.skip(0)[0]);
    }
    let sub = match parse_u128_at(input, 1) {
        Some(x) => x,
        None => {
            return None;
        },
    };
    let rli = match parse_u128_at(input, sub.1) {
        Some(x) => x,
        None => {
            return None;
        },
    };
    let cli = match parse_u128_at(input, rli.1) {
        Some(x) => x,
        None => {
            return None;
        },
    };
    let exp = match parse_u64_at(input, cli.1) {
        Some(x) => x,
        None => {
            return None;
        },
    };
    let iat = match parse_u64_at(input, exp.1) {
        Some(x) => x,
        None => {
            return None;
        },
    };
    if iat.1 != input.len() {
        return None;
    }
    Some(RefreshClaims { sub: sub.0, rli: rli.0, cli: cli.0, exp: exp.0, iat: iat.0 })
}

/// The claims codec round trip for refresh-token claims.
pub proof fn lemma_parse_refresh_claims_enc(c: RefreshClaims)
    ensures
        spec_parse_refresh_claims(enc_refresh_claims(c)) == Some(c),
{
    let s = enc_refresh_claims(c);
    let t5 = enc_u64(c.iat);
    let t4 = enc_u64(c.exp) + t5;
    let t3 = enc_u128(c.cli) + t4;
    let t2 = enc_u128(c.rli) + t3;
    let t1 = enc_u128(c.sub) + t2;
    assert(s[0] == refresh_tag());
    assert(s.skip(1) =~= t1);
    lemma_parse_u128_enc(c.sub, t2);
    lemma_parse_u128_enc(c.rli, t3);
    lemma_parse_u128_enc(c.cli, t4);
    lemma_parse_u64_enc(c.exp, t5);
    lemma_parse_u64_enc(c.iat, Seq::empty());
    assert(t5 + Seq::<u8>::empty() =~= t5);
}

} // verus!
