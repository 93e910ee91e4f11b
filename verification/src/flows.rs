//! The authentication orchestrator.
//!
//! Login composes the lookups, the lock gate, the password verdict, the
//! admission ceiling, the resolved resource bundle, and the token issuer;
//! refresh composes the token check, the rotation engine, and the same
//! admission and issuing steps; logout and introspection read the same
//! records. Every mutating flow either completes in full or leaves the
//! store exactly as it was, mirroring a transaction.
//!
//! Password hashing lives outside this crate: `login_prepare` hands the
//! stored hash out, the caller asks the hasher whether the presented
//! password matches, and `login_complete` takes that verdict.

use vstd::prelude::*;

use crate::claims::{
    pairs_view, Claims, ClaimsView, RefreshClaims, TokenResource, TokenResourceView, wf_claims,
};
use crate::errors::{AuthenticateError, ConflictError, Error, NotFoundError, ValidationError};
use crate::groups::{
    count_default, group_is_default, has_group, i1, i1_for, in_pair, is_key,
    lemma_at_most_one_default, unique_keys, GroupRec,
};
use crate::lock::{is_locked, is_locked_spec};
use crate::refresh::{
    find_token, has_token, rotate_refresh_token, spec_rotate, unique_token_ids, RefreshTokenRec,
};
use crate::sessions::{
    admit_and_create_session, delete_session, delete_sessions_by_pair, count_by_id,
    count_by_pair, new_session, remove_by_id, remove_by_pair, spec_admit, SessionMeta,
    SessionRec,
};
use crate::store::{
    active_idents, bytes_ok, client_at, clone_bytes, collect_active_idents, default_group_key,
    find_client, find_default_group, find_group_name, find_group_rec, find_realm, find_session,
    find_user_by_email, find_user_by_id, group_name_at, group_unlocked, has_client,
    has_default_group, has_group_name, has_realm, has_session_id, has_user_email, has_user_id,
    lemma_active_idents_bounds, lemma_active_idents_len, realm_at, session_at, user_at_email,
    user_at_id, user_email_matches, ClientRec, GroupName, RealmRec, ResourceRec, Store, UserRec,
};
use crate::token::{
    access_token_of, issue_access, issue_refresh, refresh_token_of, spec_verify_access,
    spec_verify_refresh, verify_access, verify_refresh,
};

verus! {

/// What `login_prepare` resolved: where the records stand and the stored
/// password hash the caller must check the presented password against.
pub struct LoginPrepared {
    pub realm_index: usize,
    pub user_index: usize,
    pub client_index: usize,
    pub group_key: u128,
    pub password_hash: Vec<u8>,
}

/// The decision chain of the lookup-and-gate half of login, ending in the
/// resolved group key or the exact error owed.
pub open spec fn spec_login_prepare(
    s: Store,
    realm_id: u128,
    client_id: u128,
    email: Seq<u8>,
    requested_group: Option<u128>,
    now: u64,
) -> Result<u128, Error> {
    if !has_realm(s.realms@, realm_id) {
        Err(Error::Validation(ValidationError::BadRealmClientCombo))
    } else if is_locked_spec(realm_at(s.realms@, realm_id).locked_at, now) {
        Err(Error::Authenticate(AuthenticateError::Locked))
    } else if !has_user_email(s.users@, realm_id, email) {
        Err(Error::NotFound(NotFoundError::UserNotFound))
    } else {
        let u = user_at_email(s.users@, realm_id, email);
        if is_locked_spec(u.locked_at, now) {
            Err(Error::Authenticate(AuthenticateError::Locked))
        } else {
            let key_opt = match requested_group {
                Some(k) => if has_group(s.groups@, u.id, client_id, k) {
                    Some(k)
                } else {
                    None
                },
                None => if has_default_group(s.groups@, u.id, client_id) {
                    Some(default_group_key(s.groups@, u.id, client_id))
                } else {
                    None
                },
            };
            match key_opt {
                None => Err(Error::NotFound(NotFoundError::GroupNotFound)),
                Some(key) => if !group_unlocked(s.groups@, u.id, client_id, key, now) {
                    Err(Error::Authenticate(AuthenticateError::Locked))
                } else if !has_client(s.clients@, client_id) || client_at(
                    s.clients@,
                    client_id,
                ).realm_id != realm_id {
                    Err(Error::Validation(ValidationError::BadRealmClientCombo))
                } else if is_locked_spec(client_at(s.clients@, client_id).locked_at, now) {
                    Err(Error::Authenticate(AuthenticateError::Locked))
                } else {
                    Ok(key)
                },
            }
        }
    }
}

/// Look the login's records up and run the lock gate over them, in the
/// order the flow prescribes: realm, user, resource group, client. No
/// password is seen here, so a locked record fails the login whatever the
/// credentials are.
pub fn login_prepare(
    store: &Store,
    realm_id: u128,
    client_id: u128,
    email: &Vec<u8>,
    requested_group: Option<u128>,
    now: u64,
) -> (r: Result<LoginPrepared, Error>)
    requires
        store.wf(),
    ensures
        match r {
            Ok(p) => {
                &&& spec_login_prepare(*store, realm_id, client_id, email@, requested_group, now)
                    == Ok::<u128, Error>(p.group_key)
                &&& p.realm_index < store.realms@.len()
                &&& store.realms@[p.realm_index as int] == realm_at(store.realms@, realm_id)
                &&& p.user_index < store.users@.len()
                &&& store.users@[p.user_index as int] == user_at_email(
                    store.users@,
                    realm_id,
                    email@,
                )
                &&& p.client_index < store.clients@.len()
                &&& store.clients@[p.client_index as int] == client_at(store.clients@, client_id)
                &&& p.password_hash@ == user_at_email(
                    store.users@,
                    realm_id,
                    email@,
                ).password_hash@
            },
            Err(e) => spec_login_prepare(*store, realm_id, client_id, email@, requested_group, now)
                == Err::<u128, Error>(e),
        },
{
    // realm
    let ri = match find_realm(&store.realms, realm_id) {
        Some(i) => i,
        None => {
            return Err(Error::Validation(ValidationError::BadRealmClientCombo));
        },
    };
    proof {
        let k = choose|i: int|
            0 <= i < store.realms@.len() && (#[trigger] store.realms@[i]).id == realm_id;
        assert(store.realms@[k].id == realm_id);
        assert(k == ri as int);
    }
    if is_locked(&store.realms[ri].locked_at, now) {
        return Err(Error::Authenticate(AuthenticateError::Locked));
    }
    // user
    let ui = match find_user_by_email(&store.users, realm_id, email) {
        Some(i) => i,
        None => {
            return Err(Error::NotFound(NotFoundError::UserNotFound));
        },
    };
    proof {
        let k = choose|i: int|
            0 <= i < store.users@.len() && user_email_matches(
                #[trigger] store.users@[i],
                realm_id,
                email@,
            );
        assert(user_email_matches(store.users@[k], realm_id, email@));
        assert(k == ui as int);
    }
    let user_id = store.users[ui].id;
    if is_locked(&store.users[ui].locked_at, now) {
        return Err(Error::Authenticate(AuthenticateError::Locked));
    }
    // resource group: the requested one, or the pair's default
    let group = match requested_group {
        Some(k) => find_group_rec(&store.groups, user_id, client_id, k),
        None => find_default_group(&store.groups, user_id, client_id),
    };
    let g = match group {
        Some(g) => g,
        None => {
            proof {
                if requested_group is None {
                    assert(!has_default_group(store.groups@, user_id, client_id)) by {
                        if has_default_group(store.groups@, user_id, client_id) {
                            let k = choose|i: int|
                                0 <= i < store.groups@.len() && in_pair(
                                    #[trigger] store.groups@[i],
                                    user_id,
                                    client_id,
                                ) && store.groups@[i].is_default;
                            crate::groups::lemma_count_default_lower(store.groups@, user_id, client_id, k);
                        }
                    }
                }
            }
            return Err(Error::NotFound(NotFoundError::GroupNotFound));
        },
    };
    proof {
        if requested_group is None {
            let k = choose|i: int|
                0 <= i < store.groups@.len() && in_pair(
                    #[trigger] store.groups@[i],
                    user_id,
                    client_id,
                ) && store.groups@[i].is_default;
            let gi = choose|i: int|
                0 <= i < store.groups@.len() && #[trigger] store.groups@[i] == g;
            assert(i1_for(store.groups@, user_id, client_id));
            lemma_at_most_one_default(store.groups@, user_id, client_id, k, gi);
            assert(default_group_key(store.groups@, user_id, client_id) == g.group_key);
        }
    }
    if is_locked(&g.locked_at, now) {
        proof {
            assert(!group_unlocked(store.groups@, user_id, client_id, g.group_key, now)) by {
                if group_unlocked(store.groups@, user_id, client_id, g.group_key, now) {
                    let k = choose|i: int|
                        0 <= i < store.groups@.len() && is_key(
                            #[trigger] store.groups@[i],
                            user_id,
                            client_id,
                            g.group_key,
                        ) && !is_locked_spec(store.groups@[i].locked_at, now);
                    let gi = choose|i: int|
                        0 <= i < store.groups@.len() && #[trigger] store.groups@[i] == g;
                    assert(store.groups@[k] == store.groups@[gi]);
                }
            }
        }
        return Err(Error::Authenticate(AuthenticateError::Locked));
    }
    proof {
        let gi = choose|i: int| 0 <= i < store.groups@.len() && #[trigger] store.groups@[i] == g;
        assert(group_unlocked(store.groups@, user_id, client_id, g.group_key, now)) by {
            assert(is_key(store.groups@[gi], user_id, client_id, g.group_key) && !is_locked_spec(
                store.groups@[gi].locked_at,
                now,
            ));
        }
    }
    // client
    let ci = match find_client(&store.clients, client_id) {
        Some(i) => i,
        None => {
            return Err(Error::Validation(ValidationError::BadRealmClientCombo));
        },
    };
    proof {
        let k = choose|i: int|
            0 <= i < store.clients@.len() && (#[trigger] store.clients@[i]).id == client_id;
        assert(store.clients@[k].id == client_id);
        assert(k == ci as int);
    }
    if store.clients[ci].realm_id != realm_id {
        return Err(Error::Validation(ValidationError::BadRealmClientCombo));
    }
    if is_locked(&store.clients[ci].locked_at, now) {
        return Err(Error::Authenticate(AuthenticateError::Locked));
    }
    let hash = clone_bytes(&store.users[ui].password_hash);
    Ok(
        LoginPrepared {
            realm_index: ri,
            user_index: ui,
            client_index: ci,
            group_key: g.group_key,
            password_hash: hash,
        },
    )
}

/// What a successful login hands back.
#[derive(Debug)]
pub struct LoginOutput {
    pub access_token: Vec<u8>,
    pub refresh_token: Option<Vec<u8>>,
    pub session_id: u128,
    pub user_id: u128,
    pub realm_id: u128,
    pub client_id: u128,
    pub expires: u64,
}

/// The access-token claims of a session: subject, session, issuer,
/// validity, display fields, and the resolved resource bundle.
pub open spec fn login_claims(
    user: UserRec,
    client: ClientRec,
    group_key: u128,
    group_names: Seq<GroupName>,
    idents: Seq<(Seq<u8>, Seq<u8>)>,
    session_id: u128,
    expires: u64,
    now: u64,
    issuer: Seq<u8>,
) -> ClaimsView {
    ClaimsView {
        exp: expires,
        iat: now,
        sub: user.id,
        sid: session_id,
        iss: issuer,
        first_name: user.first_name@,
        last_name: match user.last_name {
            Some(l) => l@,
            None => Seq::empty(),
        },
        email: user.email@,
        phone: match user.phone {
            Some(p) => p@,
            None => Seq::empty(),
        },
        resource: Some(
            TokenResourceView {
                client_id: client.id,
                client_name: client.name@,
                group_name: if has_group_name(group_names, group_key) {
                    Some(group_name_at(group_names, group_key))
                } else {
                    None
                },
                identifiers: idents,
            },
        ),
    }
}

/// The refresh-token claims minted at login or refresh.
pub open spec fn minted_refresh_claims(
    token_id: u128,
    realm_id: u128,
    client_id: u128,
    exp: u64,
    now: u64,
) -> RefreshClaims {
    RefreshClaims { sub: token_id, rli: realm_id, cli: client_id, exp, iat: now }
}

/// The row a freshly minted refresh token adds.
pub open spec fn minted_refresh_token(token_id: u128, user_id: u128, client: ClientRec) -> RefreshTokenRec {
    RefreshTokenRec {
        id: token_id,
        user_id,
        client_id: Some(client.id),
        realm_id: client.realm_id,
        re_used_count: 0,
        locked_at: None,
    }
}

/// Complete a login once the password has been checked: admission, the
/// resource bundle, the optional refresh token, the session row, and the
/// signed access token — all of it, or none of it.
///
/// `password_ok` is the external password verifier's verdict on the
/// presented password against `login_prepare`'s hash.
pub fn login_complete(
    store: &mut Store,
    prep: &LoginPrepared,
    password_ok: bool,
    meta: SessionMeta,
    now: u64,
    session_id: u128,
    refresh_token_id: u128,
    secret: &Vec<u8>,
    issuer: &Vec<u8>,
) -> (r: Result<LoginOutput, Error>)
    requires
        old(store).wf(),
        prep.realm_index < old(store).realms@.len(),
        prep.user_index < old(store).users@.len(),
        prep.client_index < old(store).clients@.len(),
        !has_token(old(store).refresh_tokens@, refresh_token_id),
        !has_session_id(old(store).sessions@, session_id),
        bytes_ok(issuer@),
        now + old(store).clients@[prep.client_index as int].session_lifetime <= u64::MAX,
        now + old(store).realms@[prep.realm_index as int].refresh_token_lifetime <= u64::MAX,
    ensures
        ({
            let user = old(store).users@[prep.user_index as int];
            let client = old(store).clients@[prep.client_index as int];
            let realm = old(store).realms@[prep.realm_index as int];
            let idents = active_idents(
                old(store).resources@,
                user.id,
                client.id,
                prep.group_key,
                now,
            );
            let admitted = spec_admit(
                old(store).sessions@,
                user.id,
                client.id,
                client.max_concurrent_sessions,
                now,
            );
            let expires = (now + client.session_lifetime) as u64;
            match r {
                Err(e) => {
                    &&& *final(store) == *old(store)
                    &&& (!password_ok || !admitted || idents.len() == 0)
                    &&& (e == Error::Authenticate(AuthenticateError::WrongCredentials)
                        <==> !password_ok)
                    &&& (e == Error::Authenticate(AuthenticateError::MaxConcurrentSessions)
                        <==> password_ok && !admitted)
                    &&& (e == Error::Authenticate(AuthenticateError::Locked) <==> password_ok
                        && admitted && idents.len() == 0)
                },
                Ok(out) => {
                    &&& password_ok
                    &&& admitted
                    &&& idents.len() > 0
                    &&& out.session_id == session_id
                    &&& out.user_id == user.id
                    &&& out.realm_id == user.realm_id
                    &&& out.client_id == client.id
                    &&& out.expires == expires
                    &&& final(store).sessions@ == old(store).sessions@.push(
                        new_session(
                            session_id,
                            user.id,
                            client.id,
                            if client.use_refresh_token {
                                Some(refresh_token_id)
                            } else {
                                None
                            },
                            expires,
                            meta,
                        ),
                    )
                    &&& final(store).refresh_tokens@ == if client.use_refresh_token {
                        old(store).refresh_tokens@.push(
                            minted_refresh_token(refresh_token_id, user.id, client),
                        )
                    } else {
                        old(store).refresh_tokens@
                    }
                    &&& final(store).realms == old(store).realms
                    &&& final(store).clients == old(store).clients
                    &&& final(store).users == old(store).users
                    &&& final(store).groups == old(store).groups
                    &&& final(store).group_names == old(store).group_names
                    &&& final(store).resources == old(store).resources
                    &&& final(store).wf()
                    &&& out.access_token@ == access_token_of(
                        login_claims(
                            user,
                            client,
                            prep.group_key,
                            old(store).group_names@,
                            idents,
                            session_id,
                            expires,
                            now,
                            issuer@,
                        ),
                        secret@,
                    )
                    &&& match out.refresh_token {
                        Some(t) => client.use_refresh_token && t@ == refresh_token_of(
                            minted_refresh_claims(
                                refresh_token_id,
                                client.realm_id,
                                client.id,
                                (now + realm.refresh_token_lifetime) as u64,
                                now,
                            ),
                            secret@,
                        ),
                        None => !client.use_refresh_token,
                    }
                },
            }
        }),
{
    let cid = store.clients[prep.client_index].id;
    let c_max = store.clients[prep.client_index].max_concurrent_sessions;
    let c_lifetime = store.clients[prep.client_index].session_lifetime;
    let c_use_rt = store.clients[prep.client_index].use_refresh_token;
    let c_realm = store.clients[prep.client_index].realm_id;
    let uid = store.users[prep.user_index].id;
    let u_realm = store.users[prep.user_index].realm_id;
    let rt_lifetime = store.realms[prep.realm_index].refresh_token_lifetime;
    if !password_ok {
        return Err(Error::Authenticate(AuthenticateError::WrongCredentials));
    }
    let live = crate::sessions::count_active_ex(&store.sessions, uid, cid, now);
    if live >= c_max as usize {
        return Err(Error::Authenticate(AuthenticateError::MaxConcurrentSessions));
    }
    let idents = collect_active_idents(&store.resources, uid, cid, prep.group_key, now);
    if idents.len() == 0 {
        proof {
            assert(pairs_view(idents@).len() == 0);
        }
        return Err(Error::Authenticate(AuthenticateError::Locked));
    }
    let client_name = clone_bytes(&store.clients[prep.client_index].name);
    let first_name = clone_bytes(&store.users[prep.user_index].first_name);
    let last_name = match &store.users[prep.user_index].last_name {
        Some(l) => clone_bytes(l),
        None => Vec::new(),
    };
    let email = clone_bytes(&store.users[prep.user_index].email);
    let phone = match &store.users[prep.user_index].phone {
        Some(p) => clone_bytes(p),
        None => Vec::new(),
    };
    let group_name = find_group_name(&store.group_names, prep.group_key);
    proof {
        match &group_name {
            Some(n) => {
                let j = choose|j: int|
                    0 <= j < store.group_names@.len() && (#[trigger] store.group_names@[j]).group_key
                        == prep.group_key && store.group_names@[j].name@ == n@;
                let k = choose|i: int|
                    0 <= i < store.group_names@.len() && (#[trigger] store.group_names@[i]).group_key
                        == prep.group_key;
                assert(store.group_names@[j].group_key == prep.group_key);
                assert(j == k);
            },
            None => {},
        }
    }
    // from here the store changes; every check has passed
    let rt_opt_id = if c_use_rt {
        store.refresh_tokens.push(
            RefreshTokenRec {
                id: refresh_token_id,
                user_id: uid,
                client_id: Some(cid),
                realm_id: c_realm,
                re_used_count: 0,
                locked_at: None,
            },
        );
        proof {
            let ts = store.refresh_tokens@;
            let orig = old(store).refresh_tokens@;
            assert forall|a: int, b: int|
                #![trigger ts[a], ts[b]]
                0 <= a < b < ts.len() implies ts[a].id != ts[b].id by {
                if b < ts.len() - 1 {
                    assert(ts[a] == orig[a]);
                    assert(ts[b] == orig[b]);
                } else {
                    assert(ts[a] == orig[a]);
                    assert(ts[b].id == refresh_token_id);
                }
            }
        }
        Some(refresh_token_id)
    } else {
        None
    };
    let expires = match admit_and_create_session(
        &mut store.sessions,
        uid,
        cid,
        c_max,
        now,
        c_lifetime,
        session_id,
        rt_opt_id,
        meta,
    ) {
        Ok(e) => e,
        Err(_) => {
            proof {
                assert(false);
            }
            return Err(Error::Authenticate(AuthenticateError::MaxConcurrentSessions));
        },
    };
    proof {
        let ss = store.sessions@;
        let orig = old(store).sessions@;
        assert forall|a: int, b: int|
            #![trigger ss[a], ss[b]]
            0 <= a < b < ss.len() implies ss[a].id != ss[b].id by {
            if b < ss.len() - 1 {
                assert(ss[a] == orig[a]);
                assert(ss[b] == orig[b]);
            } else {
                assert(ss[a] == orig[a]);
                assert(ss[b].id == session_id);
            }
        }
    }
    let claims = Claims {
        exp: expires,
        iat: now,
        sub: uid,
        sid: session_id,
        iss: clone_bytes(issuer),
        first_name,
        last_name,
        email,
        phone,
        resource: Some(
            TokenResource { client_id: cid, client_name, group_name, identifiers: idents },
        ),
    };
    proof {
        let user = old(store).users@[prep.user_index as int];
        let client = old(store).clients@[prep.client_index as int];
        let sidents = active_idents(old(store).resources@, uid, cid, prep.group_key, now);
        lemma_active_idents_len(old(store).resources@, uid, cid, prep.group_key, now);
        lemma_active_idents_bounds(old(store).resources@, uid, cid, prep.group_key, now);
        assert(claims@.resource == Some(
            login_claims(
                user,
                client,
                prep.group_key,
                old(store).group_names@,
                sidents,
                session_id,
                expires,
                now,
                issuer@,
            ).resource.unwrap(),
        ));
        assert(wf_claims(claims@));
    }
    let access_token = issue_access(&claims, secret);
    let refresh_token = if c_use_rt {
        let rc = RefreshClaims {
            sub: refresh_token_id,
            rli: c_realm,
            cli: cid,
            exp: now + rt_lifetime as u64,
            iat: now,
        };
        Some(issue_refresh(&rc, secret))
    } else {
        None
    };
    Ok(
        LoginOutput {
            access_token,
            refresh_token,
            session_id,
            user_id: uid,
            realm_id: u_realm,
            client_id: cid,
            expires,
        },
    )
}

/// What a successful refresh hands back.
#[derive(Debug)]
pub struct RefreshOutput {
    pub access_token: Vec<u8>,
    pub refresh_token: Vec<u8>,
    pub session_id: u128,
    pub expires_in: u64,
}

/// The row with this token id.
pub open spec fn refresh_token_at(ts: Seq<RefreshTokenRec>, id: u128) -> RefreshTokenRec
    recommends
        has_token(ts, id),
{
    ts[choose|i: int| 0 <= i < ts.len() && (#[trigger] ts[i]).id == id]
}

/// The decision chain of a refresh request, ending in the exact error owed
/// or the go-ahead.
pub open spec fn spec_refresh_check(
    s: Store,
    realm_id: u128,
    client_id: u128,
    token: Seq<u8>,
    secret: Seq<u8>,
    now: u64,
) -> Result<(), Error> {
    match spec_verify_refresh(token, secret, now) {
        Err(e) => Err(Error::Authenticate(e)),
        Ok(claims) => if claims.rli != realm_id || claims.cli != client_id {
            Err(Error::Authenticate(AuthenticateError::InvalidToken))
        } else if !has_realm(s.realms@, realm_id) {
            Err(Error::Validation(ValidationError::BadRealmClientCombo))
        } else if is_locked_spec(realm_at(s.realms@, realm_id).locked_at, now) {
            Err(Error::Authenticate(AuthenticateError::Locked))
        } else if !has_token(s.refresh_tokens@, claims.sub) {
            Err(Error::NotFound(NotFoundError::ResourceNotFound))
        } else {
            let rt = refresh_token_at(s.refresh_tokens@, claims.sub);
            if is_locked_spec(rt.locked_at, now) {
                Err(Error::Authenticate(AuthenticateError::Locked))
            } else if !has_client(s.clients@, client_id) {
                Err(Error::Authenticate(AuthenticateError::InvalidToken))
            } else {
                let client = client_at(s.clients@, client_id);
                if is_locked_spec(client.locked_at, now) {
                    Err(Error::Authenticate(AuthenticateError::Locked))
                } else if !has_user_id(s.users@, rt.user_id) {
                    Err(Error::NotFound(NotFoundError::UserNotFound))
                } else {
                    let user = user_at_id(s.users@, rt.user_id);
                    if is_locked_spec(user.locked_at, now) {
                        Err(Error::Authenticate(AuthenticateError::Locked))
                    } else if !has_default_group(s.groups@, user.id, client_id) {
                        Err(Error::NotFound(NotFoundError::GroupNotFound))
                    } else {
                        let gkey = default_group_key(s.groups@, user.id, client_id);
                        if !group_unlocked(s.groups@, user.id, client_id, gkey, now) {
                            Err(Error::Authenticate(AuthenticateError::Locked))
                        } else if !spec_admit(
                            s.sessions@,
                            user.id,
                            client_id,
                            client.max_concurrent_sessions,
                            now,
                        ) {
                            Err(Error::Authenticate(AuthenticateError::MaxConcurrentSessions))
                        } else if active_idents(s.resources@, user.id, client_id, gkey, now).len()
                            == 0 {
                            Err(Error::Authenticate(AuthenticateError::Locked))
                        } else {
                            Ok(())
                        }
                    }
                }
            }
        },
    }
}

/// Serve a refresh request: check the presented token, rotate it, admit a
/// new session bound to the rotation's outcome, and issue fresh tokens —
/// all of it, or none of it.
pub fn refresh_session(
    store: &mut Store,
    realm_id: u128,
    client_id: u128,
    token: &Vec<u8>,
    meta: SessionMeta,
    now: u64,
    fresh_session_id: u128,
    fresh_refresh_id: u128,
    secret: &Vec<u8>,
    issuer: &Vec<u8>,
) -> (r: Result<RefreshOutput, Error>)
    requires
        old(store).wf(),
        !has_token(old(store).refresh_tokens@, fresh_refresh_id),
        !has_session_id(old(store).sessions@, fresh_session_id),
        bytes_ok(issuer@),
        now + 0xFFFF_FFFF <= u64::MAX,
    ensures
        match r {
            Err(e) => *final(store) == *old(store) && spec_refresh_check(
                *old(store),
                realm_id,
                client_id,
                token@,
                secret@,
                now,
            ) == Err::<(), Error>(e),
            Ok(out) => spec_refresh_check(
                *old(store),
                realm_id,
                client_id,
                token@,
                secret@,
                now,
            ) == Ok::<(), Error>(()) && match spec_verify_refresh(token@, secret@, now) {
                Ok(claims) => {
                    let rt = refresh_token_at(old(store).refresh_tokens@, claims.sub);
                    let client = client_at(old(store).clients@, client_id);
                    let realm = realm_at(old(store).realms@, realm_id);
                    let user = user_at_id(old(store).users@, rt.user_id);
                    let gkey = default_group_key(old(store).groups@, user.id, client_id);
                    let idents = active_idents(
                        old(store).resources@,
                        user.id,
                        client_id,
                        gkey,
                        now,
                    );
                    let rotated = spec_rotate(
                        rt,
                        client.refresh_token_reuse_limit,
                        fresh_refresh_id,
                    );
                    let expires = (now + client.session_lifetime) as u64;
                    &&& out.session_id == fresh_session_id
                    &&& out.expires_in == claims.exp - now
                    &&& final(store).sessions@ == old(store).sessions@.push(
                        new_session(
                            fresh_session_id,
                            user.id,
                            client_id,
                            Some(rotated.id),
                            expires,
                            meta,
                        ),
                    )
                    &&& (rotated.id == rt.id <==> rt.re_used_count
                        < client.refresh_token_reuse_limit)
                    &&& (rt.re_used_count < client.refresh_token_reuse_limit ==> rotated.re_used_count
                        == rt.re_used_count + 1)
                    &&& (rt.re_used_count >= client.refresh_token_reuse_limit ==> rotated.re_used_count
                        == 0)
                    &&& has_token(final(store).refresh_tokens@, rotated.id)
                    &&& refresh_token_at(final(store).refresh_tokens@, rotated.id) == rotated
                    &&& (rt.re_used_count >= client.refresh_token_reuse_limit && fresh_refresh_id
                        != rt.id ==> !has_token(final(store).refresh_tokens@, rt.id))
                    &&& final(store).realms == old(store).realms
                    &&& final(store).clients == old(store).clients
                    &&& final(store).users == old(store).users
                    &&& final(store).groups == old(store).groups
                    &&& final(store).group_names == old(store).group_names
                    &&& final(store).resources == old(store).resources
                    &&& final(store).wf()
                    &&& out.access_token@ == access_token_of(
                        login_claims(
                            user,
                            client,
                            gkey,
                            old(store).group_names@,
                            idents,
                            fresh_session_id,
                            expires,
                            now,
                            issuer@,
                        ),
                        secret@,
                    )
                    &&& out.refresh_token@ == refresh_token_of(
                        minted_refresh_claims(
                            rotated.id,
                            client.realm_id,
                            client.id,
                            (now + realm.refresh_token_lifetime) as u64,
                            now,
                        ),
                        secret@,
                    )
                },
                Err(_) => false,
            },
        },
{
    let claims = match verify_refresh(token, secret, now) {
        Ok(c) => c,
        Err(e) => {
            return Err(Error::Authenticate(e));
        },
    };
    if claims.rli != realm_id || claims.cli != client_id {
        return Err(Error::Authenticate(AuthenticateError::InvalidToken));
    }
    let ri = match find_realm(&store.realms, realm_id) {
        Some(i) => i,
        None => {
            return Err(Error::Validation(ValidationError::BadRealmClientCombo));
        },
    };
    proof {
        let k = choose|i: int|
            0 <= i < store.realms@.len() && (#[trigger] store.realms@[i]).id == realm_id;
        assert(store.realms@[k].id == realm_id);
        assert(k == ri as int);
    }
    if is_locked(&store.realms[ri].locked_at, now) {
        return Err(Error::Authenticate(AuthenticateError::Locked));
    }
    let rt_lifetime = store.realms[ri].refresh_token_lifetime;
    let ti = match find_token(&store.refresh_tokens, claims.sub) {
        Some(i) => i,
        None => {
            proof {
                assert(!has_token(store.refresh_tokens@, claims.sub));
            }
            return Err(Error::NotFound(NotFoundError::ResourceNotFound));
        },
    };
    let rt = store.refresh_tokens[ti];
    proof {
        assert(has_token(store.refresh_tokens@, claims.sub));
        let k = choose|i: int|
            0 <= i < store.refresh_tokens@.len() && (#[trigger] store.refresh_tokens@[i]).id
                == claims.sub;
        assert(store.refresh_tokens@[k].id == claims.sub);
        assert(k == ti as int);
    }
    if is_locked(&rt.locked_at, now) {
        return Err(Error::Authenticate(AuthenticateError::Locked));
    }
    let ci = match find_client(&store.clients, client_id) {
        Some(i) => i,
        None => {
            return Err(Error::Authenticate(AuthenticateError::InvalidToken));
        },
    };
    proof {
        let k = choose|i: int|
            0 <= i < store.clients@.len() && (#[trigger] store.clients@[i]).id == client_id;
        assert(store.clients@[k].id == client_id);
        assert(k == ci as int);
    }
    if is_locked(&store.clients[ci].locked_at, now) {
        return Err(Error::Authenticate(AuthenticateError::Locked));
    }
    let c_max = store.clients[ci].max_concurrent_sessions;
    let c_lifetime = store.clients[ci].session_lifetime;
    let c_realm = store.clients[ci].realm_id;
    let c_limit = store.clients[ci].refresh_token_reuse_limit;
    let ui = match find_user_by_id(&store.users, rt.user_id) {
        Some(i) => i,
        None => {
            return Err(Error::NotFound(NotFoundError::UserNotFound));
        },
    };
    proof {
        let k = choose|i: int|
            0 <= i < store.users@.len() && (#[trigger] store.users@[i]).id == rt.user_id;
        assert(store.users@[k].id == rt.user_id);
        assert(k == ui as int);
    }
    if is_locked(&store.users[ui].locked_at, now) {
        return Err(Error::Authenticate(AuthenticateError::Locked));
    }
    let uid = store.users[ui].id;
    let g = match find_default_group(&store.groups, uid, client_id) {
        Some(g) => g,
        None => {
            proof {
                if has_default_group(store.groups@, uid, client_id) {
                    let k = choose|i: int|
                        0 <= i < store.groups@.len() && in_pair(
                            #[trigger] store.groups@[i],
                            uid,
                            client_id,
                        ) && store.groups@[i].is_default;
                    crate::groups::lemma_count_default_lower(store.groups@, uid, client_id, k);
                }
            }
            return Err(Error::NotFound(NotFoundError::GroupNotFound));
        },
    };
    proof {
        let k = choose|i: int|
            0 <= i < store.groups@.len() && in_pair(#[trigger] store.groups@[i], uid, client_id)
                && store.groups@[i].is_default;
        let gi = choose|i: int| 0 <= i < store.groups@.len() && #[trigger] store.groups@[i] == g;
        assert(i1_for(store.groups@, uid, client_id));
        lemma_at_most_one_default(store.groups@, uid, client_id, k, gi);
        assert(default_group_key(store.groups@, uid, client_id) == g.group_key);
    }
    if is_locked(&g.locked_at, now) {
        proof {
            assert(!group_unlocked(store.groups@, uid, client_id, g.group_key, now)) by {
                if group_unlocked(store.groups@, uid, client_id, g.group_key, now) {
                    let k = choose|i: int|
                        0 <= i < store.groups@.len() && is_key(
                            #[trigger] store.groups@[i],
                            uid,
                            client_id,
                            g.group_key,
                        ) && !is_locked_spec(store.groups@[i].locked_at, now);
                    let gi = choose|i: int|
                        0 <= i < store.groups@.len() && #[trigger] store.groups@[i] == g;
                    assert(store.groups@[k] == store.groups@[gi]);
                }
            }
        }
        return Err(Error::Authenticate(AuthenticateError::Locked));
    }
    proof {
        let gi = choose|i: int| 0 <= i < store.groups@.len() && #[trigger] store.groups@[i] == g;
        assert(group_unlocked(store.groups@, uid, client_id, g.group_key, now)) by {
            assert(is_key(store.groups@[gi], uid, client_id, g.group_key) && !is_locked_spec(
                store.groups@[gi].locked_at,
                now,
            ));
        }
    }
    let live = crate::sessions::count_active_ex(&store.sessions, uid, client_id, now);
    if live >= c_max as usize {
        return Err(Error::Authenticate(AuthenticateError::MaxConcurrentSessions));
    }
    let idents = collect_active_idents(&store.resources, uid, client_id, g.group_key, now);
    if idents.len() == 0 {
        proof {
            assert(pairs_view(idents@).len() == 0);
        }
        return Err(Error::Authenticate(AuthenticateError::Locked));
    }
    let client_name = clone_bytes(&store.clients[ci].name);
    let first_name = clone_bytes(&store.users[ui].first_name);
    let last_name = match &store.users[ui].last_name {
        Some(l) => clone_bytes(l),
        None => Vec::new(),
    };
    let email = clone_bytes(&store.users[ui].email);
    let phone = match &store.users[ui].phone {
        Some(p) => clone_bytes(p),
        None => Vec::new(),
    };
    let group_name = find_group_name(&store.group_names, g.group_key);
    proof {
        match &group_name {
            Some(n) => {
                let j = choose|j: int|
                    0 <= j < store.group_names@.len() && (#[trigger] store.group_names@[j]).group_key
                        == g.group_key && store.group_names@[j].name@ == n@;
                let k = choose|i: int|
                    0 <= i < store.group_names@.len() && (#[trigger] store.group_names@[i]).group_key
                        == g.group_key;
                assert(store.group_names@[j].group_key == g.group_key);
                assert(j == k);
            },
            None => {},
        }
    }
    // all checks passed; the store changes now
    let rotated = rotate_refresh_token(&mut store.refresh_tokens, ti, c_limit, fresh_refresh_id);
    proof {
        let ts = store.refresh_tokens@;
        assert(has_token(ts, rotated.id));
        let k = choose|i: int| 0 <= i < ts.len() && (#[trigger] ts[i]).id == rotated.id;
        if rt.re_used_count >= c_limit {
            assert(ts == old(store).refresh_tokens@.remove(ti as int).push(rotated));
            assert(ts[ts.len() - 1] == rotated);
            assert(k == ts.len() - 1);
        } else {
            assert(ts == old(store).refresh_tokens@.update(ti as int, rotated));
            assert(ts[ti as int] == rotated);
            assert(k == ti as int);
        }
        assert(refresh_token_at(ts, rotated.id) == rotated);
    }
    let expires = match admit_and_create_session(
        &mut store.sessions,
        uid,
        client_id,
        c_max,
        now,
        c_lifetime,
        fresh_session_id,
        Some(rotated.id),
        meta,
    ) {
        Ok(e) => e,
        Err(_) => {
            proof {
                assert(false);
            }
            return Err(Error::Authenticate(AuthenticateError::MaxConcurrentSessions));
        },
    };
    proof {
        let ss = store.sessions@;
        let orig = old(store).sessions@;
        assert forall|a: int, b: int|
            #![trigger ss[a], ss[b]]
            0 <= a < b < ss.len() implies ss[a].id != ss[b].id by {
            if b < ss.len() - 1 {
                assert(ss[a] == orig[a]);
                assert(ss[b] == orig[b]);
            } else {
                assert(ss[a] == orig[a]);
                assert(ss[b].id == fresh_session_id);
            }
        }
    }
    let access_claims = Claims {
        exp: expires,
        iat: now,
        sub: uid,
        sid: fresh_session_id,
        iss: clone_bytes(issuer),
        first_name,
        last_name,
        email,
        phone,
        resource: Some(
            TokenResource {
                client_id,
                client_name,
                group_name,
                identifiers: idents,
            },
        ),
    };
    proof {
        let user = old(store).users@[ui as int];
        let client = old(store).clients@[ci as int];
        let sidents = active_idents(old(store).resources@, uid, client_id, g.group_key, now);
        lemma_active_idents_len(old(store).resources@, uid, client_id, g.group_key, now);
        lemma_active_idents_bounds(old(store).resources@, uid, client_id, g.group_key, now);
        assert(access_claims@.resource == Some(
            login_claims(
                user,
                client,
                g.group_key,
                old(store).group_names@,
                sidents,
                fresh_session_id,
                expires,
                now,
                issuer@,
            ).resource.unwrap(),
        ));
        assert(wf_claims(access_claims@));
    }
    let access_token = issue_access(&access_claims, secret);
    let rc = RefreshClaims {
        sub: rotated.id,
        rli: c_realm,
        cli: client_id,
        exp: now + rt_lifetime as u64,
        iat: now,
    };
    let refresh_token = issue_refresh(&rc, secret);
    proof {
        assert(claims.exp > now);
    }
    Ok(
        RefreshOutput {
            access_token,
            refresh_token,
            session_id: fresh_session_id,
            expires_in: claims.exp - now,
        },
    )
}

// ------------------------------------------------------------------
// introspection
// ------------------------------------------------------------------

/// What introspection reports about a live token.
#[derive(Debug)]
pub struct IntrospectResponse {
    pub active: bool,
    pub client_id: u128,
    pub sub: u128,
    pub first_name: Vec<u8>,
    pub last_name: Option<Vec<u8>>,
    pub token_type: Vec<u8>,
    pub exp: u64,
    pub iat: u64,
    pub iss: Vec<u8>,
    pub client_name: Vec<u8>,
    pub resource_group: Vec<u8>,
    pub resources: Vec<Vec<u8>>,
}

/// The user and client have an unlocked group in this realm.
pub open spec fn has_unlocked_realm_group(
    gs: Seq<GroupRec>,
    realm_id: u128,
    u: u128,
    c: u128,
    now: u64,
) -> bool {
    exists|i: int|
        0 <= i < gs.len() && in_pair(#[trigger] gs[i], u, c) && gs[i].realm_id == realm_id
            && !is_locked_spec(gs[i].locked_at, now)
}

/// The decision chain of introspection: any break in the chain from token
/// to live user, client, and group answers `NoResource`.
pub open spec fn spec_introspect_check(
    s: Store,
    realm_id: u128,
    client_id: u128,
    token: Seq<u8>,
    secret: Seq<u8>,
    now: u64,
) -> Result<(), Error> {
    match spec_verify_access(token, secret, now) {
        Err(e) => Err(Error::Authenticate(e)),
        Ok(cv) => match cv.resource {
            None => Err(Error::Authenticate(AuthenticateError::NoResource)),
            Some(res) => if res.client_id != client_id {
                Err(Error::Authenticate(AuthenticateError::NoResource))
            } else if !has_session_id(s.sessions@, cv.sid) {
                Err(Error::Authenticate(AuthenticateError::NoResource))
            } else {
                let sess = session_at(s.sessions@, cv.sid);
                if !has_user_id(s.users@, sess.user_id) || is_locked_spec(
                    user_at_id(s.users@, sess.user_id).locked_at,
                    now,
                ) {
                    Err(Error::Authenticate(AuthenticateError::NoResource))
                } else if !has_client(s.clients@, sess.client_id) || is_locked_spec(
                    client_at(s.clients@, sess.client_id).locked_at,
                    now,
                ) {
                    Err(Error::Authenticate(AuthenticateError::NoResource))
                } else if !has_unlocked_realm_group(
                    s.groups@,
                    realm_id,
                    user_at_id(s.users@, sess.user_id).id,
                    client_at(s.clients@, sess.client_id).id,
                    now,
                ) {
                    Err(Error::Authenticate(AuthenticateError::NoResource))
                } else {
                    Ok(())
                }
            },
        },
    }
}

/// Report what a presented access token stands for: the subject, the
/// client, the resolved group, and the names of its active resources.
#[verifier::rlimit(100)]
pub fn introspect(
    store: &Store,
    token: &Vec<u8>,
    realm_id: u128,
    client_id: u128,
    secret: &Vec<u8>,
    issuer: &Vec<u8>,
    now: u64,
) -> (r: Result<IntrospectResponse, Error>)
    requires
        store.wf(),
    ensures
        match r {
            Err(e) => spec_introspect_check(*store, realm_id, client_id, token@, secret@, now)
                == Err::<(), Error>(e),
            Ok(resp) => spec_introspect_check(*store, realm_id, client_id, token@, secret@, now)
                == Ok::<(), Error>(()) && match spec_verify_access(token@, secret@, now) {
                Ok(cv) => {
                    let sess = session_at(store.sessions@, cv.sid);
                    let user = user_at_id(store.users@, sess.user_id);
                    let client = client_at(store.clients@, sess.client_id);
                    &&& resp.active
                    &&& resp.sub == user.id
                    &&& resp.client_id == client.id
                    &&& resp.client_name@ == client.name@
                    &&& resp.first_name@ == user.first_name@
                    &&& resp.exp == cv.exp
                    &&& resp.iat == cv.iat
                    &&& resp.iss@ == issuer@
                    &&& match (resp.last_name, user.last_name) {
                        (Some(l), Some(ul)) => l@ == ul@,
                        (None, None) => true,
                        _ => false,
                    }
                    &&& exists|i: int|
                        {
                            &&& 0 <= i < store.groups@.len()
                            &&& in_pair(#[trigger] store.groups@[i], user.id, client.id)
                            &&& store.groups@[i].realm_id == realm_id
                            &&& !is_locked_spec(store.groups@[i].locked_at, now)
                            &&& resp.resources@.map_values(|v: Vec<u8>| v@)
                                == crate::store::active_names(
                                store.resources@,
                                user.id,
                                client.id,
                                store.groups@[i].group_key,
                                now,
                            )
                            &&& resp.resource_group@ == if has_group_name(
                                store.group_names@,
                                store.groups@[i].group_key,
                            ) {
                                group_name_at(store.group_names@, store.groups@[i].group_key)
                            } else {
                                Seq::<u8>::empty()
                            }
                        }
                },
                Err(_) => false,
            },
        },
{
    let cv = match verify_access(token, secret, now) {
        Ok(c) => c,
        Err(e) => {
            return Err(Error::Authenticate(e));
        },
    };
    let res = match &cv.resource {
        Some(res) => res,
        None => {
            return Err(Error::Authenticate(AuthenticateError::NoResource));
        },
    };
    if res.client_id != client_id {
        return Err(Error::Authenticate(AuthenticateError::NoResource));
    }
    let si = match find_session(&store.sessions, cv.sid) {
        Some(i) => i,
        None => {
            return Err(Error::Authenticate(AuthenticateError::NoResource));
        },
    };
    proof {
        let k = choose|i: int|
            0 <= i < store.sessions@.len() && (#[trigger] store.sessions@[i]).id == cv.sid;
        assert(store.sessions@[k].id == cv.sid);
        assert(k == si as int);
    }
    let s_user = store.sessions[si].user_id;
    let s_client = store.sessions[si].client_id;
    let ui = match find_user_by_id(&store.users, s_user) {
        Some(i) => i,
        None => {
            return Err(Error::Authenticate(AuthenticateError::NoResource));
        },
    };
    proof {
        let k = choose|i: int|
            0 <= i < store.users@.len() && (#[trigger] store.users@[i]).id == s_user;
        assert(store.users@[k].id == s_user);
        assert(k == ui as int);
    }
    if is_locked(&store.users[ui].locked_at, now) {
        return Err(Error::Authenticate(AuthenticateError::NoResource));
    }
    let ci = match find_client(&store.clients, s_client) {
        Some(i) => i,
        None => {
            return Err(Error::Authenticate(AuthenticateError::NoResource));
        },
    };
    proof {
        let k = choose|i: int|
            0 <= i < store.clients@.len() && (#[trigger] store.clients@[i]).id == s_client;
        assert(store.clients@[k].id == s_client);
        assert(k == ci as int);
    }
    if is_locked(&store.clients[ci].locked_at, now) {
        return Err(Error::Authenticate(AuthenticateError::NoResource));
    }
    let uid = store.users[ui].id;
    let cid = store.clients[ci].id;
    let g = match find_unlocked_realm_group(&store.groups, realm_id, uid, cid, now) {
        Some(g) => g,
        None => {
            return Err(Error::Authenticate(AuthenticateError::NoResource));
        },
    };
    let resources = crate::store::collect_active_names(
        &store.resources,
        uid,
        cid,
        g.group_key,
        now,
    );
    let group_name = match find_group_name(&store.group_names, g.group_key) {
        Some(n) => {
            proof {
                let j = choose|j: int|
                    0 <= j < store.group_names@.len() && (#[trigger] store.group_names@[j]).group_key
                        == g.group_key && store.group_names@[j].name@ == n@;
                let k = choose|i: int|
                    0 <= i < store.group_names@.len() && (#[trigger] store.group_names@[i]).group_key
                        == g.group_key;
                assert(store.group_names@[j].group_key == g.group_key);
                assert(j == k);
            }
            n
        },
        None => Vec::new(),
    };
    let mut token_type: Vec<u8> = Vec::new();
    token_type.push(0x62);
    token_type.push(0x65);
    token_type.push(0x61);
    token_type.push(0x72);
    token_type.push(0x65);
    token_type.push(0x72);
    let resp = IntrospectResponse {
        active: true,
        client_id: cid,
        sub: uid,
        first_name: clone_bytes(&store.users[ui].first_name),
        last_name: match &store.users[ui].last_name {
            Some(l) => Some(clone_bytes(l)),
            None => None,
        },
        token_type,
        exp: cv.exp,
        iat: cv.iat,
        iss: clone_bytes(issuer),
        client_name: clone_bytes(&store.clients[ci].name),
        resource_group: group_name,
        resources,
    };
    proof {
        let w = choose|i: int| 0 <= i < store.groups@.len() && #[trigger] store.groups@[i] == g;
        assert(in_pair(store.groups@[w], uid, cid) && store.groups@[w].realm_id == realm_id
            && !is_locked_spec(store.groups@[w].locked_at, now));
        assert(store.groups@[w].group_key == g.group_key);
    }
    Ok(resp)
}

/// The first unlocked group of the pair within the realm.
fn find_unlocked_realm_group(
    groups: &Vec<GroupRec>,
    realm_id: u128,
    u: u128,
    c: u128,
    now: u64,
) -> (r: Option<GroupRec>)
    ensures
        match r {
            Some(g) => in_pair(g, u, c) && g.realm_id == realm_id && !is_locked_spec(
                g.locked_at,
                now,
            ) && (exists|i: int| 0 <= i < groups@.len() && #[trigger] groups@[i] == g),
            None => !has_unlocked_realm_group(groups@, realm_id, u, c, now),
        },
{
    let mut i: usize = 0;
    let n = groups.len();
    while i < n
        invariant
            i <= n,
            n == groups@.len(),
            forall|j: int|
                0 <= j < i ==> !(in_pair(#[trigger] groups@[j], u, c) && groups@[j].realm_id
                    == realm_id && !is_locked_spec(groups@[j].locked_at, now)),
        decreases n - i,
    {
        let g = groups[i];
        if g.user_id == u && g.client_id == c && g.realm_id == realm_id && !is_locked(
            &g.locked_at,
            now,
        ) {
            proof {
                assert(groups@[i as int] == g);
            }
            return Some(g);
        }
        i += 1;
    }
    None
}

// ------------------------------------------------------------------
// logout
// ------------------------------------------------------------------

/// What a logout reports: whether rows went away, and who asked.
#[derive(Debug)]
pub struct LogoutResponse {
    pub ok: bool,
    pub user_id: u128,
    pub session_id: u128,
}

proof fn lemma_remove_id_membership(ss: Seq<SessionRec>, id: u128)
    ensures
        forall|k: int|
            0 <= k < remove_by_id(ss, id).len() ==> exists|j: int|
                0 <= j < ss.len() && ss[j] == #[trigger] remove_by_id(ss, id)[k],
    decreases ss.len(),
{
    if ss.len() > 0 {
        lemma_remove_id_membership(ss.skip(1), id);
        let r = remove_by_id(ss, id);
        assert forall|k: int| 0 <= k < r.len() implies exists|j: int|
            0 <= j < ss.len() && ss[j] == #[trigger] r[k] by {
            if ss[0].id == id {
                let j = choose|j: int|
                    0 <= j < ss.skip(1).len() && ss.skip(1)[j] == remove_by_id(ss.skip(1), id)[k];
                assert(ss[j + 1] == r[k]);
            } else {
                if k == 0 {
                    assert(ss[0] == r[0]);
                } else {
                    let j = choose|j: int|
                        0 <= j < ss.skip(1).len() && ss.skip(1)[j] == remove_by_id(
                            ss.skip(1),
                            id,
                        )[k - 1];
                    assert(ss[j + 1] == r[k]);
                }
            }
        }
    }
}

proof fn lemma_remove_id_unique(ss: Seq<SessionRec>, id: u128)
    requires
        crate::store::unique_session_ids(ss),
    ensures
        crate::store::unique_session_ids(remove_by_id(ss, id)),
    decreases ss.len(),
{
    if ss.len() > 0 {
        let tail = ss.skip(1);
        assert forall|a: int, b: int|
            #![trigger tail[a], tail[b]]
            0 <= a < b < tail.len() implies tail[a].id != tail[b].id by {
            assert(tail[a] == ss[a + 1]);
            assert(tail[b] == ss[b + 1]);
        }
        lemma_remove_id_unique(tail, id);
        if ss[0].id != id {
            lemma_remove_id_membership(tail, id);
            let r = remove_by_id(ss, id);
            assert forall|a: int, b: int|
                #![trigger r[a], r[b]]
                0 <= a < b < r.len() implies r[a].id != r[b].id by {
                if a == 0 {
                    assert(r[b] == remove_by_id(tail, id)[b - 1]);
                    let j = choose|j: int|
                        0 <= j < tail.len() && tail[j] == remove_by_id(tail, id)[b - 1];
                    assert(ss[j + 1] == r[b]);
                } else {
                    assert(r[a] == remove_by_id(tail, id)[a - 1]);
                    assert(r[b] == remove_by_id(tail, id)[b - 1]);
                }
            }
        }
    }
}

proof fn lemma_remove_pair_membership(ss: Seq<SessionRec>, u: u128, c: u128)
    ensures
        forall|k: int|
            0 <= k < remove_by_pair(ss, u, c).len() ==> exists|j: int|
                0 <= j < ss.len() && ss[j] == #[trigger] remove_by_pair(ss, u, c)[k],
    decreases ss.len(),
{
    if ss.len() > 0 {
        lemma_remove_pair_membership(ss.skip(1), u, c);
        let r = remove_by_pair(ss, u, c);
        assert forall|k: int| 0 <= k < r.len() implies exists|j: int|
            0 <= j < ss.len() && ss[j] == #[trigger] r[k] by {
            if ss[0].user_id == u && ss[0].client_id == c {
                let j = choose|j: int|
                    0 <= j < ss.skip(1).len() && ss.skip(1)[j] == remove_by_pair(
                        ss.skip(1),
                        u,
                        c,
                    )[k];
                assert(ss[j + 1] == r[k]);
            } else {
                if k == 0 {
                    assert(ss[0] == r[0]);
                } else {
                    let j = choose|j: int|
                        0 <= j < ss.skip(1).len() && ss.skip(1)[j] == remove_by_pair(
                            ss.skip(1),
                            u,
                            c,
                        )[k - 1];
                    assert(ss[j + 1] == r[k]);
                }
            }
        }
    }
}

proof fn lemma_remove_pair_unique(ss: Seq<SessionRec>, u: u128, c: u128)
    requires
        crate::store::unique_session_ids(ss),
    ensures
        crate::store::unique_session_ids(remove_by_pair(ss, u, c)),
    decreases ss.len(),
{
    if ss.len() > 0 {
        let tail = ss.skip(1);
        assert forall|a: int, b: int|
            #![trigger tail[a], tail[b]]
            0 <= a < b < tail.len() implies tail[a].id != tail[b].id by {
            assert(tail[a] == ss[a + 1]);
            assert(tail[b] == ss[b + 1]);
        }
        lemma_remove_pair_unique(tail, u, c);
        if !(ss[0].user_id == u && ss[0].client_id == c) {
            lemma_remove_pair_membership(tail, u, c);
            let r = remove_by_pair(ss, u, c);
            assert forall|a: int, b: int|
                #![trigger r[a], r[b]]
                0 <= a < b < r.len() implies r[a].id != r[b].id by {
                if a == 0 {
                    assert(r[b] == remove_by_pair(tail, u, c)[b - 1]);
                    let j = choose|j: int|
                        0 <= j < tail.len() && tail[j] == remove_by_pair(tail, u, c)[b - 1];
                    assert(ss[j + 1] == r[b]);
                } else {
                    assert(r[a] == remove_by_pair(tail, u, c)[a - 1]);
                    assert(r[b] == remove_by_pair(tail, u, c)[b - 1]);
                }
            }
        }
    }
}

/// End the session with this id; `ok` says whether one went away.
pub fn logout_session(
    store: &mut Store,
    session_id: u128,
    acting_user_id: u128,
    acting_session_id: u128,
) -> (r: LogoutResponse)
    requires
        old(store).wf(),
    ensures
        final(store).sessions@ == remove_by_id(old(store).sessions@, session_id),
        final(store).realms == old(store).realms,
        final(store).clients == old(store).clients,
        final(store).users == old(store).users,
        final(store).groups == old(store).groups,
        final(store).group_names == old(store).group_names,
        final(store).resources == old(store).resources,
        final(store).refresh_tokens == old(store).refresh_tokens,
        final(store).wf(),
        r.ok == (count_by_id(old(store).sessions@, session_id) == 1),
        r.user_id == acting_user_id,
        r.session_id == acting_session_id,
{
    let removed = delete_session(&mut store.sessions, session_id);
    proof {
        lemma_remove_id_unique(old(store).sessions@, session_id);
    }
    LogoutResponse { ok: removed == 1, user_id: acting_user_id, session_id: acting_session_id }
}

/// End every session of the pair; `ok` says whether any went away.
pub fn logout_all_sessions(
    store: &mut Store,
    user_id: u128,
    client_id: u128,
    acting_user_id: u128,
    acting_session_id: u128,
) -> (r: LogoutResponse)
    requires
        old(store).wf(),
    ensures
        final(store).sessions@ == remove_by_pair(old(store).sessions@, user_id, client_id),
        final(store).realms == old(store).realms,
        final(store).clients == old(store).clients,
        final(store).users == old(store).users,
        final(store).groups == old(store).groups,
        final(store).group_names == old(store).group_names,
        final(store).resources == old(store).resources,
        final(store).refresh_tokens == old(store).refresh_tokens,
        final(store).wf(),
        r.ok == (count_by_pair(old(store).sessions@, user_id, client_id) > 0),
        r.user_id == acting_user_id,
        r.session_id == acting_session_id,
{
    let removed = delete_sessions_by_pair(&mut store.sessions, user_id, client_id);
    proof {
        lemma_remove_pair_unique(old(store).sessions@, user_id, client_id);
    }
    LogoutResponse { ok: removed > 0, user_id: acting_user_id, session_id: acting_session_id }
}

/// End the session a presented access token names; any token that fails
/// verification is answered with `InvalidToken`.
pub fn logout_by_token(
    store: &mut Store,
    token: &Vec<u8>,
    secret: &Vec<u8>,
    now: u64,
    acting_user_id: u128,
    acting_session_id: u128,
) -> (r: Result<LogoutResponse, Error>)
    requires
        old(store).wf(),
    ensures
        match r {
            Err(e) => {
                &&& *final(store) == *old(store)
                &&& e == Error::Authenticate(AuthenticateError::InvalidToken)
                &&& spec_verify_access(token@, secret@, now) is Err
            },
            Ok(resp) => match spec_verify_access(token@, secret@, now) {
                Ok(cv) => {
                    &&& final(store).sessions@ == remove_by_id(old(store).sessions@, cv.sid)
                    &&& final(store).wf()
                    &&& final(store).refresh_tokens == old(store).refresh_tokens
                    &&& resp.ok == (count_by_id(old(store).sessions@, cv.sid) == 1)
                    &&& resp.user_id == acting_user_id
                    &&& resp.session_id == acting_session_id
                },
                Err(_) => false,
            },
        },
{
    let cv = match verify_access(token, secret, now) {
        Ok(c) => c,
        Err(_) => {
            return Err(Error::Authenticate(AuthenticateError::InvalidToken));
        },
    };
    Ok(logout_session(store, cv.sid, acting_user_id, acting_session_id))
}

/// End every session of the token's subject for this client; any token
/// that fails verification is answered with `InvalidToken`.
pub fn logout_all_by_token(
    store: &mut Store,
    token: &Vec<u8>,
    secret: &Vec<u8>,
    client_id: u128,
    now: u64,
    acting_user_id: u128,
    acting_session_id: u128,
) -> (r: Result<LogoutResponse, Error>)
    requires
        old(store).wf(),
    ensures
        match r {
            Err(e) => {
                &&& *final(store) == *old(store)
                &&& e == Error::Authenticate(AuthenticateError::InvalidToken)
                &&& spec_verify_access(token@, secret@, now) is Err
            },
            Ok(resp) => match spec_verify_access(token@, secret@, now) {
                Ok(cv) => {
                    &&& final(store).sessions@ == remove_by_pair(
                        old(store).sessions@,
                        cv.sub,
                        client_id,
                    )
                    &&& final(store).wf()
                    &&& final(store).refresh_tokens == old(store).refresh_tokens
                    &&& resp.ok == (count_by_pair(old(store).sessions@, cv.sub, client_id) > 0)
                    &&& resp.user_id == acting_user_id
                    &&& resp.session_id == acting_session_id
                },
                Err(_) => false,
            },
        },
{
    let cv = match verify_access(token, secret, now) {
        Ok(c) => c,
        Err(_) => {
            return Err(Error::Authenticate(AuthenticateError::InvalidToken));
        },
    };
    Ok(logout_all_sessions(store, cv.sub, client_id, acting_user_id, acting_session_id))
}

/// Look a live session up by id: its user, client, and expiry. Expired
/// rows are filtered at read time, so a session past its expiry answers
/// `SessionNotFound` just like a missing one.
pub fn get_active_session_by_id(store: &Store, session_id: u128, now: u64) -> (r: Result<
    (u128, u128, u64),
    Error,
>)
    requires
        store.wf(),
    ensures
        match r {
            Ok(t) => {
                &&& has_session_id(store.sessions@, session_id)
                &&& session_at(store.sessions@, session_id).expires > now
                &&& t.0 == session_at(store.sessions@, session_id).user_id
                &&& t.1 == session_at(store.sessions@, session_id).client_id
                &&& t.2 == session_at(store.sessions@, session_id).expires
            },
            Err(e) => {
                &&& e == Error::NotFound(NotFoundError::SessionNotFound)
                &&& !(has_session_id(store.sessions@, session_id) && session_at(
                    store.sessions@,
                    session_id,
                ).expires > now)
            },
        },
{
    match find_session(&store.sessions, session_id) {
        None => Err(Error::NotFound(NotFoundError::SessionNotFound)),
        Some(i) => {
            proof {
                let k = choose|j: int|
                    0 <= j < store.sessions@.len() && (#[trigger] store.sessions@[j]).id
                        == session_id;
                assert(store.sessions@[k].id == session_id);
                assert(k == i as int);
            }
            if store.sessions[i].expires > now {
                Ok(
                    (
                        store.sessions[i].user_id,
                        store.sessions[i].client_id,
                        store.sessions[i].expires,
                    ),
                )
            } else {
                Err(Error::NotFound(NotFoundError::SessionNotFound))
            }
        },
    }
}

// ------------------------------------------------------------------
// realm ownership checks
// ------------------------------------------------------------------

/// Does this client belong to this realm?
pub fn is_client_belongs_to_realm(store: &Store, client_id: u128, realm_id: u128) -> (r: bool)
    requires
        store.wf(),
    ensures
        r == (has_client(store.clients@, client_id) && client_at(
            store.clients@,
            client_id,
        ).realm_id == realm_id),
{
    match find_client(&store.clients, client_id) {
        None => false,
        Some(i) => {
            proof {
                let k = choose|j: int|
                    0 <= j < store.clients@.len() && (#[trigger] store.clients@[j]).id
                        == client_id;
                assert(store.clients@[k].id == client_id);
                assert(k == i as int);
            }
            store.clients[i].realm_id == realm_id
        },
    }
}

/// Is this user present, unlocked, and within this realm?
pub fn is_user_belongs_to_realm(store: &Store, user_id: u128, realm_id: u128, now: u64) -> (r:
    bool)
    requires
        store.wf(),
    ensures
        r == (has_user_id(store.users@, user_id) && !is_locked_spec(
            user_at_id(store.users@, user_id).locked_at,
            now,
        ) && user_at_id(store.users@, user_id).realm_id == realm_id),
{
    match find_user_by_id(&store.users, user_id) {
        None => false,
        Some(i) => {
            proof {
                let k = choose|j: int|
                    0 <= j < store.users@.len() && (#[trigger] store.users@[j]).id == user_id;
                assert(store.users@[k].id == user_id);
                assert(k == i as int);
            }
            !is_locked(&store.users[i].locked_at, now) && store.users[i].realm_id == realm_id
        },
    }
}

// ------------------------------------------------------------------
// group and user administration
// ------------------------------------------------------------------

/// One group row with its lock replaced (other rows untouched).
pub open spec fn lock_one(g: GroupRec, u: u128, c: u128, key: u128, locked_at: Option<u64>) -> GroupRec {
    if is_key(g, u, c, key) {
        GroupRec { locked_at, ..g }
    } else {
        g
    }
}

/// The group set with the lock of the pair's group `key` replaced.
pub open spec fn set_lock(
    gs: Seq<GroupRec>,
    u: u128,
    c: u128,
    key: u128,
    locked_at: Option<u64>,
) -> Seq<GroupRec> {
    gs.map_values(|g: GroupRec| lock_one(g, u, c, key, locked_at))
}

proof fn lemma_set_lock_wf(gs: Seq<GroupRec>, u: u128, c: u128, key: u128, locked_at: Option<u64>)
    requires
        i1(gs),
        unique_keys(gs),
    ensures
        i1(set_lock(gs, u, c, key, locked_at)),
        unique_keys(set_lock(gs, u, c, key, locked_at)),
{
    let m = set_lock(gs, u, c, key, locked_at);
    assert forall|a: int, b: int|
        #![trigger m[a], m[b]]
        0 <= a < b < m.len() implies !(m[a].user_id == m[b].user_id && m[a].client_id
        == m[b].client_id && m[a].group_key == m[b].group_key) by {
        assert(m[a] == lock_one(gs[a], u, c, key, locked_at));
        assert(m[b] == lock_one(gs[b], u, c, key, locked_at));
    }
    assert forall|u2: u128, c2: u128| #[trigger] i1_for(m, u2, c2) by {
        lemma_count_map_lock(gs, u, c, key, locked_at, u2, c2);
        assert(i1_for(gs, u2, c2));
    }
}

proof fn lemma_count_map_lock(
    gs: Seq<GroupRec>,
    u: u128,
    c: u128,
    key: u128,
    locked_at: Option<u64>,
    u2: u128,
    c2: u128,
)
    ensures
        count_default(set_lock(gs, u, c, key, locked_at), u2, c2) == count_default(gs, u2, c2),
        crate::groups::count_pair(set_lock(gs, u, c, key, locked_at), u2, c2)
            == crate::groups::count_pair(gs, u2, c2),
    decreases gs.len(),
{
    if gs.len() > 0 {
        assert(set_lock(gs, u, c, key, locked_at)[0] == lock_one(gs[0], u, c, key, locked_at));
        assert(set_lock(gs, u, c, key, locked_at).skip(1) =~= set_lock(
            gs.skip(1),
            u,
            c,
            key,
            locked_at,
        ));
        lemma_count_map_lock(gs.skip(1), u, c, key, locked_at, u2, c2);
    }
}

/// Replace the lock of the pair's group `key` in place.
fn apply_group_lock(
    groups: &mut Vec<GroupRec>,
    user_id: u128,
    client_id: u128,
    group_key: u128,
    locked_at: Option<u64>,
)
    ensures
        final(groups)@ == set_lock(old(groups)@, user_id, client_id, group_key, locked_at),
{
    let n = groups.len();
    let mut i: usize = 0;
    while i < n
        invariant
            i <= n,
            n == groups@.len(),
            groups@.len() == old(groups)@.len(),
            forall|j: int| i <= j < n ==> groups@[j] == old(groups)@[j],
            forall|j: int|
                0 <= j < i ==> groups@[j] == lock_one(
                    old(groups)@[j],
                    user_id,
                    client_id,
                    group_key,
                    locked_at,
                ),
        decreases n - i,
    {
        let g = groups[i];
        if g.user_id == user_id && g.client_id == client_id && g.group_key == group_key {
            let mut g2 = g;
            g2.locked_at = locked_at;
            groups.set(i, g2);
        }
        i += 1;
    }
    proof {
        assert(groups@ =~= set_lock(old(groups)@, user_id, client_id, group_key, locked_at));
    }
}

/// Persist a caller-supplied lock on the pair's group `key`. A timestamp
/// in the future is rejected with `InvalidLockTimestamp` and changes
/// nothing; otherwise the group's `locked_at` is replaced.
pub fn set_group_lock(
    store: &mut Store,
    user_id: u128,
    client_id: u128,
    group_key: u128,
    locked_at: Option<u64>,
    now: u64,
) -> (r: Result<(), Error>)
    requires
        old(store).wf(),
    ensures
        match r {
            Err(e) => {
                &&& *final(store) == *old(store)
                &&& e == Error::Validation(ValidationError::InvalidLockTimestamp)
                &&& !crate::lock::lock_timestamp_ok(locked_at, now)
            },
            Ok(u) => {
                &&& crate::lock::lock_timestamp_ok(locked_at, now)
                &&& final(store).groups@ == set_lock(
                    old(store).groups@,
                    user_id,
                    client_id,
                    group_key,
                    locked_at,
                )
                &&& final(store).realms == old(store).realms
                &&& final(store).clients == old(store).clients
                &&& final(store).users == old(store).users
                &&& final(store).group_names == old(store).group_names
                &&& final(store).resources == old(store).resources
                &&& final(store).sessions == old(store).sessions
                &&& final(store).refresh_tokens == old(store).refresh_tokens
                &&& final(store).wf()
            },
        },
{
    if let Err(e) = crate::lock::validate_lock_timestamp(&locked_at, now) {
        return Err(e);
    }
    apply_group_lock(&mut store.groups, user_id, client_id, group_key, locked_at);
    proof {
        lemma_set_lock_wf(old(store).groups@, user_id, client_id, group_key, locked_at);
    }
    Ok(())
}

/// Update a resource group: keep or raise its default flag through the
/// invariant engine, and set or clear its lock.
///
/// The flag can only be raised here — any other request keeps the current
/// flag — so the engine's conflict rejection cannot fire on this path;
/// taking the flag away goes through `apply_group_write` directly and
/// meets `CannotRemoveOnlyDefault` there.
pub fn update_resource_group(
    store: &mut Store,
    realm_id: u128,
    user_id: u128,
    client_id: u128,
    group_key: u128,
    requested_default: Option<bool>,
    lock: Option<bool>,
    now: u64,
) -> (r: Result<(), Error>)
    requires
        old(store).wf(),
    ensures
        match r {
            Err(e) => {
                &&& *final(store) == *old(store)
                &&& (e == Error::NotFound(NotFoundError::GroupNotFound) <==> !has_group(
                    old(store).groups@,
                    user_id,
                    client_id,
                    group_key,
                ))
                &&& (e == Error::Validation(ValidationError::BadRealmClientCombo) <==> has_group(
                    old(store).groups@,
                    user_id,
                    client_id,
                    group_key,
                ) && crate::store::group_rec_at(
                    old(store).groups@,
                    user_id,
                    client_id,
                    group_key,
                ).realm_id != realm_id)
                &&& (e == Error::NotFound(NotFoundError::GroupNotFound) || e == Error::Validation(
                    ValidationError::BadRealmClientCombo,
                ))
            },
            Ok(u) => {
                let g0 = crate::store::group_rec_at(
                    old(store).groups@,
                    user_id,
                    client_id,
                    group_key,
                );
                let req = if requested_default == Some(true) {
                    Some(true)
                } else {
                    Some(g0.is_default)
                };
                let w = crate::groups::GroupWrite {
                    user_id,
                    client_id,
                    realm_id,
                    group_key,
                    is_default: req,
                    insert: false,
                };
                let new_lock = match lock {
                    Some(true) => Some(
                        match g0.locked_at {
                            Some(t) => t,
                            None => now,
                        },
                    ),
                    Some(false) => None,
                    None => g0.locked_at,
                };
                &&& has_group(old(store).groups@, user_id, client_id, group_key)
                &&& g0.realm_id == realm_id
                &&& crate::groups::apply_group_write_spec(old(store).groups@, w) matches Ok(gs2)
                    && final(store).groups@ == set_lock(gs2, user_id, client_id, group_key, new_lock)
                &&& final(store).realms == old(store).realms
                &&& final(store).clients == old(store).clients
                &&& final(store).users == old(store).users
                &&& final(store).group_names == old(store).group_names
                &&& final(store).resources == old(store).resources
                &&& final(store).sessions == old(store).sessions
                &&& final(store).refresh_tokens == old(store).refresh_tokens
                &&& final(store).wf()
            },
        },
{
    let g = match find_group_rec(&store.groups, user_id, client_id, group_key) {
        Some(g) => g,
        None => {
            return Err(Error::NotFound(NotFoundError::GroupNotFound));
        },
    };
    proof {
        let gi = choose|i: int| 0 <= i < store.groups@.len() && #[trigger] store.groups@[i] == g;
        let k = choose|i: int|
            0 <= i < store.groups@.len() && is_key(#[trigger] store.groups@[i], user_id, client_id, group_key);
        assert(is_key(store.groups@[k], user_id, client_id, group_key));
        assert(store.groups@[gi] == store.groups@[k]);
        assert(crate::store::group_rec_at(store.groups@, user_id, client_id, group_key) == g);
    }
    if g.realm_id != realm_id {
        return Err(Error::Validation(ValidationError::BadRealmClientCombo));
    }
    let req_true = match requested_default {
        Some(true) => true,
        _ => false,
    };
    let w = crate::groups::GroupWrite {
        user_id,
        client_id,
        realm_id,
        group_key,
        is_default: if req_true {
            Some(true)
        } else {
            Some(g.is_default)
        },
        insert: false,
    };
    match crate::groups::apply_group_write(&mut store.groups, &w) {
        Ok(u) => u,
        Err(_) => {
            // the engine rejects only a demotion of the sole default, and
            // this path never requests a flag below the current one
            proof {
                crate::groups::lemma_count_split(
                    old(store).groups@,
                    user_id,
                    client_id,
                    group_key,
                );
                assert(false);
            }
            return Err(Error::NotFound(NotFoundError::GroupNotFound));
        },
    };
    let new_lock = match lock {
        Some(true) => Some(
            match g.locked_at {
                Some(t) => t,
                None => now,
            },
        ),
        Some(false) => None,
        None => g.locked_at,
    };
    apply_group_lock(&mut store.groups, user_id, client_id, group_key, new_lock);
    proof {
        crate::groups::lemma_group_write_preserves_invariant(old(store).groups@, w);
        let gs2 = match crate::groups::apply_group_write_spec(old(store).groups@, w) {
            Ok(gs2) => gs2,
            Err(_) => old(store).groups@,
        };
        lemma_set_lock_wf(gs2, user_id, client_id, group_key, new_lock);
    }
    Ok(())
}

/// A user to be registered.
pub struct NewUser {
    pub id: u128,
    pub email: Vec<u8>,
    pub password_hash: Vec<u8>,
    pub first_name: Vec<u8>,
    pub last_name: Option<Vec<u8>>,
    pub phone: Option<Vec<u8>>,
}

/// A resource row to be created.
pub struct NewResource {
    pub id: u128,
    pub name: Vec<u8>,
    pub value: Vec<u8>,
}

/// A batch of new resource rows clashes with the unique (name, user,
/// client) constraint: some name is already taken for the pair, or the
/// batch itself repeats a name.
pub open spec fn new_names_conflict(
    rs: Seq<ResourceRec>,
    u: u128,
    c: u128,
    items: Seq<NewResource>,
) -> bool {
    (exists|k: int|
        0 <= k < items.len() && crate::store::resource_name_taken(
            rs,
            u,
            c,
            (#[trigger] items[k]).name@,
        )) || (exists|k: int, l: int|
        #![trigger items[k], items[l]]
        0 <= k < l < items.len() && items[k].name@ == items[l].name@)
}

fn new_names_conflict_ex(
    resources: &Vec<ResourceRec>,
    u: u128,
    c: u128,
    items: &Vec<NewResource>,
) -> (r: bool)
    ensures
        r == new_names_conflict(resources@, u, c, items@),
{
    let mut k: usize = 0;
    let n = items.len();
    while k < n
        invariant
            k <= n,
            n == items@.len(),
            forall|a: int|
                0 <= a < k ==> !crate::store::resource_name_taken(
                    resources@,
                    u,
                    c,
                    (#[trigger] items@[a]).name@,
                ),
            forall|a: int, b: int|
                #![trigger items@[a], items@[b]]
                0 <= a < b < k ==> items@[a].name@ != items@[b].name@,
        decreases n - k,
    {
        let item = &items[k];
        if crate::store::resource_name_taken_ex(resources, u, c, &item.name) {
            return true;
        }
        let mut l: usize = 0;
        while l < k
            invariant
                l <= k < n,
                n == items@.len(),
                item.name@ == items@[k as int].name@,
                forall|a: int| 0 <= a < l ==> (#[trigger] items@[a]).name@ != items@[k as int].name@,
            decreases k - l,
        {
            if crate::codec::bytes_eq(&items[l].name, &item.name) {
                proof {
                    assert(items@[l as int].name@ == items@[k as int].name@);
                }
                return true;
            }
            l += 1;
        }
        k += 1;
    }
    false
}

/// Register a user with their first resource group and its resources, in
/// one transaction, or reject the whole write: a duplicate email within
/// the realm, or a resource name already in use for the (user, client)
/// pair, fails with a conflict and commits nothing. The group write goes
/// through the invariant engine; as the user is new, the group is the
/// pair's first and becomes its default whatever was requested.
pub fn insert_user(
    store: &mut Store,
    realm_id: u128,
    client_id: u128,
    user: NewUser,
    group_key: u128,
    group_name: Vec<u8>,
    resources: Vec<NewResource>,
) -> (r: Result<u128, Error>)
    requires
        old(store).wf(),
        !has_user_id(old(store).users@, user.id),
        !has_group(old(store).groups@, user.id, client_id, group_key),
        !has_group_name(old(store).group_names@, group_key),
        bytes_ok(user.email@),
        bytes_ok(user.first_name@),
        crate::store::opt_bytes_ok(user.last_name),
        crate::store::opt_bytes_ok(user.phone),
        bytes_ok(group_name@),
        old(store).resources@.len() + resources@.len() < 0x1_0000_0000,
        forall|i: int|
            0 <= i < resources@.len() ==> bytes_ok((#[trigger] resources@[i]).name@) && bytes_ok(
                resources@[i].value@,
            ),
    ensures
        ({
            let dup_email = has_user_email(old(store).users@, realm_id, user.email@);
            let dup_name = new_names_conflict(
                old(store).resources@,
                user.id,
                client_id,
                resources@,
            );
            match r {
                Err(e) => {
                    &&& *final(store) == *old(store)
                    &&& (e == Error::Conflict(ConflictError::DuplicateEmail) <==> dup_email)
                    &&& (e == Error::Conflict(ConflictError::DuplicateResourceName) <==> !dup_email
                        && dup_name)
                    &&& (e == Error::Conflict(ConflictError::DuplicateEmail) || e == Error::Conflict(
                        ConflictError::DuplicateResourceName,
                    ))
                },
                Ok(rid) => rid == user.id && !dup_email && !dup_name,
            }
        }),
        r is Ok ==> final(store).users@.len() == old(store).users@.len() + 1,
        r is Ok ==> forall|j: int|
            0 <= j < old(store).users@.len() ==> final(store).users@[j] == old(store).users@[j],
        r is Ok ==> ({
            let nu = final(store).users@.last();
            &&& nu.id == user.id
            &&& nu.realm_id == realm_id
            &&& nu.email@ == user.email@
            &&& nu.password_hash@ == user.password_hash@
            &&& nu.first_name@ == user.first_name@
            &&& nu.locked_at is None
        }),
        r is Ok ==> final(store).groups@ == match crate::groups::apply_group_write_spec(
            old(store).groups@,
            crate::groups::GroupWrite {
                user_id: user.id,
                client_id,
                realm_id,
                group_key,
                is_default: None,
                insert: true,
            },
        ) {
            Ok(gs2) => gs2,
            Err(_) => old(store).groups@,
        },
        r is Ok ==> group_is_default(final(store).groups@, user.id, client_id, group_key)
            == (crate::groups::count_other_default(
            old(store).groups@,
            user.id,
            client_id,
            group_key,
        ) == 0),
        r is Ok ==> final(store).group_names@.len() == old(store).group_names@.len() + 1,
        r is Ok ==> forall|j: int|
            0 <= j < old(store).group_names@.len() ==> final(store).group_names@[j] == old(
                store,
            ).group_names@[j],
        r is Ok ==> final(store).group_names@.last().group_key == group_key
            && final(store).group_names@.last().name@ == group_name@,
        r is Ok ==> final(store).resources@.len() == old(store).resources@.len()
            + resources@.len(),
        r is Ok ==> forall|j: int|
            0 <= j < old(store).resources@.len() ==> final(store).resources@[j] == old(
                store,
            ).resources@[j],
        r is Ok ==> forall|k: int|
            0 <= k < resources@.len() ==> {
                let nr = #[trigger] final(store).resources@[old(store).resources@.len() + k];
                &&& nr.id == resources@[k].id
                &&& nr.user_id == user.id
                &&& nr.client_id == client_id
                &&& nr.group_key == group_key
                &&& nr.name@ == resources@[k].name@
                &&& nr.value@ == resources@[k].value@
                &&& nr.locked_at is None
            },
        final(store).realms == old(store).realms,
        final(store).clients == old(store).clients,
        final(store).sessions == old(store).sessions,
        final(store).refresh_tokens == old(store).refresh_tokens,
        final(store).wf(),
{
    if find_user_by_email(&store.users, realm_id, &user.email).is_some() {
        return Err(Error::Conflict(ConflictError::DuplicateEmail));
    }
    if new_names_conflict_ex(&store.resources, user.id, client_id, &resources) {
        return Err(Error::Conflict(ConflictError::DuplicateResourceName));
    }
    let user_id = user.id;
    let urec = crate::store::UserRec {
        id: user.id,
        realm_id,
        email: user.email,
        password_hash: user.password_hash,
        first_name: user.first_name,
        last_name: user.last_name,
        phone: user.phone,
        locked_at: None,
        email_verified_at: None,
    };
    store.users.push(urec);
    proof {
        let us = store.users@;
        let orig = old(store).users@;
        assert forall|a: int, b: int|
            #![trigger us[a], us[b]]
            0 <= a < b < us.len() implies us[a].id != us[b].id && !(us[a].realm_id == us[b].realm_id
            && us[a].email@ == us[b].email@) by {
            if b < us.len() - 1 {
                assert(us[a] == orig[a]);
                assert(us[b] == orig[b]);
            } else {
                assert(us[a] == orig[a]);
            }
        }
    }
    let w = crate::groups::GroupWrite {
        user_id,
        client_id,
        realm_id,
        group_key,
        is_default: None,
        insert: true,
    };
    let wrote = crate::groups::apply_group_write(&mut store.groups, &w);
    proof {
        crate::groups::lemma_group_write_preserves_invariant(old(store).groups@, w);
        match wrote {
            Ok(u2) => {},
            Err(_) => {
                assert(false);
            },
        }
        let gs2 = store.groups@;
        let others = crate::groups::count_other_default(
            old(store).groups@,
            user_id,
            client_id,
            group_key,
        );
        let newg = crate::groups::new_group(w, others == 0);
        assert(gs2 == old(store).groups@.push(newg));
        assert(gs2[gs2.len() - 1] == newg);
        lemma_group_default_of_pushed(old(store).groups@, newg, user_id, client_id, group_key);
    }
    store.group_names.push(GroupName { group_key, name: group_name });
    proof {
        let ns = store.group_names@;
        let orig = old(store).group_names@;
        assert forall|a: int, b: int|
            #![trigger ns[a], ns[b]]
            0 <= a < b < ns.len() implies ns[a].group_key != ns[b].group_key by {
            if b < ns.len() - 1 {
                assert(ns[a] == orig[a]);
                assert(ns[b] == orig[b]);
            } else {
                assert(ns[a] == orig[a]);
            }
        }
    }
    let users_after = Ghost(store.users@);
    let groups_after = Ghost(store.groups@);
    let names_after = Ghost(store.group_names@);
    let mut k: usize = 0;
    let n = resources.len();
    while k < n
        invariant
            k <= n,
            n == resources@.len(),
            store.realms == old(store).realms,
            store.clients == old(store).clients,
            store.sessions == old(store).sessions,
            store.refresh_tokens == old(store).refresh_tokens,
            store.users@ == users_after@,
            store.groups@ == groups_after@,
            store.group_names@ == names_after@,
            store.resources@.len() == old(store).resources@.len() + k,
            forall|j: int|
                0 <= j < old(store).resources@.len() ==> store.resources@[j] == old(
                    store,
                ).resources@[j],
            forall|t: int|
                0 <= t < k ==> {
                    let nr = #[trigger] store.resources@[old(store).resources@.len() + t];
                    &&& nr.id == resources@[t].id
                    &&& nr.user_id == user_id
                    &&& nr.client_id == client_id
                    &&& nr.group_key == group_key
                    &&& nr.name@ == resources@[t].name@
                    &&& nr.value@ == resources@[t].value@
                    &&& nr.locked_at is None
                },
        decreases n - k,
    {
        let nr = &resources[k];
        let name = clone_bytes(&nr.name);
        let value = clone_bytes(&nr.value);
        store.resources.push(
            crate::store::ResourceRec {
                id: nr.id,
                user_id,
                client_id,
                group_key,
                name,
                value,
                description: None,
                locked_at: None,
            },
        );
        k += 1;
    }
    proof {
        assert forall|i: int|
            0 <= i < store.resources@.len() implies bytes_ok(
            (#[trigger] store.resources@[i]).name@,
        ) && bytes_ok(store.resources@[i].value@) by {
            if i < old(store).resources@.len() {
                assert(store.resources@[i] == old(store).resources@[i]);
            } else {
                let t = i - old(store).resources@.len();
                assert(store.resources@[old(store).resources@.len() + t].name@
                    == resources@[t].name@);
            }
        }
        lemma_appended_names_unique(
            old(store).resources@,
            store.resources@,
            user_id,
            client_id,
            resources@,
        );
    }
    Ok(user_id)
}

/// Appending checked rows keeps the unique (name, user, client) constraint.
proof fn lemma_appended_names_unique(
    orig: Seq<ResourceRec>,
    now_: Seq<ResourceRec>,
    u: u128,
    c: u128,
    items: Seq<NewResource>,
)
    requires
        crate::store::unique_resource_names(orig),
        !new_names_conflict(orig, u, c, items),
        now_.len() == orig.len() + items.len(),
        forall|j: int| 0 <= j < orig.len() ==> now_[j] == orig[j],
        forall|t: int|
            0 <= t < items.len() ==> {
                let nr = #[trigger] now_[orig.len() + t];
                nr.user_id == u && nr.client_id == c && nr.name@ == items[t].name@
            },
    ensures
        crate::store::unique_resource_names(now_),
{
    assert forall|i: int, j: int|
        #![trigger now_[i], now_[j]]
        0 <= i < j < now_.len() implies !(now_[i].user_id == now_[j].user_id && now_[i].client_id
        == now_[j].client_id && now_[i].name@ == now_[j].name@) by {
        if j < orig.len() {
            assert(now_[i] == orig[i]);
            assert(now_[j] == orig[j]);
        } else {
            let t2 = j - orig.len();
            assert(now_[orig.len() + t2].name@ == items[t2].name@);
            if i < orig.len() {
                assert(now_[i] == orig[i]);
                if now_[i].user_id == u && now_[i].client_id == c && now_[i].name@
                    == items[t2].name@ {
                    assert(crate::store::resource_name_taken(orig, u, c, items[t2].name@));
                    assert(false);
                }
            } else {
                let t1 = i - orig.len();
                assert(now_[orig.len() + t1].name@ == items[t1].name@);
                if items[t1].name@ == items[t2].name@ {
                    assert(false);
                }
            }
        }
    }
}

/// Add resource rows for a user within a client's group, once the client
/// is known to belong to the named realm. A name already in use for the
/// (user, client) pair — or repeated within the batch — violates the
/// unique (name, user, client) constraint: the whole write is rejected
/// and nothing is inserted.
pub fn add_resources(
    store: &mut Store,
    realm_id: u128,
    user_id: u128,
    client_id: u128,
    group_key: u128,
    items: Vec<NewResource>,
) -> (r: Result<(), Error>)
    requires
        old(store).wf(),
        old(store).resources@.len() + items@.len() < 0x1_0000_0000,
        forall|i: int|
            0 <= i < items@.len() ==> bytes_ok((#[trigger] items@[i]).name@) && bytes_ok(
                items@[i].value@,
            ),
    ensures
        match r {
            Err(e) => {
                let combo_ok = has_client(old(store).clients@, client_id) && client_at(
                    old(store).clients@,
                    client_id,
                ).realm_id == realm_id;
                &&& *final(store) == *old(store)
                &&& (e == Error::Validation(ValidationError::BadRealmClientCombo) <==> !combo_ok)
                &&& (e == Error::Conflict(ConflictError::DuplicateResourceName) <==> combo_ok
                    && new_names_conflict(old(store).resources@, user_id, client_id, items@))
                &&& (e == Error::Validation(ValidationError::BadRealmClientCombo) || e
                    == Error::Conflict(ConflictError::DuplicateResourceName))
            },
            Ok(u) => {
                &&& has_client(old(store).clients@, client_id)
                &&& client_at(old(store).clients@, client_id).realm_id == realm_id
                &&& !new_names_conflict(old(store).resources@, user_id, client_id, items@)
                &&& final(store).resources@.len() == old(store).resources@.len() + items@.len()
                &&& forall|j: int|
                    0 <= j < old(store).resources@.len() ==> final(store).resources@[j] == old(
                        store,
                    ).resources@[j]
                &&& forall|t: int|
                    0 <= t < items@.len() ==> {
                        let nr = #[trigger] final(store).resources@[old(
                            store,
                        ).resources@.len() + t];
                        &&& nr.id == items@[t].id
                        &&& nr.user_id == user_id
                        &&& nr.client_id == client_id
                        &&& nr.group_key == group_key
                        &&& nr.name@ == items@[t].name@
                        &&& nr.value@ == items@[t].value@
                        &&& nr.locked_at is None
                    }
                &&& final(store).realms == old(store).realms
                &&& final(store).clients == old(store).clients
                &&& final(store).users == old(store).users
                &&& final(store).groups == old(store).groups
                &&& final(store).group_names == old(store).group_names
                &&& final(store).sessions == old(store).sessions
                &&& final(store).refresh_tokens == old(store).refresh_tokens
                &&& final(store).wf()
            },
        },
{
    if !is_client_belongs_to_realm(store, client_id, realm_id) {
        return Err(Error::Validation(ValidationError::BadRealmClientCombo));
    }
    if new_names_conflict_ex(&store.resources, user_id, client_id, &items) {
        return Err(Error::Conflict(ConflictError::DuplicateResourceName));
    }
    let mut k: usize = 0;
    let n = items.len();
    while k < n
        invariant
            k <= n,
            n == items@.len(),
            store.realms == old(store).realms,
            store.clients == old(store).clients,
            store.users == old(store).users,
            store.groups == old(store).groups,
            store.group_names == old(store).group_names,
            store.sessions == old(store).sessions,
            store.refresh_tokens == old(store).refresh_tokens,
            store.resources@.len() == old(store).resources@.len() + k,
            forall|j: int|
                0 <= j < old(store).resources@.len() ==> store.resources@[j] == old(
                    store,
                ).resources@[j],
            forall|t: int|
                0 <= t < k ==> {
                    let nr = #[trigger] store.resources@[old(store).resources@.len() + t];
                    &&& nr.id == items@[t].id
                    &&& nr.user_id == user_id
                    &&& nr.client_id == client_id
                    &&& nr.group_key == group_key
                    &&& nr.name@ == items@[t].name@
                    &&& nr.value@ == items@[t].value@
                    &&& nr.locked_at is None
                },
        decreases n - k,
    {
        let nr = &items[k];
        let name = clone_bytes(&nr.name);
        let value = clone_bytes(&nr.value);
        store.resources.push(
            crate::store::ResourceRec {
                id: nr.id,
                user_id,
                client_id,
                group_key,
                name,
                value,
                description: None,
                locked_at: None,
            },
        );
        k += 1;
    }
    proof {
        assert forall|i: int|
            0 <= i < store.resources@.len() implies bytes_ok(
            (#[trigger] store.resources@[i]).name@,
        ) && bytes_ok(store.resources@[i].value@) by {
            if i < old(store).resources@.len() {
                assert(store.resources@[i] == old(store).resources@[i]);
            } else {
                let t = i - old(store).resources@.len();
                assert(store.resources@[old(store).resources@.len() + t].name@
                    == items@[t].name@);
            }
        }
        lemma_appended_names_unique(
            old(store).resources@,
            store.resources@,
            user_id,
            client_id,
            items@,
        );
    }
    Ok(())
}

/// Does the group named by this key belong to this realm? The first row
/// carrying the key answers, through its owning user: that user must be
/// present, unlocked, and within the realm.
pub fn is_resource_group_belongs_to_realm(
    store: &Store,
    group_key: u128,
    realm_id: u128,
    now: u64,
) -> (r: bool)
    requires
        store.wf(),
    ensures
        r == exists|i: int|
            {
                &&& 0 <= i < store.groups@.len()
                &&& (#[trigger] store.groups@[i]).group_key == group_key
                &&& forall|j: int| 0 <= j < i ==> store.groups@[j].group_key != group_key
                &&& has_user_id(store.users@, store.groups@[i].user_id)
                &&& !is_locked_spec(
                    user_at_id(store.users@, store.groups@[i].user_id).locked_at,
                    now,
                )
                &&& user_at_id(store.users@, store.groups@[i].user_id).realm_id == realm_id
            },
{
    let mut i: usize = 0;
    let n = store.groups.len();
    while i < n
        invariant
            store.wf(),
            i <= n,
            n == store.groups@.len(),
            forall|j: int| 0 <= j < i ==> (#[trigger] store.groups@[j]).group_key != group_key,
        decreases n - i,
    {
        if store.groups[i].group_key == group_key {
            let ok = is_user_belongs_to_realm(store, store.groups[i].user_id, realm_id, now);
            proof {
                if ok {
                    assert(store.groups@[i as int].group_key == group_key);
                } else {
                    if exists|w: int|
                        {
                            &&& 0 <= w < store.groups@.len()
                            &&& (#[trigger] store.groups@[w]).group_key == group_key
                            &&& forall|j: int|
                                0 <= j < w ==> store.groups@[j].group_key != group_key
                            &&& has_user_id(store.users@, store.groups@[w].user_id)
                            &&& !is_locked_spec(
                                user_at_id(store.users@, store.groups@[w].user_id).locked_at,
                                now,
                            )
                            &&& user_at_id(store.users@, store.groups@[w].user_id).realm_id
                                == realm_id
                        } {
                        let w = choose|w: int|
                            {
                                &&& 0 <= w < store.groups@.len()
                                &&& (#[trigger] store.groups@[w]).group_key == group_key
                                &&& forall|j: int|
                                    0 <= j < w ==> store.groups@[j].group_key != group_key
                                &&& has_user_id(store.users@, store.groups@[w].user_id)
                                &&& !is_locked_spec(
                                    user_at_id(store.users@, store.groups@[w].user_id).locked_at,
                                    now,
                                )
                                &&& user_at_id(store.users@, store.groups@[w].user_id).realm_id
                                    == realm_id
                            };
                        assert(w == i as int);
                    }
                }
            }
            return ok;
        }
        i += 1;
    }
    false
}

/// Does the resource named by this id belong to this realm? The first row
/// carrying the id answers, through its owning user.
pub fn is_resource_belongs_to_realm(
    store: &Store,
    resource_id: u128,
    realm_id: u128,
    now: u64,
) -> (r: bool)
    requires
        store.wf(),
    ensures
        r == exists|i: int|
            {
                &&& 0 <= i < store.resources@.len()
                &&& (#[trigger] store.resources@[i]).id == resource_id
                &&& forall|j: int| 0 <= j < i ==> store.resources@[j].id != resource_id
                &&& has_user_id(store.users@, store.resources@[i].user_id)
                &&& !is_locked_spec(
                    user_at_id(store.users@, store.resources@[i].user_id).locked_at,
                    now,
                )
                &&& user_at_id(store.users@, store.resources@[i].user_id).realm_id == realm_id
            },
{
    let mut i: usize = 0;
    let n = store.resources.len();
    while i < n
        invariant
            store.wf(),
            i <= n,
            n == store.resources@.len(),
            forall|j: int| 0 <= j < i ==> (#[trigger] store.resources@[j]).id != resource_id,
        decreases n - i,
    {
        if store.resources[i].id == resource_id {
            let ok = is_user_belongs_to_realm(store, store.resources[i].user_id, realm_id, now);
            proof {
                if ok {
                    assert(store.resources@[i as int].id == resource_id);
                } else {
                    if exists|w: int|
                        {
                            &&& 0 <= w < store.resources@.len()
                            &&& (#[trigger] store.resources@[w]).id == resource_id
                            &&& forall|j: int|
                                0 <= j < w ==> store.resources@[j].id != resource_id
                            &&& has_user_id(store.users@, store.resources@[w].user_id)
                            &&& !is_locked_spec(
                                user_at_id(store.users@, store.resources@[w].user_id).locked_at,
                                now,
                            )
                            &&& user_at_id(store.users@, store.resources@[w].user_id).realm_id
                                == realm_id
                        } {
                        let w = choose|w: int|
                            {
                                &&& 0 <= w < store.resources@.len()
                                &&& (#[trigger] store.resources@[w]).id == resource_id
                                &&& forall|j: int|
                                    0 <= j < w ==> store.resources@[j].id != resource_id
                                &&& has_user_id(store.users@, store.resources@[w].user_id)
                                &&& !is_locked_spec(
                                    user_at_id(
                                        store.users@,
                                        store.resources@[w].user_id,
                                    ).locked_at,
                                    now,
                                )
                                &&& user_at_id(store.users@, store.resources@[w].user_id).realm_id
                                    == realm_id
                            };
                        assert(w == i as int);
                    }
                }
            }
            return ok;
        }
        i += 1;
    }
    false
}

/// The first row carrying this resource id.
fn find_resource_first(resources: &Vec<ResourceRec>, id: u128) -> (r: Option<usize>)
    ensures
        match r {
            Some(i) => i < resources@.len() && resources@[i as int].id == id && (forall|a: int|
                0 <= a < i ==> (#[trigger] resources@[a]).id != id),
            None => forall|a: int|
                0 <= a < resources@.len() ==> (#[trigger] resources@[a]).id != id,
        },
{
    let mut i: usize = 0;
    let n = resources.len();
    while i < n
        invariant
            i <= n,
            n == resources@.len(),
            forall|a: int| 0 <= a < i ==> (#[trigger] resources@[a]).id != id,
        decreases n - i,
    {
        if resources[i].id == id {
            return Some(i);
        }
        i += 1;
    }
    None
}

/// Update one resource row by id: its name, value, description, and lock.
///
/// The first row carrying the id is the subject, as the store reads it. A
/// new name already used by another row of the same (user, client) pair
/// would break the unique (name, user, client) constraint, so the write
/// is rejected and nothing changes. A lock request stamps the row with
/// its existing lock time or `now`; anything else clears the lock.
pub fn update_resource(
    store: &mut Store,
    resource_id: u128,
    new_name: Vec<u8>,
    new_value: Vec<u8>,
    new_description: Option<Vec<u8>>,
    lock: Option<bool>,
    now: u64,
) -> (r: Result<(), Error>)
    requires
        old(store).wf(),
        bytes_ok(new_name@),
        bytes_ok(new_value@),
    ensures
        ({
            let rs = old(store).resources@;
            let found = exists|i: int|
                0 <= i < rs.len() && (#[trigger] rs[i]).id == resource_id;
            let collides = exists|i: int, j: int|
                #![trigger rs[i], rs[j]]
                {
                    &&& 0 <= i < rs.len()
                    &&& rs[i].id == resource_id
                    &&& (forall|a: int| 0 <= a < i ==> rs[a].id != resource_id)
                    &&& 0 <= j < rs.len()
                    &&& j != i
                    &&& rs[j].user_id == rs[i].user_id
                    &&& rs[j].client_id == rs[i].client_id
                    &&& rs[j].name@ == new_name@
                };
            match r {
                Err(e) => {
                    &&& *final(store) == *old(store)
                    &&& (e == Error::NotFound(NotFoundError::ResourceNotFound) <==> !found)
                    &&& (e == Error::Conflict(ConflictError::DuplicateResourceName) <==> found
                        && collides)
                    &&& (e == Error::NotFound(NotFoundError::ResourceNotFound) || e
                        == Error::Conflict(ConflictError::DuplicateResourceName))
                },
                Ok(u) => {
                    &&& found
                    &&& !collides
                    &&& exists|i: int|
                        {
                            &&& 0 <= i < rs.len()
                            &&& (#[trigger] rs[i]).id == resource_id
                            &&& (forall|a: int| 0 <= a < i ==> rs[a].id != resource_id)
                            &&& final(store).resources@.len() == rs.len()
                            &&& (forall|j: int|
                                0 <= j < rs.len() && j != i ==> final(store).resources@[j]
                                    == rs[j])
                            &&& {
                                let nr = final(store).resources@[i];
                                &&& nr.id == resource_id
                                &&& nr.user_id == rs[i].user_id
                                &&& nr.client_id == rs[i].client_id
                                &&& nr.group_key == rs[i].group_key
                                &&& nr.name@ == new_name@
                                &&& nr.value@ == new_value@
                                &&& (match (nr.description, new_description) {
                                    (Some(d), Some(nd)) => d@ == nd@,
                                    (None, None) => true,
                                    _ => false,
                                })
                                &&& nr.locked_at == (match lock {
                                    Some(true) => Some(
                                        match rs[i].locked_at {
                                            Some(t) => t,
                                            None => now,
                                        },
                                    ),
                                    _ => None::<u64>,
                                })
                            }
                        }
                    &&& final(store).realms == old(store).realms
                    &&& final(store).clients == old(store).clients
                    &&& final(store).users == old(store).users
                    &&& final(store).groups == old(store).groups
                    &&& final(store).group_names == old(store).group_names
                    &&& final(store).sessions == old(store).sessions
                    &&& final(store).refresh_tokens == old(store).refresh_tokens
                    &&& final(store).wf()
                },
            }
        }),
{
    let n = store.resources.len();
    let i = match find_resource_first(&store.resources, resource_id) {
        Some(i) => i,
        None => {
            return Err(Error::NotFound(NotFoundError::ResourceNotFound));
        },
    };
    let ru = store.resources[i].user_id;
    let rc = store.resources[i].client_id;
    let rg = store.resources[i].group_key;
    let rl = store.resources[i].locked_at;
    // the new name must stay unique within the (user, client) pair
    let mut j: usize = 0;
    while j < n
        invariant
            j <= n,
            i < n,
            n == store.resources@.len(),
            store.resources@[i as int].id == resource_id,
            forall|a: int| 0 <= a < i ==> (#[trigger] store.resources@[a]).id != resource_id,
            ru == store.resources@[i as int].user_id,
            rc == store.resources@[i as int].client_id,
            forall|a: int|
                0 <= a < j && a != i ==> !((#[trigger] store.resources@[a]).user_id == ru
                    && store.resources@[a].client_id == rc && store.resources@[a].name@
                    == new_name@),
        decreases n - j,
    {
        if j != i {
            let other = &store.resources[j];
            if other.user_id == ru && other.client_id == rc && crate::codec::bytes_eq(
                &other.name,
                &new_name,
            ) {
                proof {
                    let rs = store.resources@;
                    assert((i as int) < rs.len() && rs[i as int].id == resource_id && (forall|
                        a: int,
                    | 0 <= a < i as int ==> rs[a].id != resource_id) && (j as int) < rs.len() && (
                    j as int) != (i as int) && rs[j as int].user_id == rs[i as int].user_id && rs[
                        j as int
                    ].client_id == rs[i as int].client_id && rs[j as int].name@ == new_name@);
                }
                return Err(Error::Conflict(ConflictError::DuplicateResourceName));
            }
        }
        j += 1;
    }
    let locked_at = match lock {
        Some(true) => Some(
            match rl {
                Some(t) => t,
                None => now,
            },
        ),
        _ => None,
    };
    store.resources.set(
        i,
        ResourceRec {
            id: resource_id,
            user_id: ru,
            client_id: rc,
            group_key: rg,
            name: new_name,
            value: new_value,
            description: new_description,
            locked_at,
        },
    );
    proof {
        let rs = old(store).resources@;
        let ns = store.resources@;
        assert forall|a: int, b: int|
            #![trigger ns[a], ns[b]]
            0 <= a < b < ns.len() implies !(ns[a].user_id == ns[b].user_id && ns[a].client_id
            == ns[b].client_id && ns[a].name@ == ns[b].name@) by {
            if a != i as int && b != i as int {
                assert(ns[a] == rs[a]);
                assert(ns[b] == rs[b]);
            } else if a == i as int {
                assert(ns[b] == rs[b]);
            } else {
                assert(ns[a] == rs[a]);
            }
        }
    }
    Ok(())
}

/// The round trip of a login's access token: verifying the token the
/// login issued returns, before expiry, claims whose resource identifiers
/// are exactly the active name/value pairs that were resolved and whose
/// expiry is the session's — and from the session's expiry on, verifying
/// it fails with `Expired`, not `InvalidToken`.
pub proof fn lemma_login_token_round_trip(
    user: UserRec,
    client: ClientRec,
    group_key: u128,
    names: Seq<GroupName>,
    idents: Seq<(Seq<u8>, Seq<u8>)>,
    session_id: u128,
    expires: u64,
    now: u64,
    issuer: Seq<u8>,
    secret: Seq<u8>,
    at: u64,
)
    requires
        bytes_ok(user.email@),
        bytes_ok(user.first_name@),
        crate::store::opt_bytes_ok(user.last_name),
        crate::store::opt_bytes_ok(user.phone),
        bytes_ok(client.name@),
        bytes_ok(issuer),
        forall|i: int| 0 <= i < names.len() ==> bytes_ok((#[trigger] names[i]).name@),
        idents.len() < 0x1_0000_0000,
        forall|i: int|
            0 <= i < idents.len() ==> bytes_ok((#[trigger] idents[i]).0) && bytes_ok(
                idents[i].1,
            ),
    ensures
        ({
            let c = login_claims(
                user,
                client,
                group_key,
                names,
                idents,
                session_id,
                expires,
                now,
                issuer,
            );
            &&& spec_verify_access(access_token_of(c, secret), secret, at) == if expires <= at {
                Err::<ClaimsView, AuthenticateError>(AuthenticateError::Expired)
            } else {
                Ok::<ClaimsView, AuthenticateError>(c)
            }
            &&& c.exp == expires
            &&& match c.resource {
                Some(res) => res.identifiers == idents,
                None => false,
            }
        }),
{
    let c = login_claims(user, client, group_key, names, idents, session_id, expires, now, issuer);
    assert(wf_claims(c)) by {
        if has_group_name(names, group_key) {
            let k = choose|i: int|
                0 <= i < names.len() && (#[trigger] names[i]).group_key == group_key;
            assert(bytes_ok(names[k].name@));
        }
    }
    crate::token::lemma_verify_access_round_trip(c, secret, at);
}

proof fn lemma_group_default_of_pushed(gs: Seq<GroupRec>, g: GroupRec, u: u128, c: u128, key: u128)
    requires
        !has_group(gs, u, c, key),
        is_key(g, u, c, key),
    ensures
        group_is_default(gs.push(g), u, c, key) == g.is_default,
    decreases gs.len(),
{
    let p = gs.push(g);
    if gs.len() == 0 {
        assert(p[0] == g);
    } else {
        assert(p[0] == gs[0]);
        assert(p.skip(1) =~= gs.skip(1).push(g));
        lemma_group_default_of_pushed(gs.skip(1), g, u, c, key);
    }
}

} // verus!
