//! The authentication flows end to end on an in-memory record set: login,
//! session ceiling, refresh rotation, introspection, logout, locks.

use identity_core::errors::{AuthenticateError, ConflictError, Error, NotFoundError, ValidationError};
use identity_core::flows::{
    add_resources, get_active_session_by_id, insert_user, introspect, is_client_belongs_to_realm,
    is_resource_belongs_to_realm, is_resource_group_belongs_to_realm, is_user_belongs_to_realm,
    login_complete, login_prepare, logout_by_token, logout_session, refresh_session,
    set_group_lock, update_resource, update_resource_group, LoginOutput, NewResource, NewUser,
};
use identity_core::groups::{apply_group_write, group_is_default_ex, GroupWrite};
use identity_core::refresh::find_token;
use identity_core::sessions::SessionMeta;
use identity_core::store::{ClientRec, RealmRec, Store};
use identity_core::token::{issue_refresh, verify_access};
use identity_core::claims::RefreshClaims;

const REALM: u128 = 1;
const CLIENT: u128 = 2;
const USER: u128 = 10;
const GROUP: u128 = 100;
const NOW: u64 = 1_700_000_000;

fn b(s: &str) -> Vec<u8> {
    s.as_bytes().to_vec()
}

fn secret() -> Vec<u8> {
    b("signing-key-for-tests")
}

fn issuer() -> Vec<u8> {
    b("https://idp.example")
}

fn meta() -> SessionMeta {
    SessionMeta {
        ip_address: b("203.0.113.7"),
        user_agent: b("agent"),
        browser: b("browser"),
        browser_version: b("1.0"),
        operating_system: b("os"),
        device_type: b("desktop"),
        country_code: b("DE"),
    }
}

/// Stand-in for the external password hasher: hash = "hash:" + password.
fn hash_password(pw: &str) -> Vec<u8> {
    let mut h = b("hash:");
    h.extend_from_slice(pw.as_bytes());
    h
}

fn base_store() -> Store {
    let mut store = Store {
        realms: vec![RealmRec {
            id: REALM,
            name: b("Master"),
            slug: b("master"),
            session_lifetime: 3600,
            refresh_token_lifetime: 86_400,
            refresh_token_reuse_limit: 2,
            locked_at: None,
        }],
        clients: vec![ClientRec {
            id: CLIENT,
            realm_id: REALM,
            name: b("console"),
            max_concurrent_sessions: 5,
            use_refresh_token: true,
            session_lifetime: 3600,
            refresh_token_reuse_limit: 2,
            locked_at: None,
        }],
        users: Vec::new(),
        groups: Vec::new(),
        group_names: Vec::new(),
        resources: Vec::new(),
        sessions: Vec::new(),
        refresh_tokens: Vec::new(),
    };
    insert_user(
        &mut store,
        REALM,
        CLIENT,
        NewUser {
            id: USER,
            email: b("ada@example.com"),
            password_hash: hash_password("correct horse"),
            first_name: b("Ada"),
            last_name: Some(b("Lovelace")),
            phone: None,
        },
        GROUP,
        b("default_resource_group"),
        vec![
            NewResource { id: 901, name: b("role"), value: b("admin") },
            NewResource { id: 902, name: b("realm"), value: b("master") },
        ],
    )
    .expect("registration succeeds on a fresh store");
    store
}

fn login(
    store: &mut Store,
    password: &str,
    session_id: u128,
    refresh_id: u128,
) -> Result<LoginOutput, Error> {
    let prep = login_prepare(store, REALM, CLIENT, &b("ada@example.com"), None, NOW)?;
    // the external password verifier's verdict
    let password_ok = prep.password_hash == hash_password(password);
    login_complete(
        store,
        &prep,
        password_ok,
        meta(),
        NOW,
        session_id,
        refresh_id,
        &secret(),
        &issuer(),
    )
}

#[test]
fn login_issues_a_verifiable_token_with_the_resolved_resources() {
    let mut store = base_store();
    let out = login(&mut store, "correct horse", 7001, 8001).expect("login succeeds");
    assert_eq!(out.user_id, USER);
    assert_eq!(out.session_id, 7001);
    assert_eq!(out.expires, NOW + 3600);
    let claims = verify_access(&out.access_token, &secret(), NOW + 10).expect("token verifies");
    assert_eq!(claims.sub, USER);
    assert_eq!(claims.sid, 7001);
    assert_eq!(claims.exp, NOW + 3600);
    let res = claims.resource.expect("resource snapshot present");
    assert_eq!(res.client_id, CLIENT);
    assert_eq!(res.client_name, b("console"));
    assert_eq!(res.group_name, Some(b("default_resource_group")));
    assert_eq!(
        res.identifiers,
        vec![(b("role"), b("admin")), (b("realm"), b("master"))]
    );
    assert!(out.refresh_token.is_some());
}

#[test]
fn wrong_password_is_wrong_credentials() {
    let mut store = base_store();
    let r = login(&mut store, "guessed wrong", 7001, 8001);
    assert_eq!(
        r.unwrap_err(),
        Error::Authenticate(AuthenticateError::WrongCredentials)
    );
    assert!(store.sessions.is_empty());
    assert!(store.refresh_tokens.is_empty());
}

#[test]
fn unknown_email_is_user_not_found() {
    let store = base_store();
    let r = login_prepare(&store, REALM, CLIENT, &b("nobody@example.com"), None, NOW);
    assert_eq!(
        r.map(|_| ()).unwrap_err(),
        Error::NotFound(NotFoundError::UserNotFound)
    );
}

#[test]
fn locked_user_cannot_log_in() {
    let mut store = base_store();
    store.users[0].locked_at = Some(NOW - 100);
    let r = login(&mut store, "correct horse", 7001, 8001);
    assert_eq!(r.unwrap_err(), Error::Authenticate(AuthenticateError::Locked));
}

#[test]
fn locked_resource_group_blocks_login_despite_correct_credentials() {
    let mut store = base_store();
    set_group_lock(&mut store, USER, CLIENT, GROUP, Some(NOW - 1), NOW).expect("lock persists");
    let r = login(&mut store, "correct horse", 7001, 8001);
    assert_eq!(r.unwrap_err(), Error::Authenticate(AuthenticateError::Locked));
}

#[test]
fn future_lock_timestamp_is_rejected_and_changes_nothing() {
    let mut store = base_store();
    let r = set_group_lock(&mut store, USER, CLIENT, GROUP, Some(NOW + 60), NOW);
    assert_eq!(
        r.unwrap_err(),
        Error::Validation(ValidationError::InvalidLockTimestamp)
    );
    // the group is still usable
    login(&mut store, "correct horse", 7001, 8001).expect("login still succeeds");
}

#[test]
fn concurrent_sessions_stop_at_the_ceiling() {
    let mut store = base_store();
    store.clients[0].max_concurrent_sessions = 2;
    let mut outcomes: Vec<bool> = Vec::new();
    let attempts: [(u128, u128); 4] =
        [(7001, 8001), (7002, 8002), (7003, 8003), (7004, 8004)];
    for (sid, rid) in attempts {
        match login(&mut store, "correct horse", sid, rid) {
            Ok(_) => outcomes.push(true),
            Err(e) => {
                assert_eq!(
                    e,
                    Error::Authenticate(AuthenticateError::MaxConcurrentSessions)
                );
                outcomes.push(false);
            }
        }
    }
    // with ceiling 2 and no pre-existing session, exactly 2 of 4 succeed
    assert_eq!(outcomes, vec![true, true, false, false]);
}

#[test]
fn logout_frees_a_slot_at_the_ceiling() {
    let mut store = base_store();
    store.clients[0].max_concurrent_sessions = 1;
    login(&mut store, "correct horse", 7001, 8001).expect("first login");
    assert!(login(&mut store, "correct horse", 7002, 8002).is_err());
    let resp = logout_session(&mut store, 7001, USER, 7001);
    assert!(resp.ok);
    login(&mut store, "correct horse", 7003, 8003).expect("slot is free again");
}

#[test]
fn refresh_keeps_the_token_id_below_the_limit_and_swaps_it_at_the_limit() {
    let mut store = base_store();
    let out = login(&mut store, "correct horse", 7001, 8001).expect("login");
    let rt1 = out.refresh_token.expect("client uses refresh tokens");
    assert!(find_token(&store.refresh_tokens, 8001).is_some());

    // first refresh: below the limit, the id survives
    let r1 = refresh_session(
        &mut store, REALM, CLIENT, &rt1, meta(), NOW, 7002, 8002, &secret(), &issuer(),
    )
    .expect("first refresh");
    assert!(find_token(&store.refresh_tokens, 8001).is_some());
    assert!(find_token(&store.refresh_tokens, 8002).is_none());
    assert_eq!(r1.expires_in, 86_400);
    verify_access(&r1.access_token, &secret(), NOW + 10).expect("new access token verifies");

    // second refresh: still below the limit
    refresh_session(
        &mut store, REALM, CLIENT, &r1.refresh_token, meta(), NOW, 7003, 8003, &secret(),
        &issuer(),
    )
    .expect("second refresh");
    assert!(find_token(&store.refresh_tokens, 8001).is_some());

    // third refresh: the count reached the limit, a fresh id takes over and
    // the old id is gone
    let r3 = refresh_session(
        &mut store, REALM, CLIENT, &r1.refresh_token, meta(), NOW, 7004, 8004, &secret(),
        &issuer(),
    )
    .expect("third refresh");
    assert!(find_token(&store.refresh_tokens, 8001).is_none());
    assert!(find_token(&store.refresh_tokens, 8004).is_some());
    verify_access(&r3.access_token, &secret(), NOW + 10).expect("rotated token verifies");
}

#[test]
fn refresh_bound_to_another_realm_is_invalid() {
    let mut store = base_store();
    let out = login(&mut store, "correct horse", 7001, 8001).expect("login");
    let rt = out.refresh_token.unwrap();
    let r = refresh_session(
        &mut store, 999, CLIENT, &rt, meta(), NOW, 7002, 8002, &secret(), &issuer(),
    );
    assert_eq!(
        r.map(|_| ()).unwrap_err(),
        Error::Authenticate(AuthenticateError::InvalidToken)
    );
}

#[test]
fn refresh_with_an_unknown_token_id_is_not_found() {
    let mut store = base_store();
    let rc = RefreshClaims { sub: 999_999, rli: REALM, cli: CLIENT, exp: NOW + 100, iat: NOW };
    let rt = issue_refresh(&rc, &secret());
    let r = refresh_session(
        &mut store, REALM, CLIENT, &rt, meta(), NOW, 7002, 8002, &secret(), &issuer(),
    );
    assert_eq!(
        r.map(|_| ()).unwrap_err(),
        Error::NotFound(NotFoundError::ResourceNotFound)
    );
}

#[test]
fn introspection_reports_the_live_session_and_goes_dark_after_logout() {
    let mut store = base_store();
    let out = login(&mut store, "correct horse", 7001, 8001).expect("login");
    let resp = introspect(
        &store, &out.access_token, REALM, CLIENT, &secret(), &issuer(), NOW + 5,
    )
    .expect("introspection succeeds");
    assert!(resp.active);
    assert_eq!(resp.sub, USER);
    assert_eq!(resp.client_id, CLIENT);
    assert_eq!(resp.client_name, b("console"));
    assert_eq!(resp.token_type, b("bearer"));
    assert_eq!(resp.resource_group, b("default_resource_group"));
    assert_eq!(resp.resources, vec![b("role"), b("realm")]);

    let lo = logout_by_token(&mut store, &out.access_token, &secret(), NOW + 5, USER, 7001)
        .expect("logout by token");
    assert!(lo.ok);
    let after = introspect(
        &store, &out.access_token, REALM, CLIENT, &secret(), &issuer(), NOW + 5,
    );
    assert_eq!(
        after.map(|_| ()).unwrap_err(),
        Error::Authenticate(AuthenticateError::NoResource)
    );
}

#[test]
fn introspection_for_the_wrong_client_is_no_resource() {
    let mut store = base_store();
    let out = login(&mut store, "correct horse", 7001, 8001).expect("login");
    let r = introspect(&store, &out.access_token, REALM, 999, &secret(), &issuer(), NOW + 5);
    assert_eq!(
        r.map(|_| ()).unwrap_err(),
        Error::Authenticate(AuthenticateError::NoResource)
    );
}

#[test]
fn session_lookup_filters_expired_rows_at_read_time() {
    let mut store = base_store();
    login(&mut store, "correct horse", 7001, 8001).expect("login");
    let (uid, cid, expires) =
        get_active_session_by_id(&store, 7001, NOW).expect("session is live");
    assert_eq!((uid, cid, expires), (USER, CLIENT, NOW + 3600));
    // a missing id and an expired row answer alike
    assert_eq!(
        get_active_session_by_id(&store, 7777, NOW).unwrap_err(),
        Error::NotFound(NotFoundError::SessionNotFound)
    );
    assert_eq!(
        get_active_session_by_id(&store, 7001, NOW + 3600).unwrap_err(),
        Error::NotFound(NotFoundError::SessionNotFound)
    );
}

#[test]
fn realm_ownership_checks() {
    let store = base_store();
    assert!(is_client_belongs_to_realm(&store, CLIENT, REALM));
    assert!(!is_client_belongs_to_realm(&store, CLIENT, 999));
    assert!(!is_client_belongs_to_realm(&store, 999, REALM));
    assert!(is_user_belongs_to_realm(&store, USER, REALM, NOW));
    assert!(!is_user_belongs_to_realm(&store, USER, 999, NOW));
    assert!(!is_user_belongs_to_realm(&store, 999, REALM, NOW));
    assert!(is_resource_group_belongs_to_realm(&store, GROUP, REALM, NOW));
    assert!(!is_resource_group_belongs_to_realm(&store, GROUP, 999, NOW));
    assert!(!is_resource_group_belongs_to_realm(&store, 777, REALM, NOW));
    assert!(is_resource_belongs_to_realm(&store, 901, REALM, NOW));
    assert!(!is_resource_belongs_to_realm(&store, 901, 999, NOW));
    assert!(!is_resource_belongs_to_realm(&store, 12345, REALM, NOW));
}

#[test]
fn selecting_a_named_group_at_login() {
    let mut store = base_store();
    // a second, non-default group with its own resources
    apply_group_write(
        &mut store.groups,
        &GroupWrite {
            user_id: USER,
            client_id: CLIENT,
            realm_id: REALM,
            group_key: 200,
            is_default: Some(false),
            insert: true,
        },
    )
    .expect("second group");
    // identifier names are unique per (user, client), so the second
    // group gets its own name
    add_resources(
        &mut store,
        REALM,
        USER,
        CLIENT,
        200,
        vec![NewResource { id: 903, name: b("scope"), value: b("viewer") }],
    )
    .expect("resources added");
    let prep = login_prepare(&store, REALM, CLIENT, &b("ada@example.com"), Some(200), NOW)
        .expect("named group resolves");
    assert_eq!(prep.group_key, 200);
    let out = login_complete(
        &mut store, &prep, true, meta(), NOW, 7001, 8001, &secret(), &issuer(),
    )
    .expect("login against the named group");
    let claims = verify_access(&out.access_token, &secret(), NOW + 1).unwrap();
    let res = claims.resource.unwrap();
    assert_eq!(res.identifiers, vec![(b("scope"), b("viewer"))]);
    // an unknown group key is a missing group
    let missing = login_prepare(&store, REALM, CLIENT, &b("ada@example.com"), Some(777), NOW);
    assert_eq!(
        missing.map(|_| ()).unwrap_err(),
        Error::NotFound(NotFoundError::GroupNotFound)
    );
}

#[test]
fn update_resource_group_raises_the_default_flag() {
    let mut store = base_store();
    apply_group_write(
        &mut store.groups,
        &GroupWrite {
            user_id: USER,
            client_id: CLIENT,
            realm_id: REALM,
            group_key: 200,
            is_default: Some(false),
            insert: true,
        },
    )
    .expect("second group");
    assert!(group_is_default_ex(&store.groups, USER, CLIENT, GROUP));
    update_resource_group(&mut store, REALM, USER, CLIENT, 200, Some(true), None, NOW)
        .expect("raise the flag");
    assert!(group_is_default_ex(&store.groups, USER, CLIENT, 200));
    assert!(!group_is_default_ex(&store.groups, USER, CLIENT, GROUP));
    // an unknown group cannot be updated
    assert_eq!(
        update_resource_group(&mut store, REALM, USER, CLIENT, 777, Some(true), None, NOW)
            .unwrap_err(),
        Error::NotFound(NotFoundError::GroupNotFound)
    );
}

#[test]
fn add_resources_rejects_a_foreign_realm() {
    let mut store = base_store();
    let r = add_resources(
        &mut store,
        999,
        USER,
        CLIENT,
        GROUP,
        vec![NewResource { id: 950, name: b("extra"), value: b("x") }],
    );
    assert_eq!(
        r.unwrap_err(),
        Error::Validation(ValidationError::BadRealmClientCombo)
    );
}

#[test]
fn all_resources_locked_means_no_usable_bundle() {
    let mut store = base_store();
    for res in store.resources.iter_mut() {
        res.locked_at = Some(NOW - 1);
    }
    let r = login(&mut store, "correct horse", 7001, 8001);
    assert_eq!(r.unwrap_err(), Error::Authenticate(AuthenticateError::Locked));
}

#[test]
fn registration_gives_the_first_group_the_default_flag() {
    let mut store = base_store();
    insert_user(
        &mut store,
        REALM,
        CLIENT,
        NewUser {
            id: 11,
            email: b("grace@example.com"),
            password_hash: hash_password("pw"),
            first_name: b("Grace"),
            last_name: None,
            phone: None,
        },
        300,
        b("grace_default"),
        vec![NewResource { id: 960, name: b("role"), value: b("user") }],
    )
    .expect("a second user registers");
    assert!(group_is_default_ex(&store.groups, 11, CLIENT, 300));
    let prep = login_prepare(&store, REALM, CLIENT, &b("grace@example.com"), None, NOW)
        .expect("the new user can log in");
    assert_eq!(prep.group_key, 300);
}

#[test]
fn duplicate_email_is_rejected_and_commits_nothing() {
    let mut store = base_store();
    let users_before = store.users.len();
    let groups_before = store.groups.len();
    let resources_before = store.resources.len();
    let r = insert_user(
        &mut store,
        REALM,
        CLIENT,
        NewUser {
            id: 12,
            email: b("ada@example.com"),
            password_hash: hash_password("pw"),
            first_name: b("Imposter"),
            last_name: None,
            phone: None,
        },
        400,
        b("imposter_group"),
        vec![NewResource { id: 970, name: b("role"), value: b("user") }],
    );
    assert_eq!(
        r.unwrap_err(),
        Error::Conflict(ConflictError::DuplicateEmail)
    );
    assert_eq!(store.users.len(), users_before);
    assert_eq!(store.groups.len(), groups_before);
    assert_eq!(store.resources.len(), resources_before);
}

#[test]
fn duplicate_resource_name_is_rejected_on_insert() {
    let mut store = base_store();
    let before = store.resources.len();
    // "role" already exists for (USER, CLIENT)
    let r = add_resources(
        &mut store,
        REALM,
        USER,
        CLIENT,
        GROUP,
        vec![NewResource { id: 950, name: b("role"), value: b("viewer") }],
    );
    assert_eq!(
        r.unwrap_err(),
        Error::Conflict(ConflictError::DuplicateResourceName)
    );
    assert_eq!(store.resources.len(), before);
    // a batch that repeats a fresh name is rejected the same way
    let r2 = add_resources(
        &mut store,
        REALM,
        USER,
        CLIENT,
        GROUP,
        vec![
            NewResource { id: 951, name: b("tier"), value: b("gold") },
            NewResource { id: 952, name: b("tier"), value: b("silver") },
        ],
    );
    assert_eq!(
        r2.unwrap_err(),
        Error::Conflict(ConflictError::DuplicateResourceName)
    );
    assert_eq!(store.resources.len(), before);
    // registering a user whose batch clashes with itself also fails whole
    let r3 = insert_user(
        &mut store,
        REALM,
        CLIENT,
        NewUser {
            id: 13,
            email: b("eve@example.com"),
            password_hash: hash_password("pw"),
            first_name: b("Eve"),
            last_name: None,
            phone: None,
        },
        500,
        b("eve_group"),
        vec![
            NewResource { id: 953, name: b("role"), value: b("a") },
            NewResource { id: 954, name: b("role"), value: b("b") },
        ],
    );
    assert_eq!(
        r3.unwrap_err(),
        Error::Conflict(ConflictError::DuplicateResourceName)
    );
}

#[test]
fn update_resource_rewrites_the_row_and_guards_the_unique_name() {
    let mut store = base_store();
    // rename "role" to "level" with a new value; the next login sees it
    update_resource(&mut store, 901, b("level"), b("nine"), None, None, NOW)
        .expect("update succeeds");
    let out = login(&mut store, "correct horse", 7001, 8001).expect("login");
    let claims = verify_access(&out.access_token, &secret(), NOW + 1).unwrap();
    assert_eq!(
        claims.resource.unwrap().identifiers,
        vec![(b("level"), b("nine")), (b("realm"), b("master"))]
    );
    // renaming onto a name the pair already uses is a conflict
    assert_eq!(
        update_resource(&mut store, 901, b("realm"), b("x"), None, None, NOW).unwrap_err(),
        Error::Conflict(ConflictError::DuplicateResourceName)
    );
    // an unknown id is not found
    assert_eq!(
        update_resource(&mut store, 4242, b("n"), b("v"), None, None, NOW).unwrap_err(),
        Error::NotFound(NotFoundError::ResourceNotFound)
    );
    // locking the row takes it out of the active bundle; with every row of
    // the group locked, login fails closed
    update_resource(&mut store, 901, b("level"), b("nine"), None, Some(true), NOW)
        .expect("lock the first row");
    update_resource(&mut store, 902, b("realm"), b("master"), None, Some(true), NOW)
        .expect("lock the second row");
    let r = login(&mut store, "correct horse", 7002, 8002);
    assert_eq!(r.unwrap_err(), Error::Authenticate(AuthenticateError::Locked));
}
