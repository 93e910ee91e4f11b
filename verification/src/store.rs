//! The record set the engine works on.
//!
//! The relational tables of the storage contract, held as plain rows. The
//! flows read and write them inside one transaction; this module gives the
//! rows, the store's well-formedness, and the verified lookups.

use vstd::prelude::*;

use crate::claims::pairs_view;
use crate::codec::copy_range;
use crate::groups::{
    count_default, group_is_default, has_group, i1, in_pair, is_key, unique_keys, GroupRec,
};
use crate::lock::is_locked_spec;
use crate::refresh::{unique_token_ids, RefreshTokenRec};
use crate::sessions::SessionRec;

verus! {

/// A tenant.
pub struct RealmRec {
    pub id: u128,
    pub name: Vec<u8>,
    pub slug: Vec<u8>,
    pub session_lifetime: u32,
    pub refresh_token_lifetime: u32,
    pub refresh_token_reuse_limit: u32,
    pub locked_at: Option<u64>,
}

/// An application within a realm.
pub struct ClientRec {
    pub id: u128,
    pub realm_id: u128,
    pub name: Vec<u8>,
    pub max_concurrent_sessions: u32,
    pub use_refresh_token: bool,
    pub session_lifetime: u32,
    pub refresh_token_reuse_limit: u32,
    pub locked_at: Option<u64>,
}

/// A principal within a realm.
pub struct UserRec {
    pub id: u128,
    pub realm_id: u128,
    pub email: Vec<u8>,
    pub password_hash: Vec<u8>,
    pub first_name: Vec<u8>,
    pub last_name: Option<Vec<u8>>,
    pub phone: Option<Vec<u8>>,
    pub locked_at: Option<u64>,
    pub email_verified_at: Option<u64>,
}

/// One name/value authorization claim within a group.
pub struct ResourceRec {
    pub id: u128,
    pub user_id: u128,
    pub client_id: u128,
    pub group_key: u128,
    pub name: Vec<u8>,
    pub value: Vec<u8>,
    pub description: Option<Vec<u8>>,
    pub locked_at: Option<u64>,
}

/// Display name of a resource group.
pub struct GroupName {
    pub group_key: u128,
    pub name: Vec<u8>,
}

/// The whole record set.
pub struct Store {
    pub realms: Vec<RealmRec>,
    pub clients: Vec<ClientRec>,
    pub users: Vec<UserRec>,
    pub groups: Vec<GroupRec>,
    pub group_names: Vec<GroupName>,
    pub resources: Vec<ResourceRec>,
    pub sessions: Vec<SessionRec>,
    pub refresh_tokens: Vec<RefreshTokenRec>,
}

/// Fits the codec's length prefix.
pub open spec fn bytes_ok(b: Seq<u8>) -> bool {
    b.len() < 0x1_0000_0000
}

pub open spec fn opt_bytes_ok(b: Option<Vec<u8>>) -> bool {
    match b {
        Some(x) => bytes_ok(x@),
        None => true,
    }
}

/// No two realms share an id.
pub open spec fn unique_realm_ids(rs: Seq<RealmRec>) -> bool {
    forall|i: int, j: int|
        #![trigger rs[i], rs[j]]
        0 <= i < j < rs.len() ==> rs[i].id != rs[j].id
}

/// No two clients share an id.
pub open spec fn unique_client_ids(cs: Seq<ClientRec>) -> bool {
    forall|i: int, j: int|
        #![trigger cs[i], cs[j]]
        0 <= i < j < cs.len() ==> cs[i].id != cs[j].id
}

/// No two users share an id, and an email names one user per realm.
pub open spec fn unique_users(us: Seq<UserRec>) -> bool {
    forall|i: int, j: int|
        #![trigger us[i], us[j]]
        0 <= i < j < us.len() ==> us[i].id != us[j].id && !(us[i].realm_id == us[j].realm_id
            && us[i].email@ == us[j].email@)
}

/// No two sessions share an id.
pub open spec fn unique_session_ids(ss: Seq<SessionRec>) -> bool {
    forall|i: int, j: int|
        #![trigger ss[i], ss[j]]
        0 <= i < j < ss.len() ==> ss[i].id != ss[j].id
}

/// An identifier name appears once per (user, client): the unique
/// constraint on resource rows.
pub open spec fn unique_resource_names(rs: Seq<ResourceRec>) -> bool {
    forall|i: int, j: int|
        #![trigger rs[i], rs[j]]
        0 <= i < j < rs.len() ==> !(rs[i].user_id == rs[j].user_id && rs[i].client_id
            == rs[j].client_id && rs[i].name@ == rs[j].name@)
}

/// No two group-name rows share a key.
pub open spec fn unique_group_names(ns: Seq<GroupName>) -> bool {
    forall|i: int, j: int|
        #![trigger ns[i], ns[j]]
        0 <= i < j < ns.len() ==> ns[i].group_key != ns[j].group_key
}

impl Store {
    /// Well-formedness: the default-group invariant, unique identifiers,
    /// and every string short enough for the token codec.
    pub open spec fn wf(&self) -> bool {
        &&& i1(self.groups@)
        &&& unique_keys(self.groups@)
        &&& unique_token_ids(self.refresh_tokens@)
        &&& unique_session_ids(self.sessions@)
        &&& unique_realm_ids(self.realms@)
        &&& unique_client_ids(self.clients@)
        &&& unique_users(self.users@)
        &&& unique_group_names(self.group_names@)
        &&& unique_resource_names(self.resources@)
        &&& self.resources@.len() < 0x1_0000_0000
        &&& forall|i: int|
            0 <= i < self.users@.len() ==> {
                let u = #[trigger] self.users@[i];
                bytes_ok(u.email@) && bytes_ok(u.first_name@) && opt_bytes_ok(u.last_name)
                    && opt_bytes_ok(u.phone)
            }
        &&& forall|i: int|
            0 <= i < self.clients@.len() ==> bytes_ok((#[trigger] self.clients@[i]).name@)
        &&& forall|i: int|
            0 <= i < self.group_names@.len() ==> bytes_ok(
                (#[trigger] self.group_names@[i]).name@,
            )
        &&& forall|i: int|
            0 <= i < self.resources@.len() ==> {
                let r = #[trigger] self.resources@[i];
                bytes_ok(r.name@) && bytes_ok(r.value@)
            }
    }
}

/// A byte-for-byte copy.
pub fn clone_bytes(v: &Vec<u8>) -> (r: Vec<u8>)
    ensures
        r@ == v@,
{
    let r = copy_range(v, 0, v.len());
    proof {
        assert(v@.subrange(0, v@.len() as int) =~= v@);
    }
    r
}

// ------------------------------------------------------------------
// spec-level accessors (meaningful under the uniqueness invariants)
// ------------------------------------------------------------------

pub open spec fn has_realm(rs: Seq<RealmRec>, id: u128) -> bool {
    exists|i: int| 0 <= i < rs.len() && (#[trigger] rs[i]).id == id
}

pub open spec fn realm_at(rs: Seq<RealmRec>, id: u128) -> RealmRec
    recommends
        has_realm(rs, id),
{
    rs[choose|i: int| 0 <= i < rs.len() && (#[trigger] rs[i]).id == id]
}

pub open spec fn has_client(cs: Seq<ClientRec>, id: u128) -> bool {
    exists|i: int| 0 <= i < cs.len() && (#[trigger] cs[i]).id == id
}

pub open spec fn client_at(cs: Seq<ClientRec>, id: u128) -> ClientRec
    recommends
        has_client(cs, id),
{
    cs[choose|i: int| 0 <= i < cs.len() && (#[trigger] cs[i]).id == id]
}

pub open spec fn has_user_email(us: Seq<UserRec>, realm_id: u128, email: Seq<u8>) -> bool {
    exists|i: int| 0 <= i < us.len() && user_email_matches(#[trigger] us[i], realm_id, email)
}

pub open spec fn user_at_email(us: Seq<UserRec>, realm_id: u128, email: Seq<u8>) -> UserRec
    recommends
        has_user_email(us, realm_id, email),
{
    us[choose|i: int|
        0 <= i < us.len() && user_email_matches(#[trigger] us[i], realm_id, email)]
}

pub open spec fn has_user_id(us: Seq<UserRec>, id: u128) -> bool {
    exists|i: int| 0 <= i < us.len() && (#[trigger] us[i]).id == id
}

pub open spec fn user_at_id(us: Seq<UserRec>, id: u128) -> UserRec
    recommends
        has_user_id(us, id),
{
    us[choose|i: int| 0 <= i < us.len() && (#[trigger] us[i]).id == id]
}

pub open spec fn has_session_id(ss: Seq<SessionRec>, id: u128) -> bool {
    exists|i: int| 0 <= i < ss.len() && (#[trigger] ss[i]).id == id
}

pub open spec fn session_at(ss: Seq<SessionRec>, id: u128) -> SessionRec
    recommends
        has_session_id(ss, id),
{
    ss[choose|i: int| 0 <= i < ss.len() && (#[trigger] ss[i]).id == id]
}

/// The pair has a default group.
pub open spec fn has_default_group(gs: Seq<GroupRec>, u: u128, c: u128) -> bool {
    exists|i: int| 0 <= i < gs.len() && in_pair(#[trigger] gs[i], u, c) && gs[i].is_default
}

/// The key of the pair's default group.
pub open spec fn default_group_key(gs: Seq<GroupRec>, u: u128, c: u128) -> u128
    recommends
        has_default_group(gs, u, c),
{
    gs[choose|i: int|
        0 <= i < gs.len() && in_pair(#[trigger] gs[i], u, c) && gs[i].is_default].group_key
}

/// The row of the pair's group `key`.
pub open spec fn group_rec_at(gs: Seq<GroupRec>, u: u128, c: u128, key: u128) -> GroupRec
    recommends
        has_group(gs, u, c, key),
{
    gs[choose|i: int| 0 <= i < gs.len() && is_key(#[trigger] gs[i], u, c, key)]
}

/// The pair's group `key` exists and is not locked.
pub open spec fn group_unlocked(gs: Seq<GroupRec>, u: u128, c: u128, key: u128, now: u64) -> bool {
    exists|i: int|
        0 <= i < gs.len() && is_key(#[trigger] gs[i], u, c, key) && !is_locked_spec(
            gs[i].locked_at,
            now,
        )
}

pub open spec fn has_group_name(ns: Seq<GroupName>, key: u128) -> bool {
    exists|i: int| 0 <= i < ns.len() && (#[trigger] ns[i]).group_key == key
}

pub open spec fn group_name_at(ns: Seq<GroupName>, key: u128) -> Seq<u8>
    recommends
        has_group_name(ns, key),
{
    ns[choose|i: int| 0 <= i < ns.len() && (#[trigger] ns[i]).group_key == key].name@
}

// ------------------------------------------------------------------
// lookups
// ------------------------------------------------------------------

pub fn find_realm(realms: &Vec<RealmRec>, id: u128) -> (r: Option<usize>)
    ensures
        match r {
            Some(i) => i < realms@.len() && realms@[i as int].id == id,
            None => forall|j: int| 0 <= j < realms@.len() ==> (#[trigger] realms@[j]).id != id,
        },
{
    let mut i: usize = 0;
    let n = realms.len();
    while i < n
        invariant
            i <= n,
            n == realms@.len(),
            forall|j: int| 0 <= j < i ==> (#[trigger] realms@[j]).id != id,
        decreases n - i,
    {
        if realms[i].id == id {
            return Some(i);
        }
        i += 1;
    }
    None
}

pub fn find_client(clients: &Vec<ClientRec>, id: u128) -> (r: Option<usize>)
    ensures
        match r {
            Some(i) => i < clients@.len() && clients@[i as int].id == id,
            None => forall|j: int| 0 <= j < clients@.len() ==> (#[trigger] clients@[j]).id != id,
        },
{
    let mut i: usize = 0;
    let n = clients.len();
    while i < n
        invariant
            i <= n,
            n == clients@.len(),
            forall|j: int| 0 <= j < i ==> (#[trigger] clients@[j]).id != id,
        decreases n - i,
    {
        if clients[i].id == id {
            return Some(i);
        }
        i += 1;
    }
    None
}

pub fn find_user_by_id(users: &Vec<UserRec>, id: u128) -> (r: Option<usize>)
    ensures
        match r {
            Some(i) => i < users@.len() && users@[i as int].id == id,
            None => forall|j: int| 0 <= j < users@.len() ==> (#[trigger] users@[j]).id != id,
        },
{
    let mut i: usize = 0;
    let n = users.len();
    while i < n
        invariant
            i <= n,
            n == users@.len(),
            forall|j: int| 0 <= j < i ==> (#[trigger] users@[j]).id != id,
        decreases n - i,
    {
        if users[i].id == id {
            return Some(i);
        }
        i += 1;
    }
    None
}

/// The pair (realm, email) identifies a user.
pub open spec fn user_email_matches(u: UserRec, realm_id: u128, email: Seq<u8>) -> bool {
    u.realm_id == realm_id && u.email@ == email
}

pub fn find_user_by_email(users: &Vec<UserRec>, realm_id: u128, email: &Vec<u8>) -> (r: Option<
    usize,
>)
    ensures
        match r {
            Some(i) => i < users@.len() && user_email_matches(users@[i as int], realm_id, email@),
            None => forall|j: int|
                0 <= j < users@.len() ==> !user_email_matches(
                    #[trigger] users@[j],
                    realm_id,
                    email@,
                ),
        },
{
    let mut i: usize = 0;
    let n = users.len();
    while i < n
        invariant
            i <= n,
            n == users@.len(),
            forall|j: int|
                0 <= j < i ==> !user_email_matches(#[trigger] users@[j], realm_id, email@),
        decreases n - i,
    {
        let u = &users[i];
        if u.realm_id == realm_id && crate::codec::bytes_eq(&u.email, email) {
            return Some(i);
        }
        i += 1;
    }
    None
}

pub fn find_session(sessions: &Vec<SessionRec>, id: u128) -> (r: Option<usize>)
    ensures
        match r {
            Some(i) => i < sessions@.len() && sessions@[i as int].id == id,
            None => forall|j: int| 0 <= j < sessions@.len() ==> (#[trigger] sessions@[j]).id != id,
        },
{
    let mut i: usize = 0;
    let n = sessions.len();
    while i < n
        invariant
            i <= n,
            n == sessions@.len(),
            forall|j: int| 0 <= j < i ==> (#[trigger] sessions@[j]).id != id,
        decreases n - i,
    {
        if sessions[i].id == id {
            return Some(i);
        }
        i += 1;
    }
    None
}

/// The pair's group `key`, if present (unique keys make it the only one).
pub fn find_group_rec(groups: &Vec<GroupRec>, u: u128, c: u128, key: u128) -> (r: Option<GroupRec>)
    requires
        unique_keys(groups@),
    ensures
        match r {
            Some(g) => is_key(g, u, c, key) && has_group(groups@, u, c, key) && g.is_default
                == group_is_default(groups@, u, c, key) && (exists|i: int|
                0 <= i < groups@.len() && #[trigger] groups@[i] == g),
            None => !has_group(groups@, u, c, key),
        },
{
    let mut i: usize = 0;
    let n = groups.len();
    proof {
        assert(groups@.skip(0) =~= groups@);
    }
    while i < n
        invariant
            i <= n,
            n == groups@.len(),
            has_group(groups@, u, c, key) == has_group(groups@.skip(i as int), u, c, key),
            group_is_default(groups@, u, c, key) == group_is_default(
                groups@.skip(i as int),
                u,
                c,
                key,
            ),
        decreases n - i,
    {
        let g = groups[i];
        proof {
            assert(groups@.skip(i as int)[0] == groups@[i as int]);
            assert(groups@.skip(i as int).skip(1) =~= groups@.skip(i as int + 1));
        }
        if g.user_id == u && g.client_id == c && g.group_key == key {
            proof {
                assert(groups@[i as int] == g);
            }
            return Some(g);
        }
        i += 1;
    }
    proof {
        assert(groups@.skip(n as int) =~= Seq::<GroupRec>::empty());
    }
    None
}

proof fn lemma_count_default_zero(gs: Seq<GroupRec>, u: u128, c: u128)
    requires
        forall|i: int| 0 <= i < gs.len() ==> !(in_pair(#[trigger] gs[i], u, c) && gs[i].is_default),
    ensures
        count_default(gs, u, c) == 0,
    decreases gs.len(),
{
    if gs.len() > 0 {
        assert(forall|i: int|
            0 <= i < gs.skip(1).len() ==> gs.skip(1)[i] == gs[i + 1]);
        lemma_count_default_zero(gs.skip(1), u, c);
    }
}

/// The pair's default group, if any.
pub fn find_default_group(groups: &Vec<GroupRec>, u: u128, c: u128) -> (r: Option<GroupRec>)
    requires
        unique_keys(groups@),
    ensures
        match r {
            Some(g) => in_pair(g, u, c) && g.is_default && has_group(groups@, u, c, g.group_key)
                && group_is_default(groups@, u, c, g.group_key) && (exists|i: int|
                0 <= i < groups@.len() && #[trigger] groups@[i] == g),
            None => count_default(groups@, u, c) == 0,
        },
{
    let mut i: usize = 0;
    let n = groups.len();
    while i < n
        invariant
            i <= n,
            n == groups@.len(),
            unique_keys(groups@),
            forall|j: int|
                0 <= j < i ==> !(in_pair(#[trigger] groups@[j], u, c) && groups@[j].is_default),
        decreases n - i,
    {
        let g = groups[i];
        if g.user_id == u && g.client_id == c && g.is_default {
            let found = find_group_rec(groups, u, c, g.group_key);
            proof {
                crate::groups::lemma_has_group_iff(groups@, u, c, g.group_key);
            }
            match found {
                Some(g2) => {
                    if g2.is_default {
                        return Some(g2);
                    }
                    proof {
                        // the unique row with this key is row i, which is
                        // default; a non-default answer is impossible
                        assert(is_key(groups@[i as int], u, c, g.group_key));
                        assert(group_is_default(groups@, u, c, g.group_key) == g2.is_default);
                        lemma_group_default_of_row(groups@, u, c, i as int);
                        assert(false);
                    }
                },
                None => {
                    proof {
                        assert(is_key(groups@[i as int], u, c, g.group_key));
                        assert(false);
                    }
                },
            }
        }
        i += 1;
    }
    proof {
        lemma_count_default_zero(groups@, u, c);
    }
    None
}

/// Under unique keys, the stored flag of row `i` is the pair's answer for
/// that row's key.
proof fn lemma_group_default_of_row(gs: Seq<GroupRec>, u: u128, c: u128, i: int)
    requires
        unique_keys(gs),
        0 <= i < gs.len(),
        in_pair(gs[i], u, c),
    ensures
        group_is_default(gs, u, c, gs[i].group_key) == gs[i].is_default,
    decreases gs.len(),
{
    if i == 0 {
    } else {
        let tail = gs.skip(1);
        assert(tail[i - 1] == gs[i]);
        assert forall|a: int, b: int|
            #![trigger tail[a], tail[b]]
            0 <= a < b < tail.len() implies !(tail[a].user_id == tail[b].user_id
            && tail[a].client_id == tail[b].client_id && tail[a].group_key
            == tail[b].group_key) by {
            assert(tail[a] == gs[a + 1]);
            assert(tail[b] == gs[b + 1]);
        }
        lemma_group_default_of_row(tail, u, c, i - 1);
        assert(!is_key(gs[0], u, c, gs[i].group_key));
    }
}

/// The display name of a group, if one is recorded.
pub fn find_group_name(names: &Vec<GroupName>, key: u128) -> (r: Option<Vec<u8>>)
    ensures
        match r {
            Some(n) => exists|j: int|
                0 <= j < names@.len() && (#[trigger] names@[j]).group_key == key && names@[j].name@
                    == n@,
            None => forall|j: int|
                0 <= j < names@.len() ==> (#[trigger] names@[j]).group_key != key,
        },
{
    let mut i: usize = 0;
    let n = names.len();
    while i < n
        invariant
            i <= n,
            n == names@.len(),
            forall|j: int| 0 <= j < i ==> (#[trigger] names@[j]).group_key != key,
        decreases n - i,
    {
        if names[i].group_key == key {
            let copied = clone_bytes(&names[i].name);
            return Some(copied);
        }
        i += 1;
    }
    None
}

// ------------------------------------------------------------------
// the resolved resource bundle
// ------------------------------------------------------------------

/// A resource row takes part while it belongs to the group and is not
/// locked.
pub open spec fn resource_active(r: ResourceRec, u: u128, c: u128, key: u128, now: u64) -> bool {
    r.user_id == u && r.client_id == c && r.group_key == key && !is_locked_spec(r.locked_at, now)
}

/// The name/value pairs of the group's active resources, in store order.
pub open spec fn active_idents(
    rs: Seq<ResourceRec>,
    u: u128,
    c: u128,
    key: u128,
    now: u64,
) -> Seq<(Seq<u8>, Seq<u8>)>
    decreases rs.len(),
{
    if rs.len() == 0 {
        Seq::empty()
    } else if resource_active(rs[0], u, c, key, now) {
        seq![(rs[0].name@, rs[0].value@)] + active_idents(rs.skip(1), u, c, key, now)
    } else {
        active_idents(rs.skip(1), u, c, key, now)
    }
}

pub proof fn lemma_active_idents_len(rs: Seq<ResourceRec>, u: u128, c: u128, key: u128, now: u64)
    ensures
        active_idents(rs, u, c, key, now).len() <= rs.len(),
    decreases rs.len(),
{
    if rs.len() > 0 {
        lemma_active_idents_len(rs.skip(1), u, c, key, now);
    }
}

pub proof fn lemma_active_idents_bounds(
    rs: Seq<ResourceRec>,
    u: u128,
    c: u128,
    key: u128,
    now: u64,
)
    requires
        forall|i: int|
            0 <= i < rs.len() ==> bytes_ok((#[trigger] rs[i]).name@) && bytes_ok(rs[i].value@),
    ensures
        forall|k: int|
            0 <= k < active_idents(rs, u, c, key, now).len() ==> bytes_ok(
                (#[trigger] active_idents(rs, u, c, key, now)[k]).0,
            ) && bytes_ok(active_idents(rs, u, c, key, now)[k].1),
    decreases rs.len(),
{
    if rs.len() > 0 {
        assert(forall|i: int|
            0 <= i < rs.skip(1).len() ==> rs.skip(1)[i] == rs[i + 1]);
        lemma_active_idents_bounds(rs.skip(1), u, c, key, now);
        let a = active_idents(rs, u, c, key, now);
        let rest = active_idents(rs.skip(1), u, c, key, now);
        if resource_active(rs[0], u, c, key, now) {
            assert forall|k: int| 0 <= k < a.len() implies bytes_ok((#[trigger] a[k]).0)
                && bytes_ok(a[k].1) by {
                if k == 0 {
                    assert(a[0] == (rs[0].name@, rs[0].value@));
                } else {
                    assert(a[k] == rest[k - 1]);
                }
            }
        }
    }
}

/// Collect the group's active name/value pairs.
pub fn collect_active_idents(
    resources: &Vec<ResourceRec>,
    u: u128,
    c: u128,
    key: u128,
    now: u64,
) -> (r: Vec<(Vec<u8>, Vec<u8>)>)
    ensures
        pairs_view(r@) == active_idents(resources@, u, c, key, now),
{
    let mut out: Vec<(Vec<u8>, Vec<u8>)> = Vec::new();
    let mut i: usize = 0;
    let n = resources.len();
    proof {
        assert(resources@.skip(0) =~= resources@);
        assert(pairs_view(out@) =~= Seq::<(Seq<u8>, Seq<u8>)>::empty());
    }
    while i < n
        invariant
            i <= n,
            n == resources@.len(),
            pairs_view(out@) + active_idents(resources@.skip(i as int), u, c, key, now)
                == active_idents(resources@, u, c, key, now),
        decreases n - i,
    {
        let rec = &resources[i];
        proof {
            assert(resources@.skip(i as int)[0] == resources@[i as int]);
            assert(resources@.skip(i as int).skip(1) =~= resources@.skip(i as int + 1));
        }
        let is_active = rec.user_id == u && rec.client_id == c && rec.group_key == key && (match
            &rec.locked_at {
            Some(t) => *t > now,
            None => true,
        });
        if is_active {
            let name = clone_bytes(&rec.name);
            let value = clone_bytes(&rec.value);
            let before = Ghost(out@);
            out.push((name, value));
            proof {
                let rv = (resources@[i as int].name@, resources@[i as int].value@);
                assert(pairs_view(out@) =~= pairs_view(before@).push(rv));
                assert(pairs_view(before@).push(rv) + active_idents(
                    resources@.skip(i as int + 1),
                    u,
                    c,
                    key,
                    now,
                ) =~= pairs_view(before@) + (seq![rv] + active_idents(
                    resources@.skip(i as int + 1),
                    u,
                    c,
                    key,
                    now,
                )));
            }
        }
        i += 1;
    }
    proof {
        assert(resources@.skip(n as int) =~= Seq::<ResourceRec>::empty());
        assert(pairs_view(out@) + Seq::<(Seq<u8>, Seq<u8>)>::empty() =~= pairs_view(out@));
    }
    out
}

/// Is this identifier name already used for the (user, client) pair?
pub open spec fn resource_name_taken(rs: Seq<ResourceRec>, u: u128, c: u128, name: Seq<u8>) -> bool {
    exists|i: int|
        0 <= i < rs.len() && (#[trigger] rs[i]).user_id == u && rs[i].client_id == c
            && rs[i].name@ == name
}

/// Executable form of `resource_name_taken`.
pub fn resource_name_taken_ex(
    resources: &Vec<ResourceRec>,
    u: u128,
    c: u128,
    name: &Vec<u8>,
) -> (r: bool)
    ensures
        r == resource_name_taken(resources@, u, c, name@),
{
    let mut i: usize = 0;
    let n = resources.len();
    while i < n
        invariant
            i <= n,
            n == resources@.len(),
            forall|j: int|
                0 <= j < i ==> !((#[trigger] resources@[j]).user_id == u
                    && resources@[j].client_id == c && resources@[j].name@ == name@),
        decreases n - i,
    {
        let rec = &resources[i];
        if rec.user_id == u && rec.client_id == c && crate::codec::bytes_eq(&rec.name, name) {
            return true;
        }
        i += 1;
    }
    false
}

/// The names of the group's active resources, in store order.
pub open spec fn active_names(
    rs: Seq<ResourceRec>,
    u: u128,
    c: u128,
    key: u128,
    now: u64,
) -> Seq<Seq<u8>> {
    active_idents(rs, u, c, key, now).map_values(|p: (Seq<u8>, Seq<u8>)| p.0)
}

/// Collect the names of the group's active resources.
pub fn collect_active_names(
    resources: &Vec<ResourceRec>,
    u: u128,
    c: u128,
    key: u128,
    now: u64,
) -> (r: Vec<Vec<u8>>)
    ensures
        r@.map_values(|v: Vec<u8>| v@) == active_names(resources@, u, c, key, now),
{
    let idents = collect_active_idents(resources, u, c, key, now);
    let mut out: Vec<Vec<u8>> = Vec::new();
    let mut i: usize = 0;
    let n = idents.len();
    while i < n
        invariant
            i <= n,
            n == idents@.len(),
            pairs_view(idents@) == active_idents(resources@, u, c, key, now),
            out@.len() == i,
            forall|j: int|
                0 <= j < i ==> (#[trigger] out@[j])@ == pairs_view(idents@)[j].0,
        decreases n - i,
    {
        let name = clone_bytes(&idents[i].0);
        out.push(name);
        proof {
            assert(pairs_view(idents@)[i as int].0 == idents@[i as int].0@);
        }
        i += 1;
    }
    proof {
        assert(out@.map_values(|v: Vec<u8>| v@) =~= active_names(resources@, u, c, key, now));
    }
    out
}

} // verus!
