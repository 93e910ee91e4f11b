//! The resource-group default-flag engine.
//!
//! Every write to a resource group's `is_default` flag (or to the group set
//! itself) passes through `apply_group_write`, which restores the invariant
//! that each (user, client) pair with at least one group has exactly one
//! default group, and none otherwise:
//!
//! - a write requesting `true` demotes every other group of the pair;
//! - the first group of a pair becomes default whatever was requested;
//! - taking the flag away from the pair's only default group is rejected
//!   with `CannotRemoveOnlyDefault` and changes nothing.

use vstd::pervasive::VecAdditionalExecFns;
use vstd::prelude::*;

use crate::errors::{ConflictError, Error};

verus! {

/// A resource group row, as the engine sees it.
#[derive(Clone, Copy, Debug, PartialEq, Eq, Structural)]
pub struct GroupRec {
    pub user_id: u128,
    pub client_id: u128,
    pub realm_id: u128,
    pub group_key: u128,
    pub is_default: bool,
    pub locked_at: Option<u64>,
}

/// One write to a group's default flag: a new group (`insert`) or an update
/// of the existing group `group_key`, requesting `is_default`.
#[derive(Clone, Copy, Debug, PartialEq, Eq, Structural)]
pub struct GroupWrite {
    pub user_id: u128,
    pub client_id: u128,
    pub realm_id: u128,
    pub group_key: u128,
    pub is_default: Option<bool>,
    pub insert: bool,
}

pub open spec fn in_pair(g: GroupRec, u: u128, c: u128) -> bool {
    g.user_id == u && g.client_id == c
}

pub open spec fn is_key(g: GroupRec, u: u128, c: u128, key: u128) -> bool {
    in_pair(g, u, c) && g.group_key == key
}

/// Number of groups of the pair.
pub open spec fn count_pair(gs: Seq<GroupRec>, u: u128, c: u128) -> nat
    decreases gs.len(),
{
    if gs.len() == 0 {
        0
    } else {
        (if in_pair(gs[0], u, c) {
            1nat
        } else {
            0nat
        }) + count_pair(gs.skip(1), u, c)
    }
}

/// Number of default groups of the pair.
pub open spec fn count_default(gs: Seq<GroupRec>, u: u128, c: u128) -> nat
    decreases gs.len(),
{
    if gs.len() == 0 {
        0
    } else {
        (if in_pair(gs[0], u, c) && gs[0].is_default {
            1nat
        } else {
            0nat
        }) + count_default(gs.skip(1), u, c)
    }
}

/// Number of default groups of the pair other than `key`.
pub open spec fn count_other_default(gs: Seq<GroupRec>, u: u128, c: u128, key: u128) -> nat
    decreases gs.len(),
{
    if gs.len() == 0 {
        0
    } else {
        (if in_pair(gs[0], u, c) && gs[0].is_default && gs[0].group_key != key {
            1nat
        } else {
            0nat
        }) + count_other_default(gs.skip(1), u, c, key)
    }
}

pub open spec fn has_group(gs: Seq<GroupRec>, u: u128, c: u128, key: u128) -> bool
    decreases gs.len(),
{
    if gs.len() == 0 {
        false
    } else {
        is_key(gs[0], u, c, key) || has_group(gs.skip(1), u, c, key)
    }
}

/// The default flag of the pair's group `key` (`false` if absent).
pub open spec fn group_is_default(gs: Seq<GroupRec>, u: u128, c: u128, key: u128) -> bool
    decreases gs.len(),
{
    if gs.len() == 0 {
        false
    } else if is_key(gs[0], u, c, key) {
        gs[0].is_default
    } else {
        group_is_default(gs.skip(1), u, c, key)
    }
}

/// No two rows share (user, client, group_key).
pub open spec fn unique_keys(gs: Seq<GroupRec>) -> bool {
    forall|i: int, j: int|
        #![trigger gs[i], gs[j]]
        0 <= i < j < gs.len() ==> !(gs[i].user_id == gs[j].user_id && gs[i].client_id
            == gs[j].client_id && gs[i].group_key == gs[j].group_key)
}

/// The default-group invariant for one pair: exactly one default group if
/// the pair has any group, none otherwise.
pub open spec fn i1_for(gs: Seq<GroupRec>, u: u128, c: u128) -> bool {
    count_default(gs, u, c) == if count_pair(gs, u, c) > 0 {
        1nat
    } else {
        0nat
    }
}

/// The default-group invariant for every pair.
pub open spec fn i1(gs: Seq<GroupRec>) -> bool {
    forall|u: u128, c: u128| #[trigger] i1_for(gs, u, c)
}

// ------------------------------------------------------------------
// the write table
// ------------------------------------------------------------------

pub open spec fn demote_one(g: GroupRec, u: u128, c: u128, key: u128) -> GroupRec {
    if in_pair(g, u, c) && g.group_key != key {
        GroupRec { is_default: false, ..g }
    } else {
        g
    }
}

pub open spec fn promote_one(g: GroupRec, u: u128, c: u128, key: u128) -> GroupRec {
    if is_key(g, u, c, key) {
        GroupRec { is_default: true, ..g }
    } else if in_pair(g, u, c) {
        GroupRec { is_default: false, ..g }
    } else {
        g
    }
}

pub open spec fn clear_one(g: GroupRec, u: u128, c: u128, key: u128) -> GroupRec {
    if is_key(g, u, c, key) {
        GroupRec { is_default: false, ..g }
    } else {
        g
    }
}

/// Demote every group of the pair except `key`.
pub open spec fn demote_others(gs: Seq<GroupRec>, u: u128, c: u128, key: u128) -> Seq<GroupRec> {
    gs.map_values(|g: GroupRec| demote_one(g, u, c, key))
}

/// Make `key` the pair's only default group.
pub open spec fn make_sole_default(gs: Seq<GroupRec>, u: u128, c: u128, key: u128) -> Seq<
    GroupRec,
> {
    gs.map_values(|g: GroupRec| promote_one(g, u, c, key))
}

/// Take the default flag away from `key`.
pub open spec fn clear_default(gs: Seq<GroupRec>, u: u128, c: u128, key: u128) -> Seq<GroupRec> {
    gs.map_values(|g: GroupRec| clear_one(g, u, c, key))
}

pub open spec fn new_group(w: GroupWrite, d: bool) -> GroupRec {
    GroupRec {
        user_id: w.user_id,
        client_id: w.client_id,
        realm_id: w.realm_id,
        group_key: w.group_key,
        is_default: d,
        locked_at: None,
    }
}

/// An insert writes a fresh key; an update writes an existing one.
pub open spec fn group_write_allowed(gs: Seq<GroupRec>, w: GroupWrite) -> bool {
    if w.insert {
        !has_group(gs, w.user_id, w.client_id, w.group_key)
    } else {
        has_group(gs, w.user_id, w.client_id, w.group_key)
    }
}

/// The decision table of the engine, as a function of the group set.
pub open spec fn apply_group_write_spec(gs: Seq<GroupRec>, w: GroupWrite) -> Result<
    Seq<GroupRec>,
    Error,
> {
    let u = w.user_id;
    let c = w.client_id;
    let key = w.group_key;
    if w.is_default == Some(true) {
        if w.insert {
            Ok(demote_others(gs, u, c, key).push(new_group(w, true)))
        } else {
            Ok(make_sole_default(gs, u, c, key))
        }
    } else if w.insert {
        Ok(gs.push(new_group(w, count_other_default(gs, u, c, key) == 0)))
    } else if count_other_default(gs, u, c, key) == 0 {
        if group_is_default(gs, u, c, key) {
            Err(Error::Conflict(ConflictError::CannotRemoveOnlyDefault))
        } else {
            Ok(clear_default(gs, u, c, key))
        }
    } else {
        Ok(clear_default(gs, u, c, key))
    }
}

// ------------------------------------------------------------------
// counting lemmas
// ------------------------------------------------------------------

pub proof fn lemma_has_group_iff(gs: Seq<GroupRec>, u: u128, c: u128, key: u128)
    ensures
        has_group(gs, u, c, key) <==> exists|i: int| 0 <= i < gs.len() && is_key(#[trigger] gs[i], u, c, key),
    decreases gs.len(),
{
    if gs.len() > 0 {
        lemma_has_group_iff(gs.skip(1), u, c, key);
        if is_key(gs[0], u, c, key) {
            assert(is_key(gs[0], u, c, key));
        } else if has_group(gs.skip(1), u, c, key) {
            let i = choose|i: int| 0 <= i < gs.skip(1).len() && is_key(#[trigger] gs.skip(1)[i], u, c, key);
            assert(gs[i + 1] == gs.skip(1)[i]);
        } else {
            assert forall|i: int| 0 <= i < gs.len() implies !is_key(#[trigger] gs[i], u, c, key) by {
                if i > 0 {
                    assert(gs.skip(1)[i - 1] == gs[i]);
                }
            }
        }
    }
}

proof fn lemma_unique_tail(gs: Seq<GroupRec>)
    requires
        gs.len() > 0,
        unique_keys(gs),
    ensures
        unique_keys(gs.skip(1)),
        !has_group(gs.skip(1), gs[0].user_id, gs[0].client_id, gs[0].group_key),
{
    let tail = gs.skip(1);
    assert forall|i: int, j: int|
        #![trigger tail[i], tail[j]]
        0 <= i < j < tail.len() implies !(tail[i].user_id == tail[j].user_id && tail[i].client_id
        == tail[j].client_id && tail[i].group_key == tail[j].group_key) by {
        assert(tail[i] == gs[i + 1]);
        assert(tail[j] == gs[j + 1]);
    }
    lemma_has_group_iff(tail, gs[0].user_id, gs[0].client_id, gs[0].group_key);
    if has_group(tail, gs[0].user_id, gs[0].client_id, gs[0].group_key) {
        let i = choose|i: int|
            0 <= i < tail.len() && is_key(
                #[trigger] tail[i],
                gs[0].user_id,
                gs[0].client_id,
                gs[0].group_key,
            );
        assert(tail[i] == gs[i + 1]);
    }
}

/// Counts after a push.
pub proof fn lemma_counts_push(gs: Seq<GroupRec>, g: GroupRec, u: u128, c: u128, key: u128)
    ensures
        count_pair(gs.push(g), u, c) == count_pair(gs, u, c) + (if in_pair(g, u, c) {
            1nat
        } else {
            0nat
        }),
        count_default(gs.push(g), u, c) == count_default(gs, u, c) + (if in_pair(g, u, c)
            && g.is_default {
            1nat
        } else {
            0nat
        }),
        has_group(gs.push(g), u, c, key) == (has_group(gs, u, c, key) || is_key(g, u, c, key)),
    decreases gs.len(),
{
    let p = gs.push(g);
    if gs.len() == 0 {
        assert(p[0] == g);
        assert(p.skip(1) =~= Seq::<GroupRec>::empty());
        assert(count_pair(p.skip(1), u, c) == 0);
        assert(count_default(p.skip(1), u, c) == 0);
        assert(count_pair(p, u, c) == (if in_pair(g, u, c) {
            1nat
        } else {
            0nat
        }) + count_pair(p.skip(1), u, c));
        assert(count_default(p, u, c) == (if in_pair(g, u, c) && g.is_default {
            1nat
        } else {
            0nat
        }) + count_default(p.skip(1), u, c));
        assert(has_group(p, u, c, key) == (is_key(g, u, c, key) || has_group(
            p.skip(1),
            u,
            c,
            key,
        )));
        assert(!has_group(p.skip(1), u, c, key));
        assert(!has_group(gs, u, c, key));
    } else {
        assert(p[0] == gs[0]);
        assert(p.skip(1) =~= gs.skip(1).push(g));
        lemma_counts_push(gs.skip(1), g, u, c, key);
        assert(count_pair(p, u, c) == (if in_pair(gs[0], u, c) {
            1nat
        } else {
            0nat
        }) + count_pair(p.skip(1), u, c));
        assert(count_default(p, u, c) == (if in_pair(gs[0], u, c) && gs[0].is_default {
            1nat
        } else {
            0nat
        }) + count_default(p.skip(1), u, c));
        assert(has_group(p, u, c, key) == (is_key(gs[0], u, c, key) || has_group(
            p.skip(1),
            u,
            c,
            key,
        )));
        assert(has_group(gs, u, c, key) == (is_key(gs[0], u, c, key) || has_group(
            gs.skip(1),
            u,
            c,
            key,
        )));
    }
}

/// A map that keeps ids and keys keeps the pair count and membership.
proof fn lemma_counts_map(
    gs: Seq<GroupRec>,
    f: spec_fn(GroupRec) -> GroupRec,
    u: u128,
    c: u128,
    key: u128,
)
    requires
        forall|g: GroupRec|
            (#[trigger] f(g)).user_id == g.user_id && f(g).client_id == g.client_id
                && f(g).group_key == g.group_key,
    ensures
        count_pair(gs.map_values(f), u, c) == count_pair(gs, u, c),
        has_group(gs.map_values(f), u, c, key) == has_group(gs, u, c, key),
        gs.map_values(f).len() == gs.len(),
    decreases gs.len(),
{
    if gs.len() > 0 {
        assert(gs.map_values(f)[0] == f(gs[0]));
        assert(gs.map_values(f).skip(1) =~= gs.skip(1).map_values(f));
        lemma_counts_map(gs.skip(1), f, u, c, key);
    }
}

/// A map that only touches the pair (u0, c0) keeps every other pair's counts.
proof fn lemma_count_default_map_offpair(
    gs: Seq<GroupRec>,
    f: spec_fn(GroupRec) -> GroupRec,
    u0: u128,
    c0: u128,
    u: u128,
    c: u128,
)
    requires
        u != u0 || c != c0,
        forall|g: GroupRec|
            (#[trigger] f(g)).user_id == g.user_id && f(g).client_id == g.client_id
                && f(g).group_key == g.group_key,
        forall|g: GroupRec| !in_pair(g, u0, c0) ==> #[trigger] f(g) == g,
    ensures
        count_default(gs.map_values(f), u, c) == count_default(gs, u, c),
    decreases gs.len(),
{
    if gs.len() > 0 {
        assert(gs.map_values(f)[0] == f(gs[0]));
        assert(gs.map_values(f).skip(1) =~= gs.skip(1).map_values(f));
        lemma_count_default_map_offpair(gs.skip(1), f, u0, c0, u, c);
        if in_pair(gs[0], u, c) {
            assert(!in_pair(gs[0], u0, c0));
            assert(f(gs[0]) == gs[0]);
        }
    }
}

/// With `key` absent, every other default is just a default.
proof fn lemma_other_default_absent(gs: Seq<GroupRec>, u: u128, c: u128, key: u128)
    requires
        !has_group(gs, u, c, key),
    ensures
        count_other_default(gs, u, c, key) == count_default(gs, u, c),
    decreases gs.len(),
{
    if gs.len() > 0 {
        lemma_other_default_absent(gs.skip(1), u, c, key);
    }
}

/// The pair's defaults split into the target's flag and the other defaults.
pub proof fn lemma_count_split(gs: Seq<GroupRec>, u: u128, c: u128, key: u128)
    requires
        unique_keys(gs),
    ensures
        count_default(gs, u, c) as int == count_other_default(gs, u, c, key) + (
        if group_is_default(gs, u, c, key) {
            1int
        } else {
            0int
        }),
    decreases gs.len(),
{
    if gs.len() > 0 {
        lemma_unique_tail(gs);
        if is_key(gs[0], u, c, key) {
            assert(!has_group(gs.skip(1), u, c, key));
            lemma_other_default_absent(gs.skip(1), u, c, key);
            lemma_group_is_default_absent(gs.skip(1), u, c, key);
        } else {
            lemma_count_split(gs.skip(1), u, c, key);
        }
    }
}

proof fn lemma_group_is_default_absent(gs: Seq<GroupRec>, u: u128, c: u128, key: u128)
    requires
        !has_group(gs, u, c, key),
    ensures
        !group_is_default(gs, u, c, key),
    decreases gs.len(),
{
    if gs.len() > 0 {
        lemma_group_is_default_absent(gs.skip(1), u, c, key);
    }
}

/// Promotion with `key` absent leaves no default in the pair.
proof fn lemma_promote_count_absent(gs: Seq<GroupRec>, u: u128, c: u128, key: u128)
    requires
        !has_group(gs, u, c, key),
    ensures
        count_default(make_sole_default(gs, u, c, key), u, c) == 0,
    decreases gs.len(),
{
    if gs.len() > 0 {
        assert(make_sole_default(gs, u, c, key)[0] == promote_one(gs[0], u, c, key));
        assert(make_sole_default(gs, u, c, key).skip(1) =~= make_sole_default(
            gs.skip(1),
            u,
            c,
            key,
        ));
        lemma_promote_count_absent(gs.skip(1), u, c, key);
    }
}

/// Promotion makes the pair's default count exactly one (when `key` exists).
pub proof fn lemma_promote_count(gs: Seq<GroupRec>, u: u128, c: u128, key: u128)
    requires
        unique_keys(gs),
    ensures
        count_default(make_sole_default(gs, u, c, key), u, c) == if has_group(gs, u, c, key) {
            1nat
        } else {
            0nat
        },
    decreases gs.len(),
{
    if gs.len() > 0 {
        assert(make_sole_default(gs, u, c, key)[0] == promote_one(gs[0], u, c, key));
        assert(make_sole_default(gs, u, c, key).skip(1) =~= make_sole_default(
            gs.skip(1),
            u,
            c,
            key,
        ));
        lemma_unique_tail(gs);
        if is_key(gs[0], u, c, key) {
            lemma_promote_count_absent(gs.skip(1), u, c, key);
        } else {
            lemma_promote_count(gs.skip(1), u, c, key);
        }
    }
}

/// Demotion with `key` absent clears every default of the pair.
pub proof fn lemma_demote_count_absent(gs: Seq<GroupRec>, u: u128, c: u128, key: u128)
    requires
        !has_group(gs, u, c, key),
    ensures
        count_default(demote_others(gs, u, c, key), u, c) == 0,
    decreases gs.len(),
{
    if gs.len() > 0 {
        assert(demote_others(gs, u, c, key)[0] == demote_one(gs[0], u, c, key));
        assert(demote_others(gs, u, c, key).skip(1) =~= demote_others(gs.skip(1), u, c, key));
        lemma_demote_count_absent(gs.skip(1), u, c, key);
    }
}

/// Clearing the target's flag lowers the pair's default count by its value.
pub proof fn lemma_clear_count(gs: Seq<GroupRec>, u: u128, c: u128, key: u128)
    requires
        unique_keys(gs),
    ensures
        count_default(clear_default(gs, u, c, key), u, c) as int == count_default(gs, u, c) - (
        if group_is_default(gs, u, c, key) {
            1int
        } else {
            0int
        }),
    decreases gs.len(),
{
    if gs.len() > 0 {
        assert(clear_default(gs, u, c, key)[0] == clear_one(gs[0], u, c, key));
        assert(clear_default(gs, u, c, key).skip(1) =~= clear_default(gs.skip(1), u, c, key));
        lemma_unique_tail(gs);
        if is_key(gs[0], u, c, key) {
            lemma_group_is_default_absent(gs.skip(1), u, c, key);
            lemma_clear_noop_absent(gs.skip(1), u, c, key);
        } else {
            lemma_clear_count(gs.skip(1), u, c, key);
        }
    }
}

proof fn lemma_clear_noop_absent(gs: Seq<GroupRec>, u: u128, c: u128, key: u128)
    requires
        !has_group(gs, u, c, key),
    ensures
        clear_default(gs, u, c, key) == gs,
{
    lemma_has_group_iff(gs, u, c, key);
    assert forall|i: int| 0 <= i < gs.len() implies clear_default(gs, u, c, key)[i] == gs[i] by {
        assert(!is_key(gs[i], u, c, key));
    }
    assert(clear_default(gs, u, c, key) =~= gs);
}

proof fn lemma_has_group_count_pair(gs: Seq<GroupRec>, u: u128, c: u128, key: u128)
    requires
        has_group(gs, u, c, key),
    ensures
        count_pair(gs, u, c) > 0,
    decreases gs.len(),
{
    if gs.len() > 0 && !is_key(gs[0], u, c, key) {
        lemma_has_group_count_pair(gs.skip(1), u, c, key);
    }
}

proof fn lemma_unique_map(gs: Seq<GroupRec>, f: spec_fn(GroupRec) -> GroupRec)
    requires
        unique_keys(gs),
        forall|g: GroupRec|
            (#[trigger] f(g)).user_id == g.user_id && f(g).client_id == g.client_id
                && f(g).group_key == g.group_key,
    ensures
        unique_keys(gs.map_values(f)),
{
    let m = gs.map_values(f);
    assert forall|i: int, j: int|
        #![trigger m[i], m[j]]
        0 <= i < j < m.len() implies !(m[i].user_id == m[j].user_id && m[i].client_id
        == m[j].client_id && m[i].group_key == m[j].group_key) by {
        assert(m[i] == f(gs[i]));
        assert(m[j] == f(gs[j]));
    }
}

proof fn lemma_unique_push(gs: Seq<GroupRec>, g: GroupRec)
    requires
        unique_keys(gs),
        !has_group(gs, g.user_id, g.client_id, g.group_key),
    ensures
        unique_keys(gs.push(g)),
{
    lemma_has_group_iff(gs, g.user_id, g.client_id, g.group_key);
    let p = gs.push(g);
    assert forall|i: int, j: int|
        #![trigger p[i], p[j]]
        0 <= i < j < p.len() implies !(p[i].user_id == p[j].user_id && p[i].client_id
        == p[j].client_id && p[i].group_key == p[j].group_key) by {
        if j < gs.len() {
            assert(p[i] == gs[i]);
            assert(p[j] == gs[j]);
        } else {
            assert(p[j] == g);
            assert(p[i] == gs[i]);
            assert(!is_key(gs[i], g.user_id, g.client_id, g.group_key));
        }
    }
}

/// A pair-default row forces a positive default count.
pub proof fn lemma_count_default_lower(gs: Seq<GroupRec>, u: u128, c: u128, k: int)
    requires
        0 <= k < gs.len(),
        in_pair(gs[k], u, c),
        gs[k].is_default,
    ensures
        count_default(gs, u, c) >= 1,
    decreases gs.len(),
{
    if k > 0 {
        assert(gs.skip(1)[k - 1] == gs[k]);
        lemma_count_default_lower(gs.skip(1), u, c, k - 1);
    }
}

/// Where the pair has at most one default, any two of its default rows
/// are the same row.
pub proof fn lemma_at_most_one_default(gs: Seq<GroupRec>, u: u128, c: u128, i: int, j: int)
    requires
        count_default(gs, u, c) <= 1,
        0 <= i < gs.len(),
        0 <= j < gs.len(),
        in_pair(gs[i], u, c),
        gs[i].is_default,
        in_pair(gs[j], u, c),
        gs[j].is_default,
    ensures
        i == j,
    decreases gs.len(),
{
    if i != j {
        if i == 0 {
            assert(gs.skip(1)[j - 1] == gs[j]);
            lemma_count_default_lower(gs.skip(1), u, c, j - 1);
            assert(false);
        } else if j == 0 {
            assert(gs.skip(1)[i - 1] == gs[i]);
            lemma_count_default_lower(gs.skip(1), u, c, i - 1);
            assert(false);
        } else {
            assert(gs.skip(1)[i - 1] == gs[i]);
            assert(gs.skip(1)[j - 1] == gs[j]);
            lemma_at_most_one_default(gs.skip(1), u, c, i - 1, j - 1);
        }
    }
}

// ------------------------------------------------------------------
// the invariant, preserved
// ------------------------------------------------------------------

/// One accepted write preserves the default-group invariant for every
/// (user, client) pair, and the uniqueness of group keys.
pub proof fn lemma_group_write_preserves_invariant(gs: Seq<GroupRec>, w: GroupWrite)
    requires
        i1(gs),
        unique_keys(gs),
        group_write_allowed(gs, w),
    ensures
        match apply_group_write_spec(gs, w) {
            Ok(gs2) => i1(gs2) && unique_keys(gs2),
            Err(_) => true,
        },
{
    let u = w.user_id;
    let c = w.client_id;
    let key = w.group_key;
    if w.is_default == Some(true) {
        if w.insert {
            let f = |g: GroupRec| demote_one(g, u, c, key);
            let demoted = demote_others(gs, u, c, key);
            let gs2 = demoted.push(new_group(w, true));
            lemma_demote_count_absent(gs, u, c, key);
            lemma_counts_map(gs, f, u, c, key);
            lemma_unique_map(gs, f);
            lemma_unique_push(demoted, new_group(w, true));
            assert forall|u2: u128, c2: u128| #[trigger] i1_for(gs2, u2, c2) by {
                lemma_counts_push(demoted, new_group(w, true), u2, c2, key);
                lemma_counts_map(gs, f, u2, c2, key);
                if u2 == u && c2 == c {
                } else {
                    lemma_count_default_map_offpair(gs, f, u, c, u2, c2);
                    assert(i1_for(gs, u2, c2));
                }
            }
        } else {
            let f = |g: GroupRec| promote_one(g, u, c, key);
            let gs2 = make_sole_default(gs, u, c, key);
            lemma_promote_count(gs, u, c, key);
            lemma_has_group_count_pair(gs, u, c, key);
            lemma_unique_map(gs, f);
            assert forall|u2: u128, c2: u128| #[trigger] i1_for(gs2, u2, c2) by {
                lemma_counts_map(gs, f, u2, c2, key);
                if u2 == u && c2 == c {
                } else {
                    lemma_count_default_map_offpair(gs, f, u, c, u2, c2);
                    assert(i1_for(gs, u2, c2));
                }
            }
        }
    } else if w.insert {
        let others = count_other_default(gs, u, c, key);
        let g = new_group(w, others == 0);
        let gs2 = gs.push(g);
        lemma_other_default_absent(gs, u, c, key);
        lemma_unique_push(gs, g);
        assert forall|u2: u128, c2: u128| #[trigger] i1_for(gs2, u2, c2) by {
            lemma_counts_push(gs, g, u2, c2, key);
            assert(i1_for(gs, u2, c2));
            if u2 == u && c2 == c {
                if others == 0 {
                    assert(count_default(gs, u, c) == 0);
                    assert(count_pair(gs, u, c) == 0);
                } else {
                    assert(count_default(gs, u, c) > 0);
                }
            }
        }
    } else {
        let others = count_other_default(gs, u, c, key);
        let isdef = group_is_default(gs, u, c, key);
        lemma_count_split(gs, u, c, key);
        lemma_has_group_count_pair(gs, u, c, key);
        assert(i1_for(gs, u, c));
        assert(count_default(gs, u, c) == 1);
        if others == 0 {
            if isdef {
                // rejected: nothing to show
            } else {
                // impossible under the invariant: the pair has a group but
                // no default at all
                assert(false);
            }
        } else {
            let f = |g: GroupRec| clear_one(g, u, c, key);
            let gs2 = clear_default(gs, u, c, key);
            lemma_clear_count(gs, u, c, key);
            assert(!isdef);
            lemma_unique_map(gs, f);
            assert forall|u2: u128, c2: u128| #[trigger] i1_for(gs2, u2, c2) by {
                lemma_counts_map(gs, f, u2, c2, key);
                if u2 == u && c2 == c {
                } else {
                    lemma_count_default_map_offpair(gs, f, u, c, u2, c2);
                    assert(i1_for(gs, u2, c2));
                }
            }
        }
    }
}

/// A sequence of writes, each applied to the result of the previous one
/// (a rejected write leaves the set unchanged).
pub open spec fn apply_group_writes(gs: Seq<GroupRec>, ws: Seq<GroupWrite>) -> Seq<GroupRec>
    decreases ws.len(),
{
    if ws.len() == 0 {
        gs
    } else {
        let next = match apply_group_write_spec(gs, ws[0]) {
            Ok(g2) => g2,
            Err(_) => gs,
        };
        apply_group_writes(next, ws.skip(1))
    }
}

/// Each write's `insert` flag is honest about the set it meets.
pub open spec fn writes_allowed(gs: Seq<GroupRec>, ws: Seq<GroupWrite>) -> bool
    decreases ws.len(),
{
    if ws.len() == 0 {
        true
    } else {
        group_write_allowed(gs, ws[0]) && {
            let next = match apply_group_write_spec(gs, ws[0]) {
                Ok(g2) => g2,
                Err(_) => gs,
            };
            writes_allowed(next, ws.skip(1))
        }
    }
}

/// For any sequence of create/update writes, the default-group invariant
/// holds after each step: every prefix of the sequence leaves a set in
/// which each (user, client) pair with at least one group has exactly one
/// default group, and a pair without groups has none.
pub proof fn lemma_default_invariant_sequence(gs: Seq<GroupRec>, ws: Seq<GroupWrite>)
    requires
        i1(gs),
        unique_keys(gs),
        writes_allowed(gs, ws),
    ensures
        i1(apply_group_writes(gs, ws)),
        unique_keys(apply_group_writes(gs, ws)),
    decreases ws.len(),
{
    if ws.len() > 0 {
        lemma_group_write_preserves_invariant(gs, ws[0]);
        let next = match apply_group_write_spec(gs, ws[0]) {
            Ok(g2) => g2,
            Err(_) => gs,
        };
        lemma_default_invariant_sequence(next, ws.skip(1));
    }
}

/// Asking the pair's sole default group to give up its flag is rejected
/// with `CannotRemoveOnlyDefault`. Under the invariant, any default group
/// is the sole default of its pair; the executable engine leaves the group
/// set untouched when it returns this error.
pub proof fn lemma_sole_default_rejected(gs: Seq<GroupRec>, w: GroupWrite)
    requires
        i1(gs),
        unique_keys(gs),
        !w.insert,
        has_group(gs, w.user_id, w.client_id, w.group_key),
        group_is_default(gs, w.user_id, w.client_id, w.group_key),
        w.is_default != Some(true),
    ensures
        apply_group_write_spec(gs, w) == Err::<Seq<GroupRec>, Error>(
            Error::Conflict(ConflictError::CannotRemoveOnlyDefault),
        ),
{
    let u = w.user_id;
    let c = w.client_id;
    let key = w.group_key;
    lemma_count_split(gs, u, c, key);
    lemma_has_group_count_pair(gs, u, c, key);
    assert(i1_for(gs, u, c));
    assert(count_default(gs, u, c) == 1);
    assert(count_other_default(gs, u, c, key) == 0);
}

// ------------------------------------------------------------------
// the executable engine
// ------------------------------------------------------------------

/// Count the pair's default groups other than `key`.
pub fn count_other_default_ex(groups: &Vec<GroupRec>, u: u128, c: u128, key: u128) -> (r: usize)
    ensures
        r == count_other_default(groups@, u, c, key),
{
    let mut cnt: usize = 0;
    let mut i: usize = 0;
    let n = groups.len();
    proof {
        assert(groups@.skip(0) =~= groups@);
    }
    while i < n
        invariant
            i <= n,
            n == groups@.len(),
            cnt <= i,
            cnt + count_other_default(groups@.skip(i as int), u, c, key) == count_other_default(
                groups@,
                u,
                c,
                key,
            ),
        decreases n - i,
    {
        let g = groups[i];
        proof {
            assert(groups@.skip(i as int)[0] == groups@[i as int]);
            assert(groups@.skip(i as int).skip(1) =~= groups@.skip(i as int + 1));
        }
        if g.user_id == u && g.client_id == c && g.is_default && g.group_key != key {
            cnt += 1;
        }
        i += 1;
    }
    proof {
        assert(groups@.skip(n as int) =~= Seq::<GroupRec>::empty());
    }
    cnt
}

/// Count the pair's default groups.
pub fn count_default_ex(groups: &Vec<GroupRec>, u: u128, c: u128) -> (r: usize)
    ensures
        r == count_default(groups@, u, c),
{
    let mut cnt: usize = 0;
    let mut i: usize = 0;
    let n = groups.len();
    proof {
        assert(groups@.skip(0) =~= groups@);
    }
    while i < n
        invariant
            i <= n,
            n == groups@.len(),
            cnt <= i,
            cnt + count_default(groups@.skip(i as int), u, c) == count_default(groups@, u, c),
        decreases n - i,
    {
        let g = groups[i];
        proof {
            assert(groups@.skip(i as int)[0] == groups@[i as int]);
            assert(groups@.skip(i as int).skip(1) =~= groups@.skip(i as int + 1));
        }
        if g.user_id == u && g.client_id == c && g.is_default {
            cnt += 1;
        }
        i += 1;
    }
    proof {
        assert(groups@.skip(n as int) =~= Seq::<GroupRec>::empty());
    }
    cnt
}

/// Count the pair's groups.
pub fn count_pair_ex(groups: &Vec<GroupRec>, u: u128, c: u128) -> (r: usize)
    ensures
        r == count_pair(groups@, u, c),
{
    let mut cnt: usize = 0;
    let mut i: usize = 0;
    let n = groups.len();
    proof {
        assert(groups@.skip(0) =~= groups@);
    }
    while i < n
        invariant
            i <= n,
            n == groups@.len(),
            cnt <= i,
            cnt + count_pair(groups@.skip(i as int), u, c) == count_pair(groups@, u, c),
        decreases n - i,
    {
        let g = groups[i];
        proof {
            assert(groups@.skip(i as int)[0] == groups@[i as int]);
            assert(groups@.skip(i as int).skip(1) =~= groups@.skip(i as int + 1));
        }
        if g.user_id == u && g.client_id == c {
            cnt += 1;
        }
        i += 1;
    }
    proof {
        assert(groups@.skip(n as int) =~= Seq::<GroupRec>::empty());
    }
    cnt
}

/// Does the pair have a group `key`?
pub fn has_group_ex(groups: &Vec<GroupRec>, u: u128, c: u128, key: u128) -> (r: bool)
    ensures
        r == has_group(groups@, u, c, key),
{
    let mut i: usize = 0;
    let n = groups.len();
    proof {
        assert(groups@.skip(0) =~= groups@);
    }
    while i < n
        invariant
            i <= n,
            n == groups@.len(),
            has_group(groups@, u, c, key) == has_group(groups@.skip(i as int), u, c, key),
        decreases n - i,
    {
        let g = groups[i];
        proof {
            assert(groups@.skip(i as int)[0] == groups@[i as int]);
            assert(groups@.skip(i as int).skip(1) =~= groups@.skip(i as int + 1));
        }
        if g.user_id == u && g.client_id == c && g.group_key == key {
            return true;
        }
        i += 1;
    }
    proof {
        assert(groups@.skip(n as int) =~= Seq::<GroupRec>::empty());
    }
    false
}

/// The default flag of the pair's group `key` (`false` if absent).
pub fn group_is_default_ex(groups: &Vec<GroupRec>, u: u128, c: u128, key: u128) -> (r: bool)
    ensures
        r == group_is_default(groups@, u, c, key),
{
    let mut i: usize = 0;
    let n = groups.len();
    proof {
        assert(groups@.skip(0) =~= groups@);
    }
    while i < n
        invariant
            i <= n,
            n == groups@.len(),
            group_is_default(groups@, u, c, key) == group_is_default(
                groups@.skip(i as int),
                u,
                c,
                key,
            ),
        decreases n - i,
    {
        let g = groups[i];
        proof {
            assert(groups@.skip(i as int)[0] == groups@[i as int]);
            assert(groups@.skip(i as int).skip(1) =~= groups@.skip(i as int + 1));
        }
        if g.user_id == u && g.client_id == c && g.group_key == key {
            return g.is_default;
        }
        i += 1;
    }
    proof {
        assert(groups@.skip(n as int) =~= Seq::<GroupRec>::empty());
    }
    false
}

fn map_in_place(groups: &mut Vec<GroupRec>, u: u128, c: u128, key: u128, promote: bool)
    ensures
        final(groups)@ == if promote {
            make_sole_default(old(groups)@, u, c, key)
        } else {
            demote_others(old(groups)@, u, c, key)
        },
{
    let n = groups.len();
    let mut i: usize = 0;
    while i < n
        invariant
            i <= n,
            n == groups@.len(),
            groups@.len() == old(groups)@.len(),
            forall|j: int|
                i <= j < n ==> groups@[j] == old(groups)@[j],
            forall|j: int|
                0 <= j < i ==> groups@[j] == (if promote {
                    promote_one(old(groups)@[j], u, c, key)
                } else {
                    demote_one(old(groups)@[j], u, c, key)
                }),
        decreases n - i,
    {
        let g = groups[i];
        if g.user_id == u && g.client_id == c {
            if g.group_key == key {
                if promote {
                    let mut g2 = g;
                    g2.is_default = true;
                    groups.set(i, g2);
                }
            } else {
                let mut g2 = g;
                g2.is_default = false;
                groups.set(i, g2);
            }
        }
        i += 1;
    }
    proof {
        if promote {
            assert(groups@ =~= make_sole_default(old(groups)@, u, c, key));
        } else {
            assert(groups@ =~= demote_others(old(groups)@, u, c, key));
        }
    }
}

fn clear_default_ex(groups: &mut Vec<GroupRec>, u: u128, c: u128, key: u128)
    ensures
        final(groups)@ == clear_default(old(groups)@, u, c, key),
{
    let n = groups.len();
    let mut i: usize = 0;
    while i < n
        invariant
            i <= n,
            n == groups@.len(),
            groups@.len() == old(groups)@.len(),
            forall|j: int|
                i <= j < n ==> groups@[j] == old(groups)@[j],
            forall|j: int|
                0 <= j < i ==> groups@[j] == clear_one(old(groups)@[j], u, c, key),
        decreases n - i,
    {
        let g = groups[i];
        if g.user_id == u && g.client_id == c && g.group_key == key {
            let mut g2 = g;
            g2.is_default = false;
            groups.set(i, g2);
        }
        i += 1;
    }
    proof {
        assert(groups@ =~= clear_default(old(groups)@, u, c, key));
    }
}

/// Apply one default-flag write to the group set, restoring the invariant.
///
/// The outcome is exactly the decision table `apply_group_write_spec`; a
/// rejected write leaves the set untouched.
pub fn apply_group_write(groups: &mut Vec<GroupRec>, w: &GroupWrite) -> (r: Result<(), Error>)
    requires
        group_write_allowed(old(groups)@, *w),
    ensures
        match apply_group_write_spec(old(groups)@, *w) {
            Ok(gs2) => r is Ok && final(groups)@ == gs2,
            Err(e) => r == Err::<(), Error>(e) && final(groups)@ == old(groups)@,
        },
{
    let req_true = match w.is_default {
        Some(true) => true,
        _ => false,
    };
    if req_true {
        if w.insert {
            map_in_place(groups, w.user_id, w.client_id, w.group_key, false);
            groups.push(
                GroupRec {
                    user_id: w.user_id,
                    client_id: w.client_id,
                    realm_id: w.realm_id,
                    group_key: w.group_key,
                    is_default: true,
                    locked_at: None,
                },
            );
        } else {
            map_in_place(groups, w.user_id, w.client_id, w.group_key, true);
        }
        Ok(())
    } else {
        let others = count_other_default_ex(groups, w.user_id, w.client_id, w.group_key);
        if w.insert {
            groups.push(
                GroupRec {
                    user_id: w.user_id,
                    client_id: w.client_id,
                    realm_id: w.realm_id,
                    group_key: w.group_key,
                    is_default: others == 0,
                    locked_at: None,
                },
            );
            Ok(())
        } else if others == 0 {
            if group_is_default_ex(groups, w.user_id, w.client_id, w.group_key) {
                Err(Error::Conflict(ConflictError::CannotRemoveOnlyDefault))
            } else {
                clear_default_ex(groups, w.user_id, w.client_id, w.group_key);
                Ok(())
            }
        } else {
            clear_default_ex(groups, w.user_id, w.client_id, w.group_key);
            Ok(())
        }
    }
}

} // verus!
