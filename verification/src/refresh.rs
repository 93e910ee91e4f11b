//! Refresh-token rotation with bounded reuse.
//!
//! A refresh token may be presented again up to the client's configured
//! reuse limit: below the limit the same token id is kept and its reuse
//! count grows by one; at or above the limit the token is deleted and a
//! brand-new id with a zero count replaces it, so the old id can no longer
//! be presented.

use vstd::pervasive::VecAdditionalExecFns;
use vstd::prelude::*;

verus! {

/// A refresh-token row.
#[derive(Clone, Copy, Debug, PartialEq, Eq, Structural)]
pub struct RefreshTokenRec {
    pub id: u128,
    pub user_id: u128,
    pub client_id: Option<u128>,
    pub realm_id: u128,
    pub re_used_count: u32,
    pub locked_at: Option<u64>,
}

/// The rotation rule: rotate to a fresh id at the limit, else count the
/// reuse and keep the id.
pub open spec fn spec_rotate(t: RefreshTokenRec, reuse_limit: u32, fresh_id: u128) -> RefreshTokenRec {
    if t.re_used_count >= reuse_limit {
        RefreshTokenRec {
            id: fresh_id,
            user_id: t.user_id,
            client_id: t.client_id,
            realm_id: t.realm_id,
            re_used_count: 0,
            locked_at: None,
        }
    } else {
        RefreshTokenRec { re_used_count: (t.re_used_count + 1) as u32, ..t }
    }
}

/// Is a token with this id retrievable?
pub open spec fn has_token(ts: Seq<RefreshTokenRec>, id: u128) -> bool {
    exists|i: int| 0 <= i < ts.len() && (#[trigger] ts[i]).id == id
}

/// No two rows share an id.
pub open spec fn unique_token_ids(ts: Seq<RefreshTokenRec>) -> bool {
    forall|i: int, j: int|
        #![trigger ts[i], ts[j]]
        0 <= i < j < ts.len() ==> ts[i].id != ts[j].id
}

/// Find the row with this id.
pub fn find_token(tokens: &Vec<RefreshTokenRec>, id: u128) -> (r: Option<usize>)
    ensures
        match r {
            Some(idx) => idx < tokens@.len() && tokens@[idx as int].id == id,
            None => !has_token(tokens@, id),
        },
{
    let mut i: usize = 0;
    let n = tokens.len();
    while i < n
        invariant
            i <= n,
            n == tokens@.len(),
            forall|j: int| 0 <= j < i ==> (#[trigger] tokens@[j]).id != id,
        decreases n - i,
    {
        if tokens[i].id == id {
            return Some(i);
        }
        i += 1;
    }
    None
}

/// Rotate the token at `idx` on a refresh request.
///
/// Below the reuse limit the row keeps its id and its count grows by one;
/// at the limit the row is deleted and a fresh id with count zero takes
/// its place, after which the old id is no longer retrievable.
pub fn rotate_refresh_token(
    tokens: &mut Vec<RefreshTokenRec>,
    idx: usize,
    reuse_limit: u32,
    fresh_id: u128,
) -> (r: RefreshTokenRec)
    requires
        idx < old(tokens)@.len(),
        unique_token_ids(old(tokens)@),
        !has_token(old(tokens)@, fresh_id),
    ensures
        r == spec_rotate(old(tokens)@[idx as int], reuse_limit, fresh_id),
        ({
            let t = old(tokens)@[idx as int];
            if t.re_used_count >= reuse_limit {
                &&& r.id == fresh_id
                &&& r.re_used_count == 0
                &&& final(tokens)@ == old(tokens)@.remove(idx as int).push(r)
                &&& (fresh_id != t.id ==> !has_token(final(tokens)@, t.id))
                &&& has_token(final(tokens)@, fresh_id)
            } else {
                &&& r.id == t.id
                &&& r.re_used_count == t.re_used_count + 1
                &&& final(tokens)@ == old(tokens)@.update(idx as int, r)
                &&& has_token(final(tokens)@, t.id)
            }
        }),
        unique_token_ids(final(tokens)@),
{
    let t = tokens[idx];
    if t.re_used_count >= reuse_limit {
        let fresh = RefreshTokenRec {
            id: fresh_id,
            user_id: t.user_id,
            client_id: t.client_id,
            realm_id: t.realm_id,
            re_used_count: 0,
            locked_at: None,
        };
        tokens.remove(idx);
        tokens.push(fresh);
        proof {
            let orig = old(tokens)@;
            let now_ = tokens@;
            assert(now_.len() == orig.len());
            assert(now_[now_.len() - 1] == fresh);
            assert(has_token(now_, fresh_id));
            if fresh_id != t.id {
                assert forall|k: int| 0 <= k < now_.len() implies (#[trigger] now_[k]).id
                    != t.id by {
                    if k < now_.len() - 1 {
                        if k < idx {
                            assert(now_[k] == orig[k]);
                        } else {
                            assert(now_[k] == orig[k + 1]);
                        }
                    }
                }
            }
            assert forall|i: int, j: int|
                #![trigger now_[i], now_[j]]
                0 <= i < j < now_.len() implies now_[i].id != now_[j].id by {
                if j < now_.len() - 1 {
                    if i < idx && j < idx {
                    } else if i < idx {
                        assert(now_[j] == orig[j + 1]);
                    } else {
                        assert(now_[i] == orig[i + 1]);
                        assert(now_[j] == orig[j + 1]);
                    }
                } else {
                    assert(now_[j] == fresh);
                    if i < idx {
                        assert(now_[i] == orig[i]);
                    } else {
                        assert(now_[i] == orig[i + 1]);
                    }
                }
            }
        }
        fresh
    } else {
        let bumped = RefreshTokenRec { re_used_count: t.re_used_count + 1, ..t };
        tokens.set(idx, bumped);
        proof {
            let now_ = tokens@;
            assert(now_[idx as int] == bumped);
            assert(has_token(now_, t.id));
            assert forall|i: int, j: int|
                #![trigger now_[i], now_[j]]
                0 <= i < j < now_.len() implies now_[i].id != now_[j].id by {
                assert(old(tokens)@[i].id != old(tokens)@[j].id);
            }
        }
        bumped
    }
}

/// Remove the token `id` (revocation); says whether a row went away.
pub fn delete_refresh_token(tokens: &mut Vec<RefreshTokenRec>, id: u128) -> (r: bool)
    requires
        unique_token_ids(old(tokens)@),
    ensures
        r == has_token(old(tokens)@, id),
        !has_token(final(tokens)@, id),
        unique_token_ids(final(tokens)@),
{
    match find_token(tokens, id) {
        None => false,
        Some(idx) => {
            tokens.remove(idx);
            proof {
                let orig = old(tokens)@;
                let now_ = tokens@;
                assert forall|k: int| 0 <= k < now_.len() implies (#[trigger] now_[k]).id
                    != id by {
                    if k < idx {
                        assert(now_[k] == orig[k]);
                    } else {
                        assert(now_[k] == orig[k + 1]);
                    }
                }
                assert forall|i: int, j: int|
                    #![trigger now_[i], now_[j]]
                    0 <= i < j < now_.len() implies now_[i].id != now_[j].id by {
                    if i < idx && j < idx {
                    } else if i < idx {
                        assert(now_[j] == orig[j + 1]);
                    } else {
                        assert(now_[i] == orig[i + 1]);
                        assert(now_[j] == orig[j + 1]);
                    }
                }
            }
            true
        },
    }
}

} // verus!
