//! Session records and the admission ceiling.
//!
//! A session is live while its expiry lies in the future; expired rows are
//! ignored by every read. Admission counts the pair's live sessions and
//! refuses a new one once the client's ceiling is reached; the count and
//! the insert belong to one transaction, so the sequential model here is
//! the whole story.

use vstd::prelude::*;

use crate::errors::{AuthenticateError, Error};

verus! {

/// Request metadata denormalized into the session row.
pub struct SessionMeta {
    pub ip_address: Vec<u8>,
    pub user_agent: Vec<u8>,
    pub browser: Vec<u8>,
    pub browser_version: Vec<u8>,
    pub operating_system: Vec<u8>,
    pub device_type: Vec<u8>,
    pub country_code: Vec<u8>,
}

/// A live login.
pub struct SessionRec {
    pub id: u128,
    pub user_id: u128,
    pub client_id: u128,
    pub refresh_token_id: Option<u128>,
    pub expires: u64,
    pub meta: SessionMeta,
}

/// A session counts for the pair while it has not expired.
pub open spec fn session_active(s: SessionRec, u: u128, c: u128, now: u64) -> bool {
    s.user_id == u && s.client_id == c && s.expires > now
}

/// Number of live sessions of the pair.
pub open spec fn count_active(ss: Seq<SessionRec>, u: u128, c: u128, now: u64) -> nat
    decreases ss.len(),
{
    if ss.len() == 0 {
        0
    } else {
        (if session_active(ss[0], u, c, now) {
            1nat
        } else {
            0nat
        }) + count_active(ss.skip(1), u, c, now)
    }
}

/// The admission decision: below the ceiling, or not.
pub open spec fn spec_admit(ss: Seq<SessionRec>, u: u128, c: u128, max: u32, now: u64) -> bool {
    count_active(ss, u, c, now) < max as nat
}

pub proof fn lemma_count_active_push(ss: Seq<SessionRec>, s: SessionRec, u: u128, c: u128, now: u64)
    ensures
        count_active(ss.push(s), u, c, now) == count_active(ss, u, c, now) + (if session_active(
            s,
            u,
            c,
            now,
        ) {
            1nat
        } else {
            0nat
        }),
    decreases ss.len(),
{
    let p = ss.push(s);
    if ss.len() == 0 {
        assert(p[0] == s);
        assert(p.skip(1) =~= Seq::<SessionRec>::empty());
        assert(count_active(p, u, c, now) == (if session_active(s, u, c, now) {
            1nat
        } else {
            0nat
        }) + count_active(p.skip(1), u, c, now));
    } else {
        assert(p[0] == ss[0]);
        assert(p.skip(1) =~= ss.skip(1).push(s));
        lemma_count_active_push(ss.skip(1), s, u, c, now);
        assert(count_active(p, u, c, now) == (if session_active(ss[0], u, c, now) {
            1nat
        } else {
            0nat
        }) + count_active(p.skip(1), u, c, now));
        assert(count_active(ss, u, c, now) == (if session_active(ss[0], u, c, now) {
            1nat
        } else {
            0nat
        }) + count_active(ss.skip(1), u, c, now));
    }
}

/// Count the pair's live sessions.
pub fn count_active_ex(sessions: &Vec<SessionRec>, u: u128, c: u128, now: u64) -> (r: usize)
    ensures
        r == count_active(sessions@, u, c, now),
{
    let mut cnt: usize = 0;
    let mut i: usize = 0;
    let n = sessions.len();
    proof {
        assert(sessions@.skip(0) =~= sessions@);
    }
    while i < n
        invariant
            i <= n,
            n == sessions@.len(),
            cnt <= i,
            cnt + count_active(sessions@.skip(i as int), u, c, now) == count_active(
                sessions@,
                u,
                c,
                now,
            ),
        decreases n - i,
    {
        let s = &sessions[i];
        proof {
            assert(sessions@.skip(i as int)[0] == sessions@[i as int]);
            assert(sessions@.skip(i as int).skip(1) =~= sessions@.skip(i as int + 1));
        }
        if s.user_id == u && s.client_id == c && s.expires > now {
            cnt += 1;
        }
        i += 1;
    }
    proof {
        assert(sessions@.skip(n as int) =~= Seq::<SessionRec>::empty());
    }
    cnt
}

/// The session row a successful admission inserts.
pub open spec fn new_session(
    id: u128,
    u: u128,
    c: u128,
    refresh_token_id: Option<u128>,
    expires: u64,
    meta: SessionMeta,
) -> SessionRec {
    SessionRec { id, user_id: u, client_id: c, refresh_token_id, expires, meta }
}

/// Admit and insert a session for the pair, or refuse it at the ceiling.
///
/// Success is owed exactly when the pair's live-session count is below the
/// client's ceiling; the new row expires `lifetime` seconds from `now`.
pub fn admit_and_create_session(
    sessions: &mut Vec<SessionRec>,
    user_id: u128,
    client_id: u128,
    max: u32,
    now: u64,
    lifetime: u32,
    id: u128,
    refresh_token_id: Option<u128>,
    meta: SessionMeta,
) -> (r: Result<u64, Error>)
    requires
        now + lifetime <= u64::MAX,
    ensures
        match r {
            Ok(expires) => {
                &&& spec_admit(old(sessions)@, user_id, client_id, max, now)
                &&& expires == now + lifetime
                &&& final(sessions)@ == old(sessions)@.push(
                    new_session(id, user_id, client_id, refresh_token_id, expires, meta),
                )
            },
            Err(e) => {
                &&& !spec_admit(old(sessions)@, user_id, client_id, max, now)
                &&& e == Error::Authenticate(AuthenticateError::MaxConcurrentSessions)
                &&& final(sessions)@ == old(sessions)@
            },
        },
{
    let live = count_active_ex(sessions, user_id, client_id, now);
    if live >= max as usize {
        return Err(Error::Authenticate(AuthenticateError::MaxConcurrentSessions));
    }
    let expires = now + lifetime as u64;
    sessions.push(
        SessionRec { id, user_id, client_id, refresh_token_id, expires, meta },
    );
    Ok(expires)
}

// ------------------------------------------------------------------
// the admission ceiling over a burst of logins
// ------------------------------------------------------------------

/// A burst of login attempts for one pair, admitted one after another as
/// the storage transaction serializes them: the resulting store and the
/// number of attempts that were admitted.
pub open spec fn run_login_attempts(
    ss: Seq<SessionRec>,
    ids: Seq<u128>,
    u: u128,
    c: u128,
    max: u32,
    now: u64,
    lifetime: u32,
    meta: SessionMeta,
) -> (Seq<SessionRec>, nat)
    decreases ids.len(),
{
    if ids.len() == 0 {
        (ss, 0)
    } else if spec_admit(ss, u, c, max, now) {
        let ss2 = ss.push(new_session(ids[0], u, c, None, (now + lifetime) as u64, meta));
        let rest = run_login_attempts(ss2, ids.skip(1), u, c, max, now, lifetime, meta);
        (rest.0, rest.1 + 1)
    } else {
        run_login_attempts(ss, ids.skip(1), u, c, max, now, lifetime, meta)
    }
}

proof fn lemma_run_login_attempts(
    ss: Seq<SessionRec>,
    ids: Seq<u128>,
    u: u128,
    c: u128,
    max: u32,
    now: u64,
    lifetime: u32,
    meta: SessionMeta,
)
    requires
        lifetime > 0,
        now + lifetime <= u64::MAX,
    ensures
        ({
            let k = count_active(ss, u, c, now) as int;
            let s = run_login_attempts(ss, ids, u, c, max, now, lifetime, meta).1 as int;
            s == if k >= max {
                0int
            } else if ids.len() <= max - k {
                ids.len() as int
            } else {
                max - k
            }
        }),
    decreases ids.len(),
{
    if ids.len() > 0 {
        if spec_admit(ss, u, c, max, now) {
            let s2 = new_session(ids[0], u, c, None, (now + lifetime) as u64, meta);
            let ss2 = ss.push(s2);
            lemma_count_active_push(ss, s2, u, c, now);
            assert(session_active(s2, u, c, now));
            lemma_run_login_attempts(ss2, ids.skip(1), u, c, max, now, lifetime, meta);
        } else {
            lemma_run_login_attempts(ss, ids.skip(1), u, c, max, now, lifetime, meta);
        }
    }
}

/// The concurrency ceiling: out of `n` login attempts for a client whose
/// ceiling is `max`, starting with no session for the pair, exactly
/// `min(n, max)` are admitted — the rest are turned away, and the
/// executable admission returns `MaxConcurrentSessions` for each of those.
pub proof fn lemma_admission_ceiling(
    ids: Seq<u128>,
    u: u128,
    c: u128,
    max: u32,
    now: u64,
    lifetime: u32,
    meta: SessionMeta,
)
    requires
        lifetime > 0,
        now + lifetime <= u64::MAX,
    ensures
        ({
            let s = run_login_attempts(
                Seq::empty(),
                ids,
                u,
                c,
                max,
                now,
                lifetime,
                meta,
            ).1 as int;
            s == if ids.len() <= max as int {
                ids.len() as int
            } else {
                max as int
            }
        }),
{
    lemma_run_login_attempts(Seq::empty(), ids, u, c, max, now, lifetime, meta);
}

// ------------------------------------------------------------------
// logout
// ------------------------------------------------------------------

/// The store without the session `id`.
pub open spec fn remove_by_id(ss: Seq<SessionRec>, id: u128) -> Seq<SessionRec>
    decreases ss.len(),
{
    if ss.len() == 0 {
        Seq::empty()
    } else if ss[0].id == id {
        remove_by_id(ss.skip(1), id)
    } else {
        seq![ss[0]] + remove_by_id(ss.skip(1), id)
    }
}

/// Number of sessions with this id.
pub open spec fn count_by_id(ss: Seq<SessionRec>, id: u128) -> nat
    decreases ss.len(),
{
    if ss.len() == 0 {
        0
    } else {
        (if ss[0].id == id {
            1nat
        } else {
            0nat
        }) + count_by_id(ss.skip(1), id)
    }
}

/// The store without any session of the pair.
pub open spec fn remove_by_pair(ss: Seq<SessionRec>, u: u128, c: u128) -> Seq<SessionRec>
    decreases ss.len(),
{
    if ss.len() == 0 {
        Seq::empty()
    } else if ss[0].user_id == u && ss[0].client_id == c {
        remove_by_pair(ss.skip(1), u, c)
    } else {
        seq![ss[0]] + remove_by_pair(ss.skip(1), u, c)
    }
}

/// Number of sessions of the pair, live or not.
pub open spec fn count_by_pair(ss: Seq<SessionRec>, u: u128, c: u128) -> nat
    decreases ss.len(),
{
    if ss.len() == 0 {
        0
    } else {
        (if ss[0].user_id == u && ss[0].client_id == c {
            1nat
        } else {
            0nat
        }) + count_by_pair(ss.skip(1), u, c)
    }
}

proof fn lemma_remove_id_push(ss: Seq<SessionRec>, x: SessionRec, id: u128)
    ensures
        remove_by_id(ss.push(x), id) == remove_by_id(ss, id) + (if x.id == id {
            Seq::<SessionRec>::empty()
        } else {
            seq![x]
        }),
        count_by_id(ss.push(x), id) == count_by_id(ss, id) + (if x.id == id {
            1nat
        } else {
            0nat
        }),
    decreases ss.len(),
{
    let p = ss.push(x);
    if ss.len() == 0 {
        assert(p[0] == x);
        assert(p.skip(1) =~= Seq::<SessionRec>::empty());
        assert(remove_by_id(Seq::<SessionRec>::empty(), id) == Seq::<SessionRec>::empty());
        assert(count_by_id(Seq::<SessionRec>::empty(), id) == 0);
        if x.id != id {
            assert(remove_by_id(p, id) =~= remove_by_id(ss, id) + seq![x]);
        } else {
            assert(remove_by_id(p, id) =~= remove_by_id(ss, id));
        }
    } else {
        assert(p[0] == ss[0]);
        assert(p.skip(1) =~= ss.skip(1).push(x));
        lemma_remove_id_push(ss.skip(1), x, id);
        if ss[0].id != id {
            assert(remove_by_id(p, id) =~= seq![ss[0]] + remove_by_id(ss.skip(1).push(x), id));
            if x.id != id {
                assert(seq![ss[0]] + (remove_by_id(ss.skip(1), id) + seq![x]) =~= (seq![ss[0]]
                    + remove_by_id(ss.skip(1), id)) + seq![x]);
            }
        }
    }
}

proof fn lemma_remove_pair_push(ss: Seq<SessionRec>, x: SessionRec, u: u128, c: u128)
    ensures
        remove_by_pair(ss.push(x), u, c) == remove_by_pair(ss, u, c) + (if x.user_id == u
            && x.client_id == c {
            Seq::<SessionRec>::empty()
        } else {
            seq![x]
        }),
        count_by_pair(ss.push(x), u, c) == count_by_pair(ss, u, c) + (if x.user_id == u
            && x.client_id == c {
            1nat
        } else {
            0nat
        }),
    decreases ss.len(),
{
    let p = ss.push(x);
    if ss.len() == 0 {
        assert(p[0] == x);
        assert(p.skip(1) =~= Seq::<SessionRec>::empty());
        assert(remove_by_pair(Seq::<SessionRec>::empty(), u, c) == Seq::<SessionRec>::empty());
        assert(count_by_pair(Seq::<SessionRec>::empty(), u, c) == 0);
        if !(x.user_id == u && x.client_id == c) {
            assert(remove_by_pair(p, u, c) =~= remove_by_pair(ss, u, c) + seq![x]);
        } else {
            assert(remove_by_pair(p, u, c) =~= remove_by_pair(ss, u, c));
        }
    } else {
        assert(p[0] == ss[0]);
        assert(p.skip(1) =~= ss.skip(1).push(x));
        lemma_remove_pair_push(ss.skip(1), x, u, c);
        if !(ss[0].user_id == u && ss[0].client_id == c) {
            assert(remove_by_pair(p, u, c) =~= seq![ss[0]] + remove_by_pair(
                ss.skip(1).push(x),
                u,
                c,
            ));
            if !(x.user_id == u && x.client_id == c) {
                assert(seq![ss[0]] + (remove_by_pair(ss.skip(1), u, c) + seq![x]) =~= (seq![ss[0]]
                    + remove_by_pair(ss.skip(1), u, c)) + seq![x]);
            }
        }
    }
}

/// Delete the session `id`; the number of rows that went away.
pub fn delete_session(sessions: &mut Vec<SessionRec>, id: u128) -> (r: usize)
    ensures
        final(sessions)@ == remove_by_id(old(sessions)@, id),
        r == count_by_id(old(sessions)@, id),
{
    let mut i: usize = 0;
    let mut removed: usize = 0;
    let n0 = sessions.len();
    let ghost orig = old(sessions)@;
    let ghost mut j: int = 0;
    proof {
        assert(orig.take(0) =~= Seq::<SessionRec>::empty());
        assert(orig.skip(0) =~= orig);
    }
    while i < sessions.len()
        invariant
            0 <= j <= orig.len(),
            n0 == orig.len(),
            orig == old(sessions)@,
            sessions@ == remove_by_id(orig.take(j), id) + orig.skip(j),
            i as int == remove_by_id(orig.take(j), id).len(),
            removed as int == count_by_id(orig.take(j), id),
            removed <= j,
        decreases sessions@.len() - i,
    {
        proof {
            assert(orig.skip(j).len() > 0);
            assert(sessions@[i as int] == orig.skip(j)[0]);
            assert(orig.skip(j)[0] == orig[j]);
            assert(orig.take(j + 1) =~= orig.take(j).push(orig[j]));
            lemma_remove_id_push(orig.take(j), orig[j], id);
        }
        let matches_id = sessions[i].id == id;
        if matches_id {
            sessions.remove(i);
            removed += 1;
            proof {
                assert(sessions@ =~= remove_by_id(orig.take(j + 1), id) + orig.skip(j + 1));
                j = j + 1;
            }
        } else {
            i += 1;
            proof {
                assert(sessions@ =~= remove_by_id(orig.take(j + 1), id) + orig.skip(j + 1));
                j = j + 1;
            }
        }
    }
    proof {
        assert(orig.skip(j).len() == 0);
        assert(j == orig.len());
        assert(orig.take(j) =~= orig);
    }
    removed
}

/// Delete every session of the pair; the number of rows that went away.
pub fn delete_sessions_by_pair(sessions: &mut Vec<SessionRec>, u: u128, c: u128) -> (r: usize)
    ensures
        final(sessions)@ == remove_by_pair(old(sessions)@, u, c),
        r == count_by_pair(old(sessions)@, u, c),
{
    let mut i: usize = 0;
    let mut removed: usize = 0;
    let n0 = sessions.len();
    let ghost orig = old(sessions)@;
    let ghost mut j: int = 0;
    proof {
        assert(orig.take(0) =~= Seq::<SessionRec>::empty());
        assert(orig.skip(0) =~= orig);
    }
    while i < sessions.len()
        invariant
            0 <= j <= orig.len(),
            n0 == orig.len(),
            orig == old(sessions)@,
            sessions@ == remove_by_pair(orig.take(j), u, c) + orig.skip(j),
            i as int == remove_by_pair(orig.take(j), u, c).len(),
            removed as int == count_by_pair(orig.take(j), u, c),
            removed <= j,
        decreases sessions@.len() - i,
    {
        proof {
            assert(orig.skip(j).len() > 0);
            assert(sessions@[i as int] == orig.skip(j)[0]);
            assert(orig.skip(j)[0] == orig[j]);
            assert(orig.take(j + 1) =~= orig.take(j).push(orig[j]));
            lemma_remove_pair_push(orig.take(j), orig[j], u, c);
        }
        let matches_pair = sessions[i].user_id == u && sessions[i].client_id == c;
        if matches_pair {
            sessions.remove(i);
            removed += 1;
            proof {
                assert(sessions@ =~= remove_by_pair(orig.take(j + 1), u, c) + orig.skip(j + 1));
                j = j + 1;
            }
        } else {
            i += 1;
            proof {
                assert(sessions@ =~= remove_by_pair(orig.take(j + 1), u, c) + orig.skip(j + 1));
                j = j + 1;
            }
        }
    }
    proof {
        assert(orig.skip(j).len() == 0);
        assert(j == orig.len());
        assert(orig.take(j) =~= orig);
    }
    removed
}

} // verus!
