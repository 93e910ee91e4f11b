//! The default-group invariant engine and the refresh rotation engine on
//! concrete record sets.

use identity_core::errors::{ConflictError, Error};
use identity_core::groups::{
    apply_group_write, count_default_ex, count_pair_ex, group_is_default_ex, has_group_ex,
    GroupRec, GroupWrite,
};
use identity_core::refresh::{find_token, rotate_refresh_token, RefreshTokenRec};

const USER: u128 = 10;
const CLIENT: u128 = 20;
const REALM: u128 = 1;

fn write(key: u128, is_default: Option<bool>, insert: bool) -> GroupWrite {
    GroupWrite {
        user_id: USER,
        client_id: CLIENT,
        realm_id: REALM,
        group_key: key,
        is_default,
        insert,
    }
}

fn invariant_holds(groups: &Vec<GroupRec>, u: u128, c: u128) -> bool {
    let pairs = count_pair_ex(groups, u, c);
    let defaults = count_default_ex(groups, u, c);
    if pairs > 0 {
        defaults == 1
    } else {
        defaults == 0
    }
}

#[test]
fn first_group_becomes_default_even_when_not_requested() {
    let mut groups: Vec<GroupRec> = Vec::new();
    let r = apply_group_write(&mut groups, &write(100, Some(false), true));
    assert!(r.is_ok());
    assert!(group_is_default_ex(&groups, USER, CLIENT, 100));
    assert!(invariant_holds(&groups, USER, CLIENT));
}

#[test]
fn second_group_stays_non_default_as_requested() {
    let mut groups: Vec<GroupRec> = Vec::new();
    apply_group_write(&mut groups, &write(100, None, true)).unwrap();
    apply_group_write(&mut groups, &write(200, Some(false), true)).unwrap();
    assert!(group_is_default_ex(&groups, USER, CLIENT, 100));
    assert!(!group_is_default_ex(&groups, USER, CLIENT, 200));
    assert!(invariant_holds(&groups, USER, CLIENT));
}

#[test]
fn requesting_default_demotes_all_others() {
    let mut groups: Vec<GroupRec> = Vec::new();
    apply_group_write(&mut groups, &write(100, None, true)).unwrap();
    apply_group_write(&mut groups, &write(200, Some(false), true)).unwrap();
    apply_group_write(&mut groups, &write(200, Some(true), false)).unwrap();
    assert!(!group_is_default_ex(&groups, USER, CLIENT, 100));
    assert!(group_is_default_ex(&groups, USER, CLIENT, 200));
    assert_eq!(count_default_ex(&groups, USER, CLIENT), 1);
}

#[test]
fn sole_default_cannot_give_up_its_flag() {
    let mut groups: Vec<GroupRec> = Vec::new();
    apply_group_write(&mut groups, &write(100, None, true)).unwrap();
    let before = groups.clone();
    let r = apply_group_write(&mut groups, &write(100, Some(false), false));
    assert_eq!(
        r,
        Err(Error::Conflict(ConflictError::CannotRemoveOnlyDefault))
    );
    // the rejected write left the set, and the flag, untouched
    assert_eq!(groups.len(), before.len());
    assert!(group_is_default_ex(&groups, USER, CLIENT, 100));
}

#[test]
fn demotion_is_allowed_once_another_default_exists() {
    let mut groups: Vec<GroupRec> = Vec::new();
    apply_group_write(&mut groups, &write(100, None, true)).unwrap();
    apply_group_write(&mut groups, &write(200, Some(true), true)).unwrap();
    // 100 is no longer default, so clearing it is a no-op, not a conflict
    let r = apply_group_write(&mut groups, &write(100, Some(false), false));
    assert!(r.is_ok());
    assert!(group_is_default_ex(&groups, USER, CLIENT, 200));
    assert!(invariant_holds(&groups, USER, CLIENT));
}

#[test]
fn invariant_holds_after_every_step_of_a_sequence() {
    let mut groups: Vec<GroupRec> = Vec::new();
    let steps: Vec<GroupWrite> = vec![
        write(1, None, true),
        write(2, Some(false), true),
        write(3, Some(true), true),
        write(1, Some(true), false),
        write(3, Some(false), false),
        write(2, None, false),
    ];
    for w in &steps {
        let insert_matches = has_group_ex(&groups, USER, CLIENT, w.group_key) != w.insert;
        assert!(insert_matches);
        let _ = apply_group_write(&mut groups, w);
        assert!(invariant_holds(&groups, USER, CLIENT));
    }
    assert_eq!(count_pair_ex(&groups, USER, CLIENT), 3);
}

#[test]
fn writes_for_one_pair_leave_other_pairs_alone() {
    let mut groups: Vec<GroupRec> = Vec::new();
    apply_group_write(&mut groups, &write(1, None, true)).unwrap();
    let other = GroupWrite {
        user_id: 77,
        client_id: CLIENT,
        realm_id: REALM,
        group_key: 500,
        is_default: Some(true),
        insert: true,
    };
    apply_group_write(&mut groups, &other).unwrap();
    assert!(invariant_holds(&groups, USER, CLIENT));
    assert!(invariant_holds(&groups, 77, CLIENT));
    assert!(group_is_default_ex(&groups, USER, CLIENT, 1));
    assert!(group_is_default_ex(&groups, 77, CLIENT, 500));
}

fn fresh_refresh_rec(id: u128, count: u32) -> RefreshTokenRec {
    RefreshTokenRec {
        id,
        user_id: USER,
        client_id: Some(CLIENT),
        realm_id: REALM,
        re_used_count: count,
        locked_at: None,
    }
}

#[test]
fn rotation_counts_reuse_up_to_the_limit_then_swaps_the_id() {
    // reuse limit 2, fresh token with re_used_count = 0
    let mut tokens = vec![fresh_refresh_rec(1000, 0)];
    // first refresh: same id, count 1
    let r1 = rotate_refresh_token(&mut tokens, 0, 2, 2000);
    assert_eq!(r1.id, 1000);
    assert_eq!(r1.re_used_count, 1);
    // second refresh: still below the limit, same id, count 2
    let r2 = rotate_refresh_token(&mut tokens, 0, 2, 2000);
    assert_eq!(r2.id, 1000);
    assert_eq!(r2.re_used_count, 2);
    // third refresh: at the limit, brand-new id with count 0,
    // and the old id is no longer retrievable
    let r3 = rotate_refresh_token(&mut tokens, 0, 2, 2000);
    assert_eq!(r3.id, 2000);
    assert_eq!(r3.re_used_count, 0);
    assert!(find_token(&tokens, 1000).is_none());
    assert!(find_token(&tokens, 2000).is_some());
}

#[test]
fn rotation_at_limit_zero_swaps_immediately() {
    let mut tokens = vec![fresh_refresh_rec(1, 0)];
    let r = rotate_refresh_token(&mut tokens, 0, 0, 2);
    assert_eq!(r.id, 2);
    assert_eq!(r.re_used_count, 0);
    assert!(find_token(&tokens, 1).is_none());
}
