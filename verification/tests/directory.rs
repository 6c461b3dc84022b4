//! Directory aggregation, statistics, and staleness.

use fellows::account::AccountId;
use fellows::directory::Fellows;
use fellows::directory::age_at;
use fellows::identity::Judgement;
use fellows::identity::Registration;
use fellows::member::Fellow;

fn account(fill: u8) -> AccountId {
    AccountId::new(vec![fill; 32]).unwrap()
}

#[test]
fn two_plain_members_finalize_to_plain_stats() {
    let mut dir = Fellows::started_at(1000);
    dir.insert_member(Fellow::new(account(1), 1));
    dir.insert_member(Fellow::new(account(2), 2));
    let dir = dir.finalize();
    assert_eq!(dir.num_accounts, 2);
    assert_eq!(dir.num_named, 0);
    assert_eq!(dir.num_verified, 0);
    assert_eq!(dir.num_github, 0);
    assert_eq!(dir.num_github_verified, 0);
    assert_eq!(dir.last_updated, Some(1000));
}

#[test]
fn finalize_counts_each_predicate() {
    let mut dir = Fellows::started_at(5);
    let mut named = Fellow::new(account(1), 1);
    named.set_identity(Some(Registration {
        display: vec![5, b'a', b'b', b'c', b'd'],
        github: vec![0],
        judgements: vec![(0, Judgement::KnownGood)],
    }));
    assert_eq!(named.name(), Some("abcd".to_string()));
    let mut linked = Fellow::new(account(2), 2);
    linked.set_identity(Some(Registration {
        display: vec![0],
        github: vec![9, b'@', b'o', b'c', b't', b'o', b'c', b'a', b't'],
        judgements: vec![(0, Judgement::Erroneous)],
    }));
    linked.set_links_back(true);
    dir.insert_member(named);
    dir.insert_member(linked);
    let dir = dir.finalize();
    assert_eq!(dir.num_accounts, 2);
    assert_eq!(dir.num_named, 1);
    assert_eq!(dir.num_verified, 1);
    assert_eq!(dir.num_github, 1);
    assert_eq!(dir.num_github_verified, 1);
}

#[test]
fn insert_replaces_by_account() {
    let mut dir = Fellows::started_at(5);
    dir.insert_member(Fellow::new(account(1), 1));
    dir.insert_member(Fellow::new(account(1), 4));
    dir.insert_member(Fellow::new(account(2), 2));
    let dir = dir.finalize();
    assert_eq!(dir.num_accounts, 2);
    assert_eq!(dir.members[0].rank, 4);
    assert_eq!(dir.members[1].rank, 2);
}

#[test]
fn age_is_relative_and_saturating() {
    assert_eq!(age_at(100, Some(40)), Some(60));
    assert_eq!(age_at(30, Some(40)), Some(0));
    assert_eq!(age_at(100, None), None);
}

#[test]
fn since_last_update_tracks_capture() {
    let dir = Fellows::empty();
    assert!(dir.since_last_update().is_none());
    let dir = Fellows::started_now();
    assert!(dir.since_last_update().is_some());
}
