//! Identity resolution and judgement checks.

use fellows::account::AccountId;
use fellows::identity::IdentityRecords;
use fellows::identity::Judgement;
use fellows::identity::Registration;
use fellows::member::Fellow;

fn account(fill: u8) -> AccountId {
    AccountId::new(vec![fill; 32]).unwrap()
}

fn reg(name: &str) -> Registration {
    let mut display = vec![(name.len() + 1) as u8];
    display.extend_from_slice(name.as_bytes());
    Registration { display, github: vec![0], judgements: Vec::new() }
}

#[test]
fn direct_record_wins() {
    let records = IdentityRecords {
        direct: vec![(account(1), reg("alice")), (account(2), reg("bob"))],
        delegated: vec![(account(1), account(2))],
    };
    let r = records.resolve(&account(1)).unwrap();
    assert_eq!(fellows::codec::data_to_str(&r.display), Some("alice".to_string()));
}

#[test]
fn delegated_fallback_uses_parent_record() {
    let records = IdentityRecords {
        direct: vec![(account(2), reg("parent"))],
        delegated: vec![(account(1), account(2))],
    };
    let r = records.resolve(&account(1)).unwrap();
    assert_eq!(fellows::codec::data_to_str(&r.display), Some("parent".to_string()));
}

#[test]
fn unresolved_account_yields_none() {
    let records = IdentityRecords { direct: Vec::new(), delegated: Vec::new() };
    assert!(records.resolve(&account(9)).is_none());
}

#[test]
fn delegation_to_unregistered_parent_yields_none() {
    let records = IdentityRecords {
        direct: Vec::new(),
        delegated: vec![(account(1), account(2))],
    };
    assert!(records.resolve(&account(1)).is_none());
}

#[test]
fn resolution_is_deterministic() {
    let records = IdentityRecords {
        direct: vec![(account(2), reg("parent"))],
        delegated: vec![(account(1), account(2))],
    };
    let a = records.resolve(&account(1)).map(|r| r.display.clone());
    let b = records.resolve(&account(1)).map(|r| r.display.clone());
    assert_eq!(a, b);
}

fn fellow_with_judgements(judgements: Vec<(u32, Judgement)>) -> Fellow {
    let mut f = Fellow::new(account(7), 3);
    f.set_identity(Some(Registration { display: vec![0], github: vec![0], judgements }));
    f
}

#[test]
fn verified_requires_a_positive_judgement() {
    assert!(fellow_with_judgements(vec![(0, Judgement::Reasonable)]).verified());
    assert!(fellow_with_judgements(vec![(0, Judgement::KnownGood)]).verified());
    assert!(fellow_with_judgements(vec![
        (0, Judgement::Erroneous),
        (1, Judgement::KnownGood),
    ])
    .verified());
}

#[test]
fn verified_is_false_without_positive_judgements() {
    assert!(!fellow_with_judgements(Vec::new()).verified());
    assert!(!fellow_with_judgements(vec![
        (0, Judgement::Unknown),
        (1, Judgement::FeePaid(10)),
        (2, Judgement::OutOfDate),
        (3, Judgement::LowQuality),
        (4, Judgement::Erroneous),
    ])
    .verified());
    let f = Fellow::new(account(7), 3);
    assert!(!f.verified());
}
