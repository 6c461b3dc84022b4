//! Account identifiers and the canonical address encoding.

use fellows::account::AccountId;
use fellows::directory::Fellows;
use fellows::html::Members;
use fellows::member::Fellow;
use fellows::State;
use sp_core::crypto::Ss58Codec;

#[test]
fn accounts_must_hold_exactly_32_bytes() {
    assert!(AccountId::new(vec![0; 32]).is_some());
    assert!(AccountId::new(vec![0; 31]).is_none());
    assert!(AccountId::new(vec![0; 33]).is_none());
    assert!(AccountId::new(Vec::new()).is_none());
}

#[test]
fn account_equality_is_byte_for_byte() {
    let a = AccountId::new(vec![5; 32]).unwrap();
    let b = AccountId::new(vec![5; 32]).unwrap();
    let mut bytes = vec![5; 32];
    bytes[31] = 6;
    let c = AccountId::new(bytes).unwrap();
    assert!(a.eq_account(&b));
    assert!(!a.eq_account(&c));
}

#[test]
fn address_matches_the_upstream_encoding_at_version_zero() {
    let mut raw = [0u8; 32];
    for (i, b) in raw.iter_mut().enumerate() {
        *b = i as u8;
    }
    let ours = AccountId::new(raw.to_vec()).unwrap().address();
    let upstream = sp_core::crypto::AccountId32::new(raw)
        .to_ss58check_with_version(sp_core::crypto::Ss58AddressFormat::custom(0));
    assert_eq!(ours, upstream);
    assert_ne!(ours, AccountId::new(vec![0; 32]).unwrap().address());
}

#[test]
fn member_address_goes_through_its_account() {
    let f = Fellow::new(AccountId::new(vec![1; 32]).unwrap(), 1);
    assert_eq!(f.address(), f.account.address());
}

#[test]
fn state_starts_with_an_empty_directory() {
    let state = State::default();
    assert_eq!(state.fellows.members.len(), 0);
    assert!(state.fellows.last_updated.is_none());
    let view = Members::from_members(&state.fellows);
    assert_eq!(view.members.members.len(), 0);
    let _ = Fellows::empty();
}
