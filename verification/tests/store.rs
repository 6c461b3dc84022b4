//! The snapshot cache encoding: round trips and structural errors.

use fellows::account::AccountId;
use fellows::directory::Fellows;
use fellows::identity::Judgement;
use fellows::identity::Registration;
use fellows::member::Fellow;
use fellows::store::CacheError;

fn account(fill: u8) -> AccountId {
    AccountId::new(vec![fill; 32]).unwrap()
}

fn sample() -> Fellows {
    let mut dir = Fellows::started_at(123456);
    let mut a = Fellow::new(account(1), 1);
    a.set_identity(Some(Registration {
        display: vec![5, b'a', b'b', b'c', b'd'],
        github: vec![9, b'@', b'o', b'c', b't', b'o', b'c', b'a', b't'],
        judgements: vec![(7, Judgement::KnownGood), (8, Judgement::FeePaid(1u128 << 100))],
    }));
    a.github = Some("octocat".to_string());
    a.set_links_back(true);
    a.score = Some(77);
    dir.insert_member(a);
    dir.insert_member(Fellow::new(account(2), 6));
    dir
}

#[test]
fn snapshot_round_trips() {
    let dir = sample();
    let bytes = dir.to_bytes();
    let loaded = match Fellows::from_bytes(&bytes) { Ok(f) => f, Err(_) => panic!("decode failed") };
    assert_eq!(loaded.last_updated, dir.last_updated);
    assert_eq!(loaded.members.len(), dir.members.len());
    for (a, b) in loaded.members.iter().zip(dir.members.iter()) {
        assert_eq!(a.account.bytes, b.account.bytes);
        assert_eq!(a.rank, b.rank);
        assert_eq!(a.github, b.github);
        assert_eq!(a.github_links_back, b.github_links_back);
        assert_eq!(a.score, b.score);
        match (&a.identity, &b.identity) {
            (None, None) => {},
            (Some(x), Some(y)) => {
                assert_eq!(x.display, y.display);
                assert_eq!(x.github, y.github);
                assert_eq!(x.judgements.len(), y.judgements.len());
            },
            _ => panic!("identity presence differs"),
        }
    }
}

#[test]
fn stats_are_not_persisted_and_finalize_recomputes_them() {
    let dir = sample().finalize();
    assert_eq!(dir.num_accounts, 2);
    assert_eq!(dir.num_named, 1);
    let bytes = dir.to_bytes();
    let loaded = match Fellows::from_bytes(&bytes) { Ok(f) => f, Err(_) => panic!("decode failed") };
    assert_eq!(loaded.num_accounts, 0);
    assert_eq!(loaded.num_named, 0);
    let loaded = loaded.finalize();
    assert_eq!(loaded.num_accounts, dir.num_accounts);
    assert_eq!(loaded.num_named, dir.num_named);
    assert_eq!(loaded.num_verified, dir.num_verified);
    assert_eq!(loaded.num_github, dir.num_github);
    assert_eq!(loaded.num_github_verified, dir.num_github_verified);
}

#[test]
fn encoding_is_deterministic() {
    assert_eq!(sample().to_bytes(), sample().to_bytes());
}

#[test]
fn truncated_image_is_a_cache_error() {
    let bytes = sample().to_bytes();
    let cut = &bytes[..bytes.len() - 3];
    assert!(matches!(Fellows::from_bytes(cut), Err(CacheError::Malformed)));
}

#[test]
fn wrong_version_is_a_cache_error() {
    let mut bytes = sample().to_bytes();
    bytes[0] = bytes[0].wrapping_add(1);
    assert!(matches!(Fellows::from_bytes(&bytes), Err(CacheError::Malformed)));
}

#[test]
fn trailing_garbage_is_a_cache_error() {
    let mut bytes = sample().to_bytes();
    bytes.push(0);
    assert!(matches!(Fellows::from_bytes(&bytes), Err(CacheError::Malformed)));
}

#[test]
fn empty_image_is_a_cache_error() {
    assert!(matches!(Fellows::from_bytes(&[]), Err(CacheError::Malformed)));
}

#[test]
fn empty_directory_round_trips() {
    let dir = Fellows::started_at(42);
    let loaded = match Fellows::from_bytes(&dir.to_bytes()) { Ok(f) => f, Err(_) => panic!("decode failed") };
    assert_eq!(loaded.last_updated, Some(42));
    assert_eq!(loaded.members.len(), 0);
}
