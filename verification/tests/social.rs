//! Handle normalization and the social cross-check.

use fellows::account::AccountId;
use fellows::identity::Registration;
use fellows::member::Fellow;
use fellows::social::contains_bytes;
use fellows::social::github_query;
use fellows::social::normalize_handle;
use fellows::social::social_check;

fn account(fill: u8) -> AccountId {
    AccountId::new(vec![fill; 32]).unwrap()
}

fn fellow_with_handle(handle: &str) -> Fellow {
    let mut github = vec![(handle.len() + 1) as u8];
    github.extend_from_slice(handle.as_bytes());
    let mut f = Fellow::new(account(3), 2);
    f.set_identity(Some(Registration { display: vec![0], github, judgements: Vec::new() }));
    f
}

#[test]
fn normalization_trims_and_strips_leading_at() {
    assert_eq!(normalize_handle("@octocat"), "octocat");
    assert_eq!(normalize_handle("  @octocat \n"), "octocat");
    assert_eq!(normalize_handle("octocat"), "octocat");
    assert_eq!(normalize_handle("   "), "");
    assert_eq!(normalize_handle(""), "");
    assert_eq!(normalize_handle("@"), "");
}

#[test]
fn substring_search_matches_literal_occurrences() {
    assert!(contains_bytes(b"contact: 15abc", b"15abc"));
    assert!(contains_bytes(b"xyz", b""));
    assert!(!contains_bytes(b"xyz", b"xyzw"));
    assert!(!contains_bytes(b"aaab", b"ab c"));
}

#[test]
fn query_normalizes_the_claimed_handle() {
    let f = fellow_with_handle("@octocat");
    assert_eq!(github_query(&f), Some("octocat".to_string()));
}

#[test]
fn no_handle_means_no_query_and_no_link() {
    let f = Fellow::new(account(3), 2);
    assert_eq!(github_query(&f), None);
    assert!(!social_check(&f, Some(&"anything".to_string())));
}

#[test]
fn biography_with_the_address_links_back() {
    let f = fellow_with_handle("@octocat");
    let bio = format!("contact: {}", f.address());
    assert!(social_check(&f, Some(&bio)));
}

#[test]
fn biography_without_the_address_does_not_link() {
    let f = fellow_with_handle("@octocat");
    assert!(!social_check(&f, Some(&"no address here".to_string())));
    assert!(!social_check(&f, None));
}
