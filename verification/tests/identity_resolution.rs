use goat::error::GoatError;
use goat::identity::{resolve_identity, trim_str};

#[test]
fn trim_drops_surrounding_whitespace() {
    assert_eq!(trim_str("  alice\n"), "alice");
    assert_eq!(trim_str("\t bob \r\n"), "bob");
    assert_eq!(trim_str("carol"), "carol");
    assert_eq!(trim_str(""), "");
    assert_eq!(trim_str(" \t\r\n"), "");
    assert_eq!(trim_str("a b"), "a b");
}

#[test]
fn local_identity_wins_when_present() {
    assert_eq!(resolve_identity("alice\n", "bob\n").unwrap(), "alice");
}

#[test]
fn global_identity_is_the_fallback() {
    assert_eq!(resolve_identity("", "bob\n").unwrap(), "bob");
    assert_eq!(resolve_identity("  \n", " bob ").unwrap(), "bob");
}

#[test]
fn no_identity_at_all_is_an_error() {
    assert_eq!(
        resolve_identity("", "").unwrap_err(),
        GoatError::NoIdentityConfigured
    );
    assert_eq!(
        resolve_identity(" \n", "\t").unwrap_err(),
        GoatError::NoIdentityConfigured
    );
}
