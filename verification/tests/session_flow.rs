use goat::error::GoatError;
use goat::session::{classify, login_commit, login_plan, logout_apply, LoginAction, SyncStatus};
use goat::store::{Config, ConfigUser};

fn store_with(names: &[(&str, &str)], active: Option<&str>) -> Config {
    let mut c = Config::empty();
    for (name, token) in names {
        c.upsert(
            name.to_string(),
            ConfigUser { email: None, token: token.to_string() },
        );
    }
    c.set_active(active.map(|a| a.to_string()));
    c
}

#[test]
fn scenario_register_then_login() {
    // An empty store, a freshly registered account, and a login the
    // external agent accepts: the store ends with that account active.
    let mut c = Config::empty();
    c.upsert(
        "alice".to_string(),
        ConfigUser { email: None, token: "tok1".to_string() },
    );
    let plan = login_plan(&c, "alice");
    match plan {
        LoginAction::Authenticate(secret) => {
            assert_eq!(secret, "tok1");
            // the mock external agent accepts the secret here
            login_commit(&mut c, "alice");
        }
        _ => panic!("expected an authentication plan"),
    }
    assert_eq!(c.current_user.as_deref(), Some("alice"));
    assert_eq!(c.get("alice").unwrap().token, "tok1");
}

#[test]
fn scenario_login_of_an_unknown_account_fails() {
    let c = store_with(&[("alice", "tok1")], Some("alice"));
    let before = c.clone();
    let plan = login_plan(&c, "carol");
    assert!(matches!(plan, LoginAction::UnknownAccount));
    assert_eq!(c, before);
}

#[test]
fn login_with_the_active_account_needs_no_external_call() {
    let c = store_with(&[("alice", "tok1")], Some("alice"));
    let before = c.clone();
    let plan = login_plan(&c, "alice");
    assert!(matches!(plan, LoginAction::AlreadyActive));
    assert_eq!(c, before);
}

#[test]
fn an_active_account_with_no_stored_secret_still_counts_as_active() {
    // The store never validates that the active name has a stored secret;
    // a login for that name is still the idempotent no-op.
    let c = store_with(&[], Some("ghost"));
    let plan = login_plan(&c, "ghost");
    assert!(matches!(plan, LoginAction::AlreadyActive));
}

#[test]
fn logout_clears_on_success_whatever_was_active() {
    for active in [None, Some("alice"), Some("carol")] {
        let mut c = store_with(&[("alice", "tok1")], active);
        let r = logout_apply(&mut c, true);
        assert!(r.is_ok());
        assert_eq!(c.current_user, None);
        assert_eq!(c.get("alice").unwrap().token, "tok1");
    }
}

#[test]
fn logout_keeps_the_store_on_external_failure() {
    let mut c = store_with(&[("alice", "tok1")], Some("alice"));
    let before = c.clone();
    let r = logout_apply(&mut c, false);
    assert_eq!(r.unwrap_err(), GoatError::AuthFailure);
    assert_eq!(c, before);
}

#[test]
fn info_reports_conflict_when_identities_disagree() {
    let c = store_with(&[("alice", "tok1")], Some("alice"));
    assert_eq!(classify(&c.current_user, "bob"), SyncStatus::Conflict);
}

#[test]
fn info_reports_sync_when_identities_agree() {
    let c = store_with(&[("alice", "tok1")], Some("alice"));
    assert_eq!(classify(&c.current_user, "alice"), SyncStatus::Synced);
}

#[test]
fn info_reports_no_auth_without_a_session() {
    let c = store_with(&[("alice", "tok1")], None);
    assert_eq!(classify(&c.current_user, "alice"), SyncStatus::NoAuth);
}

#[test]
fn sync_logs_in_as_the_resolved_identity() {
    // The resolved identity has a stored secret: sync ends with it active.
    let mut c = store_with(&[("alice", "tok1"), ("bob", "tok2")], Some("alice"));
    let identity = "bob";
    match login_plan(&c, identity) {
        LoginAction::Authenticate(secret) => {
            assert_eq!(secret, "tok2");
            login_commit(&mut c, identity);
        }
        _ => panic!("expected an authentication plan"),
    }
    assert_eq!(c.current_user.as_deref(), Some("bob"));
}

#[test]
fn sync_fails_for_an_identity_with_no_stored_secret() {
    let c = store_with(&[("alice", "tok1")], None);
    let before = c.clone();
    assert!(matches!(login_plan(&c, "carol"), LoginAction::UnknownAccount));
    assert_eq!(c, before);
}

#[test]
fn error_messages_are_fixed() {
    assert_eq!(GoatError::UnknownAccount.message(), "no token found for user");
    assert_eq!(
        GoatError::AuthFailure.message(),
        "failed to authenticate with gh"
    );
}
