use goat::store::{mask_token, rendered_token, str_eq, Config, ConfigUser};

fn user(token: &str) -> ConfigUser {
    ConfigUser { email: None, token: token.to_string() }
}

#[test]
fn empty_store_has_nothing() {
    let c = Config::empty();
    assert_eq!(c.current_user, None);
    assert!(c.users.is_empty());
    assert!(c.get("alice").is_none());
}

#[test]
fn upsert_inserts_and_overwrites() {
    let mut c = Config::empty();
    c.upsert("alice".to_string(), user("tok1"));
    assert_eq!(c.get("alice").unwrap().token, "tok1");
    c.upsert("alice".to_string(), user("tok2"));
    assert_eq!(c.get("alice").unwrap().token, "tok2");
    assert_eq!(c.users.len(), 1);
    c.upsert("bob".to_string(), user("tok3"));
    assert_eq!(c.users.len(), 2);
    assert_eq!(c.get("bob").unwrap().token, "tok3");
    assert_eq!(c.get("alice").unwrap().token, "tok2");
}

#[test]
fn remove_drops_and_is_idempotent() {
    let mut c = Config::empty();
    c.upsert("alice".to_string(), user("tok1"));
    c.upsert("bob".to_string(), user("tok2"));
    c.remove("alice");
    assert!(c.get("alice").is_none());
    assert_eq!(c.get("bob").unwrap().token, "tok2");
    let before = c.clone();
    c.remove("alice");
    assert_eq!(c, before);
}

#[test]
fn set_active_records_belief() {
    let mut c = Config::empty();
    assert!(!c.is_active("alice"));
    c.set_active(Some("alice".to_string()));
    assert!(c.is_active("alice"));
    assert!(!c.is_active("bob"));
    c.set_active(None);
    assert!(!c.is_active("alice"));
}

#[test]
fn masking_hides_the_secret_and_keeps_its_length() {
    let m = mask_token("tok1");
    assert_eq!(m, "****");
    assert_eq!(mask_token(""), "");
    let long = mask_token("a-very-long-secret");
    assert_eq!(long.chars().count(), "a-very-long-secret".chars().count());
    assert!(long.chars().all(|c| c == '*'));
    assert_ne!(long, "a-very-long-secret");
}

#[test]
fn rendered_token_honours_show() {
    let u = user("tok1");
    assert_eq!(rendered_token(&u, true), "tok1");
    assert_eq!(rendered_token(&u, false), "****");
}

#[test]
fn str_eq_is_exact() {
    assert!(str_eq("", ""));
    assert!(str_eq("alice", "alice"));
    assert!(!str_eq("alice", "alicia"));
    assert!(!str_eq("alice", "alic"));
}
