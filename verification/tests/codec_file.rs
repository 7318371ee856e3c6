use goat::codec::{encode_config, is_line_safe, line_free_str, parse_config};
use goat::error::GoatError;
use goat::store::{Config, ConfigUser};

fn sample() -> Config {
    Config {
        current_user: Some("alice".to_string()),
        users: vec![
            (
                "alice".to_string(),
                ConfigUser { email: Some("alice@example.com".to_string()), token: "tok1".to_string() },
            ),
            ("bob".to_string(), ConfigUser { email: None, token: "tok2".to_string() }),
        ],
    }
}

#[test]
fn encode_writes_the_expected_lines() {
    let text = encode_config(&sample());
    assert_eq!(
        text,
        "active alice\nuser alice\ntoken tok1\nemail alice@example.com\nuser bob\ntoken tok2\n"
    );
}

#[test]
fn encode_of_the_empty_store_is_the_empty_file() {
    assert_eq!(encode_config(&Config::empty()), "");
}

#[test]
fn parse_of_the_empty_file_is_the_empty_store() {
    let c = parse_config("").unwrap();
    assert_eq!(c, Config::empty());
}

#[test]
fn round_trip_recovers_the_store() {
    let c = sample();
    let back = parse_config(&encode_config(&c)).unwrap();
    assert_eq!(back, c);
}

#[test]
fn round_trip_without_active_account() {
    let c = Config {
        current_user: None,
        users: vec![("alice".to_string(), ConfigUser { email: None, token: "t".to_string() })],
    };
    let back = parse_config(&encode_config(&c)).unwrap();
    assert_eq!(back, c);
}

#[test]
fn round_trip_with_empty_token() {
    let c = Config {
        current_user: None,
        users: vec![("alice".to_string(), ConfigUser { email: None, token: "".to_string() })],
    };
    let back = parse_config(&encode_config(&c)).unwrap();
    assert_eq!(back, c);
}

#[test]
fn round_trip_with_an_active_line_and_no_accounts() {
    let c = Config { current_user: Some("bob".to_string()), users: vec![] };
    let text = encode_config(&c);
    assert_eq!(text, "active bob\n");
    assert_eq!(parse_config(&text).unwrap(), c);
}

#[test]
fn round_trip_with_an_empty_active_name() {
    let c = Config { current_user: Some("".to_string()), users: vec![] };
    let text = encode_config(&c);
    assert_eq!(text, "active \n");
    assert_eq!(parse_config(&text).unwrap(), c);
}

#[test]
fn round_trip_with_values_that_look_like_tags() {
    let c = Config {
        current_user: Some("active impostor".to_string()),
        users: vec![
            (
                "alice smith".to_string(),
                ConfigUser {
                    email: Some("user trap".to_string()),
                    token: "email trap".to_string(),
                },
            ),
            ("token ".to_string(), ConfigUser { email: None, token: " ".to_string() }),
        ],
    };
    let text = encode_config(&c);
    assert_eq!(parse_config(&text).unwrap(), c);
}

#[test]
fn parse_refuses_text_after_the_last_newline() {
    assert_eq!(parse_config("user alice").unwrap_err(), GoatError::ConfigRead);
}

#[test]
fn parse_refuses_an_unknown_tag() {
    assert_eq!(parse_config("shrug alice\n").unwrap_err(), GoatError::ConfigRead);
}

#[test]
fn parse_refuses_a_user_without_a_token_line() {
    assert_eq!(parse_config("user alice\n").unwrap_err(), GoatError::ConfigRead);
    assert_eq!(
        parse_config("user alice\nemail a@b\n").unwrap_err(),
        GoatError::ConfigRead
    );
}

#[test]
fn parse_refuses_a_duplicated_name() {
    let text = "user alice\ntoken t1\nuser alice\ntoken t2\n";
    assert_eq!(parse_config(text).unwrap_err(), GoatError::ConfigRead);
}

#[test]
fn parse_refuses_an_active_line_out_of_place() {
    let text = "user alice\ntoken t1\nactive alice\n";
    assert_eq!(parse_config(text).unwrap_err(), GoatError::ConfigRead);
}

#[test]
fn parse_reads_an_account_with_email() {
    let c = parse_config("user a\ntoken t\nemail e@x\n").unwrap();
    assert_eq!(c.current_user, None);
    assert_eq!(c.users.len(), 1);
    assert_eq!(c.users[0].0, "a");
    assert_eq!(c.users[0].1.token, "t");
    assert_eq!(c.users[0].1.email.as_deref(), Some("e@x"));
}

#[test]
fn line_safety_is_checked_per_string() {
    assert!(line_free_str("alice"));
    assert!(!line_free_str("ali\nce"));
    let mut c = sample();
    assert!(is_line_safe(&c));
    c.users.push((
        "carol".to_string(),
        ConfigUser { email: None, token: "bad\ntoken".to_string() },
    ));
    assert!(!is_line_safe(&c));
}
