use sealing::config::CryptowerkConfig;
use sealing::cryptowerk_client::{register_endpoint, register_params, register_url_outcome, ClientError};
use sealing::text::{contains_infix, join_strings, str_lt, trim_trailing_slash_chars};

#[test]
fn config_needs_key_and_credential() {
    assert!(CryptowerkConfig::from_env_values(None, Some("c".to_string()), None, None).is_none());
    assert!(CryptowerkConfig::from_env_values(Some("k".to_string()), None, None, None).is_none());
}

#[test]
fn config_defaults_base_url() {
    let c = CryptowerkConfig::from_env_values(
        Some("k".to_string()),
        Some("c".to_string()),
        None,
        Some("cb".to_string()),
    )
    .unwrap();
    assert_eq!(c.api_key, "k");
    assert_eq!(c.api_credential, "c");
    assert_eq!(c.base_url, "https://developers.cryptowerk.com/platform");
    assert_eq!(c.callback_spec.as_deref(), Some("cb"));
}

#[test]
fn config_keeps_given_base_url() {
    let c = CryptowerkConfig::from_env_values(
        Some("k".to_string()),
        Some("c".to_string()),
        Some("https://example.com/x".to_string()),
        None,
    )
    .unwrap();
    assert_eq!(c.base_url, "https://example.com/x");
    assert!(c.callback_spec.is_none());
}

#[test]
fn endpoint_adds_api_version_and_register() {
    assert_eq!(
        register_endpoint("https://developers.cryptowerk.com/platform"),
        "https://developers.cryptowerk.com/platform/API/v8/register"
    );
    assert_eq!(
        register_endpoint("https://developers.cryptowerk.com/platform//"),
        "https://developers.cryptowerk.com/platform/API/v8/register"
    );
    assert_eq!(
        register_endpoint("https://developers.cryptowerk.com/platform/API/v8/"),
        "https://developers.cryptowerk.com/platform/API/v8/register"
    );
    assert_eq!(register_endpoint("https://h/API/v7"), "https://h/API/v7/register");
    assert_eq!(
        register_endpoint("https://developers.cryptowerk.com/platform/API/"),
        "https://developers.cryptowerk.com/platform/API/register"
    );
    assert_eq!(register_endpoint("https://h/API//"), "https://h/API/register");
    assert_eq!(register_endpoint("https://h/APIx"), "https://h/APIx/API/v8/register");
    assert_eq!(register_endpoint(""), "/API/v8/register");
}

#[test]
fn params_in_order() {
    let hashes = vec!["a".to_string(), "b".to_string()];
    let infos = vec!["i1".to_string(), "i2".to_string()];
    let p = register_params(&hashes, &infos, &Some("cb".to_string()));
    let want: Vec<(String, String)> = vec![
        ("hashes", "a,b"),
        ("mode", "bulkSeal"),
        ("lookupInfos", "i1,i2"),
        ("callback", "cb"),
    ]
    .into_iter()
    .map(|(k, v)| (k.to_string(), v.to_string()))
    .collect();
    assert_eq!(p, want);
    let p2 = register_params(&hashes, &vec![], &None);
    assert_eq!(
        p2,
        vec![
            ("hashes".to_string(), "a,b".to_string()),
            ("mode".to_string(), "bulkSeal".to_string())
        ]
    );
}

#[test]
fn outcome_maps_parser_answer() {
    assert_eq!(register_url_outcome(Ok("u".to_string())).unwrap(), "u");
    match register_url_outcome(Err("empty host".to_string())) {
        Err(ClientError::InvalidEndpoint { reason }) => assert_eq!(reason, "empty host"),
        other => panic!("unexpected {:?}", other),
    }
}

#[test]
fn text_helpers() {
    assert_eq!(join_strings(&vec![], ","), "");
    assert_eq!(join_strings(&vec!["x".to_string()], ","), "x");
    assert_eq!(join_strings(&vec!["x".to_string(), "".to_string(), "z".to_string()], ", "), "x, , z");
    assert!(contains_infix("a/API/b", "/API/"));
    assert!(!contains_infix("a/AP/I/b", "/API/"));
    assert!(contains_infix("abc", ""));
    assert!(!contains_infix("ab", "abc"));
    assert_eq!(trim_trailing_slash_chars("a/b///"), "a/b");
    assert_eq!(trim_trailing_slash_chars("///"), "");
    assert!(str_lt("", "a"));
    assert!(!str_lt("a", "a"));
    assert!(str_lt("ab", "b"));
    assert!(!str_lt("b", "ab"));
    assert!(str_lt("zz", "é"));
}
