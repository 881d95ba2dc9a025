use sealing::config::CryptowerkConfig;
use sealing::cryptowerk_client::{ClientError, CryptowerkClient};

fn cfg(base_url: &str, callback: Option<&str>) -> CryptowerkConfig {
    CryptowerkConfig {
        api_key: "k".to_string(),
        api_credential: "c".to_string(),
        base_url: base_url.to_string(),
        callback_spec: callback.map(|s| s.to_string()),
    }
}

#[test]
fn build_register_url_adds_api_v8_if_missing() {
    let client = CryptowerkClient::new(cfg("https://developers.cryptowerk.com/platform", None));
    let url = client
        .build_register_url(&vec!["aa".repeat(32)], &vec![])
        .unwrap();
    assert!(url.contains("/API/v8/register?"));
    assert!(url.contains("mode=bulkSeal"));
    assert!(url.contains("hashes="));
}

#[test]
fn build_register_url_respects_existing_api_path() {
    let client = CryptowerkClient::new(cfg(
        "https://developers.cryptowerk.com/platform/API/v8",
        None,
    ));
    let url = client
        .build_register_url(&vec!["bb".repeat(32)], &vec![])
        .unwrap();
    // should not duplicate /API/v8
    let count = url.matches("/API/v8").count();
    assert_eq!(count, 1);
    assert!(url.contains("/API/v8/register?"));
}

#[test]
fn build_register_url_includes_lookup_infos_when_provided() {
    let client = CryptowerkClient::new(cfg(
        "https://developers.cryptowerk.com/platform/API/v8",
        None,
    ));
    let hashes = vec!["11".repeat(32), "22".repeat(32)];
    let infos = vec!["hi_holger".to_string(), "from_kmac".to_string()];
    let url = client.build_register_url(&hashes, &infos).unwrap();
    assert!(url.contains("lookupInfos=hi_holger%2Cfrom_kmac"));
}

#[test]
fn build_register_url_includes_callback_when_present() {
    let client = CryptowerkClient::new(cfg(
        "https://developers.cryptowerk.com/platform/API/v8",
        Some("http:jsonplain:https://example.com/callback"),
    ));
    let url = client
        .build_register_url(&vec!["cc".repeat(32)], &vec![])
        .unwrap();
    assert!(url.contains("callback="));
}

#[test]
fn build_register_url_rejects_mismatched_lookup_infos() {
    let client = CryptowerkClient::new(cfg(
        "https://developers.cryptowerk.com/platform/API/v8",
        None,
    ));
    let err = client
        .build_register_url(
            &vec!["aa".repeat(32)],
            &vec!["x".to_string(), "y".to_string()],
        )
        .unwrap_err();
    assert!(err.message().contains("lookup_infos length must match"));
}

#[test]
fn auth_header_value_format() {
    let client = CryptowerkClient::new(cfg(
        "https://developers.cryptowerk.com/platform/API/v8",
        None,
    ));
    assert_eq!(client.auth_header_value(), "k c");
}

#[test]
fn build_register_url_full_text() {
    let client = CryptowerkClient::new(cfg(
        "https://developers.cryptowerk.com/platform/",
        Some("http:jsonplain:https://example.com/callback"),
    ));
    let hashes = vec!["ab".to_string(), "cd".to_string()];
    let infos = vec!["x y".to_string(), "z&w".to_string()];
    let url = client.build_register_url(&hashes, &infos).unwrap();
    assert_eq!(
        url,
        "https://developers.cryptowerk.com/platform/API/v8/register?hashes=ab%2Ccd&mode=bulkSeal&lookupInfos=x+y%2Cz%26w&callback=http%3Ajsonplain%3Ahttps%3A%2F%2Fexample.com%2Fcallback"
    );
}

#[test]
fn build_register_url_keeps_existing_query_and_fragment() {
    let client = CryptowerkClient::new(cfg("https://example.com/p/API/v1?x=1#frag", None));
    let url = client.build_register_url(&vec!["ab".to_string()], &vec![]).unwrap();
    // The fragment of the base URL swallows the appended path; the new pairs follow
    // the existing query and the fragment stays last.
    assert_eq!(
        url,
        "https://example.com/p/API/v1?x=1&hashes=ab&mode=bulkSeal#frag/register"
    );
}

#[test]
fn build_register_url_rejects_empty_hashes() {
    let client = CryptowerkClient::new(cfg("https://example.com", None));
    let err = client.build_register_url(&vec![], &vec![]).unwrap_err();
    assert!(matches!(err, ClientError::EmptyHashes));
    assert_eq!(err.message(), "hashes_hex must not be empty");
}

#[test]
fn build_register_url_rejects_invalid_base_url() {
    let client = CryptowerkClient::new(cfg("not a url", None));
    let err = client.build_register_url(&vec!["ab".to_string()], &vec![]).unwrap_err();
    match &err {
        ClientError::InvalidEndpoint { reason } => {
            assert_eq!(reason, "relative URL without a base");
        }
        other => panic!("unexpected error {:?}", other),
    }
    assert_eq!(
        err.message(),
        "invalid Cryptowerk base url or endpoint: relative URL without a base"
    );
}

#[test]
fn build_register_url_empty_infos_with_hashes_is_accepted() {
    let client = CryptowerkClient::new(cfg("https://example.com/base///", None));
    let url = client
        .build_register_url(&vec!["01".to_string(), "02".to_string(), "03".to_string()], &vec![])
        .unwrap();
    assert_eq!(
        url,
        "https://example.com/base/API/v8/register?hashes=01%2C02%2C03&mode=bulkSeal"
    );
}

#[test]
fn register_bulk_is_refused() {
    let client = CryptowerkClient::new(cfg("https://example.com", None));
    let err = client
        .register_bulk(&vec!["ab".to_string()], &vec![])
        .unwrap_err();
    assert!(matches!(err, ClientError::RegisterBulkNotImplemented));
    assert!(err.message().contains("register_bulk not implemented"));
}

#[test]
fn build_register_url_base_ending_in_api_slash_is_not_duplicated() {
    let client = CryptowerkClient::new(cfg("https://developers.cryptowerk.com/platform/API/", None));
    let url = client.build_register_url(&vec!["aa".to_string()], &vec![]).unwrap();
    assert_eq!(url.matches("/API").count(), 1);
    assert_eq!(
        url,
        "https://developers.cryptowerk.com/platform/API/register?hashes=aa&mode=bulkSeal"
    );
}
