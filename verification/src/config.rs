//! Connection settings for the Cryptowerk service.
use vstd::prelude::*;
use vstd::string::*;

verus! {

#[derive(Debug, Clone)]
pub struct CryptowerkConfig {
    pub api_key: String,
    pub api_credential: String,
    pub base_url: String,
    pub callback_spec: Option<String>,
}

/// The base URL used when none is configured.
pub open spec fn default_base_url() -> Seq<char> {
    "https://developers.cryptowerk.com/platform"@
}

impl CryptowerkConfig {
    /// The configuration given the values found for the environment variables
    /// CLAWPRINT_CRYPTOWERK_API_KEY, CLAWPRINT_CRYPTOWERK_API_CREDENTIAL,
    /// CLAWPRINT_CRYPTOWERK_BASE_URL and CLAWPRINT_CRYPTOWERK_CALLBACK_SPEC
    /// (`None` for a variable that is unset or not Unicode).
    /// Returns `None` when the key or the credential is missing; the base URL
    /// falls back to the public platform URL; the callback stays optional.
    pub fn from_env_values(
        api_key: Option<String>,
        api_credential: Option<String>,
        base_url: Option<String>,
        callback_spec: Option<String>,
    ) -> (config: Option<Self>)
        ensures
            config is Some <==> (api_key is Some && api_credential is Some),
            config matches Some(c) ==> {
                &&& c.api_key == api_key->0
                &&& c.api_credential == api_credential->0
                &&& (base_url matches Some(b) ==> c.base_url == b)
                &&& (base_url is None ==> c.base_url@ == default_base_url())
                &&& c.callback_spec == callback_spec
            },
    {
        let api_key = match api_key {
            Some(k) => k,
            None => return None,
        };
        let api_credential = match api_credential {
            Some(c) => c,
            None => return None,
        };
        let base_url = match base_url {
            Some(b) => b,
            None => String::from_str("https://developers.cryptowerk.com/platform"),
        };
        Some(CryptowerkConfig { api_key, api_credential, base_url, callback_spec })
    }
}

} // verus!
