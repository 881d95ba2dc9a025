//! Building Cryptowerk bulk-registration requests.
use vstd::prelude::*;
use vstd::string::*;
use crate::candidates::opt_view;
use crate::config::CryptowerkConfig;
use crate::text::{
    contains_infix, has_infix, join_strings, join_with, lemma_trim_keeps_prefix,
    trim_trailing_slash_chars, trim_trailing_slashes, views_of,
};

verus! {

#[derive(Debug, Clone)]
pub struct CryptowerkClient {
    config: CryptowerkConfig,
}

impl View for CryptowerkClient {
    type V = CryptowerkConfig;

    /// The configuration the client was made with.
    closed spec fn view(&self) -> CryptowerkConfig {
        self.config
    }
}

#[derive(Debug, Clone)]
pub struct RegisterReceipt {
    pub retrieval_id: Option<String>,
    pub member_retrieval_id_from: Option<String>,
    pub member_retrieval_id_to: Option<String>,
}

/// Why a request could not be built or sent.
#[derive(Debug, Clone)]
pub enum ClientError {
    /// No hash was given.
    EmptyHashes,
    /// Lookup infos were given, but not one per hash.
    LookupInfosLengthMismatch,
    /// The register endpoint derived from the base URL is not a valid absolute URL;
    /// `reason` is the parser's description.
    InvalidEndpoint { reason: String },
    /// Submitting a bulk registration is not available yet.
    RegisterBulkNotImplemented,
}

/// The text of an error.
pub open spec fn message_of(e: ClientError) -> Seq<char> {
    match e {
        ClientError::EmptyHashes => "hashes_hex must not be empty"@,
        ClientError::LookupInfosLengthMismatch =>
            "lookup_infos length must match hashes_hex length when provided"@,
        ClientError::InvalidEndpoint { reason } => "invalid Cryptowerk base url or endpoint: "@
            + reason@,
        ClientError::RegisterBulkNotImplemented =>
            "Cryptowerk register_bulk not implemented yet (PR 3.1 only builds URL + tests)"@,
    }
}

impl ClientError {
    /// The text of this error.
    pub fn message(&self) -> (text: String)
        ensures
            text@ == message_of(*self),
    {
        match self {
            ClientError::EmptyHashes => String::from_str("hashes_hex must not be empty"),
            ClientError::LookupInfosLengthMismatch => String::from_str(
                "lookup_infos length must match hashes_hex length when provided",
            ),
            ClientError::InvalidEndpoint { reason } => {
                let mut text = String::from_str("invalid Cryptowerk base url or endpoint: ");
                text.append(reason.as_str());
                text
            },
            ClientError::RegisterBulkNotImplemented => String::from_str(
                "Cryptowerk register_bulk not implemented yet (PR 3.1 only builds URL + tests)",
            ),
        }
    }
}

/// The name/value pairs, character by character.
pub open spec fn pair_views(pairs: Seq<(String, String)>) -> Seq<(Seq<char>, Seq<char>)> {
    pairs.map_values(|p: (String, String)| (p.0@, p.1@))
}

/// What `url::Url::parse_with_params(input, params)` yields: on success, the
/// serialization of the URL parsed from `input` after each name/value pair of `params`
/// was appended, in order, to its query in application/x-www-form-urlencoded form
/// (behind any query it already had, before any fragment); on failure, the text of
/// the `url::ParseError`.
pub uninterp spec fn url_parse_with_params(
    input: Seq<char>,
    params: Seq<(Seq<char>, Seq<char>)>,
) -> Result<Seq<char>, Seq<char>>;

/// Calls `url::Url::parse_with_params` and hands back the serialization of the URL
/// (`String::from(url)`) or the text of the parse error. Claimed: the outcome is
/// `url_parse_with_params` of the input and the pairs, which depends on them alone.
#[verifier::external_body]
fn parse_with_params(input: &str, params: &Vec<(String, String)>) -> (parsed: Result<String, String>)
    ensures
        url_parse_with_params(input@, pair_views(params@)) == match parsed {
            Ok(s) => Ok::<Seq<char>, Seq<char>>(s@),
            Err(e) => Err::<Seq<char>, Seq<char>>(e@),
        },
{
    match url::Url::parse_with_params(input, params.iter()) {
        Ok(url) => Ok(String::from(url)),
        Err(e) => Err(e.to_string()),
    }
}

/// The register endpoint for a base URL: trailing `/` removed, `/API/v8` appended
/// unless the configured base URL already holds `/API/` (so that a base such as
/// `.../platform/API/` or `.../platform/API/v8` gets no second API segment), then
/// `/register`.
pub open spec fn register_endpoint_of(base_url: Seq<char>) -> Seq<char> {
    let base = trim_trailing_slashes(base_url);
    let versioned = if has_infix(base_url, "/API/"@) {
        base
    } else {
        base + "/API/v8"@
    };
    versioned + "/register"@
}

/// The query parameters of a bulk registration, in order: `hashes` (comma-separated),
/// `mode=bulkSeal`, then `lookupInfos` (comma-separated) when any are given, then
/// `callback` when one is configured.
pub open spec fn register_params_of(
    hashes: Seq<Seq<char>>,
    lookup_infos: Seq<Seq<char>>,
    callback: Option<Seq<char>>,
) -> Seq<(Seq<char>, Seq<char>)> {
    let base = seq![("hashes"@, join_with(hashes, ","@)), ("mode"@, "bulkSeal"@)];
    let with_infos = if lookup_infos.len() == 0 {
        base
    } else {
        base.push(("lookupInfos"@, join_with(lookup_infos, ","@)))
    };
    match callback {
        Some(cb) => with_infos.push(("callback"@, cb)),
        None => with_infos,
    }
}

/// The register endpoint for `base_url` (see `register_endpoint_of`).
pub fn register_endpoint(base_url: &str) -> (endpoint: String)
    ensures
        endpoint@ == register_endpoint_of(base_url@),
{
    let has_api = contains_infix(base_url, "/API/");
    let mut base = trim_trailing_slash_chars(base_url);
    if !has_api {
        base.append("/API/v8");
    }
    base.append("/register");
    base
}

/// The query parameters of a bulk registration (see `register_params_of`).
pub fn register_params(
    hashes_hex: &[String],
    lookup_infos: &[String],
    callback_spec: &Option<String>,
) -> (params: Vec<(String, String)>)
    ensures
        pair_views(params@) == register_params_of(
            views_of(hashes_hex@),
            views_of(lookup_infos@),
            opt_view(*callback_spec),
        ),
{
    let mut params: Vec<(String, String)> = Vec::new();
    params.push((String::from_str("hashes"), join_strings(hashes_hex, ",")));
    params.push((String::from_str("mode"), String::from_str("bulkSeal")));
    if lookup_infos.len() != 0 {
        params.push((String::from_str("lookupInfos"), join_strings(lookup_infos, ",")));
    }
    match callback_spec {
        Some(cb) => {
            params.push((String::from_str("callback"), cb.clone()));
        },
        None => {},
    }
    proof {
        assert(pair_views(params@) =~= register_params_of(
            views_of(hashes_hex@),
            views_of(lookup_infos@),
            opt_view(*callback_spec),
        ));
    }
    params
}

/// The outcome of building the register URL once the URL parser has answered:
/// the URL on success, `InvalidEndpoint` with the parser's reason otherwise.
pub fn register_url_outcome(parsed: Result<String, String>) -> (url: Result<String, ClientError>)
    ensures
        match parsed {
            Ok(s) => url matches Ok(u) && u@ == s@,
            Err(reason) => url matches Err(ClientError::InvalidEndpoint { reason: r }) && r@
                == reason@,
        },
{
    match parsed {
        Ok(s) => Ok(s),
        Err(reason) => Err(ClientError::InvalidEndpoint { reason }),
    }
}

impl CryptowerkClient {
    pub fn new(config: CryptowerkConfig) -> (client: Self)
        ensures
            client@ == config,
    {
        CryptowerkClient { config }
    }

    /// Build the Cryptowerk /register URL with query params.
    ///
    /// Expected query params (bulk mode):
    /// - hashes: comma-separated hex
    /// - lookupInfos: comma-separated lookup info (same length as hashes) OR omitted if empty
    /// - mode: bulkSeal
    /// - callback: optional (if configured)
    pub fn build_register_url(&self, hashes_hex: &[String], lookup_infos: &[String]) -> (url:
        Result<String, ClientError>)
        ensures
            hashes_hex@.len() == 0 ==> url matches Err(ClientError::EmptyHashes),
            hashes_hex@.len() != 0 && lookup_infos@.len() != 0 && lookup_infos@.len()
                != hashes_hex@.len() ==> url matches Err(ClientError::LookupInfosLengthMismatch),
            hashes_hex@.len() != 0 && (lookup_infos@.len() == 0 || lookup_infos@.len()
                == hashes_hex@.len()) ==> match url_parse_with_params(
                register_endpoint_of(self@.base_url@),
                register_params_of(
                    views_of(hashes_hex@),
                    views_of(lookup_infos@),
                    opt_view(self@.callback_spec),
                ),
            ) {
                Ok(s) => url matches Ok(u) && u@ == s,
                Err(reason) => url matches Err(ClientError::InvalidEndpoint { reason: r }) && r@
                    == reason,
            },
    {
        if hashes_hex.len() == 0 {
            return Err(ClientError::EmptyHashes);
        }
        if lookup_infos.len() != 0 && lookup_infos.len() != hashes_hex.len() {
            return Err(ClientError::LookupInfosLengthMismatch);
        }
        let endpoint = register_endpoint(self.config.base_url.as_str());
        let params = register_params(hashes_hex, lookup_infos, &self.config.callback_spec);
        let parsed = parse_with_params(endpoint.as_str(), &params);
        register_url_outcome(parsed)
    }

    /// Submitting a bulk registration: not available yet, always refused.
    pub fn register_bulk(&self, _hashes_hex: &[String], _lookup_infos: &[String]) -> (receipt:
        Result<RegisterReceipt, ClientError>)
        ensures
            receipt matches Err(ClientError::RegisterBulkNotImplemented),
    {
        Err(ClientError::RegisterBulkNotImplemented)
    }

    /// Header value for Cryptowerk auth.
    /// Docs specify: X-API-Key: "{api_key} {api_credential}"
    pub fn auth_header_value(&self) -> (value: String)
        ensures
            value@ == self@.api_key@ + " "@ + self@.api_credential@,
    {
        let mut value = self.config.api_key.clone();
        value.append(" ");
        value.append(self.config.api_credential.as_str());
        value
    }
}

/// One more trailing slash on a base URL that already ends in `/` does not change the
/// register endpoint.
pub proof fn law_endpoint_ignores_extra_trailing_slash(base_url: Seq<char>)
    requires
        base_url.len() > 0,
        base_url.last() == '/',
    ensures
        register_endpoint_of(base_url.push('/')) == register_endpoint_of(base_url),
{
    reveal_strlit("/API/");
    let api = "/API/"@;
    let longer = base_url.push('/');
    assert(longer.drop_last() =~= base_url);
    if has_infix(base_url, api) {
        let i = choose|i: int| 0 <= i && i + api.len() <= base_url.len() && #[trigger] base_url.subrange(
            i,
            i + api.len(),
        ) == api;
        assert(longer.subrange(i, i + api.len()) =~= base_url.subrange(i, i + api.len()));
    }
    if has_infix(longer, api) {
        let i = choose|i: int| 0 <= i && i + api.len() <= longer.len() && #[trigger] longer.subrange(
            i,
            i + api.len(),
        ) == api;
        if i + api.len() == longer.len() {
            // the run would end in the two last characters, both `/`
            assert(longer.subrange(i, i + api.len())[3] == longer[i + 3]);
            assert(longer[i + 3] == base_url[i + 3]);
            assert(base_url[i + 3] == base_url.last());
        }
        assert(base_url.subrange(i, i + api.len()) =~= longer.subrange(i, i + api.len()));
    }
}

/// The register endpoint always names the API (`/API/` occurs in it) and ends in
/// `/register`. A base URL that already holds `/API/` gets only `/register` after its
/// trailing slashes are removed, never a second `/API/v8`; any other base gets
/// `/API/v8/register`.
pub proof fn law_endpoint_shape(base_url: Seq<char>)
    ensures
        has_infix(register_endpoint_of(base_url), "/API/"@),
        register_endpoint_of(base_url).len() >= 9,
        register_endpoint_of(base_url).skip(register_endpoint_of(base_url).len() - 9)
            == "/register"@,
        has_infix(base_url, "/API/"@) ==> register_endpoint_of(base_url) == trim_trailing_slashes(
            base_url,
        ) + "/register"@,
        !has_infix(base_url, "/API/"@) ==> register_endpoint_of(base_url) == trim_trailing_slashes(
            base_url,
        ) + "/API/v8"@ + "/register"@,
{
    reveal_strlit("/API/");
    reveal_strlit("/API/v8");
    reveal_strlit("/register");
    let base = trim_trailing_slashes(base_url);
    let kept = lemma_trim_keeps_prefix(base_url);
    let api = "/API/"@;
    let endpoint = register_endpoint_of(base_url);
    if has_infix(base_url, api) {
        let i = choose|i: int| 0 <= i && i + api.len() <= base_url.len() && #[trigger] base_url.subrange(
            i,
            i + api.len(),
        ) == api;
        assert(endpoint == base + "/register"@);
        assert(base_url.subrange(i, i + api.len())[3] == base_url[i + 3]);
        assert(base_url[i + 3] == 'I');
        assert(i + 3 < kept);
        if i + api.len() <= kept {
            assert(endpoint.subrange(i, i + api.len()) =~= base_url.subrange(i, i + api.len()));
        } else {
            assert(kept == i + 4);
            assert(endpoint.subrange(i, i + api.len()) =~= api) by {
                assert forall|q: int| 0 <= q < api.len() implies #[trigger] endpoint.subrange(
                    i,
                    i + api.len(),
                )[q] == api[q] by {
                    if q < 4 {
                        assert(endpoint[i + q] == base_url[i + q]);
                        assert(base_url.subrange(i, i + api.len())[q] == base_url[i + q]);
                    } else {
                        assert(endpoint[i + 4] == "/register"@[0]);
                    }
                }
            }
        }
    } else {
        let i = base.len() as int;
        assert(endpoint.subrange(i, i + api.len()) =~= api);
    }
    assert(endpoint.skip(endpoint.len() - 9) =~= "/register"@);
}

/// The query parameters carry the hashes and the lookup infos whole: first `hashes`
/// with every given hash joined by `,`, then `mode=bulkSeal`; a `lookupInfos`
/// parameter with every lookup info joined by `,` exactly when at least one is given;
/// a `callback` parameter with the configured value, last, exactly when one is
/// configured; nothing else.
pub proof fn law_register_params(
    hashes: Seq<Seq<char>>,
    lookup_infos: Seq<Seq<char>>,
    callback: Option<Seq<char>>,
)
    ensures
        ({
            let p = register_params_of(hashes, lookup_infos, callback);
            &&& p.len() == 2 + (if lookup_infos.len() > 0 {
                1int
            } else {
                0
            }) + (if callback is Some {
                1int
            } else {
                0
            })
            &&& p[0] == ("hashes"@, join_with(hashes, ","@))
            &&& p[1] == ("mode"@, "bulkSeal"@)
            &&& lookup_infos.len() > 0 ==> p[2] == ("lookupInfos"@, join_with(lookup_infos, ","@))
            &&& lookup_infos.len() == 0 ==> forall|i: int| 0 <= i < p.len() ==> (#[trigger] p[i]).0
                != "lookupInfos"@
            &&& callback matches Some(cb) ==> p.last() == ("callback"@, cb)
            &&& callback is None ==> forall|i: int| 0 <= i < p.len() ==> (#[trigger] p[i]).0
                != "callback"@
        }),
{
    reveal_strlit("hashes");
    reveal_strlit("mode");
    reveal_strlit("lookupInfos");
    reveal_strlit("callback");
    let p = register_params_of(hashes, lookup_infos, callback);
    assert("hashes"@[0] != "lookupInfos"@[0]);
    assert("mode"@[0] != "lookupInfos"@[0]);
    assert("callback"@[0] != "lookupInfos"@[0]);
    assert("hashes"@[0] != "callback"@[0]);
    assert("mode"@[0] != "callback"@[0]);
    assert("lookupInfos"@[0] != "callback"@[0]);
}

} // verus!
