//! Credentials, clients and the OAuth 1.0a authorization flow of the
//! photo provider: parameter assembly for the three signed calls, the
//! form-encoded response parser, and the normalized photo records.

use vstd::prelude::*;
use vstd::utf8::encode_utf8;
use uuid::Uuid;
use crate::error::FlickrError;
use crate::numbers::{parse_u32_ok, parse_u32_val, parse_u32_bytes, dec_bytes, u64_to_string};
use crate::signature::{signature, spec_signature, params_bytes, AMP, EQUALS};
use crate::encoding::{string_from_utf8, bytes_eq, lemma_ascii_delimited_segment_valid};
use vstd::utf8::{encode_utf8_valid_utf8, valid_utf8};
use vstd::slice::{slice_to_vec, slice_subrange};

verus! {

/// Conversion that can fail, kept with the signature its callers use.
pub trait TryFrom<T>: Sized {
    type Error;

    fn try_from(value: T) -> Result<Self, Self::Error>;
}

/// The top-level status of an API response body.
#[derive(Debug, PartialEq, Eq, Structural, Clone, Copy)]
pub enum Stat {
    Okay,
    Fail,
}

/// A dimension field as the API returns it: sometimes a JSON integer,
/// sometimes a string of digits.
#[derive(Debug, Clone, PartialEq, Eq)]
pub enum Dimension {
    Integer(u32),
    Text(String),
}

/// Whether a dimension coerces to an unsigned integer.
pub open spec fn dimension_ok(d: Dimension) -> bool {
    match d {
        Dimension::Integer(_) => true,
        Dimension::Text(s) => parse_u32_ok(encode_utf8(s@)),
    }
}

/// The coerced value of a dimension.
pub open spec fn dimension_value(d: Dimension) -> int {
    match d {
        Dimension::Integer(v) => v as int,
        Dimension::Text(s) => parse_u32_val(encode_utf8(s@)),
    }
}

/// Coerce a dimension to an unsigned integer: an integer passes
/// through, a digit string is parsed, anything else is rejected.
pub fn dimension_to_u32(d: &Dimension) -> (r: Result<u32, FlickrError>)
    ensures
        dimension_ok(*d) <==> r is Ok,
        r is Ok ==> r->Ok_0 == dimension_value(*d),
        r is Err ==> r->Err_0 is ParseError,
{
    match d {
        Dimension::Integer(v) => Ok(*v),
        Dimension::Text(s) => match parse_u32_bytes(s.as_str().as_bytes()) {
            Some(v) => Ok(v),
            None => Err(FlickrError::ParseError("invalid digit string".to_owned())),
        },
    }
}

impl TryFrom<Dimension> for u32 {
    type Error = FlickrError;

    /// Forwarder; the contract lives on `dimension_to_u32`.
    fn try_from(value: Dimension) -> Result<Self, Self::Error> {
        dimension_to_u32(&value)
    }
}

/// A photo record as the listing response carries it.
#[derive(Debug)]
pub struct PhotoRaw {
    pub title: String,
    pub public: u32,
    pub url_k: String,
    pub height_k: Dimension,
    pub width_k: Dimension,
    pub secret: Option<String>,
}

/// A normalized photo record: dimensions coerced to integers, the
/// public flag a proper boolean, the URL kept as text.
#[derive(Debug)]
pub struct Photo {
    pub title: String,
    pub public: bool,
    pub url_k: String,
    pub height_k: u32,
    pub width_k: u32,
    pub secret: Option<String>,
}

/// Whether a record's URL is acceptable: the library's URL model must
/// assign it a path, which asks for a `://` scheme separator.
pub open spec fn photo_url_ok(raw: PhotoRaw) -> bool {
    crate::mirror::url_path_bytes(encode_utf8(raw.url_k@)) is Some
}

/// Whether a raw record normalizes: a well-formed URL and two
/// dimensions that coerce.
pub open spec fn photo_raw_ok(raw: PhotoRaw) -> bool {
    photo_url_ok(raw) && dimension_ok(raw.height_k) && dimension_ok(raw.width_k)
}

/// The normalized record matches its raw form field for field.
pub open spec fn photo_matches(p: Photo, raw: PhotoRaw) -> bool {
    &&& p.title@ == raw.title@
    &&& p.public == (raw.public == 1)
    &&& p.url_k@ == raw.url_k@
    &&& p.height_k == dimension_value(raw.height_k)
    &&& p.width_k == dimension_value(raw.width_k)
    &&& match (p.secret, raw.secret) {
        (Option::Some(a), Option::Some(b)) => a@ == b@,
        (Option::None, Option::None) => true,
        _ => false,
    }
}

/// Normalize one raw record; a record whose URL is malformed or whose
/// dimensions do not coerce is rejected whole.
pub fn photo_from_raw(raw: PhotoRaw) -> (r: Result<Photo, FlickrError>)
    ensures
        photo_raw_ok(raw) <==> r is Ok,
        r is Ok ==> photo_matches(r->Ok_0, raw),
        !photo_url_ok(raw) ==> r is Err && r->Err_0 is UrlError,
        photo_url_ok(raw) && r is Err ==> r->Err_0 is ParseError,
{
    if !crate::mirror::url_has_scheme(raw.url_k.as_str()) {
        return Err(FlickrError::UrlError("photo URL has no scheme".to_owned()));
    }
    let height_k = match dimension_to_u32(&raw.height_k) {
        Ok(v) => v,
        Err(e) => {
            return Err(e);
        },
    };
    let width_k = match dimension_to_u32(&raw.width_k) {
        Ok(v) => v,
        Err(e) => {
            return Err(e);
        },
    };
    Ok(
        Photo {
            title: raw.title,
            public: raw.public == 1,
            url_k: raw.url_k,
            height_k,
            width_k,
            secret: raw.secret,
        },
    )
}

impl TryFrom<PhotoRaw> for Photo {
    type Error = FlickrError;

    /// Forwarder; the contract lives on `photo_from_raw`.
    fn try_from(value: PhotoRaw) -> Result<Self, Self::Error> {
        photo_from_raw(value)
    }
}

/// One page of the photo listing.
#[derive(Debug)]
pub struct PhotosResponse {
    pub photos: PhotosResponsePhotos,
    pub stat: Stat,
}

/// The record list inside a listing page.
#[derive(Debug)]
pub struct PhotosResponsePhotos {
    pub photo: Vec<PhotoRaw>,
}

/// Normalize a whole listing page. A failed status is a protocol
/// error; one bad record rejects the page.
#[verifier::loop_isolation(false)]
pub fn photos_from_response(res: PhotosResponse) -> (r: Result<Vec<Photo>, FlickrError>)
    ensures
        res.stat is Fail ==> r is Err && r->Err_0 is AuthenticationError,
        res.stat is Okay && (forall|i: int|
            0 <= i < res.photos.photo@.len() ==> photo_raw_ok(#[trigger] res.photos.photo@[i]))
            <==> r is Ok,
        r is Ok ==> r->Ok_0@.len() == res.photos.photo@.len() && (forall|i: int|
            0 <= i < res.photos.photo@.len() ==> photo_matches(
                #[trigger] r->Ok_0@[i],
                res.photos.photo@[i],
            )),
        res.stat is Okay && r is Err ==> r->Err_0 is ParseError || r->Err_0 is UrlError,
{
    match res.stat {
        Stat::Fail => Err(FlickrError::AuthenticationError),
        Stat::Okay => {
            let ghost raws = res.photos.photo@;
            let mut remaining = res.photos.photo;
            let mut out: Vec<Photo> = Vec::new();
            while remaining.len() > 0
                invariant
                    out@.len() + remaining@.len() == raws.len(),
                    remaining@ =~= raws.skip(out@.len() as int),
                    forall|i: int|
                        0 <= i < out@.len() ==> photo_raw_ok(#[trigger] raws[i]) && photo_matches(
                            out@[i],
                            raws[i],
                        ),
                decreases remaining@.len(),
            {
                let raw = remaining.remove(0);
                proof {
                    assert(raw == raws.skip(out@.len() as int)[0]);
                    assert(raw == raws[out@.len() as int]);
                    assert(remaining@ =~= raws.skip(out@.len() as int).skip(1));
                    assert(raws.skip(out@.len() as int).skip(1) =~= raws.skip(out@.len() as int + 1));
                }
                match photo_from_raw(raw) {
                    Ok(p) => {
                        out.push(p);
                    },
                    Err(e) => {
                        proof {
                            assert(!photo_raw_ok(raws[out@.len() as int]));
                        }
                        return Err(e);
                    },
                }
            }
            proof {
                assert(raws.skip(out@.len() as int).len() == 0);
            }
            Ok(out)
        },
    }
}

/// The provider's account behind a token.
#[derive(Debug)]
pub struct User {
    pub nsid: String,
    pub username: String,
    pub fullname: String,
}

/// A flat view of a token check: the token, its permissions, and the
/// user it belongs to.
#[derive(Debug)]
pub struct OauthToken {
    pub token: String,
    pub perms: String,
    pub user: User,
}

/// A nested `_content` element of the token-check response.
#[derive(Debug)]
pub struct Element {
    pub content: String,
}

/// The nested payload of a token check.
#[derive(Debug)]
pub struct CheckTokenResponseOauth {
    pub token: Element,
    pub perms: Element,
    pub user: User,
}

/// The token-check response as the API returns it.
#[derive(Debug)]
pub struct CheckTokenResponse {
    pub oauth: CheckTokenResponseOauth,
    pub stat: Stat,
}

impl core::convert::From<CheckTokenResponse> for OauthToken {
    /// Flatten the nested token-check response.
    fn from(res: CheckTokenResponse) -> (r: OauthToken) {
        OauthToken { token: res.oauth.token.content, perms: res.oauth.perms.content, user: res.oauth.user }
    }
}

impl vstd::std_specs::convert::FromSpecImpl<CheckTokenResponse> for OauthToken {
    open spec fn obeys_from_spec() -> bool {
        true
    }

    open spec fn from_spec(res: CheckTokenResponse) -> OauthToken {
        OauthToken { token: res.oauth.token.content, perms: res.oauth.perms.content, user: res.oauth.user }
    }
}

/// Consumer key issued at registration time.
#[derive(Debug)]
pub struct ConsumerKey(pub String);

/// Consumer secret issued at registration time.
#[derive(Debug)]
pub struct ConsumerSecret(pub String);

/// Secret paired with a token; empty before any token exists.
#[derive(Debug)]
pub struct TokenSecret(String);

impl View for TokenSecret {
    type V = Seq<char>;

    closed spec fn view(&self) -> Seq<char> {
        self.0@
    }
}

impl TokenSecret {
    /// Wrap a secret string.
    pub fn new(secret: String) -> (r: TokenSecret)
        ensures
            r@ == secret@,
    {
        TokenSecret(secret)
    }

    /// The secret as text.
    pub fn value(&self) -> (r: &str)
        ensures
            r@ == self@,
    {
        self.0.as_str()
    }
}

impl Default for TokenSecret {
    /// The empty secret, used before any token secret exists.
    fn default() -> (r: Self)
        ensures
            r@ == Seq::<char>::empty(),
    {
        TokenSecret(String::new())
    }
}

/// Long-lived token authorizing API calls for one user; the only
/// credential that is ever persisted.
#[derive(Debug)]
pub struct AccessToken {
    token: String,
    secret: TokenSecret,
}

impl View for AccessToken {
    type V = (Seq<char>, Seq<char>);

    closed spec fn view(&self) -> (Seq<char>, Seq<char>) {
        (self.token@, self.secret@)
    }
}

impl AccessToken {
    /// Assemble an access token from its parts.
    pub fn new(token: String, secret: TokenSecret) -> (r: AccessToken)
        ensures
            r@ == (token@, secret@),
    {
        AccessToken { token, secret }
    }

    /// The token itself.
    pub fn token(&self) -> (r: &str)
        ensures
            r@ == self@.0,
    {
        self.token.as_str()
    }

    /// The secret paired with the token.
    pub fn secret(&self) -> (r: &TokenSecret)
        ensures
            r@ == self@.1,
    {
        &self.secret
    }
}

/// Short-lived token carrying the user through the authorization step;
/// never persisted.
pub struct RequestToken {
    token: String,
    secret: TokenSecret,
}

impl View for RequestToken {
    type V = (Seq<char>, Seq<char>);

    closed spec fn view(&self) -> (Seq<char>, Seq<char>) {
        (self.token@, self.secret@)
    }
}

impl RequestToken {
    /// Assemble a request token from its parts.
    pub fn new(token: String, secret: TokenSecret) -> (r: RequestToken)
        ensures
            r@ == (token@, secret@),
    {
        RequestToken { token, secret }
    }

    /// The token itself.
    pub fn token(&self) -> (r: &str)
        ensures
            r@ == self@.0,
    {
        self.token.as_str()
    }

    /// The secret paired with the token.
    pub fn secret(&self) -> (r: &TokenSecret)
        ensures
            r@ == self@.1,
    {
        &self.secret
    }
}

/// An unauthenticated client: consumer credentials only.
#[derive(Debug)]
pub struct Client {
    consumer_key: ConsumerKey,
    consumer_secret: ConsumerSecret,
}

impl View for Client {
    type V = (Seq<char>, Seq<char>);

    closed spec fn view(&self) -> (Seq<char>, Seq<char>) {
        (self.consumer_key.0@, self.consumer_secret.0@)
    }
}

impl Client {
    /// A client from the registration-time credentials.
    pub fn new(consumer_key: &str, consumer_secret: &str) -> (r: Self)
        ensures
            r@ == (consumer_key@, consumer_secret@),
    {
        Client {
            consumer_key: ConsumerKey(consumer_key.to_owned()),
            consumer_secret: ConsumerSecret(consumer_secret.to_owned()),
        }
    }
}

/// A client holding an access token: the only entity that signs
/// authenticated API calls.
#[derive(Debug)]
pub struct AuthenticatedClient {
    consumer_key: ConsumerKey,
    consumer_secret: ConsumerSecret,
    access_token: AccessToken,
}

impl View for AuthenticatedClient {
    type V = (Seq<char>, Seq<char>, (Seq<char>, Seq<char>));

    closed spec fn view(&self) -> (Seq<char>, Seq<char>, (Seq<char>, Seq<char>)) {
        (self.consumer_key.0@, self.consumer_secret.0@, self.access_token@)
    }
}

impl AuthenticatedClient {
    /// Combine consumer credentials with an access token.
    pub fn new(client: Client, access_token: AccessToken) -> (r: Self)
        ensures
            r@ == (client@.0, client@.1, access_token@),
    {
        AuthenticatedClient {
            consumer_key: client.consumer_key,
            consumer_secret: client.consumer_secret,
            access_token,
        }
    }

    /// The access token this client signs with.
    pub fn access_token(&self) -> (r: &AccessToken)
        ensures
            r@ == self@.2,
    {
        &self.access_token
    }
}


/// The request-token endpoint.
pub fn request_token_url() -> (r: &'static str)
    ensures
        r@ == "https://www.flickr.com/services/oauth/request_token"@,
{
    "https://www.flickr.com/services/oauth/request_token"
}

/// The access-token endpoint.
pub fn access_token_url() -> (r: &'static str)
    ensures
        r@ == "https://www.flickr.com/services/oauth/access_token"@,
{
    "https://www.flickr.com/services/oauth/access_token"
}

/// The user-facing authorization page.
pub fn authorize_url() -> (r: &'static str)
    ensures
        r@ == "https://www.flickr.com/services/oauth/authorize"@,
{
    "https://www.flickr.com/services/oauth/authorize"
}

/// The REST endpoint for authenticated API calls.
pub fn rest_url() -> (r: &'static str)
    ensures
        r@ == "https://api.flickr.com/services/rest"@,
{
    "https://api.flickr.com/services/rest"
}

/// Relies on the uuid crate's `Uuid::new_v4` and its hyphenated text
/// form: a fresh random identifier, 36 characters in five hyphenated
/// groups, with the version digit fixed at `4`. Nothing more is
/// assumed of a random value; in particular no two draws are promised
/// distinct, though a repeat within the provider's replay window is
/// astronomically unlikely.
#[verifier::external_body]
pub fn generate_nonce() -> (r: String)
    ensures
        r@.len() == 36,
        r@[8] == '-',
        r@[13] == '-',
        r@[18] == '-',
        r@[23] == '-',
        r@[14] == '4',
{
    Uuid::new_v4().to_string()
}

/// Relies on std's `SystemTime`: the clock reading as whole seconds
/// since the Unix epoch, or zero if the clock reads earlier than the
/// epoch. Nothing is assumed of the value.
#[verifier::external_body]
pub fn timestamp() -> u64 {
    std::time::SystemTime::now().duration_since(std::time::SystemTime::UNIX_EPOCH).map(
        |d| d.as_secs(),
    ).unwrap_or(0)
}

/// The six parameters of a request-token call, before signing.
pub open spec fn spec_request_token_params(ck: Seq<u8>, nonce: Seq<u8>, ts: nat) -> Seq<
    (Seq<u8>, Seq<u8>),
> {
    seq![
        (encode_utf8("oauth_nonce"@), nonce),
        (encode_utf8("oauth_timestamp"@), dec_bytes(ts)),
        (encode_utf8("oauth_consumer_key"@), ck),
        (encode_utf8("oauth_signature_method"@), encode_utf8("HMAC-SHA1"@)),
        (encode_utf8("oauth_version"@), encode_utf8("1.0"@)),
        (encode_utf8("oauth_callback"@), encode_utf8("oob"@)),
    ]
}

/// The same parameters with `oauth_signature` appended; the signature
/// is computed over the unsigned six with an empty token secret.
pub open spec fn spec_request_token_params_signed(
    ck: Seq<u8>,
    cs: Seq<u8>,
    nonce: Seq<u8>,
    ts: nat,
) -> Seq<(Seq<u8>, Seq<u8>)> {
    let base = spec_request_token_params(ck, nonce, ts);
    base.push(
        (
            encode_utf8("oauth_signature"@),
            encode_utf8(
                spec_signature(
                    encode_utf8("GET"@),
                    encode_utf8("https://www.flickr.com/services/oauth/request_token"@),
                    base,
                    cs,
                    encode_utf8(Seq::<char>::empty()),
                ),
            ),
        ),
    )
}

impl Client {
    /// The signed parameter list of a request-token call, for a given
    /// nonce and timestamp.
    pub fn request_token_params_with(&self, nonce: &str, ts: u64) -> (r: Vec<(String, String)>)
        ensures
            params_bytes(r@) == spec_request_token_params_signed(
                encode_utf8(self@.0),
                encode_utf8(self@.1),
                encode_utf8(nonce@),
                ts as nat,
            ),
    {
        let mut params: Vec<(String, String)> = Vec::new();
        params.push(("oauth_nonce".to_owned(), nonce.to_owned()));
        params.push(("oauth_timestamp".to_owned(), u64_to_string(ts)));
        params.push(("oauth_consumer_key".to_owned(), self.consumer_key.0.clone()));
        params.push(("oauth_signature_method".to_owned(), "HMAC-SHA1".to_owned()));
        params.push(("oauth_version".to_owned(), "1.0".to_owned()));
        params.push(("oauth_callback".to_owned(), "oob".to_owned()));
        proof {
            assert(params_bytes(params@) =~= spec_request_token_params(
                encode_utf8(self@.0),
                encode_utf8(nonce@),
                ts as nat,
            ));
        }
        let empty_secret = TokenSecret::default();
        let oauth_signature = signature(
            "GET",
            request_token_url(),
            &params,
            &self.consumer_secret,
            &empty_secret,
        );
        let ghost before = params@;
        params.push(("oauth_signature".to_owned(), oauth_signature));
        proof {
            assert(params_bytes(params@) =~= params_bytes(before).push(
                (
                    encode_utf8("oauth_signature"@),
                    encode_utf8(
                        spec_signature(
                            encode_utf8("GET"@),
                            encode_utf8(
                                "https://www.flickr.com/services/oauth/request_token"@,
                            ),
                            params_bytes(before),
                            encode_utf8(self@.1),
                            encode_utf8(Seq::<char>::empty()),
                        ),
                    ),
                ),
            ));
        }
        params
    }

    /// The signed parameter list of a request-token call, with a fresh
    /// nonce and the current time.
    pub fn request_token_params(&self) -> (r: Vec<(String, String)>)
        ensures
            exists|nonce: Seq<char>, ts: u64|
                #![auto]
                nonce.len() == 36 && params_bytes(r@) == spec_request_token_params_signed(
                    encode_utf8(self@.0),
                    encode_utf8(self@.1),
                    encode_utf8(nonce),
                    ts as nat,
                ),
    {
        let nonce = generate_nonce();
        let ts = timestamp();
        let r = self.request_token_params_with(nonce.as_str(), ts);
        proof {
            assert(params_bytes(r@) == spec_request_token_params_signed(
                encode_utf8(self@.0),
                encode_utf8(self@.1),
                encode_utf8(nonce@),
                ts as nat,
            ));
        }
        r
    }
}

/// The seven parameters of an access-token exchange, before signing.
pub open spec fn spec_access_token_params(
    ck: Seq<u8>,
    req_token: Seq<u8>,
    code: Seq<u8>,
    nonce: Seq<u8>,
    ts: nat,
) -> Seq<(Seq<u8>, Seq<u8>)> {
    seq![
        (encode_utf8("oauth_nonce"@), nonce),
        (encode_utf8("oauth_timestamp"@), dec_bytes(ts)),
        (encode_utf8("oauth_token"@), req_token),
        (encode_utf8("oauth_verifier"@), code),
        (encode_utf8("oauth_consumer_key"@), ck),
        (encode_utf8("oauth_signature_method"@), encode_utf8("HMAC-SHA1"@)),
        (encode_utf8("oauth_version"@), encode_utf8("1.0"@)),
    ]
}

/// The same parameters with `oauth_signature` appended; the signature
/// is keyed by the consumer secret and the request token's secret.
pub open spec fn spec_access_token_params_signed(
    ck: Seq<u8>,
    cs: Seq<u8>,
    req_token: Seq<u8>,
    req_secret: Seq<u8>,
    code: Seq<u8>,
    nonce: Seq<u8>,
    ts: nat,
) -> Seq<(Seq<u8>, Seq<u8>)> {
    let base = spec_access_token_params(ck, req_token, code, nonce, ts);
    base.push(
        (
            encode_utf8("oauth_signature"@),
            encode_utf8(
                spec_signature(
                    encode_utf8("GET"@),
                    encode_utf8("https://www.flickr.com/services/oauth/access_token"@),
                    base,
                    cs,
                    req_secret,
                ),
            ),
        ),
    )
}

impl Client {
    /// The signed parameter list of an access-token exchange, for a
    /// given nonce and timestamp.
    pub fn access_token_params_with(
        &self,
        request_token: &RequestToken,
        verification_code: &str,
        nonce: &str,
        ts: u64,
    ) -> (r: Vec<(String, String)>)
        ensures
            params_bytes(r@) == spec_access_token_params_signed(
                encode_utf8(self@.0),
                encode_utf8(self@.1),
                encode_utf8(request_token@.0),
                encode_utf8(request_token@.1),
                encode_utf8(verification_code@),
                encode_utf8(nonce@),
                ts as nat,
            ),
    {
        let mut params: Vec<(String, String)> = Vec::new();
        params.push(("oauth_nonce".to_owned(), nonce.to_owned()));
        params.push(("oauth_timestamp".to_owned(), u64_to_string(ts)));
        params.push(("oauth_token".to_owned(), request_token.token.clone()));
        params.push(("oauth_verifier".to_owned(), verification_code.to_owned()));
        params.push(("oauth_consumer_key".to_owned(), self.consumer_key.0.clone()));
        params.push(("oauth_signature_method".to_owned(), "HMAC-SHA1".to_owned()));
        params.push(("oauth_version".to_owned(), "1.0".to_owned()));
        proof {
            assert(params_bytes(params@) =~= spec_access_token_params(
                encode_utf8(self@.0),
                encode_utf8(request_token@.0),
                encode_utf8(verification_code@),
                encode_utf8(nonce@),
                ts as nat,
            ));
        }
        let oauth_signature = signature(
            "GET",
            access_token_url(),
            &params,
            &self.consumer_secret,
            &request_token.secret,
        );
        let ghost before = params@;
        params.push(("oauth_signature".to_owned(), oauth_signature));
        proof {
            assert(params_bytes(params@) =~= params_bytes(before).push(
                (
                    encode_utf8("oauth_signature"@),
                    encode_utf8(
                        spec_signature(
                            encode_utf8("GET"@),
                            encode_utf8(
                                "https://www.flickr.com/services/oauth/access_token"@,
                            ),
                            params_bytes(before),
                            encode_utf8(self@.1),
                            encode_utf8(request_token@.1),
                        ),
                    ),
                ),
            ));
        }
        params
    }

    /// The signed parameter list of an access-token exchange, with a
    /// fresh nonce and the current time.
    pub fn access_token_params(
        &self,
        request_token: &RequestToken,
        verification_code: &str,
    ) -> (r: Vec<(String, String)>)
        ensures
            exists|nonce: Seq<char>, ts: u64|
                #![auto]
                nonce.len() == 36 && params_bytes(r@) == spec_access_token_params_signed(
                    encode_utf8(self@.0),
                    encode_utf8(self@.1),
                    encode_utf8(request_token@.0),
                    encode_utf8(request_token@.1),
                    encode_utf8(verification_code@),
                    encode_utf8(nonce),
                    ts as nat,
                ),
    {
        let nonce = generate_nonce();
        let ts = timestamp();
        let r = self.access_token_params_with(request_token, verification_code, nonce.as_str(), ts);
        proof {
            assert(params_bytes(r@) == spec_access_token_params_signed(
                encode_utf8(self@.0),
                encode_utf8(self@.1),
                encode_utf8(request_token@.0),
                encode_utf8(request_token@.1),
                encode_utf8(verification_code@),
                encode_utf8(nonce@),
                ts as nat,
            ));
        }
        r
    }
}

/// The parameters of the authorization page a user is sent to.
pub fn authorize_url_params(request_token: &RequestToken) -> (r: Vec<(String, String)>)
    ensures
        params_bytes(r@) == seq![
            (encode_utf8("oauth_token"@), encode_utf8(request_token@.0)),
            (encode_utf8("perms"@), encode_utf8("read"@)),
        ],
{
    let mut params: Vec<(String, String)> = Vec::new();
    params.push(("oauth_token".to_owned(), request_token.token.clone()));
    params.push(("perms".to_owned(), "read".to_owned()));
    proof {
        assert(params_bytes(params@) =~= seq![
            (encode_utf8("oauth_token"@), encode_utf8(request_token@.0)),
            (encode_utf8("perms"@), encode_utf8("read"@)),
        ]);
    }
    params
}

/// The ten standard parameters of an authenticated API call followed
/// by the caller's extra arguments, before signing.
pub open spec fn spec_call_params(
    ck: Seq<u8>,
    token: Seq<u8>,
    method: Seq<u8>,
    nonce: Seq<u8>,
    ts: nat,
    args: Seq<(Seq<u8>, Seq<u8>)>,
) -> Seq<(Seq<u8>, Seq<u8>)> {
    seq![
        (encode_utf8("api_key"@), ck),
        (encode_utf8("oauth_nonce"@), nonce),
        (encode_utf8("oauth_timestamp"@), dec_bytes(ts)),
        (encode_utf8("oauth_token"@), token),
        (encode_utf8("oauth_consumer_key"@), ck),
        (encode_utf8("oauth_signature_method"@), encode_utf8("HMAC-SHA1"@)),
        (encode_utf8("oauth_version"@), encode_utf8("1.0"@)),
        (encode_utf8("format"@), encode_utf8("json"@)),
        (encode_utf8("nojsoncallback"@), encode_utf8("1"@)),
        (encode_utf8("method"@), method),
    ] + args
}

/// The same parameters with `oauth_signature` appended; the signature
/// is keyed by the consumer secret and the access token's secret.
pub open spec fn spec_call_params_signed(
    ck: Seq<u8>,
    cs: Seq<u8>,
    token: Seq<u8>,
    token_secret: Seq<u8>,
    method: Seq<u8>,
    nonce: Seq<u8>,
    ts: nat,
    args: Seq<(Seq<u8>, Seq<u8>)>,
) -> Seq<(Seq<u8>, Seq<u8>)> {
    let base = spec_call_params(ck, token, method, nonce, ts, args);
    base.push(
        (
            encode_utf8("oauth_signature"@),
            encode_utf8(
                spec_signature(
                    encode_utf8("GET"@),
                    encode_utf8("https://api.flickr.com/services/rest"@),
                    base,
                    cs,
                    token_secret,
                ),
            ),
        ),
    )
}

impl AuthenticatedClient {
    /// The signed parameter list of an authenticated API call, for a
    /// given nonce and timestamp.
    pub fn call_params_with(
        &self,
        method: &str,
        arguments: &Vec<(String, String)>,
        nonce: &str,
        ts: u64,
    ) -> (r: Vec<(String, String)>)
        ensures
            params_bytes(r@) == spec_call_params_signed(
                encode_utf8(self@.0),
                encode_utf8(self@.1),
                encode_utf8(self@.2.0),
                encode_utf8(self@.2.1),
                encode_utf8(method@),
                encode_utf8(nonce@),
                ts as nat,
                params_bytes(arguments@),
            ),
    {
        let mut params: Vec<(String, String)> = Vec::new();
        params.push(("api_key".to_owned(), self.consumer_key.0.clone()));
        params.push(("oauth_nonce".to_owned(), nonce.to_owned()));
        params.push(("oauth_timestamp".to_owned(), u64_to_string(ts)));
        params.push(("oauth_token".to_owned(), self.access_token.token.clone()));
        params.push(("oauth_consumer_key".to_owned(), self.consumer_key.0.clone()));
        params.push(("oauth_signature_method".to_owned(), "HMAC-SHA1".to_owned()));
        params.push(("oauth_version".to_owned(), "1.0".to_owned()));
        params.push(("format".to_owned(), "json".to_owned()));
        params.push(("nojsoncallback".to_owned(), "1".to_owned()));
        params.push(("method".to_owned(), method.to_owned()));
        let ghost head = params@;
        let mut i: usize = 0;
        while i < arguments.len()
            invariant
                i <= arguments@.len(),
                params@.len() == head.len() + i,
                params@.take(head.len() as int) =~= head,
                params_bytes(params@) =~= params_bytes(head) + params_bytes(
                    arguments@.take(i as int),
                ),
            decreases arguments@.len() - i,
        {
            let pair = &arguments[i];
            let ghost params_before = params@;
            params.push((pair.0.clone(), pair.1.clone()));
            proof {
                let p = arguments@[i as int];
                let pb = (encode_utf8(p.0@), encode_utf8(p.1@));
                assert(arguments@.take(i + 1) =~= arguments@.take(i as int).push(p));
                assert(params_bytes(arguments@.take(i + 1)) =~= params_bytes(
                    arguments@.take(i as int),
                ).push(pb));
                assert(params_bytes(params@) =~= params_bytes(params_before).push(pb));
                assert(params_bytes(params@) =~= params_bytes(head) + params_bytes(
                    arguments@.take(i + 1),
                ));
            }
            i += 1;
        }
        proof {
            assert(arguments@.take(arguments@.len() as int) =~= arguments@);
            assert(params_bytes(params@) =~= spec_call_params(
                encode_utf8(self@.0),
                encode_utf8(self@.2.0),
                encode_utf8(method@),
                encode_utf8(nonce@),
                ts as nat,
                params_bytes(arguments@),
            ));
        }
        let oauth_signature = signature(
            "GET",
            rest_url(),
            &params,
            &self.consumer_secret,
            &self.access_token.secret,
        );
        let ghost before = params@;
        params.push(("oauth_signature".to_owned(), oauth_signature));
        proof {
            assert(params_bytes(params@) =~= params_bytes(before).push(
                (
                    encode_utf8("oauth_signature"@),
                    encode_utf8(
                        spec_signature(
                            encode_utf8("GET"@),
                            encode_utf8("https://api.flickr.com/services/rest"@),
                            params_bytes(before),
                            encode_utf8(self@.1),
                            encode_utf8(self@.2.1),
                        ),
                    ),
                ),
            ));
        }
        params
    }

    /// The signed parameter list of an authenticated API call, with a
    /// fresh nonce and the current time.
    pub fn call_params(&self, method: &str, arguments: &Vec<(String, String)>) -> (r: Vec<
        (String, String),
    >)
        ensures
            exists|nonce: Seq<char>, ts: u64|
                #![auto]
                nonce.len() == 36 && params_bytes(r@) == spec_call_params_signed(
                    encode_utf8(self@.0),
                    encode_utf8(self@.1),
                    encode_utf8(self@.2.0),
                    encode_utf8(self@.2.1),
                    encode_utf8(method@),
                    encode_utf8(nonce),
                    ts as nat,
                    params_bytes(arguments@),
                ),
    {
        let nonce = generate_nonce();
        let ts = timestamp();
        let r = self.call_params_with(method, arguments, nonce.as_str(), ts);
        proof {
            assert(params_bytes(r@) == spec_call_params_signed(
                encode_utf8(self@.0),
                encode_utf8(self@.1),
                encode_utf8(self@.2.0),
                encode_utf8(self@.2.1),
                encode_utf8(method@),
                encode_utf8(nonce@),
                ts as nat,
                params_bytes(arguments@),
            ));
        }
        r
    }
}

/// Merge the caller's listing arguments with the target user.
pub fn photos_arguments(user_id: &str, arguments: &Vec<(String, String)>) -> (r: Vec<
    (String, String),
>)
    ensures
        params_bytes(r@) == params_bytes(arguments@).push(
            (encode_utf8("user_id"@), encode_utf8(user_id@)),
        ),
{
    let mut out: Vec<(String, String)> = Vec::new();
    let mut i: usize = 0;
    while i < arguments.len()
        invariant
            i <= arguments@.len(),
            params_bytes(out@) =~= params_bytes(arguments@.take(i as int)),
        decreases arguments@.len() - i,
    {
        let pair = &arguments[i];
        let ghost out_before = out@;
        out.push((pair.0.clone(), pair.1.clone()));
        proof {
            let p = arguments@[i as int];
            let pb = (encode_utf8(p.0@), encode_utf8(p.1@));
            assert(arguments@.take(i + 1) =~= arguments@.take(i as int).push(p));
            assert(params_bytes(arguments@.take(i + 1)) =~= params_bytes(
                arguments@.take(i as int),
            ).push(pb));
            assert(params_bytes(out@) =~= params_bytes(out_before).push(pb));
            assert(params_bytes(out@) =~= params_bytes(arguments@.take(i + 1)));
        }
        i += 1;
    }
    proof {
        assert(arguments@.take(arguments@.len() as int) =~= arguments@);
    }
    out.push(("user_id".to_owned(), user_id.to_owned()));
    proof {
        assert(params_bytes(out@) =~= params_bytes(arguments@).push(
            (encode_utf8("user_id"@), encode_utf8(user_id@)),
        ));
    }
    out
}



/// The first position of a byte in a byte string.
pub open spec fn find_byte(s: Seq<u8>, d: u8) -> Option<int>
    decreases s.len(),
{
    if s.len() == 0 {
        None
    } else if s[0] == d {
        Some(0)
    } else {
        match find_byte(s.drop_first(), d) {
            None => None,
            Some(i) => Some(i + 1),
        }
    }
}

pub(crate) proof fn lemma_find_byte_at(s: Seq<u8>, d: u8, i: int)
    requires
        0 <= i <= s.len(),
        forall|k: int| 0 <= k < i ==> s[k] != d,
        i == s.len() || s[i] == d,
    ensures
        find_byte(s, d) == if i == s.len() {
            Option::<int>::None
        } else {
            Option::<int>::Some(i)
        },
    decreases s.len(),
{
    if s.len() == 0 {
    } else if s[0] == d {
        assert(i == 0);
    } else {
        assert(i >= 1);
        let t = s.drop_first();
        assert(forall|k: int| 0 <= k < i - 1 ==> t[k] == s[k + 1]);
        assert(i - 1 == t.len() || t[i - 1] == s[i]);
        lemma_find_byte_at(t, d, i - 1);
    }
}

/// One `key=value` piece of a form-encoded body: the key is the text
/// before the first `=`, the value everything after that `=` up to the
/// piece's end; a piece without `=` is malformed.
pub open spec fn pair_of(s: Seq<u8>) -> Option<(Seq<u8>, Seq<u8>)> {
    match find_byte(s, EQUALS) {
        None => None,
        Some(i) => Some((s.take(i), s.skip(i + 1))),
    }
}

/// A form-encoded body, split at `&` into pieces; `None` when any
/// piece is malformed.
pub open spec fn parse_form(s: Seq<u8>) -> Option<Seq<(Seq<u8>, Seq<u8>)>>
    decreases s.len(),
{
    match find_byte(s, AMP) {
        None => match pair_of(s) {
            None => None,
            Some(p) => Some(seq![p]),
        },
        Some(i) => {
            if 0 <= i && i < s.len() {
                match (pair_of(s.take(i)), parse_form(s.skip(i + 1))) {
                    (Some(p), Some(rest)) => Some(seq![p] + rest),
                    _ => None,
                }
            } else {
                None
            }
        },
    }
}

/// First occurrence of a byte within a half-open range.
pub(crate) fn scan_byte(bytes: &[u8], from: usize, to: usize, d: u8) -> (r: usize)
    requires
        from <= to <= bytes@.len(),
    ensures
        from <= r <= to,
        forall|k: int| from <= k < r ==> bytes@[k] != d,
        r < to ==> bytes@[r as int] == d,
{
    let mut i: usize = from;
    while i < to && bytes[i] != d
        invariant
            from <= i <= to,
            to <= bytes@.len(),
            forall|k: int| from <= k < i ==> bytes@[k] != d,
        decreases to - i,
    {
        i += 1;
    }
    i
}

/// Copy a segment between ASCII cut points out of valid UTF-8 text.
fn segment_to_string(bytes: &[u8], i: usize, j: usize) -> (r: String)
    requires
        i <= j <= bytes@.len(),
        valid_utf8(bytes@),
        i == 0 || bytes@[i - 1] < 0x80,
        j == bytes@.len() || bytes@[j as int] < 0x80,
    ensures
        encode_utf8(r@) == bytes@.subrange(i as int, j as int),
{
    proof {
        lemma_ascii_delimited_segment_valid(bytes@, i as int, j as int);
    }
    let seg = slice_to_vec(slice_subrange(bytes, i, j));
    match string_from_utf8(seg) {
        Some(r) => r,
        None => {
            proof {
                assert(false);
            }
            String::new()
        },
    }
}

/// A piece without `=` makes the whole remaining body malformed.
proof fn lemma_parse_form_no_equals(full: Seq<u8>, start: int, amp: int)
    requires
        0 <= start <= amp <= full.len(),
        forall|k: int| start <= k < amp ==> full[k] != AMP,
        amp == full.len() || full[amp] == AMP,
        forall|k: int| start <= k < amp ==> full[k] != EQUALS,
    ensures
        parse_form(full.skip(start)) is None,
{
    let tail = full.skip(start);
    assert(forall|k: int| 0 <= k < amp - start ==> tail[k] == full[k + start]);
    lemma_find_byte_at(tail, AMP, amp - start);
    if amp == full.len() {
        lemma_find_byte_at(tail, EQUALS, amp - start);
        assert(pair_of(tail) is None);
    } else {
        let seg = tail.take(amp - start);
        assert(forall|k: int| 0 <= k < amp - start ==> seg[k] == full[k + start]);
        lemma_find_byte_at(seg, EQUALS, amp - start);
        assert(pair_of(seg) is None);
    }
}

/// Characterize one well-formed piece of the remaining body.
proof fn lemma_parse_form_segment(full: Seq<u8>, start: int, eq1: int, amp: int)
    requires
        0 <= start <= eq1 < amp <= full.len(),
        forall|k: int| start <= k < amp ==> full[k] != AMP,
        amp == full.len() || full[amp] == AMP,
        full[eq1] == EQUALS,
        forall|k: int| start <= k < eq1 ==> full[k] != EQUALS,
    ensures
        amp == full.len() ==> parse_form(full.skip(start)) == Some(
            seq![(full.subrange(start, eq1), full.subrange(eq1 + 1, amp))],
        ),
        amp < full.len() ==> parse_form(full.skip(start)) == (match parse_form(
            full.skip(amp + 1),
        ) {
            Option::<Seq<(Seq<u8>, Seq<u8>)>>::None => Option::<Seq<(Seq<u8>, Seq<u8>)>>::None,
            Option::<Seq<(Seq<u8>, Seq<u8>)>>::Some(rest) => Some(
                seq![(full.subrange(start, eq1), full.subrange(eq1 + 1, amp))] + rest,
            ),
        }),
{
    let tail = full.skip(start);
    assert(forall|k: int| 0 <= k < tail.len() ==> tail[k] == full[k + start]);
    lemma_find_byte_at(tail, AMP, amp - start);
    let seg = if amp == full.len() {
        tail
    } else {
        tail.take(amp - start)
    };
    assert(seg =~= full.subrange(start, amp));
    assert(forall|k: int| 0 <= k < seg.len() ==> seg[k] == full[k + start]);
    lemma_find_byte_at(seg, EQUALS, eq1 - start);
    assert(find_byte(seg, EQUALS) == Some(eq1 - start));
    assert(seg.skip(eq1 - start + 1) =~= full.subrange(eq1 + 1, amp));
    assert(seg.take(eq1 - start) =~= full.subrange(start, eq1));
    assert(pair_of(seg) == Some(
        (full.subrange(start, eq1), full.subrange(eq1 + 1, amp)),
    ));
    if amp < full.len() {
        assert(tail.skip(amp - start + 1) =~= full.skip(amp + 1));
    }
}

/// Split a form-encoded response body into its `key=value` pairs.
/// A piece without `=` makes the whole body malformed, a protocol
/// error.
#[verifier::loop_isolation(false)]
#[verifier::rlimit(60)]
pub fn parse_oauth_response(body: &str) -> (r: Result<Vec<(String, String)>, FlickrError>)
    ensures
        match r {
            Ok(pairs) => parse_form(encode_utf8(body@)) == Some(params_bytes(pairs@)),
            Err(e) => parse_form(encode_utf8(body@)) is None && e is AuthenticationError,
        },
{
    let bytes = body.as_bytes();
    let ghost full = encode_utf8(body@);
    proof {
        assert(bytes@ == full);
        encode_utf8_valid_utf8(body@);
    }
    let mut pairs: Vec<(String, String)> = Vec::new();
    let mut start: usize = 0;
    proof {
        assert(full.skip(0) =~= full);
    }
    loop
        invariant
            start <= bytes@.len(),
            start == 0 || full[start as int - 1] == AMP,
            parse_form(full) == (match parse_form(full.skip(start as int)) {
                Option::<Seq<(Seq<u8>, Seq<u8>)>>::None => Option::<
                    Seq<(Seq<u8>, Seq<u8>)>,
                >::None,
                Option::<Seq<(Seq<u8>, Seq<u8>)>>::Some(rest) => Some(
                    params_bytes(pairs@) + rest,
                ),
            }),
        decreases bytes@.len() - start,
    {
        let amp = scan_byte(bytes, start, bytes.len(), AMP);
        let eq1 = scan_byte(bytes, start, amp, EQUALS);
        if eq1 == amp {
            proof {
                lemma_parse_form_no_equals(full, start as int, amp as int);
            }
            return Err(FlickrError::AuthenticationError);
        }
        proof {
            lemma_parse_form_segment(full, start as int, eq1 as int, amp as int);
        }
        let key = segment_to_string(bytes, start, eq1);
        let value = segment_to_string(bytes, eq1 + 1, amp);
        let ghost pairs_before = pairs@;
        pairs.push((key, value));
        let ghost p = (
            full.subrange(start as int, eq1 as int),
            full.subrange(eq1 as int + 1, amp as int),
        );
        proof {
            assert(params_bytes(pairs@) =~= params_bytes(pairs_before).push(p));
        }
        if amp == bytes.len() {
            proof {
                assert(params_bytes(pairs_before) + seq![p] =~= params_bytes(pairs@));
            }
            return Ok(pairs);
        }
        proof {
            if parse_form(full.skip(amp as int + 1)) is Some {
                let rest = parse_form(full.skip(amp as int + 1))->Some_0;
                assert(params_bytes(pairs_before) + (seq![p] + rest) =~= params_bytes(
                    pairs@,
                ) + rest);
            }
        }
        start = amp + 1;
    }
}



/// The value of the last pair carrying the given key, if any; a later
/// occurrence of a key wins.
pub open spec fn last_value(pairs: Seq<(Seq<u8>, Seq<u8>)>, key: Seq<u8>) -> Option<Seq<u8>>
    decreases pairs.len(),
{
    if pairs.len() == 0 {
        None
    } else if pairs.last().0 == key {
        Some(pairs.last().1)
    } else {
        last_value(pairs.drop_last(), key)
    }
}

/// Scan the pairs for the last value under a key.
#[verifier::loop_isolation(false)]
fn last_value_for(pairs: &Vec<(String, String)>, key: &str) -> (r: Option<String>)
    ensures
        match r {
            Some(v) => last_value(params_bytes(pairs@), encode_utf8(key@)) == Some(
                encode_utf8(v@),
            ),
            None => last_value(params_bytes(pairs@), encode_utf8(key@)) is None,
        },
{
    let ghost pb = params_bytes(pairs@);
    let ghost kb = encode_utf8(key@);
    let mut found: Option<String> = None;
    proof {
        assert(pb.take(0) =~= Seq::<(Seq<u8>, Seq<u8>)>::empty());
    }
    let mut i: usize = 0;
    while i < pairs.len()
        invariant
            i <= pairs@.len(),
            match found {
                Option::Some(v) => last_value(pb.take(i as int), kb) == Some(encode_utf8(v@)),
                Option::None => last_value(pb.take(i as int), kb) is None,
            },
        decreases pairs@.len() - i,
    {
        proof {
            assert(pb.take(i + 1).drop_last() =~= pb.take(i as int));
            assert(pb.take(i + 1).last() == pb[i as int]);
            assert(pb[i as int] == (
                encode_utf8(pairs@[i as int].0@),
                encode_utf8(pairs@[i as int].1@),
            ));
        }
        let pair = &pairs[i];
        if bytes_eq(pair.0.as_str().as_bytes(), key.as_bytes()) {
            found = Some(pair.1.clone());
        }
        i += 1;
    }
    proof {
        assert(pb.take(pairs@.len() as int) =~= pb);
    }
    found
}

/// The token and its secret as a form-encoded token response carries
/// them, when the body parses and both fields are present.
pub open spec fn spec_token_fields(s: Seq<u8>) -> Option<(Seq<u8>, Seq<u8>)> {
    match parse_form(s) {
        None => None,
        Some(pairs) => match (
            last_value(pairs, encode_utf8("oauth_token"@)),
            last_value(pairs, encode_utf8("oauth_token_secret"@)),
        ) {
            (Some(t), Some(sec)) => Some((t, sec)),
            _ => None,
        },
    }
}

fn token_fields(body: &str) -> (r: Result<(String, String), FlickrError>)
    ensures
        r is Ok <==> spec_token_fields(encode_utf8(body@)) is Some,
        r is Ok ==> spec_token_fields(encode_utf8(body@)) == Some(
            (encode_utf8(r->Ok_0.0@), encode_utf8(r->Ok_0.1@)),
        ),
        r is Err ==> r->Err_0 is AuthenticationError,
{
    let pairs = match parse_oauth_response(body) {
        Ok(p) => p,
        Err(e) => {
            return Err(e);
        },
    };
    let token = last_value_for(&pairs, "oauth_token");
    let secret = last_value_for(&pairs, "oauth_token_secret");
    match (token, secret) {
        (Some(t), Some(sec)) => Ok((t, sec)),
        _ => Err(FlickrError::AuthenticationError),
    }
}

/// Parse a request-token response: the body must be well-formed and
/// must carry `oauth_token` and `oauth_token_secret`; anything else is
/// a protocol error.
pub fn parse_request_token_response(body: &str) -> (r: Result<RequestToken, FlickrError>)
    ensures
        r is Ok <==> spec_token_fields(encode_utf8(body@)) is Some,
        r is Ok ==> spec_token_fields(encode_utf8(body@)) == Some(
            (encode_utf8(r->Ok_0@.0), encode_utf8(r->Ok_0@.1)),
        ),
        r is Err ==> r->Err_0 is AuthenticationError,
{
    match token_fields(body) {
        Ok((t, sec)) => Ok(RequestToken::new(t, TokenSecret::new(sec))),
        Err(e) => Err(e),
    }
}

/// Parse an access-token response, with the same acceptance rule as
/// the request-token step.
pub fn parse_access_token_response(body: &str) -> (r: Result<AccessToken, FlickrError>)
    ensures
        r is Ok <==> spec_token_fields(encode_utf8(body@)) is Some,
        r is Ok ==> spec_token_fields(encode_utf8(body@)) == Some(
            (encode_utf8(r->Ok_0@.0), encode_utf8(r->Ok_0@.1)),
        ),
        r is Err ==> r->Err_0 is AuthenticationError,
{
    match token_fields(body) {
        Ok((t, sec)) => Ok(AccessToken::new(t, TokenSecret::new(sec))),
        Err(e) => Err(e),
    }
}


} // verus!
