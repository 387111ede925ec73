//! OAuth token handling: which token to use, when to refresh it, and what to
//! keep of the answer. The interactive consent happens elsewhere.
use vstd::prelude::*;
use vstd::string::*;
use vstd::utf8::*;
use crate::config::{Config, ConfigView};
use crate::http_client::{header_texts, HttpRequest, HttpResponse, Method, MethodView, RequestView};
use crate::text::{
    bytes_of, clone_opt, decimal, decimal_text, opt_text, text_from_utf8_lossy, utf8_lossy,
};
use crate::xml::{pct_byte, push_pct};

verus! {

/// Name of the token file in the state directory.
pub const TOKEN_FILE: &'static str = "token.json";

/// How many seconds before its expiry a token is no longer used.
pub const EXPIRY_SAFETY_MARGIN_SECS: u64 = 60;

/// The values of the token file.
#[derive(Debug)]
pub struct TokenFile {
    pub refresh_token: String,
    pub access_token: Option<String>,
    /// Unix seconds from which on the access token counts as expired.
    pub expires_at: u64,
}

/// What a [`TokenFile`] stands for.
pub struct TokenFileView {
    pub refresh_token: Seq<char>,
    pub access_token: Option<Seq<char>>,
    pub expires_at: u64,
}

impl View for TokenFile {
    type V = TokenFileView;

    open spec fn view(&self) -> TokenFileView {
        TokenFileView {
            refresh_token: self.refresh_token@,
            access_token: opt_text(self.access_token),
            expires_at: self.expires_at,
        }
    }
}

impl Clone for TokenFile {
    fn clone(&self) -> (r: Self)
        ensures
            r@ == self@,
    {
        TokenFile {
            refresh_token: self.refresh_token.clone(),
            access_token: clone_opt(&self.access_token),
            expires_at: self.expires_at,
        }
    }
}

/// The values of the token endpoint's answer.
#[derive(Debug)]
pub struct TokenResponse {
    pub access_token: String,
    pub refresh_token: Option<String>,
    pub expires_in: u64,
}

/// What a [`TokenResponse`] stands for.
pub struct TokenResponseView {
    pub access_token: Seq<char>,
    pub refresh_token: Option<Seq<char>>,
    pub expires_in: u64,
}

impl View for TokenResponse {
    type V = TokenResponseView;

    open spec fn view(&self) -> TokenResponseView {
        TokenResponseView {
            access_token: self.access_token@,
            refresh_token: opt_text(self.refresh_token),
            expires_in: self.expires_in,
        }
    }
}

/// Whether the byte stands for itself in a form.
pub open spec fn is_form_plain(b: u8) -> bool {
    65 <= b <= 90 || 97 <= b <= 122 || 48 <= b <= 57 || b == 45 || b == 95 || b == 46 || b == 126
}

/// The bytes, form-encoded: a space is a plus sign.
pub open spec fn form_bytes(bytes: Seq<u8>) -> Seq<char>
    decreases bytes.len(),
{
    if bytes.len() == 0 {
        Seq::empty()
    } else if is_form_plain(bytes.last()) {
        form_bytes(bytes.drop_last()).push(bytes.last() as char)
    } else if bytes.last() == 32 {
        form_bytes(bytes.drop_last()).push('+')
    } else {
        form_bytes(bytes.drop_last()) + pct_byte(bytes.last())
    }
}

/// Encodes a text for `application/x-www-form-urlencoded`.
pub fn urlencode(s: &str) -> (r: String)
    ensures
        r@ == form_bytes(encode_utf8(s@)),
{
    let bytes = s.as_bytes();
    let ghost bs = encode_utf8(s@);
    let mut out = String::new();
    for i in 0..bytes.len()
        invariant
            bytes@ == bs,
            out@ == form_bytes(bs.take(i as int)),
    {
        assert(bs.take(i + 1).drop_last() =~= bs.take(i as int));
        let b = bytes[i];
        if (65 <= b && b <= 90) || (97 <= b && b <= 122) || (48 <= b && b <= 57) || b == 45 || b
            == 95 || b == 46 || b == 126 {
            out.push(b as char);
        } else if b == 32 {
            out.push('+');
        } else {
            push_pct(&mut out, b);
        }
    }
    assert(bs.take(bytes@.len() as int) =~= bs);
    out
}

/// The form of a refresh request.
pub open spec fn refresh_form(client_id: Seq<char>, refresh_token: Seq<char>) -> Seq<char> {
    "client_id="@ + form_bytes(encode_utf8(client_id))
        + "&grant_type=refresh_token&refresh_token="@ + form_bytes(encode_utf8(refresh_token))
        + "&scope="@ + form_bytes(
        encode_utf8("offline_access Files.ReadWrite.All User.Read"@),
    )
}

/// The request that refreshes a token; it needs a client id.
pub open spec fn refresh_request(config: ConfigView, refresh_token: Seq<char>) -> Result<
    RequestView,
    Seq<char>,
> {
    match config.client_id {
        None => Err("missing required env var ONEDRIVE_CLIENT_ID for token refresh"@),
        Some(client_id) => Ok(
            RequestView {
                method: MethodView::Post,
                url: "https://login.microsoftonline.com/"@ + config.tenant_id
                    + "/oauth2/v2.0/token"@,
                headers: seq![("content-type"@, "application/x-www-form-urlencoded"@)],
                body: encode_utf8(refresh_form(client_id, refresh_token)),
            },
        ),
    }
}

/// Builds the request that refreshes a token.
pub fn refresh(config: &Config, refresh_token: &str) -> (r: Result<HttpRequest, String>)
    ensures
        match r {
            Ok(req) => refresh_request(config@, refresh_token@) == Ok::<RequestView, Seq<char>>(
                req@,
            ),
            Err(e) => refresh_request(config@, refresh_token@) == Err::<RequestView, Seq<char>>(
                e@,
            ),
        },
{
    let client_id = match &config.client_id {
        Some(id) => id,
        None => {
            return Err(
                "missing required env var ONEDRIVE_CLIENT_ID for token refresh".to_owned(),
            );
        },
    };
    let mut url = "https://login.microsoftonline.com/".to_owned();
    url.append(config.tenant_id.as_str());
    url.append("/oauth2/v2.0/token");
    let mut form = "client_id=".to_owned();
    form.append(urlencode(client_id.as_str()).as_str());
    form.append("&grant_type=refresh_token&refresh_token=");
    form.append(urlencode(refresh_token).as_str());
    form.append("&scope=");
    form.append(urlencode("offline_access Files.ReadWrite.All User.Read").as_str());
    let mut headers: Vec<(String, String)> = Vec::new();
    headers.push(
        ("content-type".to_owned(), "application/x-www-form-urlencoded".to_owned()),
    );
    assert(header_texts(headers@) =~= seq![
        ("content-type"@, "application/x-www-form-urlencoded"@),
    ]);
    Ok(HttpRequest { method: Method::Post, url, headers, body: bytes_of(form.as_str()) })
}

/// The token file after a refresh: the answer's refresh token, or the one
/// that was sent if the answer has none.
pub open spec fn renewed(
    answer: TokenResponseView,
    refresh_token: Seq<char>,
    now: u64,
) -> TokenFileView {
    TokenFileView {
        refresh_token: match answer.refresh_token {
            Some(t) => t,
            None => refresh_token,
        },
        access_token: Some(answer.access_token),
        expires_at: (now + usable_secs(answer.expires_in)) as u64,
    }
}

/// How long an access token is used: not the last minute.
pub open spec fn usable_secs(expires_in: u64) -> int {
    if expires_in > EXPIRY_SAFETY_MARGIN_SECS {
        expires_in - EXPIRY_SAFETY_MARGIN_SECS
    } else {
        0
    }
}

/// How far the search for a bearer token is.
#[derive(Debug)]
pub enum TokenStep {
    Start,
    /// The token file was read.
    Read(Result<Option<Vec<u8>>, String>),
    /// The token file was parsed.
    Loaded { token: Result<TokenFile, String>, now: u64 },
    /// The token endpoint replied.
    Replied { refresh_token: String, reply: Result<HttpResponse, String> },
    /// The reply was parsed.
    Answered { refresh_token: String, answer: Result<TokenResponse, String>, now: u64 },
    /// The new token file was written, or not.
    Saved { access_token: String, outcome: Result<(), String> },
}

/// What to do next for a bearer token.
#[derive(Debug)]
pub enum TokenAction {
    /// Read [`TOKEN_FILE`].
    Read,
    /// Parse the token file.
    Parse(Vec<u8>),
    /// Send the refresh request.
    Send { refresh_token: String, request: HttpRequest },
    /// Parse the reply of the token endpoint.
    ParseAnswer { refresh_token: String, body: Vec<u8> },
    /// Write the new token file.
    Save { token_file: TokenFile, access_token: String },
    Done(Result<String, String>),
}

/// What a [`TokenAction`] stands for.
pub enum TokenActionView {
    Read,
    Parse(Seq<u8>),
    Send { refresh_token: Seq<char>, request: RequestView },
    ParseAnswer { refresh_token: Seq<char>, body: Seq<u8> },
    Save { token_file: TokenFileView, access_token: Seq<char> },
    Done(Result<Seq<char>, Seq<char>>),
}

impl View for TokenAction {
    type V = TokenActionView;

    open spec fn view(&self) -> TokenActionView {
        match *self {
            TokenAction::Read => TokenActionView::Read,
            TokenAction::Parse(bytes) => TokenActionView::Parse(bytes@),
            TokenAction::Send { refresh_token, request } => TokenActionView::Send {
                refresh_token: refresh_token@,
                request: request@,
            },
            TokenAction::ParseAnswer { refresh_token, body } => TokenActionView::ParseAnswer {
                refresh_token: refresh_token@,
                body: body@,
            },
            TokenAction::Save { token_file, access_token } => TokenActionView::Save {
                token_file: token_file@,
                access_token: access_token@,
            },
            TokenAction::Done(Ok(bearer)) => TokenActionView::Done(Ok(bearer@)),
            TokenAction::Done(Err(e)) => TokenActionView::Done(Err(e@)),
        }
    }
}

/// What follows once the token file is read.
pub open spec fn after_file(read: Result<Option<Vec<u8>>, String>) -> TokenActionView {
    match read {
        Err(e) => TokenActionView::Done(Err(e@)),
        Ok(None) => TokenActionView::Done(
            Err(
                "no token.json found in state dir; run tools/device-code-login.sh first"@,
            ),
        ),
        Ok(Some(bytes)) => TokenActionView::Parse(bytes@),
    }
}

/// What follows once the token file is parsed: a token that has not expired
/// is used as it is, another one is refreshed.
pub open spec fn after_load(
    config: ConfigView,
    token: Result<TokenFile, String>,
    now: u64,
) -> TokenActionView {
    match token {
        Err(e) => TokenActionView::Done(Err("failed to parse token.json: "@ + e@)),
        Ok(t) => if t@.access_token is Some && now < t@.expires_at {
            TokenActionView::Done(Ok("Bearer "@ + t@.access_token->0))
        } else {
            match refresh_request(config, t@.refresh_token) {
                Err(e) => TokenActionView::Done(Err(e)),
                Ok(request) => TokenActionView::Send {
                    refresh_token: t@.refresh_token,
                    request,
                },
            }
        },
    }
}

/// What follows once the token endpoint replied.
pub open spec fn after_reply(
    refresh_token: Seq<char>,
    reply: Result<HttpResponse, String>,
) -> TokenActionView {
    match reply {
        Err(e) => TokenActionView::Done(Err(e@)),
        Ok(response) => if response@.status != 200 {
            TokenActionView::Done(
                Err(
                    "token refresh failed with status "@ + decimal(response@.status as nat) + ": "@
                        + utf8_lossy(response@.body),
                ),
            )
        } else {
            TokenActionView::ParseAnswer { refresh_token, body: response@.body }
        },
    }
}

/// What follows once the reply is parsed: the new token is kept.
pub open spec fn after_answer(
    refresh_token: Seq<char>,
    answer: Result<TokenResponse, String>,
    now: u64,
) -> TokenActionView {
    match answer {
        Err(e) => TokenActionView::Done(Err("failed to parse token response: "@ + e@)),
        Ok(a) => TokenActionView::Save {
            token_file: renewed(a@, refresh_token, now),
            access_token: a@.access_token,
        },
    }
}

/// What follows once the new token file is written.
pub open spec fn after_save(access_token: Seq<char>, outcome: Result<(), String>) -> TokenActionView {
    match outcome {
        Err(e) => TokenActionView::Done(Err(e@)),
        Ok(_) => TokenActionView::Done(Ok("Bearer "@ + access_token)),
    }
}

/// What the search for a bearer token does next.
pub open spec fn token_next(config: ConfigView, step: TokenStep) -> TokenActionView {
    match step {
        TokenStep::Start => TokenActionView::Read,
        TokenStep::Read(read) => after_file(read),
        TokenStep::Loaded { token, now } => after_load(config, token, now),
        TokenStep::Replied { refresh_token, reply } => after_reply(refresh_token@, reply),
        TokenStep::Answered { refresh_token, answer, now } => after_answer(
            refresh_token@,
            answer,
            now,
        ),
        TokenStep::Saved { access_token, outcome } => after_save(access_token@, outcome),
    }
}

/// Finds a valid `Authorization: Bearer ...` value, refreshing the access
/// token first if needed.
pub fn bearer_token(config: &Config, step: TokenStep) -> (r: TokenAction)
    requires
        step matches TokenStep::Answered { refresh_token, answer: Ok(a), now } ==> now
            + usable_secs(a.expires_in) <= u64::MAX,
    ensures
        r@ == token_next(config@, step),
{
    match step {
        TokenStep::Start => TokenAction::Read,
        TokenStep::Read(Err(e)) => TokenAction::Done(Err(e)),
        TokenStep::Read(Ok(None)) => TokenAction::Done(
            Err(
                "no token.json found in state dir; run tools/device-code-login.sh first".to_owned(),
            ),
        ),
        TokenStep::Read(Ok(Some(bytes))) => TokenAction::Parse(bytes),
        TokenStep::Loaded { token, now } => token_loaded(config, token, now),
        TokenStep::Replied { refresh_token, reply } => token_replied(refresh_token, reply),
        TokenStep::Answered { refresh_token, answer, now } => match answer {
            Err(e) => TokenAction::Done(
                Err("failed to parse token response: ".to_owned().concat(e.as_str())),
            ),
            Ok(a) => {
                let token_file = TokenFile {
                    refresh_token: match a.refresh_token {
                        Some(t) => t,
                        None => refresh_token,
                    },
                    access_token: Some(a.access_token.clone()),
                    expires_at: now + a.expires_in.saturating_sub(EXPIRY_SAFETY_MARGIN_SECS),
                };
                TokenAction::Save { token_file, access_token: a.access_token }
            },
        },
        TokenStep::Saved { access_token, outcome } => match outcome {
            Err(e) => TokenAction::Done(Err(e)),
            Ok(_) => TokenAction::Done(Ok("Bearer ".to_owned().concat(access_token.as_str()))),
        },
    }
}

fn token_loaded(config: &Config, token: Result<TokenFile, String>, now: u64) -> (r: TokenAction)
    ensures
        r@ == after_load(config@, token, now),
{
    let token = match token {
        Ok(t) => t,
        Err(e) => {
            return TokenAction::Done(
                Err("failed to parse token.json: ".to_owned().concat(e.as_str())),
            );
        },
    };
    if let Some(access) = &token.access_token {
        if now < token.expires_at {
            return TokenAction::Done(Ok("Bearer ".to_owned().concat(access.as_str())));
        }
    }
    match refresh(config, token.refresh_token.as_str()) {
        Err(e) => TokenAction::Done(Err(e)),
        Ok(request) => TokenAction::Send { refresh_token: token.refresh_token, request },
    }
}

fn token_replied(refresh_token: String, reply: Result<HttpResponse, String>) -> (r: TokenAction)
    ensures
        r@ == after_reply(refresh_token@, reply),
{
    match reply {
        Err(e) => TokenAction::Done(Err(e)),
        Ok(response) => {
            if response.status != 200 {
                let mut e = "token refresh failed with status ".to_owned();
                e.append(decimal_text(response.status as u64).as_str());
                e.append(": ");
                e.append(text_from_utf8_lossy(response.body.as_slice()).as_str());
                TokenAction::Done(Err(e))
            } else {
                TokenAction::ParseAnswer { refresh_token, body: response.body }
            }
        },
    }
}

/// The error of a token file that cannot be serialised.
pub fn save_error(detail: &str) -> (r: String)
    ensures
        r@ == "failed to serialize token.json: "@ + detail@,
{
    "failed to serialize token.json: ".to_owned().concat(detail)
}

/// A token that was just refreshed is used until a minute before it expires,
/// and the refresh token is never lost.
pub proof fn law_refresh_keeps_a_refresh_token(
    config: ConfigView,
    answer: TokenResponseView,
    sent: Seq<char>,
    now: u64,
    later: u64,
    token: TokenFile,
)
    requires
        token@ == renewed(answer, sent, now),
        now + usable_secs(answer.expires_in) <= u64::MAX,
    ensures
        answer.refresh_token is None ==> token@.refresh_token == sent,
        answer.refresh_token matches Some(t) ==> token@.refresh_token == t,
        later < now + usable_secs(answer.expires_in) ==> after_load(config, Ok(token), later)
            == TokenActionView::Done(Ok::<Seq<char>, Seq<char>>("Bearer "@ + answer.access_token)),
{
}

/// A token that has not expired is used whatever the configuration; only a
/// refresh needs the client id.
pub proof fn law_client_id_is_for_refresh(config: ConfigView, token: TokenFile, now: u64)
    ensures
        token@.access_token is Some && now < token@.expires_at ==> after_load(
            config,
            Ok(token),
            now,
        ) == TokenActionView::Done(Ok::<Seq<char>, Seq<char>>("Bearer "@ + token@.access_token->0)),
        !(token@.access_token is Some && now < token@.expires_at) ==> (if config.client_id is Some {
            after_load(config, Ok(token), now) is Send
        } else {
            after_load(config, Ok(token), now) == TokenActionView::Done(
                Err::<Seq<char>, Seq<char>>(
                    "missing required env var ONEDRIVE_CLIENT_ID for token refresh"@,
                ),
            )
        }),
{
}

} // verus!
