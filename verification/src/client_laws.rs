//! Laws of the outgoing side: how a request is sent, what is read of a response,
//! which token is used, and what the configuration says.
use vstd::prelude::*;
use vstd::utf8::*;
use crate::auth::{
    refresh_request, token_next, TokenActionView, TokenFile, TokenResponse, TokenStep,
};
use crate::config::{configured, directory, variable, ConfigView};
use crate::http_client::{
    body_step, first_header, header_text, send_ops, url_parts, BodyActionView, BodyEventView,
    BodyKind, HttpResponse, RequestView, SendOpView, BODY_CHUNK,
};
use crate::text::{decimal, first_pos, lemma_first_pos, same_ignoring_case, utf8_lossy};
use crate::text_laws::{in_form, law_form_round_trip, without_plus};
use crate::xml::pct_decoded;

verus! {

/// A URL is split where its path begins, and nothing of it is lost; one without
/// a path stands for the root. Anything but `https` is refused.
pub proof fn law_url_is_split(host: Seq<char>, path: Seq<char>, url: Seq<char>)
    requires
        !host.contains('/'),
    ensures
        url_parts("https://"@ + host + "/"@ + path) == Ok::<(Seq<char>, Seq<char>), Seq<char>>(
            (host, "/"@ + path),
        ),
        url_parts("https://"@ + host) == Ok::<(Seq<char>, Seq<char>), Seq<char>>((host, "/"@)),
        !"https://"@.is_prefix_of(url) ==> url_parts(url) is Err,
{
    reveal_strlit("/");
    let front = "https://"@;
    let n = front.len() as int;
    let whole = front + host + "/"@ + path;
    let rest = host + "/"@ + path;
    assert(whole.skip(n) =~= rest);
    assert(whole.subrange(0, n) =~= front);
    let i = host.len() as int;
    lemma_first_pos(rest, '/');
    assert(rest[i] == '/');
    assert forall|j: int| 0 <= j < i implies rest[j] != '/' by {
        assert(rest[j] == host[j]);
        assert(host.contains(host[j]));
    }
    assert(first_pos(rest, '/') == Some(i));
    assert(rest.take(i) =~= host);
    assert(rest.skip(i) =~= "/"@ + path);
    let bare = front + host;
    assert(bare.skip(n) =~= host);
    assert(bare.subrange(0, n) =~= front);
    lemma_first_pos(host, '/');
    if let Some(j) = first_pos(host, '/') {
        assert(host.contains(host[j]));
    }
}

/// A request is sent as it is: all its headers in their order, its method, its
/// address, and its body if it has one; and it is sent last.
pub proof fn law_request_is_sent(req: RequestView, authority: Seq<char>, path: Seq<char>)
    requires
        url_parts(req.url) == Ok::<(Seq<char>, Seq<char>), Seq<char>>((authority, path)),
    ensures
        send_ops(req) matches Ok(ops) && {
            let n = req.headers.len() as int;
            &&& forall|i: int|
                0 <= i < n ==> #[trigger] ops[i] == (SendOpView::AppendHeader {
                    name: req.headers[i].0,
                    value: req.headers[i].1,
                })
            &&& ops[n] == SendOpView::SetMethod(req.method)
            &&& ops[n + 1] is SetScheme
            &&& ops[n + 2] == SendOpView::SetAuthority(authority)
            &&& ops[n + 3] == SendOpView::SetPath(path)
            &&& req.body.len() == 0 ==> ops.len() == n + 5 && ops[n + 4] is Dispatch
            &&& req.body.len() > 0 ==> {
                &&& ops.len() == n + 9
                &&& ops[n + 4] is TakeBody
                &&& ops[n + 5] is OpenStream
                &&& ops[n + 6] == SendOpView::WriteBody(req.body)
                &&& ops[n + 7] is FinishBody
                &&& ops[n + 8] is Dispatch
            }
        },
{
}

/// A request whose URL cannot be used is not sent at all.
pub proof fn law_bad_url_is_not_sent(req: RequestView)
    requires
        !"https://"@.is_prefix_of(req.url),
    ensures
        send_ops(req) matches Err(e) && e == "only https:// URLs are supported, got: "@ + req.url,
{
}

/// A header is the first one with its name, whatever the case of its letters.
pub proof fn law_first_header(headers: Seq<(Seq<char>, Seq<u8>)>, name: Seq<char>, i: int)
    requires
        0 <= i < headers.len(),
        same_ignoring_case(headers[i].0, name),
        forall|j: int| 0 <= j < i ==> !same_ignoring_case((#[trigger] headers[j]).0, name),
    ensures
        first_header(headers, name) == Some(headers[i].1),
        header_text(headers, name) == Some(utf8_lossy(headers[i].1)),
    decreases headers.len(),
{
    let front = headers.drop_last();
    if i < front.len() {
        assert(front[i] == headers[i]);
        assert forall|j: int| 0 <= j < i implies !same_ignoring_case(
            (#[trigger] front[j]).0,
            name,
        ) by {
            assert(front[j] == headers[j]);
        }
        law_first_header(front, name, i);
    } else {
        assert forall|j: int| 0 <= j < front.len() implies !same_ignoring_case(
            (#[trigger] front[j]).0,
            name,
        ) by {
            assert(front[j] == headers[j]);
        }
        law_no_header(front, name);
    }
}

/// A header that no one has the name of is not there.
pub proof fn law_no_header(headers: Seq<(Seq<char>, Seq<u8>)>, name: Seq<char>)
    requires
        forall|j: int| 0 <= j < headers.len() ==> !same_ignoring_case((#[trigger] headers[j]).0, name),
    ensures
        first_header(headers, name) is None,
        header_text(headers, name) is None,
    decreases headers.len(),
{
    if headers.len() > 0 {
        let front = headers.drop_last();
        assert forall|j: int| 0 <= j < front.len() implies !same_ignoring_case(
            (#[trigger] front[j]).0,
            name,
        ) by {
            assert(front[j] == headers[j]);
        }
        law_no_header(front, name);
        assert(!same_ignoring_case(headers[headers.len() - 1].0, name));
    }
}

/// Reading a body goes on while chunks come, waits when none is there yet, and
/// fails only when the stream does. It is asked for 64 KiB at a time.
pub proof fn law_body_steps(kind: BodyKind, buf: Seq<u8>, chunk: Seq<u8>, detail: Seq<char>)
    ensures
        chunk.len() > 0 ==> body_step(kind, buf, BodyEventView::Chunk(chunk)) == (
            buf + chunk,
            BodyActionView::Read,
        ),
        chunk.len() == 0 ==> body_step(kind, buf, BodyEventView::Chunk(chunk)) == (
            buf,
            BodyActionView::Poll,
        ),
        body_step(kind, buf, BodyEventView::Closed).1 == BodyActionView::Done(
            Ok::<Seq<u8>, Seq<char>>(buf),
        ),
        BODY_CHUNK == 65536,
        body_step(kind, buf, BodyEventView::NotTaken).1 matches BodyActionView::Done(Err(_)),
        body_step(kind, buf, BodyEventView::NotOpened).1 matches BodyActionView::Done(Err(_)),
        body_step(BodyKind::Response, buf, BodyEventView::Failed(detail)).1 matches
            BodyActionView::Done(Err(e)) && e == "error reading response body: "@ + detail,
        body_step(BodyKind::Request, buf, BodyEventView::Failed(detail)).1 matches
            BodyActionView::Done(Err(e)) && e == "error reading request body: "@ + detail,
{
    reveal_strlit("error reading response body: ");
    reveal_strlit("error reading request body: ");
    reveal_strlit("error reading ");
    reveal_strlit("response body");
    reveal_strlit("request body");
    reveal_strlit(": ");
    assert("error reading "@ + "response body"@ + ": "@ =~= "error reading response body: "@);
    assert("error reading "@ + "request body"@ + ": "@ =~= "error reading request body: "@);
}

/// A refresh is a form that is posted to the tenant's token endpoint. It names
/// the client, the refresh token and the access that is asked for, each encoded
/// so that it can be read back.
pub proof fn law_refresh_request(config: ConfigView, client_id: Seq<char>, refresh_token: Seq<char>)
    requires
        config.client_id == Some(client_id),
    ensures
        exists|a: Seq<char>, b: Seq<char>, c: Seq<char>|
            #![trigger encode_utf8("client_id="@ + a + "&grant_type=refresh_token&refresh_token="@ + b + "&scope="@ + c)]
            {
                &&& pct_decoded(without_plus(a)) == Some(client_id)
                &&& pct_decoded(without_plus(b)) == Some(refresh_token)
                &&& pct_decoded(without_plus(c)) == Some(
                    "offline_access Files.ReadWrite.All User.Read"@,
                )
                &&& forall|i: int| 0 <= i < a.len() ==> in_form(#[trigger] a[i])
                &&& forall|i: int| 0 <= i < b.len() ==> in_form(#[trigger] b[i])
                &&& forall|i: int| 0 <= i < c.len() ==> in_form(#[trigger] c[i])
                &&& refresh_request(config, refresh_token) matches Ok(r) && {
                    &&& r.method is Post
                    &&& r.url == "https://login.microsoftonline.com/"@ + config.tenant_id
                        + "/oauth2/v2.0/token"@
                    &&& r.headers == seq![("content-type"@, "application/x-www-form-urlencoded"@)]
                    &&& r.body == encode_utf8(
                        "client_id="@ + a + "&grant_type=refresh_token&refresh_token="@ + b
                            + "&scope="@ + c,
                    )
                }
            },
{
    let scope = "offline_access Files.ReadWrite.All User.Read"@;
    let a = crate::auth::form_bytes(encode_utf8(client_id));
    let b = crate::auth::form_bytes(encode_utf8(refresh_token));
    let c = crate::auth::form_bytes(encode_utf8(scope));
    law_form_round_trip(client_id);
    law_form_round_trip(refresh_token);
    law_form_round_trip(scope);
    let body = encode_utf8(
        "client_id="@ + a + "&grant_type=refresh_token&refresh_token="@ + b + "&scope="@ + c,
    );
    assert(refresh_request(config, refresh_token)->Ok_0.body == body);
}

/// The search for a token reads the token file, uses its access token if that
/// has not expired, and refreshes it with its refresh token if it has.
pub proof fn law_token_is_found(
    config: ConfigView,
    bytes: Vec<u8>,
    token: TokenFile,
    now: u64,
    error: String,
)
    ensures
        token_next(config, TokenStep::Start) is Read,
        token_next(config, TokenStep::Read(Ok(Some(bytes)))) == TokenActionView::Parse(bytes@),
        token_next(config, TokenStep::Read(Ok(None))) matches TokenActionView::Done(Err(_)),
        token_next(config, TokenStep::Read(Err(error))) matches TokenActionView::Done(Err(e)) && e
            == error@,
        token_next(config, TokenStep::Loaded { token: Err(error), now }) matches
            TokenActionView::Done(Err(e)) && e == "failed to parse token.json: "@ + error@,
        ({
            let action = token_next(config, TokenStep::Loaded { token: Ok(token), now });
            let valid = token@.access_token is Some && now < token@.expires_at;
            &&& valid ==> action == TokenActionView::Done(
                Ok::<Seq<char>, Seq<char>>("Bearer "@ + token@.access_token->0),
            )
            &&& !valid && config.client_id is None ==> (action matches TokenActionView::Done(Err(_)))
            &&& !valid && config.client_id is Some ==> (action matches TokenActionView::Send {
                refresh_token,
                request,
            } && refresh_token == token@.refresh_token && refresh_request(
                config,
                token@.refresh_token,
            ) == Ok::<RequestView, Seq<char>>(request))
        }),
{
}

/// A refreshed token is kept and used: what is saved holds the new access token,
/// a refresh token, and the time a minute before it expires; and once that is
/// saved, the new access token is the bearer.
pub proof fn law_token_is_refreshed(
    config: ConfigView,
    sent: String,
    reply: HttpResponse,
    answer: TokenResponse,
    access: String,
    now: u64,
    error: String,
)
    requires
        now + answer.expires_in <= u64::MAX,
    ensures
        reply@.status == 200 ==> token_next(
            config,
            TokenStep::Replied { refresh_token: sent, reply: Ok(reply) },
        ) == (TokenActionView::ParseAnswer { refresh_token: sent@, body: reply@.body }),
        reply@.status != 200 ==> (token_next(
            config,
            TokenStep::Replied { refresh_token: sent, reply: Ok(reply) },
        ) matches TokenActionView::Done(Err(e)) && e == "token refresh failed with status "@
            + decimal(reply@.status as nat) + ": "@ + utf8_lossy(reply@.body)),
        token_next(config, TokenStep::Replied { refresh_token: sent, reply: Err(error) }) matches
            TokenActionView::Done(Err(e)) && e == error@,
        token_next(
            config,
            TokenStep::Answered { refresh_token: sent, answer: Ok(answer), now },
        ) matches TokenActionView::Save { token_file, access_token } && {
            &&& access_token == answer@.access_token
            &&& token_file.access_token == Some(answer@.access_token)
            &&& answer@.refresh_token matches Some(t) ==> token_file.refresh_token == t
            &&& answer@.refresh_token is None ==> token_file.refresh_token == sent@
            &&& answer.expires_in >= 60 ==> token_file.expires_at == now + answer.expires_in - 60
            &&& answer.expires_in < 60 ==> token_file.expires_at == now
        },
        token_next(
            config,
            TokenStep::Answered { refresh_token: sent, answer: Err(error), now },
        ) matches TokenActionView::Done(Err(e)) && e == "failed to parse token response: "@ + error@,
        token_next(config, TokenStep::Saved { access_token: access, outcome: Ok(()) })
            == TokenActionView::Done(Ok::<Seq<char>, Seq<char>>("Bearer "@ + access@)),
        token_next(config, TokenStep::Saved { access_token: access, outcome: Err(error) }) matches
            TokenActionView::Done(Err(e)) && e == error@,
{
}

/// A variable has the value of the first one with its name.
pub proof fn law_variable(vars: Seq<(Seq<char>, Seq<char>)>, name: Seq<char>, i: int)
    requires
        0 <= i <= vars.len(),
        forall|j: int| 0 <= j < i ==> (#[trigger] vars[j]).0 != name,
        i < vars.len() ==> vars[i].0 == name,
    ensures
        i < vars.len() ==> variable(vars, name) == Some(vars[i].1),
        i == vars.len() ==> variable(vars, name) is None,
    decreases vars.len(),
{
    if vars.len() > 0 {
        let front = vars.drop_last();
        let k = if i < front.len() {
            i
        } else {
            front.len() as int
        };
        assert forall|j: int| 0 <= j < k implies (#[trigger] front[j]).0 != name by {
            assert(front[j] == vars[j]);
        }
        if k < front.len() {
            assert(front[k] == vars[k]);
        }
        law_variable(front, name, k);
        if i == vars.len() {
            assert(vars[vars.len() - 1].0 != name);
        }
    }
}

/// The state directory is the first one with its path.
pub proof fn law_directory(dirs: Seq<Seq<char>>, path: Seq<char>)
    ensures
        match directory(dirs, path) {
            Some(i) => 0 <= i < dirs.len() && dirs[i] == path && forall|j: int|
                0 <= j < i ==> dirs[j] != path,
            None => forall|j: int| 0 <= j < dirs.len() ==> dirs[j] != path,
        },
    decreases dirs.len(),
{
    if dirs.len() > 0 {
        let front = dirs.drop_last();
        law_directory(front, path);
        assert forall|j: int| 0 <= j < front.len() implies front[j] == dirs[j] by {}
    }
}

/// Whether two texts are the same but for the case of their letters.
pub open spec fn reads_as(word: Seq<char>, s: Seq<char>) -> bool {
    word.len() == s.len() && forall|i: int|
        0 <= i < word.len() ==> crate::text_laws::same_letter(#[trigger] word[i], s[i])
}

/// A configuration takes its values from the variables of their names, with the
/// default tenant and the default drive; it has a secret that is long enough and
/// no placeholder, or none if that was asked for; and it has a state directory.
/// Without these there is no configuration.
pub proof fn law_configuration(vars: Seq<(Seq<char>, Seq<char>)>, dirs: Seq<Seq<char>>)
    ensures
        ({
            let secret = variable(vars, "ONEDRIVE_BASIC_AUTH_SECRET"@);
            let open = variable(vars, "ONEDRIVE_ALLOW_UNAUTHENTICATED"@) == Some("1"@);
            let good = match secret {
                None => open,
                Some(s) => encode_utf8(s).len() >= 16 && !reads_as("REPLACE_ME"@, s) && !reads_as(
                    "changeme"@,
                    s,
                ) && !reads_as("secret"@, s) && !reads_as("password"@, s),
            };
            let tenant = variable(vars, "ONEDRIVE_TENANT_ID"@);
            let drive = variable(vars, "ONEDRIVE_DRIVE_BASE"@);
            &&& configured(vars, dirs) is Ok <==> good && directory(dirs, "/state"@) is Some
            &&& configured(vars, dirs) matches Ok(c) ==> {
                &&& c.client_id == variable(vars, "ONEDRIVE_CLIENT_ID"@)
                &&& tenant matches Some(t) ==> c.tenant_id == t
                &&& tenant is None ==> c.tenant_id == "common"@
                &&& drive matches Some(d) ==> c.drive_base == d
                &&& drive is None ==> c.drive_base == "me/drive"@
                &&& c.basic_auth_secret == secret
                &&& directory(dirs, "/state"@) == Some(c.state_dir)
            }
        }),
{
    if let Some(s) = variable(vars, "ONEDRIVE_BASIC_AUTH_SECRET"@) {
        crate::text_laws::law_same_ignoring_case("REPLACE_ME"@, s);
        crate::text_laws::law_same_ignoring_case("changeme"@, s);
        crate::text_laws::law_same_ignoring_case("secret"@, s);
        crate::text_laws::law_same_ignoring_case("password"@, s);
    }
}

} // verus!
