//! Laws of failures: each failure has its own message, which says what failed
//! and, where the outside gave a reason, why.
use vstd::prelude::*;
use vstd::utf8::*;
use crate::answer_laws::says;
use crate::auth::{refresh_request, token_next, TokenActionView, TokenStep};
use crate::config::{configured, directory, variable, Config, ConfigView};
use crate::format::{child_at, child_block, header_of, le_value, row_at, rows_from, text_at};
use crate::graph::{
    content_next, upload_next, ContentActionView, ContentStep, UploadActionView, UploadStep,
};
use crate::http_client::{
    body_step, header_text, leads_to, op_failure, BodyActionView, BodyEventView, BodyKind,
    HttpResponse, MethodView, Pending, PendingAction, SendOpView,
};
use crate::server::{first_text, may_pass, routed, RequestHeaders, RouteView};
use crate::snapshot::{
    after_read, block_in, meta_at, table_of, LookupActionView, LookupStateView, PlanView,
};
use crate::state_file::{
    atomic_next, read_next, AtomicActionView, AtomicStepView, FileReadView, ReadActionView,
    ReadEvent,
};
use crate::text::{decimal, same_ignoring_case, trim_white, utf8_lossy};

verus! {

/// What is said if a step of sending a request fails.
pub proof fn law_send_failures(
    name: Seq<char>,
    value: Seq<char>,
    method: MethodView,
    body: Seq<u8>,
    detail: Seq<char>,
)
    ensures
        op_failure(SendOpView::AppendHeader { name, value }, detail) == "invalid header "@ + name
            + ": "@ + detail,
        op_failure(SendOpView::SetMethod(method), detail) == "invalid HTTP method"@,
        op_failure(SendOpView::SetScheme, detail) == "failed to set scheme"@,
        op_failure(SendOpView::SetAuthority(value), detail) == "failed to set authority"@,
        op_failure(SendOpView::SetPath(value), detail) == "failed to set path"@,
        op_failure(SendOpView::TakeBody, detail) == "request body already taken"@,
        op_failure(SendOpView::OpenStream, detail) == "failed to open request body stream"@,
        op_failure(SendOpView::WriteBody(body), detail) == "failed writing request body: "@ + detail,
        op_failure(SendOpView::FinishBody, detail) == "failed finishing request body: "@ + detail,
        op_failure(SendOpView::Dispatch, detail) == "failed to send request: "@ + detail,
{
}

/// What is said if a response was taken before, or a body cannot be had.
pub proof fn law_receive_failures(buf: Seq<u8>, r: PendingAction)
    ensures
        leads_to(Pending::Consumed, r) <==> (r matches PendingAction::Fail(e) && e@
            == "response already consumed"@),
        body_step(BodyKind::Request, buf, BodyEventView::NotTaken).1 matches BodyActionView::Done(
            Err(e),
        ) && e == "failed to consume request body"@,
        body_step(BodyKind::Response, buf, BodyEventView::NotTaken).1 matches BodyActionView::Done(
            Err(e),
        ) && e == "failed to consume response body"@,
        body_step(BodyKind::Request, buf, BodyEventView::NotOpened).1 matches BodyActionView::Done(
            Err(e),
        ) && e == "failed to open request body stream"@,
        body_step(BodyKind::Response, buf, BodyEventView::NotOpened).1 matches BodyActionView::Done(
            Err(e),
        ) && e == "failed to open response body stream"@,
{
    reveal_strlit("request body");
    reveal_strlit("response body");
    reveal_strlit(" stream");
    reveal_strlit("failed to consume ");
    reveal_strlit("failed to consume request body");
    reveal_strlit("failed to consume response body");
    reveal_strlit("failed to open ");
    reveal_strlit("failed to open request body stream");
    reveal_strlit("failed to open response body stream");
    assert("failed to consume "@ + "request body"@ =~= "failed to consume request body"@);
    assert("failed to consume "@ + "response body"@ =~= "failed to consume response body"@);
    assert("failed to open "@ + "request body"@ + " stream"@
        =~= "failed to open request body stream"@);
    assert("failed to open "@ + "response body"@ + " stream"@
        =~= "failed to open response body stream"@);
}

/// What is said if a download is sent to a place that is not safe, or fails
/// there; and if Graph gives no upload session or refuses a chunk of one.
pub proof fn law_transfer_failures(
    config: ConfigView,
    path: Seq<char>,
    data: Seq<u8>,
    url: String,
    offset: usize,
    reply: HttpResponse,
    error: String,
)
    requires
        offset < data.len(),
    ensures
        ({
            let r = reply@;
            let moved = r.status == 301 || r.status == 302 || r.status == 303 || r.status == 307
                || r.status == 308;
            moved ==> (header_text(r.headers, "location"@) matches Some(raw) ==> (
            !"https://"@.is_prefix_of(trim_white(raw)) ==> content_next(
                config,
                path,
                ContentStep::Replied(Ok(reply)),
            ) == ContentActionView::Done(
                Err::<Seq<u8>, Seq<char>>(
                    "graph get_content redirect is not https: "@ + trim_white(raw),
                ),
            )))
        }),
        reply@.status != 200 ==> content_next(config, path, ContentStep::Redirected(Ok(reply)))
            == ContentActionView::Done(
            Err::<Seq<u8>, Seq<char>>(
                "graph redirected get_content failed with status "@ + decimal(
                    reply@.status as nat,
                ),
            ),
        ),
        upload_next(config, path, data, UploadStep::Session(Err(error))) == UploadActionView::Done(
            Err::<(), Seq<char>>("failed to parse upload session: "@ + error@),
        ),
        ({
            let step = UploadStep::Sent { upload_url: url, offset, reply: Ok(reply) };
            let end: int = if data.len() - offset <= 10485760 {
                data.len() as int
            } else {
                offset + 10485760
            };
            reply@.status != 200 && reply@.status != 201 && reply@.status != 202 ==> (upload_next(
                config,
                path,
                data,
                step,
            ) matches UploadActionView::Cancel { request, error: e } && e
                == "graph upload session chunk "@ + decimal(offset as nat) + "-"@ + decimal(
                (end - 1) as nat,
            ) + " failed with status "@ + decimal(reply@.status as nat) + ": "@ + utf8_lossy(
                reply@.body,
            ))
        }),
{
}

/// What is said if there is no token, or no client to refresh it for.
pub proof fn law_token_failures(config: ConfigView, refresh_token: Seq<char>)
    ensures
        token_next(config, TokenStep::Read(Ok(None))) matches TokenActionView::Done(Err(e)) && e
            == "no token.json found in state dir; run tools/device-code-login.sh first"@,
        config.client_id is None ==> (refresh_request(config, refresh_token) matches Err(e) && e
            == "missing required env var ONEDRIVE_CLIENT_ID for token refresh"@),
{
}

/// Why there is no configuration. A secret is asked for before a directory.
pub proof fn law_configuration_failures(vars: Seq<(Seq<char>, Seq<char>)>, dirs: Seq<Seq<char>>)
    ensures
        ({
            let secret = variable(vars, "ONEDRIVE_BASIC_AUTH_SECRET"@);
            let open = variable(vars, "ONEDRIVE_ALLOW_UNAUTHENTICATED"@) == Some("1"@);
            let r = configured(vars, dirs);
            &&& secret is None && !open ==> (r matches Err(e) && e
                == "ONEDRIVE_BASIC_AUTH_SECRET is not set; refusing to serve unauthenticated. Set a secret (>= 16 chars) or ONEDRIVE_ALLOW_UNAUTHENTICATED=1 for local dev"@)
            &&& secret is None && open && directory(dirs, "/state"@) is None ==> (r matches Err(e)
                && e == "no /state preopen found; run wasmtime with --dir <state-dir>::/state"@)
            &&& secret matches Some(s) ==> {
                let placeholder = same_ignoring_case("REPLACE_ME"@, s) || same_ignoring_case(
                    "changeme"@,
                    s,
                ) || same_ignoring_case("secret"@, s) || same_ignoring_case("password"@, s);
                &&& encode_utf8(s).len() < 16 ==> (r matches Err(e) && e
                    == "ONEDRIVE_BASIC_AUTH_SECRET is too short (need at least 16 characters)"@)
                &&& encode_utf8(s).len() >= 16 && placeholder ==> (r matches Err(e) && e
                    == "ONEDRIVE_BASIC_AUTH_SECRET is a placeholder value; generate a real secret (e.g. `openssl rand -base64 32`)"@)
                &&& encode_utf8(s).len() >= 16 && !placeholder && directory(dirs, "/state"@)
                    is None ==> (r matches Err(e) && e
                    == "no /state preopen found; run wasmtime with --dir <state-dir>::/state"@)
            }
        }),
{
}

/// What a client is told that moves something nowhere, or uses a method that is
/// not for files.
pub proof fn law_routing_failures(
    config: Config,
    target: Option<Seq<char>>,
    headers: RequestHeaders,
)
    requires
        may_pass(config@.basic_auth_secret, first_text(headers.authorization@)),
    ensures
        headers.destination@.len() == 0 ==> (routed(
            Ok(config),
            MethodView::Other("MOVE"@),
            target,
            headers,
        ) matches RouteView::Respond(r) && says(r, 400, "missing Destination header"@)),
        routed(Ok(config), MethodView::Head, target, headers) matches RouteView::Respond(r) && says(
            r,
            405,
            "unsupported method: "@ + "Method::Head"@,
        ),
        routed(Ok(config), MethodView::Post, target, headers) matches RouteView::Respond(r) && says(
            r,
            405,
            "unsupported method: "@ + "Method::Post"@,
        ),
        routed(Ok(config), MethodView::Options, target, headers) matches RouteView::Respond(r)
            && says(r, 405, "unsupported method: "@ + "Method::Options"@),
        routed(Ok(config), MethodView::Patch, target, headers) matches RouteView::Respond(r)
            && says(r, 405, "unsupported method: "@ + "Method::Patch"@),
        routed(Ok(config), MethodView::Connect, target, headers) matches RouteView::Respond(r)
            && says(r, 405, "unsupported method: "@ + "Method::Connect"@),
        routed(Ok(config), MethodView::Trace, target, headers) matches RouteView::Respond(r)
            && says(r, 405, "unsupported method: "@ + "Method::Trace"@),
{
    reveal_strlit("PROPFIND");
    reveal_strlit("MKCOL");
    reveal_strlit("MOVE");
    assert("MOVE"@[0] != "PROPFIND"@[0]);
    assert("MOVE"@.len() != "MKCOL"@.len());
}

/// What is said of bytes that are no snapshot, in the order in which they are
/// looked at.
pub proof fn law_header_failures(bytes: Seq<u8>)
    ensures
        bytes.len() < 32 ==> (header_of(bytes) matches Err(e) && e == "index header too short"@),
        bytes.len() >= 32 && bytes.take(4) != seq![79u8, 68u8, 73u8, 88u8] ==> (header_of(
            bytes,
        ) matches Err(e) && e == "index magic mismatch"@),
        bytes.len() >= 32 && bytes.take(4) == seq![79u8, 68u8, 73u8, 88u8] ==> {
            let version = le_value(bytes.subrange(4, 8));
            &&& version != 1 ==> (header_of(bytes) matches Err(e) && e
                == "unsupported index version "@ + decimal(version))
            &&& version == 1 && header_of(bytes) is Err ==> (header_of(bytes) matches Err(e) && e
                == "index offsets out of range"@)
        },
        header_of(bytes) matches Ok((off, count, meta_off, meta_len)) ==> {
            &&& meta_off + meta_len > u64::MAX ==> (meta_at(bytes) matches Err(e) && e
                == "index meta overflow"@)
            &&& bytes.len() < meta_off + meta_len <= u64::MAX ==> (meta_at(bytes) matches Err(e)
                && e == "index meta truncated"@)
            &&& off > meta_off || meta_off > bytes.len() ==> (table_of(bytes) matches Err(e) && e
                == "index dir table truncated"@)
        },
        header_of(bytes) matches Err(e) ==> meta_at(bytes) == Err::<Seq<u8>, Seq<char>>(e) && (
        table_of(bytes) matches Err(f) && f == e),
{
}

/// What is said of a text, a child or a row that is cut off. Where a part of it
/// is bad, it is bad in the same way.
pub proof fn law_cut_off(data: Seq<u8>, pos: int, off: nat, len: nat, count: nat)
    requires
        0 <= pos,
    ensures
        data.len() < pos + 4 ==> (text_at(data, pos) matches Err(e) && e
            == "truncated string length"@),
        data.len() >= pos + 4 ==> {
            let end = pos + 4 + le_value(data.subrange(pos, pos + 4));
            &&& data.len() < end ==> (text_at(data, pos) matches Err(e) && e == "truncated string"@)
            &&& data.len() >= end && !valid_utf8(data.subrange(pos + 4, end)) ==> (text_at(
                data,
                pos,
            ) matches Err(e) && e == "non-utf8 string"@)
        },
        text_at(data, pos) matches Err(e) ==> (child_at(data, pos) matches Err(f) && f == e) && (
        row_at(data, pos) matches Err(f) && f == e),
        text_at(data, pos) matches Ok((name, a)) ==> {
            &&& data.len() <= a ==> (child_at(data, pos) matches Err(e) && e
                == "truncated child flags"@)
            &&& a < data.len() < a + 17 ==> (child_at(data, pos) matches Err(e) && e
                == "truncated child numbers"@)
            &&& data.len() < a + 12 ==> (row_at(data, pos) matches Err(e) && e
                == "truncated dir row"@)
            &&& data.len() >= a + 12 ==> (text_at(data, a + 12) matches Ok((id, b)) ==> (data.len()
                < b + 16 ==> (row_at(data, pos) matches Err(e) && e == "truncated dir row meta"@)))
        },
        off + len > data.len() ==> (child_block(data, off, len) matches Err(e) && e
            == "child block out of range"@),
        count > 0 ==> (row_at(data, pos) matches Err(e) ==> (rows_from(data, pos, count) matches
            Err(f) && f == e)),
{
}

/// What is said if a lookup does not find the parts of a snapshot where they
/// should be.
pub proof fn law_lookup_failures(path: Seq<char>, data: Seq<u8>, count: u32, plan: PlanView)
    ensures
        data.len() < 32 ==> (after_read(path, LookupStateView::Header, Ok(Some(data))) matches
            LookupActionView::Done(Err(e)) && e == "index header truncated"@),
        after_read(path, LookupStateView::Table { dir_count: count }, Ok(None)) matches
            LookupActionView::Done(Err(e)) && e == "index dir table missing"@,
        !(plan is Nowhere) ==> (after_read(path, LookupStateView::Block { plan }, Ok(None)) matches
            LookupActionView::Done(Err(e)) && e == "index child block missing"@),
        plan matches PlanView::Dir(row) ==> (row.block_off + row.block_len > data.len() ==> (
        block_in(data, plan) matches Err(e) && e == "child block out of range"@)),
        plan matches PlanView::Within { row, name } ==> (row.block_off + row.block_len > data.len()
            ==> (block_in(data, plan) matches Err(e) && e == "child block out of range"@)),
{
}

/// What is said if a part of a file cannot be read, or a written file cannot be
/// put in place: it is then removed.
pub proof fn law_file_failures(name: Seq<char>, st: FileReadView, detail: String)
    ensures
        st.end is Some ==> (read_next(name, st, ReadEvent::Failed(detail)) matches
            ReadActionView::Done(Err(e)) && e == "failed reading "@ + name + " at "@ + decimal(
            st.pos as nat,
        ) + ": "@ + detail@),
        atomic_next(name, AtomicStepView::Renamed(Err(detail@))) matches AtomicActionView::Unlink {
            file,
            error,
        } && file == name + ".tmp"@ && error == "failed renaming "@ + name + ".tmp"@ + " -> "@ + name
            + ": "@ + detail@,
        atomic_next(name, AtomicStepView::Unlinked { error: detail@ }) matches
            AtomicActionView::Done(Err(e)) && e == detail@,
        atomic_next(name, AtomicStepView::Written(Err(detail@))) matches AtomicActionView::Done(
            Err(e),
        ) && e == detail@,
{
    assert("failed renaming "@ + (name + ".tmp"@) + " -> "@ + name + ": "@ + detail@
        =~= "failed renaming "@ + name + ".tmp"@ + " -> "@ + name + ": "@ + detail@);
}

} // verus!
