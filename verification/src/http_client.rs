//! HTTPS requests and responses as plain values, and the decisions that lead
//! from a request to the calls on the host's HTTP interface and back.
use vstd::prelude::*;
use vstd::string::*;
use crate::text::{
    chars_of, eq_ignore_case, find_first, first_pos, same_ignoring_case, skip_chars, starts_with,
    text_from_utf8_lossy, text_of, utf8_lossy,
};

verus! {

/// Method of an HTTP request.
#[derive(Debug)]
pub enum Method {
    Get,
    Head,
    Post,
    Put,
    Delete,
    Connect,
    Options,
    Trace,
    Patch,
    Other(String),
}

/// What a [`Method`] stands for.
pub enum MethodView {
    Get,
    Head,
    Post,
    Put,
    Delete,
    Connect,
    Options,
    Trace,
    Patch,
    Other(Seq<char>),
}

impl View for Method {
    type V = MethodView;

    open spec fn view(&self) -> MethodView {
        match *self {
            Method::Get => MethodView::Get,
            Method::Head => MethodView::Head,
            Method::Post => MethodView::Post,
            Method::Put => MethodView::Put,
            Method::Delete => MethodView::Delete,
            Method::Connect => MethodView::Connect,
            Method::Options => MethodView::Options,
            Method::Trace => MethodView::Trace,
            Method::Patch => MethodView::Patch,
            Method::Other(name) => MethodView::Other(name@),
        }
    }
}

impl Clone for Method {
    fn clone(&self) -> (r: Self)
        ensures
            r@ == self@,
    {
        match self {
            Method::Get => Method::Get,
            Method::Head => Method::Head,
            Method::Post => Method::Post,
            Method::Put => Method::Put,
            Method::Delete => Method::Delete,
            Method::Connect => Method::Connect,
            Method::Options => Method::Options,
            Method::Trace => Method::Trace,
            Method::Patch => Method::Patch,
            Method::Other(name) => Method::Other(name.clone()),
        }
    }
}

/// A request to be sent.
#[derive(Debug)]
pub struct HttpRequest {
    pub method: Method,
    /// Absolute URL, e.g. `https://graph.microsoft.com/v1.0/me/drive`.
    pub url: String,
    pub headers: Vec<(String, String)>,
    pub body: Vec<u8>,
}

/// What an [`HttpRequest`] stands for.
pub struct RequestView {
    pub method: MethodView,
    pub url: Seq<char>,
    pub headers: Seq<(Seq<char>, Seq<char>)>,
    pub body: Seq<u8>,
}

/// The texts of header name/value pairs.
pub open spec fn header_texts(v: Seq<(String, String)>) -> Seq<(Seq<char>, Seq<char>)> {
    v.map_values(|h: (String, String)| (h.0@, h.1@))
}

impl View for HttpRequest {
    type V = RequestView;

    open spec fn view(&self) -> RequestView {
        RequestView {
            method: self.method@,
            url: self.url@,
            headers: header_texts(self.headers@),
            body: self.body@,
        }
    }
}

/// A response that was received.
#[derive(Debug)]
pub struct HttpResponse {
    pub status: u16,
    pub headers: Vec<(String, Vec<u8>)>,
    pub body: Vec<u8>,
}

/// What an [`HttpResponse`] stands for.
pub struct ResponseView {
    pub status: u16,
    pub headers: Seq<(Seq<char>, Seq<u8>)>,
    pub body: Seq<u8>,
}

/// The names and raw values of headers.
pub open spec fn raw_headers(v: Seq<(String, Vec<u8>)>) -> Seq<(Seq<char>, Seq<u8>)> {
    v.map_values(|h: (String, Vec<u8>)| (h.0@, h.1@))
}

impl View for HttpResponse {
    type V = ResponseView;

    open spec fn view(&self) -> ResponseView {
        ResponseView {
            status: self.status,
            headers: raw_headers(self.headers@),
            body: self.body@,
        }
    }
}

/// The value of the first header with the name, whatever the case of its
/// letters.
pub open spec fn first_header(headers: Seq<(Seq<char>, Seq<u8>)>, name: Seq<char>) -> Option<
    Seq<u8>,
>
    decreases headers.len(),
{
    if headers.len() == 0 {
        None
    } else if first_header(headers.drop_last(), name) is Some {
        first_header(headers.drop_last(), name)
    } else if same_ignoring_case(headers.last().0, name) {
        Some(headers.last().1)
    } else {
        None
    }
}

/// The text of the first header with the name.
pub open spec fn header_text(headers: Seq<(Seq<char>, Seq<u8>)>, name: Seq<char>) -> Option<
    Seq<char>,
> {
    match first_header(headers, name) {
        Some(value) => Some(utf8_lossy(value)),
        None => None,
    }
}

proof fn lemma_first_header_stays(
    headers: Seq<(Seq<char>, Seq<u8>)>,
    name: Seq<char>,
    k: int,
)
    requires
        0 <= k <= headers.len(),
        first_header(headers.take(k), name) is Some,
    ensures
        first_header(headers, name) == first_header(headers.take(k), name),
    decreases headers.len() - k,
{
    if k < headers.len() {
        assert(headers.take(k + 1).drop_last() =~= headers.take(k));
        lemma_first_header_stays(headers, name, k + 1);
    } else {
        assert(headers.take(k) =~= headers);
    }
}

impl HttpResponse {
    /// The text of the first header with the name; bytes that are not UTF-8
    /// are replaced.
    pub fn header_value(&self, name: &str) -> (r: Option<String>)
        ensures
            match r {
                Some(t) => header_text(self@.headers, name@) == Some(t@),
                None => header_text(self@.headers, name@) is None,
            },
    {
        let ghost all = self@.headers;
        for i in 0..self.headers.len()
            invariant
                all == self@.headers,
                first_header(all.take(i as int), name@) is None,
        {
            assert(all.take(i + 1).drop_last() =~= all.take(i as int));
            assert(all.take(i + 1).last() == (self.headers@[i as int].0@, self.headers@[i as int].1@));
            if eq_ignore_case(self.headers[i].0.as_str(), name) {
                proof {
                    lemma_first_header_stays(all, name@, i + 1);
                }
                return Some(text_from_utf8_lossy(self.headers[i].1.as_slice()));
            }
        }
        assert(all.take(self.headers@.len() as int) =~= all);
        None
    }
}

/// Authority and path of an `https` URL; the path is `/` if there is none.
pub open spec fn url_parts(url: Seq<char>) -> Result<(Seq<char>, Seq<char>), Seq<char>> {
    if !"https://"@.is_prefix_of(url) {
        Err("only https:// URLs are supported, got: "@ + url)
    } else {
        let rest = url.skip("https://"@.len() as int);
        match first_pos(rest, '/') {
            Some(i) => Ok((rest.take(i), rest.skip(i))),
            None => Ok((rest, "/"@)),
        }
    }
}

/// Splits an absolute `https://host[:port]/path?query` URL into
/// `(authority, path_with_query)`.
pub fn split_url(url: &str) -> (r: Result<(String, String), String>)
    ensures
        match r {
            Ok((authority, path)) => url_parts(url@) == Ok::<(Seq<char>, Seq<char>), Seq<char>>(
                (authority@, path@),
            ),
            Err(e) => url_parts(url@) == Err::<(Seq<char>, Seq<char>), Seq<char>>(e@),
        },
{
    if !starts_with(url, "https://") {
        return Err("only https:// URLs are supported, got: ".to_owned().concat(url));
    }
    proof {
        reveal_strlit("https://");
    }
    let rest = skip_chars(url, 8);
    let cs = chars_of(rest.as_str());
    match find_first(&cs, '/') {
        Some(i) => {
            let authority = text_of(&cs, 0, i);
            let path = text_of(&cs, i, cs.len());
            assert(authority@ =~= rest@.take(i as int));
            assert(path@ =~= rest@.skip(i as int));
            Ok((authority, path))
        },
        None => Ok((rest, "/".to_owned())),
    }
}

/// One call on the host's HTTP interface.
#[derive(Debug)]
pub enum SendOp {
    AppendHeader { name: String, value: String },
    SetMethod(Method),
    SetScheme,
    SetAuthority(String),
    SetPath(String),
    TakeBody,
    OpenStream,
    WriteBody(Vec<u8>),
    FinishBody,
    Dispatch,
}

/// What a [`SendOp`] stands for.
pub enum SendOpView {
    AppendHeader { name: Seq<char>, value: Seq<char> },
    SetMethod(MethodView),
    SetScheme,
    SetAuthority(Seq<char>),
    SetPath(Seq<char>),
    TakeBody,
    OpenStream,
    WriteBody(Seq<u8>),
    FinishBody,
    Dispatch,
}

impl View for SendOp {
    type V = SendOpView;

    open spec fn view(&self) -> SendOpView {
        match *self {
            SendOp::AppendHeader { name, value } => SendOpView::AppendHeader {
                name: name@,
                value: value@,
            },
            SendOp::SetMethod(m) => SendOpView::SetMethod(m@),
            SendOp::SetScheme => SendOpView::SetScheme,
            SendOp::SetAuthority(a) => SendOpView::SetAuthority(a@),
            SendOp::SetPath(p) => SendOpView::SetPath(p@),
            SendOp::TakeBody => SendOpView::TakeBody,
            SendOp::OpenStream => SendOpView::OpenStream,
            SendOp::WriteBody(b) => SendOpView::WriteBody(b@),
            SendOp::FinishBody => SendOpView::FinishBody,
            SendOp::Dispatch => SendOpView::Dispatch,
        }
    }
}

/// What a list of [`SendOp`] stands for.
pub open spec fn op_views(v: Seq<SendOp>) -> Seq<SendOpView> {
    v.map_values(|op: SendOp| op@)
}

/// The calls that append the headers, in their order.
pub open spec fn header_ops(headers: Seq<(Seq<char>, Seq<char>)>) -> Seq<SendOpView> {
    headers.map_values(
        |h: (Seq<char>, Seq<char>)| SendOpView::AppendHeader { name: h.0, value: h.1 },
    )
}

/// The calls that write a body; none for an empty one.
pub open spec fn body_ops(body: Seq<u8>) -> Seq<SendOpView> {
    if body.len() == 0 {
        Seq::empty()
    } else {
        seq![
            SendOpView::TakeBody,
            SendOpView::OpenStream,
            SendOpView::WriteBody(body),
            SendOpView::FinishBody,
        ]
    }
}

/// The calls that send a request.
pub open spec fn send_ops(req: RequestView) -> Result<Seq<SendOpView>, Seq<char>> {
    match url_parts(req.url) {
        Err(e) => Err(e),
        Ok((authority, path)) => Ok(
            header_ops(req.headers) + seq![
                SendOpView::SetMethod(req.method),
                SendOpView::SetScheme,
                SendOpView::SetAuthority(authority),
                SendOpView::SetPath(path),
            ] + body_ops(req.body) + seq![SendOpView::Dispatch],
        ),
    }
}

/// The calls that send a request, in the order in which they are to be made.
/// Only `https` URLs are ever sent.
pub fn send(req: HttpRequest) -> (r: Result<Vec<SendOp>, String>)
    ensures
        match r {
            Ok(ops) => send_ops(req@) == Ok::<Seq<SendOpView>, Seq<char>>(op_views(ops@)),
            Err(e) => send_ops(req@) == Err::<Seq<SendOpView>, Seq<char>>(e@),
        },
{
    let (authority, path) = match split_url(req.url.as_str()) {
        Ok(parts) => parts,
        Err(e) => {
            return Err(e);
        },
    };
    let ghost all = header_ops(req@.headers);
    let mut ops: Vec<SendOp> = Vec::new();
    assert(op_views(ops@) =~= all.take(0));
    for i in 0..req.headers.len()
        invariant
            all == header_ops(header_texts(req.headers@)),
            op_views(ops@) == all.take(i as int),
    {
        let ghost before = ops@;
        let op = SendOp::AppendHeader {
            name: req.headers[i].0.clone(),
            value: req.headers[i].1.clone(),
        };
        ops.push(op);
        assert(op_views(ops@) =~= op_views(before).push(op@));
        assert(op@ == all[i as int]);
        assert(all.take(i + 1) =~= all.take(i as int).push(all[i as int]));
    }
    assert(all.take(req.headers@.len() as int) =~= all);
    let ghost headers_done = ops@;
    let ghost body = req.body@;
    let ghost method = req.method@;
    ops.push(SendOp::SetMethod(req.method));
    ops.push(SendOp::SetScheme);
    ops.push(SendOp::SetAuthority(authority));
    ops.push(SendOp::SetPath(path));
    let ghost head = op_views(ops@);
    assert(head =~= all + seq![
        SendOpView::SetMethod(method),
        SendOpView::SetScheme,
        SendOpView::SetAuthority(authority@),
        SendOpView::SetPath(path@),
    ]);
    if req.body.len() > 0 {
        ops.push(SendOp::TakeBody);
        ops.push(SendOp::OpenStream);
        ops.push(SendOp::WriteBody(req.body));
        ops.push(SendOp::FinishBody);
    }
    assert(op_views(ops@) =~= head + body_ops(body));
    let ghost most = op_views(ops@);
    ops.push(SendOp::Dispatch);
    assert(op_views(ops@) =~= most + seq![SendOpView::Dispatch]);
    Ok(ops)
}

/// What is reported when a call fails; `detail` is the host's error.
pub open spec fn op_failure(op: SendOpView, detail: Seq<char>) -> Seq<char> {
    match op {
        SendOpView::AppendHeader { name, value } => "invalid header "@ + name + ": "@ + detail,
        SendOpView::SetMethod(m) => "invalid HTTP method"@,
        SendOpView::SetScheme => "failed to set scheme"@,
        SendOpView::SetAuthority(a) => "failed to set authority"@,
        SendOpView::SetPath(p) => "failed to set path"@,
        SendOpView::TakeBody => "request body already taken"@,
        SendOpView::OpenStream => "failed to open request body stream"@,
        SendOpView::WriteBody(b) => "failed writing request body: "@ + detail,
        SendOpView::FinishBody => "failed finishing request body: "@ + detail,
        SendOpView::Dispatch => "failed to send request: "@ + detail,
    }
}

/// The error of a request one of whose calls failed.
pub fn send_error(op: &SendOp, detail: &str) -> (r: String)
    ensures
        r@ == op_failure(op@, detail@),
{
    match op {
        SendOp::AppendHeader { name, value: _ } => {
            let mut r = "invalid header ".to_owned();
            r.append(name.as_str());
            r.append(": ");
            r.append(detail);
            r
        },
        SendOp::SetMethod(_) => "invalid HTTP method".to_owned(),
        SendOp::SetScheme => "failed to set scheme".to_owned(),
        SendOp::SetAuthority(_) => "failed to set authority".to_owned(),
        SendOp::SetPath(_) => "failed to set path".to_owned(),
        SendOp::TakeBody => "request body already taken".to_owned(),
        SendOp::OpenStream => "failed to open request body stream".to_owned(),
        SendOp::WriteBody(_) => "failed writing request body: ".to_owned().concat(detail),
        SendOp::FinishBody => "failed finishing request body: ".to_owned().concat(detail),
        SendOp::Dispatch => "failed to send request: ".to_owned().concat(detail),
    }
}

/// What asking the host for the pending response gave.
#[derive(Debug)]
pub enum Pending {
    NotReady,
    Consumed,
    Failed(String),
    Ready,
}

/// What to do about a pending response.
#[derive(Debug)]
pub enum PendingAction {
    Poll,
    ReadBody,
    Fail(String),
}

/// Whether `r` is what to do about a pending response.
pub open spec fn leads_to(pending: Pending, r: PendingAction) -> bool {
    match pending {
        Pending::NotReady => r is Poll,
        Pending::Ready => r is ReadBody,
        Pending::Consumed => r matches PendingAction::Fail(e) && e@ == "response already consumed"@,
        Pending::Failed(detail) => r matches PendingAction::Fail(e) && e@ == "transport error: "@
            + detail@,
    }
}

/// Decides what to do about a pending response: wait while it is not ready,
/// read it once it is, fail if it cannot be had.
pub fn await_response(pending: Pending) -> (r: PendingAction)
    ensures
        leads_to(pending, r),
{
    match pending {
        Pending::NotReady => PendingAction::Poll,
        Pending::Ready => PendingAction::ReadBody,
        Pending::Consumed => PendingAction::Fail("response already consumed".to_owned()),
        Pending::Failed(detail) => PendingAction::Fail(
            "transport error: ".to_owned().concat(detail.as_str()),
        ),
    }
}

/// Number of bytes asked for in one read of a body.
pub const BODY_CHUNK: u64 = 65536;

/// What opening or reading a body gave.
#[derive(Debug)]
pub enum BodyEvent {
    /// The body could not be had.
    NotTaken,
    /// The body's stream could not be opened.
    NotOpened,
    Chunk(Vec<u8>),
    Closed,
    Failed(String),
}

/// What a [`BodyEvent`] stands for.
pub enum BodyEventView {
    NotTaken,
    NotOpened,
    Chunk(Seq<u8>),
    Closed,
    Failed(Seq<char>),
}

impl View for BodyEvent {
    type V = BodyEventView;

    open spec fn view(&self) -> BodyEventView {
        match *self {
            BodyEvent::NotTaken => BodyEventView::NotTaken,
            BodyEvent::NotOpened => BodyEventView::NotOpened,
            BodyEvent::Chunk(chunk) => BodyEventView::Chunk(chunk@),
            BodyEvent::Closed => BodyEventView::Closed,
            BodyEvent::Failed(detail) => BodyEventView::Failed(detail@),
        }
    }
}

/// What to do next when reading a body.
#[derive(Debug)]
pub enum BodyAction {
    Poll,
    Read,
    Done(Result<Vec<u8>, String>),
}

/// What a [`BodyAction`] stands for.
pub enum BodyActionView {
    Poll,
    Read,
    Done(Result<Seq<u8>, Seq<char>>),
}

impl View for BodyAction {
    type V = BodyActionView;

    open spec fn view(&self) -> BodyActionView {
        match *self {
            BodyAction::Poll => BodyActionView::Poll,
            BodyAction::Read => BodyActionView::Read,
            BodyAction::Done(Ok(body)) => BodyActionView::Done(Ok(body@)),
            BodyAction::Done(Err(e)) => BodyActionView::Done(Err(e@)),
        }
    }
}

/// Which body is read.
#[derive(Clone, Copy, Debug, PartialEq, Eq, Structural)]
pub enum BodyKind {
    Request,
    Response,
}

/// What is done about a body of which `buf` was read so far, and what is read
/// of it then: an empty chunk means to wait and try again, other chunks are
/// collected in order, and the end of the stream ends the body.
pub open spec fn body_step(kind: BodyKind, buf: Seq<u8>, event: BodyEventView) -> (
    Seq<u8>,
    BodyActionView,
) {
    let what = match kind {
        BodyKind::Request => "request body"@,
        BodyKind::Response => "response body"@,
    };
    match event {
        BodyEventView::NotTaken => (buf, BodyActionView::Done(Err("failed to consume "@ + what))),
        BodyEventView::NotOpened => (
            buf,
            BodyActionView::Done(Err("failed to open "@ + what + " stream"@)),
        ),
        BodyEventView::Chunk(chunk) => if chunk.len() == 0 {
            (buf, BodyActionView::Poll)
        } else {
            (buf + chunk, BodyActionView::Read)
        },
        BodyEventView::Closed => (Seq::empty(), BodyActionView::Done(Ok(buf))),
        BodyEventView::Failed(detail) => (
            buf,
            BodyActionView::Done(Err("error reading "@ + what + ": "@ + detail)),
        ),
    }
}

/// Goes on reading a body, of which `buf` was read so far.
pub fn read_body(kind: BodyKind, buf: &mut Vec<u8>, event: BodyEvent) -> (r: BodyAction)
    ensures
        (final(buf)@, r@) == body_step(kind, old(buf)@, event@),
{
    let what = match kind {
        BodyKind::Request => "request body",
        BodyKind::Response => "response body",
    };
    match event {
        BodyEvent::NotTaken => BodyAction::Done(Err("failed to consume ".to_owned().concat(what))),
        BodyEvent::NotOpened => {
            let mut e = "failed to open ".to_owned();
            e.append(what);
            e.append(" stream");
            BodyAction::Done(Err(e))
        },
        BodyEvent::Chunk(chunk) => {
            if chunk.len() == 0 {
                BodyAction::Poll
            } else {
                let mut chunk = chunk;
                buf.append(&mut chunk);
                BodyAction::Read
            }
        },
        BodyEvent::Closed => {
            let mut body: Vec<u8> = Vec::new();
            std::mem::swap(&mut body, buf);
            BodyAction::Done(Ok(body))
        },
        BodyEvent::Failed(detail) => {
            let mut e = "error reading ".to_owned();
            e.append(what);
            e.append(": ");
            e.append(detail.as_str());
            BodyAction::Done(Err(e))
        },
    }
}

/// What is read of a body, and what is done about it, after a series of
/// events.
pub open spec fn body_run(kind: BodyKind, events: Seq<BodyEventView>) -> (Seq<u8>, BodyActionView)
    decreases events.len(),
{
    if events.len() == 0 {
        (Seq::empty(), BodyActionView::Read)
    } else {
        body_step(kind, body_run(kind, events.drop_last()).0, events.last())
    }
}

/// The events of a stream that gives the chunks.
pub open spec fn chunk_events(chunks: Seq<Seq<u8>>) -> Seq<BodyEventView> {
    chunks.map_values(|c: Seq<u8>| BodyEventView::Chunk(c))
}

/// A body is all that its stream gave, in order, in whatever chunks it came.
pub proof fn law_body_is_its_chunks(kind: BodyKind, chunks: Seq<Seq<u8>>)
    ensures
        body_run(kind, chunk_events(chunks)).0 == chunks.flatten(),
        body_run(kind, chunk_events(chunks).push(BodyEventView::Closed)).1 == BodyActionView::Done(
            Ok::<Seq<u8>, Seq<char>>(chunks.flatten()),
        ),
    decreases chunks.len(),
{
    let events = chunk_events(chunks);
    if chunks.len() > 0 {
        law_body_is_its_chunks(kind, chunks.drop_last());
        assert(events.drop_last() =~= chunk_events(chunks.drop_last()));
        assert(events.last() == BodyEventView::Chunk(chunks.last()));
        chunks.lemma_flatten_and_flatten_alt_are_equivalent();
        chunks.drop_last().lemma_flatten_and_flatten_alt_are_equivalent();
        assert(body_run(kind, events).0 =~= chunks.flatten());
    } else {
        assert(chunks.flatten() =~= Seq::<u8>::empty());
    }
    let closed = events.push(BodyEventView::Closed);
    assert(closed.drop_last() =~= events);
    assert(closed.last() == BodyEventView::Closed);
    assert(body_run(kind, closed) == body_step(kind, body_run(kind, events).0, closed.last()));
}

} // verus!
