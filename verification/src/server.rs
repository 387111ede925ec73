//! Request dispatch: authentication, the choice of a handler, and the head of
//! the response.
use vstd::prelude::*;
use vstd::string::*;
use vstd::utf8::*;
use crate::config::Config;
use crate::dav::{
    empty_response, lock, lock_response, text_response, unlock, DavResponse, DavView,
};
use crate::http_client::{header_texts, Method, MethodView};
use crate::text::{
    chars_of, decimal, decimal_text, find_first, first_pos, opt_str, opt_text, skip_chars,
    starts_with, text_eq, text_from_utf8, text_from_utf8_lossy, text_of, utf8_lossy,
};
use crate::xml::{decode_or_keep, decoded_or_raw};

verus! {

/// The value of a byte of the standard base64 alphabet.
pub open spec fn sextet(b: u8) -> Option<int> {
    if 65 <= b <= 90 {
        Some(b - 65)
    } else if 97 <= b <= 122 {
        Some(b - 71)
    } else if 48 <= b <= 57 {
        Some(b + 4)
    } else if b == 43 {
        Some(62)
    } else if b == 47 {
        Some(63)
    } else {
        None
    }
}

/// Whether the byte is skipped in base64: padding or ASCII whitespace.
pub open spec fn is_filler(b: u8) -> bool {
    b == 61 || b == 32 || b == 9 || b == 10 || b == 12 || b == 13
}

/// The values of the bytes that are not skipped, if all are in the alphabet.
pub open spec fn sextets(bytes: Seq<u8>) -> Option<Seq<int>>
    decreases bytes.len(),
{
    if bytes.len() == 0 {
        Some(Seq::empty())
    } else {
        match sextets(bytes.drop_last()) {
            None => None,
            Some(up) => if is_filler(bytes.last()) {
                Some(up)
            } else {
                match sextet(bytes.last()) {
                    Some(v) => Some(up.push(v)),
                    None => None,
                }
            },
        }
    }
}

/// The bytes that groups of four sextets stand for; an incomplete last group
/// stands for as many whole bytes as it begins.
pub open spec fn unpacked(v: Seq<int>) -> Seq<u8>
    decreases v.len(),
{
    if v.len() == 0 {
        Seq::empty()
    } else if v.len() == 1 {
        seq![(v[0] * 4) as u8]
    } else if v.len() == 2 {
        seq![(v[0] * 4 + v[1] / 16) as u8]
    } else if v.len() == 3 {
        seq![(v[0] * 4 + v[1] / 16) as u8, (v[1] % 16 * 16 + v[2] / 4) as u8]
    } else {
        seq![
            (v[0] * 4 + v[1] / 16) as u8,
            (v[1] % 16 * 16 + v[2] / 4) as u8,
            (v[2] % 4 * 64 + v[3]) as u8,
        ] + unpacked(v.skip(4))
    }
}

/// The bytes that a base64 text stands for.
pub open spec fn base64_bytes(s: Seq<char>) -> Option<Seq<u8>> {
    match sextets(encode_utf8(s)) {
        Some(v) => Some(unpacked(v)),
        None => None,
    }
}

fn sextet_of(b: u8) -> (r: Option<u8>)
    ensures
        match r {
            Some(v) => sextet(b) == Some(v as int) && v < 64,
            None => sextet(b) is None,
        },
{
    if 65 <= b && b <= 90 {
        Some((b - 65) as u8)
    } else if 97 <= b && b <= 122 {
        Some((b - 71) as u8)
    } else if 48 <= b && b <= 57 {
        Some((b + 4) as u8)
    } else if b == 43 {
        Some(62)
    } else if b == 47 {
        Some(63)
    } else {
        None
    }
}

/// The values as integers.
spec fn ints(v: Seq<u8>) -> Seq<int> {
    v.map_values(|x: u8| x as int)
}

proof fn lemma_sextets_stuck(bytes: Seq<u8>, k: int)
    requires
        0 <= k <= bytes.len(),
        sextets(bytes.take(k)) is None,
    ensures
        sextets(bytes) is None,
    decreases bytes.len() - k,
{
    if k < bytes.len() {
        assert(bytes.take(k + 1).drop_last() =~= bytes.take(k));
        lemma_sextets_stuck(bytes, k + 1);
    } else {
        assert(bytes.take(k) =~= bytes);
    }
}

fn read_sextets(bytes: &[u8]) -> (r: Option<Vec<u8>>)
    ensures
        match r {
            Some(v) => sextets(bytes@) == Some(ints(v@)) && forall|i: int|
                0 <= i < v@.len() ==> #[trigger] v@[i] < 64,
            None => sextets(bytes@) is None,
        },
{
    let mut out: Vec<u8> = Vec::new();
    let ghost bs = bytes@;
    assert(ints(out@) =~= Seq::empty());
    for i in 0..bytes.len()
        invariant
            bytes@ == bs,
            sextets(bs.take(i as int)) == Some(ints(out@)),
            forall|j: int| 0 <= j < out@.len() ==> #[trigger] out@[j] < 64,
    {
        assert(bs.take(i + 1).drop_last() =~= bs.take(i as int));
        let b = bytes[i];
        if !(b == 61 || b == 32 || b == 9 || b == 10 || b == 12 || b == 13) {
            match sextet_of(b) {
                Some(v) => {
                    let ghost before = out@;
                    out.push(v);
                    assert(ints(out@) =~= ints(before).push(v as int));
                },
                None => {
                    proof {
                        lemma_sextets_stuck(bs, i + 1);
                    }
                    return None;
                },
            }
        }
    }
    assert(bs.take(bytes@.len() as int) =~= bs);
    Some(out)
}

/// Minimal base64 decoder (standard alphabet, `=` padding), just enough to
/// check an `Authorization: Basic ...` header.
pub fn base64_decode(input: &str) -> (r: Option<Vec<u8>>)
    ensures
        match r {
            Some(v) => base64_bytes(input@) == Some(v@),
            None => base64_bytes(input@) is None,
        },
{
    let v = match read_sextets(input.as_bytes()) {
        Some(v) => v,
        None => {
            return None;
        },
    };
    let ghost vs = ints(v@);
    let n = v.len();
    let mut out: Vec<u8> = Vec::new();
    let mut i: usize = 0;
    assert(vs.skip(0) =~= vs);
    while n - i >= 4
        invariant
            n == v@.len(),
            i <= n,
            vs == ints(v@),
            forall|j: int| 0 <= j < v@.len() ==> #[trigger] v@[j] < 64,
            unpacked(vs) == out@ + unpacked(vs.skip(i as int)),
        decreases n - i,
    {
        let ghost here = vs.skip(i as int);
        let ghost before = out@;
        let (a, b, c, d) = (v[i], v[i + 1], v[i + 2], v[i + 3]);
        assert(here[0] == a && here[1] == b && here[2] == c && here[3] == d);
        assert(here.skip(4) =~= vs.skip(i + 4));
        out.push(a * 4 + b / 16);
        out.push(b % 16 * 16 + c / 4);
        out.push(c % 4 * 64 + d);
        i = i + 4;
        assert(out@ + unpacked(vs.skip(i as int)) =~= before + unpacked(here));
    }
    let ghost here = vs.skip(i as int);
    let ghost before = out@;
    let rest = n - i;
    if rest == 1 {
        assert(here[0] == v@[i as int]);
        out.push(v[i] * 4);
    } else if rest >= 2 {
        assert(here[0] == v@[i as int] && here[1] == v@[i + 1]);
        out.push(v[i] * 4 + v[i + 1] / 16);
        if rest == 3 {
            assert(here[2] == v@[i + 2]);
            out.push(v[i + 1] % 16 * 16 + v[i + 2] / 4);
        }
    }
    assert(out@ =~= before + unpacked(here));
    Some(out)
}

/// The password in a `user:password` text.
pub open spec fn password_in(s: Seq<char>) -> Option<Seq<char>> {
    match first_pos(s, ':') {
        Some(i) => Some(s.skip(i + 1)),
        None => None,
    }
}

/// The password in the value of an `Authorization` header.
pub open spec fn password_of(raw: Seq<char>) -> Option<Seq<char>> {
    if !"Basic "@.is_prefix_of(raw) {
        None
    } else {
        match base64_bytes(raw.skip("Basic "@.len() as int)) {
            Some(bytes) => if valid_utf8(bytes) {
                password_in(decode_utf8(bytes))
            } else {
                None
            },
            None => None,
        }
    }
}

/// Whether a request may pass: without a secret every one, else only one whose
/// password is the secret.
pub open spec fn may_pass(secret: Option<Seq<char>>, authorization: Option<Seq<char>>) -> bool {
    match secret {
        None => true,
        Some(expected) => authorization is Some && password_of(authorization->0) == Some(expected),
    }
}

/// Checks the shared secret, given the `Authorization` header, so that no
/// other local process can ride along on the mount. Only the password half of
/// `user:password` needs to match.
pub fn check_basic_auth(config: &Config, authorization: Option<String>) -> (r: bool)
    ensures
        r == may_pass(config@.basic_auth_secret, opt_text(authorization)),
{
    let expected = match &config.basic_auth_secret {
        Some(s) => s,
        None => {
            return true;
        },
    };
    let raw = match authorization {
        Some(raw) => raw,
        None => {
            return false;
        },
    };
    if !starts_with(raw.as_str(), "Basic ") {
        return false;
    }
    proof {
        reveal_strlit("Basic ");
    }
    let encoded = skip_chars(raw.as_str(), 6);
    let bytes = match base64_decode(encoded.as_str()) {
        Some(bytes) => bytes,
        None => {
            return false;
        },
    };
    let decoded = match text_from_utf8(bytes) {
        Some(t) => t,
        None => {
            return false;
        },
    };
    let cs = chars_of(decoded.as_str());
    match find_first(&cs, ':') {
        Some(i) => {
            let pass = text_of(&cs, i + 1, cs.len());
            assert(pass@ =~= decoded@.skip(i + 1));
            text_eq(pass.as_str(), expected.as_str())
        },
        None => false,
    }
}

/// The text of the first value of a header.
pub open spec fn first_text(values: Seq<Vec<u8>>) -> Option<Seq<char>> {
    if values.len() == 0 {
        None
    } else {
        Some(utf8_lossy(values[0]@))
    }
}

/// The text of the first value of a header, given all its values.
pub fn header_value(values: &Vec<Vec<u8>>) -> (r: Option<String>)
    ensures
        opt_text(r) == first_text(values@),
{
    if values.len() == 0 {
        None
    } else {
        Some(text_from_utf8_lossy(values[0].as_slice()))
    }
}

/// The path portion of a destination: what follows the host of an absolute
/// URL, or all of a bare path. A scheme is a scheme only in front of the first
/// separator.
pub open spec fn path_portion(raw: Seq<char>) -> Seq<char> {
    match first_pos(raw, '/') {
        None => raw,
        Some(i) => if 0 < i && raw[i - 1] == ':' && i + 1 < raw.len() && raw[i + 1] == '/' {
            let rest = raw.skip(i + 2);
            match first_pos(rest, '/') {
                Some(j) => rest.skip(j),
                None => Seq::empty(),
            }
        } else {
            raw
        },
    }
}

/// Extracts the path portion out of a raw `Destination` header value, which
/// may be an absolute URL or already a bare path.
pub fn destination_path(raw: &str) -> (r: String)
    ensures
        r@ == path_portion(raw@),
{
    let cs = chars_of(raw);
    let n = cs.len();
    match find_first(&cs, '/') {
        Some(i) => {
            if 0 < i && cs[i - 1] == ':' && n - i > 1 && cs[i + 1] == '/' {
                let rest = text_of(&cs, i + 2, n);
                assert(rest@ =~= raw@.skip(i + 2));
                let rs = chars_of(rest.as_str());
                match find_first(&rs, '/') {
                    Some(j) => {
                        let r = text_of(&rs, j, rs.len());
                        assert(r@ =~= rest@.skip(j as int));
                        r
                    },
                    None => String::new(),
                }
            } else {
                raw.to_owned()
            }
        },
        None => raw.to_owned(),
    }
}

/// The part of a request target before its query.
pub open spec fn path_before_query(target: Seq<char>) -> Seq<char> {
    match first_pos(target, '?') {
        Some(i) => target.take(i),
        None => target,
    }
}

/// The path that a request asks for, percent-decoded.
pub open spec fn requested_path(target: Option<Seq<char>>) -> Seq<char> {
    match target {
        Some(t) => decoded_or_raw(path_before_query(t)),
        None => Seq::empty(),
    }
}

fn strip_query(target: &str) -> (r: String)
    ensures
        r@ == path_before_query(target@),
{
    let cs = chars_of(target);
    match find_first(&cs, '?') {
        Some(i) => {
            let r = text_of(&cs, 0, i);
            assert(r@ =~= target@.take(i as int));
            r
        },
        None => target.to_owned(),
    }
}

/// How a request is handled.
#[derive(Debug)]
pub enum Route {
    Get { path: String },
    /// Read the body and store it.
    Put { path: String },
    Delete { path: String },
    Propfind { path: String, depth: Option<String> },
    Mkcol { path: String },
    /// `destination` is the decoded path portion of the `Destination` header.
    Move { path: String, destination: String },
    Respond(DavResponse),
}

/// What a [`Route`] stands for.
pub enum RouteView {
    Get { path: Seq<char> },
    Put { path: Seq<char> },
    Delete { path: Seq<char> },
    Propfind { path: Seq<char>, depth: Option<Seq<char>> },
    Mkcol { path: Seq<char> },
    Move { path: Seq<char>, destination: Seq<char> },
    Respond(DavView),
}

impl View for Route {
    type V = RouteView;

    open spec fn view(&self) -> RouteView {
        match *self {
            Route::Get { path } => RouteView::Get { path: path@ },
            Route::Put { path } => RouteView::Put { path: path@ },
            Route::Delete { path } => RouteView::Delete { path: path@ },
            Route::Propfind { path, depth } => RouteView::Propfind {
                path: path@,
                depth: opt_text(depth),
            },
            Route::Mkcol { path } => RouteView::Mkcol { path: path@ },
            Route::Move { path, destination } => RouteView::Move {
                path: path@,
                destination: destination@,
            },
            Route::Respond(r) => RouteView::Respond(r@),
        }
    }
}

/// The headers that decide how a request is handled: all values of each.
#[derive(Debug)]
pub struct RequestHeaders {
    pub authorization: Vec<Vec<u8>>,
    pub depth: Vec<Vec<u8>>,
    pub destination: Vec<Vec<u8>>,
}

/// The refusal of a method.
pub open spec fn unsupported(name: Seq<char>) -> RouteView {
    RouteView::Respond(text_response(405, "unsupported method: "@ + name))
}

/// The handler of a request that may pass.
pub open spec fn dispatched(
    method: MethodView,
    path: Seq<char>,
    depth: Option<Seq<char>>,
    destination: Option<Seq<char>>,
) -> RouteView {
    match method {
        MethodView::Get => RouteView::Get { path },
        MethodView::Put => RouteView::Put { path },
        MethodView::Delete => RouteView::Delete { path },
        MethodView::Other(m) => if m == "PROPFIND"@ {
            RouteView::Propfind { path, depth }
        } else if m == "MKCOL"@ {
            RouteView::Mkcol { path }
        } else if m == "MOVE"@ {
            match destination {
                Some(raw) => RouteView::Move {
                    path,
                    destination: decoded_or_raw(path_portion(raw)),
                },
                None => RouteView::Respond(text_response(400, "missing Destination header"@)),
            }
        } else if m == "LOCK"@ {
            RouteView::Respond(lock_response(path))
        } else if m == "UNLOCK"@ {
            RouteView::Respond(empty_response(204))
        } else {
            unsupported(m)
        },
        MethodView::Head => unsupported("Method::Head"@),
        MethodView::Post => unsupported("Method::Post"@),
        MethodView::Connect => unsupported("Method::Connect"@),
        MethodView::Options => unsupported("Method::Options"@),
        MethodView::Trace => unsupported("Method::Trace"@),
        MethodView::Patch => unsupported("Method::Patch"@),
    }
}

/// How a request is handled: not at all without a configuration, and only if
/// it may pass.
pub open spec fn routed(
    config: Result<Config, String>,
    method: MethodView,
    target: Option<Seq<char>>,
    headers: RequestHeaders,
) -> RouteView {
    match config {
        Err(e) => RouteView::Respond(text_response(500, "config error: "@ + e@)),
        Ok(c) => if !may_pass(c@.basic_auth_secret, first_text(headers.authorization@)) {
            RouteView::Respond(text_response(401, "unauthorized"@))
        } else {
            dispatched(
                method,
                requested_path(target),
                first_text(headers.depth@),
                first_text(headers.destination@),
            )
        },
    }
}

fn refuse(name: &str) -> (r: Route)
    ensures
        r@ == unsupported(name@),
{
    Route::Respond(DavResponse::error(405, "unsupported method: ".to_owned().concat(name)))
}

fn dispatch(method: &Method, path: String, depth: Option<String>, destination: Option<String>) -> (r:
    Route)
    ensures
        r@ == dispatched(method@, path@, opt_text(depth), opt_text(destination)),
{
    match method {
        Method::Get => Route::Get { path },
        Method::Put => Route::Put { path },
        Method::Delete => Route::Delete { path },
        Method::Other(m) => {
            let m = m.as_str();
            if text_eq(m, "PROPFIND") {
                Route::Propfind { path, depth }
            } else if text_eq(m, "MKCOL") {
                Route::Mkcol { path }
            } else if text_eq(m, "MOVE") {
                match destination {
                    Some(raw) => Route::Move {
                        path,
                        destination: decode_or_keep(destination_path(raw.as_str())),
                    },
                    None => Route::Respond(
                        DavResponse::error(400, "missing Destination header".to_owned()),
                    ),
                }
            } else if text_eq(m, "LOCK") {
                Route::Respond(lock(path.as_str()))
            } else if text_eq(m, "UNLOCK") {
                Route::Respond(unlock())
            } else {
                refuse(m)
            }
        },
        Method::Head => refuse("Method::Head"),
        Method::Post => refuse("Method::Post"),
        Method::Connect => refuse("Method::Connect"),
        Method::Options => refuse("Method::Options"),
        Method::Trace => refuse("Method::Trace"),
        Method::Patch => refuse("Method::Patch"),
    }
}

/// Decides how a request is handled.
pub fn handle_request(
    config: &Result<Config, String>,
    method: &Method,
    target: Option<&str>,
    headers: &RequestHeaders,
) -> (r: Route)
    ensures
        r@ == routed(*config, method@, opt_str(target), *headers),
{
    let config = match config {
        Ok(c) => c,
        Err(e) => {
            return Route::Respond(
                DavResponse::error(500, "config error: ".to_owned().concat(e.as_str())),
            );
        },
    };
    let path = match target {
        Some(t) => decode_or_keep(strip_query(t)),
        None => String::new(),
    };
    if !check_basic_auth(config, header_value(&headers.authorization)) {
        return Route::Respond(DavResponse::error(401, "unauthorized".to_owned()));
    }
    dispatch(method, path, header_value(&headers.depth), header_value(&headers.destination))
}

/// The response to a `PUT` whose body cannot be read.
pub fn put_unreadable(error: String) -> (r: DavResponse)
    ensures
        r@ == text_response(400, error@),
{
    DavResponse::error(400, error)
}

/// The length that a response announces.
pub open spec fn announced_length(r: DavView) -> nat {
    match r.content_length {
        Some(n) => n as nat,
        None => r.body.len(),
    }
}

/// The headers of a response, in the order in which they are sent.
pub open spec fn head_of(r: DavView) -> Seq<(Seq<char>, Seq<char>)> {
    seq![
        ("content-type"@, r.content_type),
        ("content-length"@, decimal(announced_length(r))),
    ]
}

/// The headers of a response: the type of its body, and its length.
pub fn respond(response: &DavResponse) -> (r: Vec<(String, String)>)
    ensures
        header_texts(r@) == head_of(response@),
{
    let length = match response.content_length {
        Some(n) => n,
        None => response.body.len() as u64,
    };
    let mut out: Vec<(String, String)> = Vec::new();
    out.push(("content-type".to_owned(), response.content_type.clone()));
    out.push(("content-length".to_owned(), decimal_text(length)));
    assert(header_texts(out@) =~= head_of(response@));
    out
}

} // verus!
