//! WebDAV verb handlers: the responses to requests, given the outcome of the
//! Graph operations that they ask for.
use vstd::prelude::*;
use vstd::string::*;
use vstd::utf8::*;
use crate::graph::{item_views, GraphItem, ItemView, MAX_UPLOAD_BYTES};
use crate::index::{last_of_path, last_segment};
use crate::path_laws::lemma_last_is;
use crate::text::{
    bytes_of, chars_of, decimal, decimal_text, find_last, last_pos, opt_str, text_eq, text_of,
    trim_both, trim_both_of, trim_end, trim_end_of,
};
use crate::xml::{
    entry_views, multistatus, multistatus_text, pct_bytes, pct_encode, DavEntry, EntryView,
};

verus! {

/// A response to a WebDAV request.
#[derive(Debug)]
pub struct DavResponse {
    pub status: u16,
    pub content_type: String,
    pub body: Vec<u8>,
    pub headers: Vec<(&'static str, String)>,
    /// When set, sent as `Content-Length` instead of the body's length.
    pub content_length: Option<u64>,
}

/// What a [`DavResponse`] stands for.
pub struct DavView {
    pub status: u16,
    pub content_type: Seq<char>,
    pub body: Seq<u8>,
    pub headers: Seq<(Seq<char>, Seq<char>)>,
    pub content_length: Option<u64>,
}

/// The texts of extra response headers.
pub open spec fn extra_headers(v: Seq<(&'static str, String)>) -> Seq<(Seq<char>, Seq<char>)> {
    v.map_values(|h: (&'static str, String)| (h.0@, h.1@))
}

impl View for DavResponse {
    type V = DavView;

    open spec fn view(&self) -> DavView {
        DavView {
            status: self.status,
            content_type: self.content_type@,
            body: self.body@,
            headers: extra_headers(self.headers@),
            content_length: self.content_length,
        }
    }
}

/// A response with a body and no extra headers.
pub open spec fn body_response(status: u16, content_type: Seq<char>, body: Seq<u8>) -> DavView {
    DavView { status, content_type, body, headers: Seq::empty(), content_length: None }
}

/// A response with an XML body.
pub open spec fn xml_response(status: u16, body: Seq<char>) -> DavView {
    body_response(status, "application/xml; charset=utf-8"@, encode_utf8(body))
}

/// A response without body.
pub open spec fn empty_response(status: u16) -> DavView {
    body_response(status, "text/plain"@, Seq::empty())
}

/// A response with a plain text.
pub open spec fn text_response(status: u16, message: Seq<char>) -> DavView {
    body_response(status, "text/plain"@, encode_utf8(message))
}

/// The response that asks for credentials.
pub open spec fn credentials_wanted() -> DavView {
    DavView {
        headers: seq![("www-authenticate"@, "Basic realm=\"onedrive-davfs\""@)],
        ..text_response(401, "unauthorized"@)
    }
}

/// The response that names the supported methods.
pub open spec fn methods_supported() -> DavView {
    DavView {
        headers: seq![
            ("allow"@, "OPTIONS, PROPFIND, GET, PUT, MKCOL, DELETE, MOVE, LOCK, UNLOCK"@),
            ("dav"@, "1, 2"@),
            ("ms-author-via"@, "DAV"@),
        ],
        ..empty_response(200)
    }
}

impl DavResponse {
    /// A response with a body and no extra headers.
    pub(crate) fn plain(status: u16, content_type: &str, body: Vec<u8>) -> (r: Self)
        ensures
            r@ == body_response(status, content_type@, body@),
    {
        let headers: Vec<(&'static str, String)> = Vec::new();
        assert(extra_headers(headers@) =~= Seq::empty());
        DavResponse {
            status,
            content_type: content_type.to_owned(),
            body,
            headers,
            content_length: None,
        }
    }

    fn xml(status: u16, body: &str) -> (r: Self)
        ensures
            r@ == xml_response(status, body@),
    {
        DavResponse::plain(status, "application/xml; charset=utf-8", bytes_of(body))
    }

    fn empty(status: u16) -> (r: Self)
        ensures
            r@ == empty_response(status),
    {
        DavResponse::plain(status, "text/plain", Vec::new())
    }

    /// A response with an error message.
    pub fn error(status: u16, message: String) -> (r: Self)
        ensures
            r@ == text_response(status, message@),
    {
        DavResponse::plain(status, "text/plain", bytes_of(message.as_str()))
    }

    /// The response that asks for credentials.
    pub fn unauthorized() -> (r: Self)
        ensures
            r@ == credentials_wanted(),
    {
        let mut headers: Vec<(&'static str, String)> = Vec::new();
        headers.push(("www-authenticate", "Basic realm=\"onedrive-davfs\"".to_owned()));
        assert(extra_headers(headers@) =~= seq![
            ("www-authenticate"@, "Basic realm=\"onedrive-davfs\""@),
        ]);
        DavResponse {
            status: 401,
            content_type: "text/plain".to_owned(),
            body: bytes_of("unauthorized"),
            headers,
            content_length: None,
        }
    }

    /// The response that names the supported methods.
    pub fn options() -> (r: Self)
        ensures
            r@ == methods_supported(),
    {
        let mut headers: Vec<(&'static str, String)> = Vec::new();
        headers.push(
            (
                "allow",
                "OPTIONS, PROPFIND, GET, PUT, MKCOL, DELETE, MOVE, LOCK, UNLOCK".to_owned(),
            ),
        );
        headers.push(("dav", "1, 2".to_owned()));
        headers.push(("ms-author-via", "DAV".to_owned()));
        assert(extra_headers(headers@) =~= seq![
            ("allow"@, "OPTIONS, PROPFIND, GET, PUT, MKCOL, DELETE, MOVE, LOCK, UNLOCK"@),
            ("dav"@, "1, 2"@),
            ("ms-author-via"@, "DAV"@),
        ]);
        DavResponse {
            status: 200,
            content_type: "text/plain".to_owned(),
            body: Vec::new(),
            headers,
            content_length: None,
        }
    }
}

/// The path of a child of the folder at `path`.
pub open spec fn child_href(path: Seq<char>, name: Seq<char>) -> Seq<char> {
    if trim_both(path, '/').len() == 0 {
        "/"@ + name
    } else {
        trim_end(path, '/') + "/"@ + name
    }
}

/// The entry of an item in the folder at `path`.
pub open spec fn entry_of(path: Seq<char>, item: ItemView) -> EntryView {
    EntryView {
        href: child_href(path, item.name),
        is_dir: item.is_dir,
        size: item.size,
        last_modified: item.last_modified,
        etag: item.etag,
    }
}

/// The path of a child of the folder at `path`.
pub(crate) fn make_child_href(path: &str, name: &str) -> (r: String)
    ensures
        r@ == child_href(path@, name@),
{
    let trimmed = trim_both_of(path, '/');
    if trimmed.as_str().is_empty() {
        "/".to_owned().concat(name)
    } else {
        trim_end_of(path, '/').concat("/").concat(name)
    }
}

fn to_entry(path: &str, item: &GraphItem) -> (r: DavEntry)
    ensures
        r@ == entry_of(path@, item@),
{
    DavEntry {
        href: make_child_href(path, item.name.as_str()),
        is_dir: item.is_dir,
        size: item.size,
        last_modified: item.last_modified,
        etag: item.etag.clone(),
    }
}

/// The folder of the item at `path`; empty at the top.
pub open spec fn folder_of(path: Seq<char>) -> Seq<char> {
    let t = trim_end(path, '/');
    match last_pos(t, '/') {
        Some(i) => t.take(i),
        None => Seq::empty(),
    }
}

fn parent_of(path: &str) -> (r: String)
    ensures
        r@ == folder_of(path@),
{
    let t = trim_end_of(path, '/');
    let cs = chars_of(t.as_str());
    match find_last(&cs, '/') {
        Some(i) => {
            let r = text_of(&cs, 0, i);
            assert(r@ =~= t@.take(i as int));
            r
        },
        None => String::new(),
    }
}

/// How far a `PROPFIND` is.
#[derive(Debug)]
pub enum PropfindStep {
    Start,
    /// The item itself was looked up.
    Item(Result<GraphItem, String>),
    /// The children of the folder were listed.
    Children { item: GraphItem, children: Result<Vec<GraphItem>, String> },
}

/// What to do next in a `PROPFIND`.
#[derive(Debug)]
pub enum PropfindAction {
    Stat,
    List { item: GraphItem },
    Respond(DavResponse),
}

/// What a [`PropfindAction`] stands for.
pub enum PropfindActionView {
    Stat,
    List { item: ItemView },
    Respond(DavView),
}

impl View for PropfindAction {
    type V = PropfindActionView;

    open spec fn view(&self) -> PropfindActionView {
        match *self {
            PropfindAction::Stat => PropfindActionView::Stat,
            PropfindAction::List { item } => PropfindActionView::List { item: item@ },
            PropfindAction::Respond(r) => PropfindActionView::Respond(r@),
        }
    }
}

/// The entry of the requested item itself. The drive root is named `root` by
/// Graph; its link must still be `/`.
pub open spec fn self_entry(path: Seq<char>, item: ItemView) -> EntryView {
    let e = entry_of(folder_of(path), item);
    if trim_both(path, '/').len() == 0 {
        EntryView { href: "/"@, ..e }
    } else {
        e
    }
}

/// The entries of the children of the folder at `path`.
pub open spec fn child_entries(path: Seq<char>, items: Seq<ItemView>) -> Seq<EntryView> {
    items.map_values(|i: ItemView| entry_of(path, i))
}

/// The refusal of an unbounded listing.
pub open spec fn infinite_depth() -> DavView {
    xml_response(
        403,
        "<?xml version=\"1.0\" encoding=\"utf-8\"?>\n<D:error xmlns:D=\"DAV:\"><D:propfind-finite-depth/></D:error>"@,
    )
}

/// What a `PROPFIND` does next.
pub open spec fn propfind_next(
    path: Seq<char>,
    depth: Option<Seq<char>>,
    step: PropfindStep,
) -> PropfindActionView {
    match step {
        PropfindStep::Start => if depth == Some("infinity"@) {
            PropfindActionView::Respond(infinite_depth())
        } else {
            PropfindActionView::Stat
        },
        PropfindStep::Item(Err(e)) => if e@ == "not found"@ {
            PropfindActionView::Respond(empty_response(404))
        } else {
            PropfindActionView::Respond(text_response(502, e@))
        },
        PropfindStep::Item(Ok(item)) => if item@.is_dir && depth != Some("0"@) {
            PropfindActionView::List { item: item@ }
        } else {
            PropfindActionView::Respond(
                xml_response(207, multistatus_text(seq![self_entry(path, item@)])),
            )
        },
        PropfindStep::Children { item, children: Err(e) } => PropfindActionView::Respond(
            text_response(502, e@),
        ),
        PropfindStep::Children { item, children: Ok(children) } => PropfindActionView::Respond(
            xml_response(
                207,
                multistatus_text(
                    seq![self_entry(path, item@)] + child_entries(path, item_views(children@)),
                ),
            ),
        ),
    }
}

fn make_self_entry(path: &str, item: &GraphItem) -> (r: DavEntry)
    ensures
        r@ == self_entry(path@, item@),
{
    let mut e = to_entry(parent_of(path).as_str(), item);
    let trimmed = trim_both_of(path, '/');
    if trimmed.as_str().is_empty() {
        e.href = "/".to_owned();
    }
    e
}

fn is_depth(depth: Option<&str>, what: &str) -> (r: bool)
    ensures
        r == (opt_str(depth) == Some(what@)),
{
    match depth {
        Some(d) => text_eq(d, what),
        None => false,
    }
}

/// `depth` is the raw `Depth` header value (`"0"`, `"1"`, `"infinity"`, or
/// absent). `infinity` is refused, since Graph has no cheap way to answer an
/// unbounded recursive listing.
pub fn propfind(path: &str, depth: Option<&str>, step: PropfindStep) -> (r: PropfindAction)
    ensures
        r@ == propfind_next(path@, opt_str(depth), step),
{
    match step {
        PropfindStep::Start => {
            if is_depth(depth, "infinity") {
                PropfindAction::Respond(
                    DavResponse::xml(
                        403,
                        "<?xml version=\"1.0\" encoding=\"utf-8\"?>\n<D:error xmlns:D=\"DAV:\"><D:propfind-finite-depth/></D:error>",
                    ),
                )
            } else {
                PropfindAction::Stat
            }
        },
        PropfindStep::Item(Err(e)) => {
            if text_eq(e.as_str(), "not found") {
                PropfindAction::Respond(DavResponse::empty(404))
            } else {
                PropfindAction::Respond(DavResponse::error(502, e))
            }
        },
        PropfindStep::Item(Ok(item)) => {
            if item.is_dir && !is_depth(depth, "0") {
                PropfindAction::List { item }
            } else {
                let mut entries: Vec<DavEntry> = Vec::new();
                entries.push(make_self_entry(path, &item));
                assert(entry_views(entries@) =~= seq![self_entry(path@, item@)]);
                PropfindAction::Respond(
                    DavResponse::xml(207, multistatus(entries.as_slice()).as_str()),
                )
            }
        },
        PropfindStep::Children { item: _, children: Err(e) } => PropfindAction::Respond(
            DavResponse::error(502, e),
        ),
        PropfindStep::Children { item, children: Ok(children) } => {
            let ghost all = child_entries(path@, item_views(children@));
            let ghost first = seq![self_entry(path@, item@)];
            let mut entries: Vec<DavEntry> = Vec::new();
            entries.push(make_self_entry(path, &item));
            assert(entry_views(entries@) =~= first + all.take(0));
            for i in 0..children.len()
                invariant
                    all == child_entries(path@, item_views(children@)),
                    entry_views(entries@) == first + all.take(i as int),
            {
                let ghost before = entries@;
                let e = to_entry(path, &children[i]);
                entries.push(e);
                assert(e@ == all[i as int]);
                assert(entry_views(entries@) =~= entry_views(before).push(e@));
                assert(first + all.take(i + 1) =~= (first + all.take(i as int)).push(
                    all[i as int],
                ));
            }
            assert(all.take(children@.len() as int) =~= all);
            PropfindAction::Respond(
                DavResponse::xml(207, multistatus(entries.as_slice()).as_str()),
            )
        },
    }
}

/// The response to a `GET`, given the content or the error of the download.
pub open spec fn got(content: Result<Vec<u8>, String>) -> DavView {
    match content {
        Ok(data) => body_response(200, "application/octet-stream"@, data@),
        Err(e) => text_response(502, e@),
    }
}

/// The response to a `GET`, given the content or the error of the download.
pub fn get(content: Result<Vec<u8>, String>) -> (r: DavResponse)
    ensures
        r@ == got(content),
{
    match content {
        Ok(data) => DavResponse::plain(200, "application/octet-stream", data),
        Err(e) => DavResponse::error(502, e),
    }
}

/// The media type of an item.
pub open spec fn media_type(item: ItemView) -> Seq<char> {
    if item.is_dir {
        "httpd/unix-directory"@
    } else if item.mime_type.len() == 0 {
        "application/octet-stream"@
    } else {
        item.mime_type
    }
}

/// The response to a `HEAD`, given the item or the error of the lookup.
pub open spec fn headed(item: Result<GraphItem, String>) -> DavView {
    match item {
        Ok(item) => DavView {
            content_length: Some(
                if item@.is_dir {
                    0
                } else {
                    item@.size
                },
            ),
            ..body_response(200, media_type(item@), Seq::empty())
        },
        Err(e) => if e@ == "not found"@ {
            empty_response(404)
        } else {
            text_response(502, e@)
        },
    }
}

/// The response to a `HEAD`, given the item or the error of the lookup. It has
/// no body, but the length that the body of a `GET` would have.
pub fn head(item: Result<GraphItem, String>) -> (r: DavResponse)
    ensures
        r@ == headed(item),
{
    match item {
        Ok(item) => {
            let content_type = if item.is_dir {
                "httpd/unix-directory".to_owned()
            } else if item.mime_type.as_str().is_empty() {
                "application/octet-stream".to_owned()
            } else {
                item.mime_type
            };
            let headers: Vec<(&'static str, String)> = Vec::new();
            assert(extra_headers(headers@) =~= Seq::empty());
            DavResponse {
                status: 200,
                content_type,
                body: Vec::new(),
                headers,
                content_length: Some(
                    if item.is_dir {
                        0
                    } else {
                        item.size
                    },
                ),
            }
        },
        Err(e) => {
            if text_eq(e.as_str(), "not found") {
                DavResponse::empty(404)
            } else {
                DavResponse::error(502, e)
            }
        },
    }
}

/// How far a `PUT` is.
#[derive(Debug)]
pub enum PutStep {
    Start,
    Stored(Result<(), String>),
}

/// What to do next in a `PUT`.
#[derive(Debug)]
pub enum PutAction {
    Store,
    Respond(DavResponse),
}

/// What a [`PutAction`] stands for.
pub enum PutActionView {
    Store,
    Respond(DavView),
}

impl View for PutAction {
    type V = PutActionView;

    open spec fn view(&self) -> PutActionView {
        match *self {
            PutAction::Store => PutActionView::Store,
            PutAction::Respond(r) => PutActionView::Respond(r@),
        }
    }
}

/// What is said of a body that is too large.
pub open spec fn too_large(len: nat) -> Seq<char> {
    "file is "@ + decimal(len) + " bytes; this build only supports uploads up to "@ + decimal(
        MAX_UPLOAD_BYTES as nat,
    ) + " bytes"@
}

/// What a `PUT` does next.
pub open spec fn put_next(body: Seq<u8>, step: PutStep) -> PutActionView {
    match step {
        PutStep::Start => if body.len() > MAX_UPLOAD_BYTES {
            PutActionView::Respond(text_response(413, too_large(body.len())))
        } else {
            PutActionView::Store
        },
        PutStep::Stored(Ok(_)) => PutActionView::Respond(empty_response(201)),
        PutStep::Stored(Err(e)) => PutActionView::Respond(text_response(502, e@)),
    }
}

/// Handles a `PUT`: a body that is too large is refused before anything is
/// sent.
pub fn put(body: &[u8], step: PutStep) -> (r: PutAction)
    ensures
        r@ == put_next(body@, step),
{
    match step {
        PutStep::Start => {
            let len = body.len() as u64;
            if len > MAX_UPLOAD_BYTES {
                let mut e = "file is ".to_owned();
                e.append(decimal_text(len).as_str());
                e.append(" bytes; this build only supports uploads up to ");
                e.append(decimal_text(MAX_UPLOAD_BYTES).as_str());
                e.append(" bytes");
                PutAction::Respond(DavResponse::error(413, e))
            } else {
                PutAction::Store
            }
        },
        PutStep::Stored(Ok(_)) => PutAction::Respond(DavResponse::empty(201)),
        PutStep::Stored(Err(e)) => PutAction::Respond(DavResponse::error(502, e)),
    }
}

/// How far an `MKCOL` is.
#[derive(Debug)]
pub enum MkcolStep {
    Start,
    Created(Result<(), String>),
}

/// What to do next in an `MKCOL`.
#[derive(Debug)]
pub enum MkcolAction {
    Create { parent: String, name: String },
    Respond(DavResponse),
}

/// What an [`MkcolAction`] stands for.
pub enum MkcolActionView {
    Create { parent: Seq<char>, name: Seq<char> },
    Respond(DavView),
}

impl View for MkcolAction {
    type V = MkcolActionView;

    open spec fn view(&self) -> MkcolActionView {
        match *self {
            MkcolAction::Create { parent, name } => MkcolActionView::Create {
                parent: parent@,
                name: name@,
            },
            MkcolAction::Respond(r) => MkcolActionView::Respond(r@),
        }
    }
}

/// What an `MKCOL` does next.
pub open spec fn mkcol_next(path: Seq<char>, step: MkcolStep) -> MkcolActionView {
    match step {
        MkcolStep::Start => MkcolActionView::Create {
            parent: folder_of(path),
            name: last_of_path(path),
        },
        MkcolStep::Created(Ok(_)) => MkcolActionView::Respond(empty_response(201)),
        MkcolStep::Created(Err(e)) => MkcolActionView::Respond(text_response(502, e@)),
    }
}

/// Handles an `MKCOL`: the last segment of the path is created in the folder
/// before it.
pub fn mkcol(path: &str, step: MkcolStep) -> (r: MkcolAction)
    ensures
        r@ == mkcol_next(path@, step),
{
    match step {
        MkcolStep::Start => MkcolAction::Create {
            parent: parent_of(path),
            name: last_segment(path),
        },
        MkcolStep::Created(Ok(_)) => MkcolAction::Respond(DavResponse::empty(201)),
        MkcolStep::Created(Err(e)) => MkcolAction::Respond(DavResponse::error(502, e)),
    }
}

/// The response to a `DELETE`, given its outcome.
pub open spec fn deleted(outcome: Result<(), String>) -> DavView {
    match outcome {
        Ok(_) => empty_response(204),
        Err(e) => text_response(502, e@),
    }
}

/// The response to a `DELETE`, given its outcome.
pub fn delete(outcome: Result<(), String>) -> (r: DavResponse)
    ensures
        r@ == deleted(outcome),
{
    match outcome {
        Ok(_) => DavResponse::empty(204),
        Err(e) => DavResponse::error(502, e),
    }
}

/// The response to a `MOVE`, given its outcome.
pub open spec fn moved(outcome: Result<(), String>) -> DavView {
    match outcome {
        Ok(_) => empty_response(201),
        Err(e) => text_response(502, e@),
    }
}

/// The response to a `MOVE`, given its outcome.
pub fn move_to(outcome: Result<(), String>) -> (r: DavResponse)
    ensures
        r@ == moved(outcome),
{
    match outcome {
        Ok(_) => DavResponse::empty(201),
        Err(e) => DavResponse::error(502, e),
    }
}

/// The lock that is granted for a path.
pub open spec fn lock_body(path: Seq<char>) -> Seq<char> {
    let link = pct_bytes(encode_utf8(path));
    "<?xml version=\"1.0\" encoding=\"utf-8\"?>\n<D:prop xmlns:D=\"DAV:\">\n  <D:lockdiscovery>\n    <D:activelock>\n      <D:locktype><D:write/></D:locktype>\n      <D:lockscope><D:exclusive/></D:lockscope>\n      <D:depth>0</D:depth>\n      <D:owner>onedrive-davfs</D:owner>\n      <D:timeout>Second-3600</D:timeout>\n      <D:locktoken><D:href>opaquelocktoken:"@
        + link + "</D:href></D:locktoken>\n      <D:lockroot><D:href>"@ + link
        + "</D:href></D:lockroot>\n    </D:activelock>\n  </D:lockdiscovery>\n</D:prop>"@
}

/// The response that grants a lock.
pub open spec fn lock_response(path: Seq<char>) -> DavView {
    DavView {
        headers: seq![
            ("lock-token"@, "<opaquelocktoken:"@ + pct_bytes(encode_utf8(path)) + ">"@),
        ],
        ..xml_response(200, lock_body(path))
    }
}

/// Handles a `LOCK`. davfs2 requires it to succeed to allow writes, but Graph
/// has no locking concept worth modeling for a single-writer mount, so this is
/// a fixed success response rather than a real lock grant.
pub fn lock(path: &str) -> (r: DavResponse)
    ensures
        r@ == lock_response(path@),
{
    let link = pct_encode(path);
    let mut body = "<?xml version=\"1.0\" encoding=\"utf-8\"?>\n<D:prop xmlns:D=\"DAV:\">\n  <D:lockdiscovery>\n    <D:activelock>\n      <D:locktype><D:write/></D:locktype>\n      <D:lockscope><D:exclusive/></D:lockscope>\n      <D:depth>0</D:depth>\n      <D:owner>onedrive-davfs</D:owner>\n      <D:timeout>Second-3600</D:timeout>\n      <D:locktoken><D:href>opaquelocktoken:".to_owned();
    body.append(link.as_str());
    body.append("</D:href></D:locktoken>\n      <D:lockroot><D:href>");
    body.append(link.as_str());
    body.append(
        "</D:href></D:lockroot>\n    </D:activelock>\n  </D:lockdiscovery>\n</D:prop>",
    );
    let mut token = "<opaquelocktoken:".to_owned();
    token.append(link.as_str());
    token.append(">");
    let mut headers: Vec<(&'static str, String)> = Vec::new();
    headers.push(("lock-token", token));
    assert(extra_headers(headers@) =~= seq![("lock-token"@, token@)]);
    DavResponse {
        status: 200,
        content_type: "application/xml; charset=utf-8".to_owned(),
        body: bytes_of(body.as_str()),
        headers,
        content_length: None,
    }
}

/// Handles an `UNLOCK`, which always succeeds.
pub fn unlock() -> (r: DavResponse)
    ensures
        r@ == empty_response(204),
{
    DavResponse::empty(204)
}

/// Every answer to a `PROPFIND` for an item that is there is a multi-status
/// answer, never a plain success.
pub proof fn law_propfind_is_multistatus(
    path: Seq<char>,
    depth: Option<Seq<char>>,
    item: GraphItem,
    children: Vec<GraphItem>,
)
    ensures
        match propfind_next(path, depth, PropfindStep::Item(Ok(item))) {
            PropfindActionView::Respond(r) => r.status == 207,
            PropfindActionView::List { item: i } => i == item@ && item@.is_dir,
            PropfindActionView::Stat => false,
        },
        propfind_next(path, depth, PropfindStep::Children { item, children: Ok(children) }) matches
            PropfindActionView::Respond(r) && r.status == 207,
{
}

/// An unbounded listing is refused before Graph is asked anything.
pub proof fn law_infinite_depth_is_refused(path: Seq<char>)
    ensures
        propfind_next(path, Some("infinity"@), PropfindStep::Start) matches
            PropfindActionView::Respond(r) && r.status == 403,
{
}

/// An item is described by the same path in the listing of its folder as in
/// its own entry.
pub proof fn law_entry_has_one_path(folder: Seq<char>, item: ItemView)
    requires
        item.name.len() > 0,
        !item.name.contains('/'),
    ensures
        self_entry(child_href(folder, item.name), item) == entry_of(folder, item),
{
    let path = child_href(folder, item.name);
    let top = if trim_both(folder, '/').len() == 0 {
        Seq::empty()
    } else {
        trim_end(folder, '/')
    };
    reveal_strlit("/");
    lemma_trimmed(folder);
    assert(path =~= top.push('/') + item.name);
    assert(path.last() == item.name.last());
    assert(item.name.contains(item.name.last()));
    assert(trim_end(path, '/') == path);
    let i = top.len() as int;
    assert forall|j: int| i < j < path.len() implies path[j] != '/' by {
        assert(path[j] == item.name[j - i - 1]);
        assert(item.name.contains(item.name[j - i - 1]));
    }
    lemma_last_is(path, i);
    assert(path.take(i) =~= top);
    lemma_trim_nonempty(path);
    if top.len() > 0 {
        lemma_trim_nonempty(top);
    }
}

/// Trimming a path at its end leaves nothing that ends in a separator, and
/// nothing at all only of a path without segments.
proof fn lemma_trimmed(path: Seq<char>)
    ensures
        trim_end(path, '/').len() > 0 ==> trim_end(path, '/').last() != '/',
        trim_end(path, '/').len() == 0 ==> trim_both(path, '/').len() == 0,
    decreases path.len(),
{
    if path.len() > 0 && path.last() == '/' {
        lemma_trimmed(path.drop_last());
        lemma_trim_start_push(path.drop_last());
        assert(path.drop_last().push('/') =~= path);
    }
}

/// A trailing separator does not add anything that trimming leaves.
proof fn lemma_trim_start_push(path: Seq<char>)
    ensures
        trim_both(path.push('/'), '/') == trim_both(path, '/'),
    decreases path.len(),
{
    let whole = path.push('/');
    if path.len() == 0 {
        assert(whole.drop_first() =~= path);
    } else if path[0] == '/' {
        assert(whole.drop_first() =~= path.drop_first().push('/'));
        lemma_trim_start_push(path.drop_first());
    } else {
        assert(whole.drop_last() =~= path);
    }
}

/// A path that does not end in a separator is not trimmed to nothing.
proof fn lemma_trim_nonempty(path: Seq<char>)
    requires
        path.len() > 0,
        path.last() != '/',
    ensures
        trim_both(path, '/').len() > 0,
    decreases path.len(),
{
    if path[0] == '/' {
        lemma_trim_nonempty(path.drop_first());
    }
}

} // verus!
