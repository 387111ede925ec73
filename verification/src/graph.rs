//! Microsoft Graph client: which requests an operation makes, and what it
//! makes of the replies.
//!
//! Paths are POSIX-style (`/Documents/report.docx`, `""` for the drive root)
//! and are translated to Graph item URLs under either a drive id
//! (`/drives/{drive-id}/root:/path/to/item:`) or a selector such as
//! `/me/drive/root:/path/to/item:`.
//!
//! An operation is a step function. It is called with `Start` first and then
//! with the outcome of each action that it asked for, until it is done.
use serde_json::Value;
use vstd::prelude::*;
use vstd::slice::{slice_subrange, slice_to_vec};
use vstd::string::*;
use vstd::utf8::*;
use crate::config::{Config, ConfigView};
use crate::http_client::{
    header_text, header_texts, HttpRequest, HttpResponse, Method, MethodView, RequestView,
    ResponseView,
};
use crate::json::{
    json_object, json_set, json_string, json_text, json_to_string, json_view, JsonView,
};
use crate::text::{
    bytes_of, chars_of, decimal, decimal_text, find_last, has_char, join_texts, join_with, last_pos,
    opt_text, split_on, split_text, starts_with, text_from_utf8_lossy, text_of, texts, trim_both,
    trim_both_of, trim_start, trim_start_of, trim_white, trim_white_of, utf8_lossy,
};
use crate::timestamp::{parse_iso8601_to_unix, unix_time};
use crate::xml::{pct_bytes, pct_encode};

verus! {

/// Graph's simple (non-chunked) upload only supports files up to about 4 MiB.
/// Larger files go through an upload session.
pub const MAX_SIMPLE_UPLOAD_BYTES: u64 = 4194304;

/// Hard ceiling on a single `PUT`: the whole body is buffered.
pub const MAX_UPLOAD_BYTES: u64 = 67108864;

/// Graph upload-session chunks must be a multiple of 320 KiB except the last.
pub const UPLOAD_CHUNK_BYTES: usize = 10485760;

/// Upper bound on pagination round-trips for a single listing (200 items per
/// page), guarding against a runaway or cyclic link chain.
pub const MAX_CHILDREN_PAGES: usize = 500;

/// What every URL that a bearer token is sent to begins with.
pub const GRAPH_ORIGIN: &'static str = "https://graph.microsoft.com/";

/// Metadata of an item of the drive.
#[derive(Debug)]
pub struct GraphItem {
    pub name: String,
    pub is_dir: bool,
    pub size: u64,
    /// Unix seconds.
    pub last_modified: u64,
    pub etag: String,
    /// Media type, empty for folders or when Graph omits it.
    pub mime_type: String,
}

/// What a [`GraphItem`] stands for.
pub struct ItemView {
    pub name: Seq<char>,
    pub is_dir: bool,
    pub size: u64,
    pub last_modified: u64,
    pub etag: Seq<char>,
    pub mime_type: Seq<char>,
}

impl View for GraphItem {
    type V = ItemView;

    open spec fn view(&self) -> ItemView {
        ItemView {
            name: self.name@,
            is_dir: self.is_dir,
            size: self.size,
            last_modified: self.last_modified,
            etag: self.etag@,
            mime_type: self.mime_type@,
        }
    }
}

/// What a list of [`GraphItem`] stands for.
pub open spec fn item_views(v: Seq<GraphItem>) -> Seq<ItemView> {
    v.map_values(|i: GraphItem| i@)
}

/// An item as Graph describes it.
#[derive(Debug)]
pub struct DriveItem {
    pub name: String,
    pub size: u64,
    /// Whether there is a `folder` facet.
    pub is_folder: bool,
    pub last_modified: Option<String>,
    pub etag: Option<String>,
    /// `mimeType` of the `file` facet.
    pub mime_type: Option<String>,
}

/// What a [`DriveItem`] stands for.
pub struct DriveItemView {
    pub name: Seq<char>,
    pub size: u64,
    pub is_folder: bool,
    pub last_modified: Option<Seq<char>>,
    pub etag: Option<Seq<char>>,
    pub mime_type: Option<Seq<char>>,
}

impl View for DriveItem {
    type V = DriveItemView;

    open spec fn view(&self) -> DriveItemView {
        DriveItemView {
            name: self.name@,
            size: self.size,
            is_folder: self.is_folder,
            last_modified: opt_text(self.last_modified),
            etag: opt_text(self.etag),
            mime_type: opt_text(self.mime_type),
        }
    }
}

/// What a list of [`DriveItem`] stands for.
pub open spec fn drive_views(v: Seq<DriveItem>) -> Seq<DriveItemView> {
    v.map_values(|i: DriveItem| i@)
}

/// One page of a listing.
#[derive(Debug)]
pub struct DriveItemPage {
    pub value: Vec<DriveItem>,
    pub next_link: Option<String>,
}

/// A text or nothing.
pub open spec fn text_or_empty(t: Option<Seq<char>>) -> Seq<char> {
    match t {
        Some(t) => t,
        None => Seq::empty(),
    }
}

fn take_text(t: &Option<String>) -> (r: String)
    ensures
        r@ == text_or_empty(opt_text(*t)),
{
    match t {
        Some(t) => t.clone(),
        None => String::new(),
    }
}

/// The metadata that a description holds; what is missing is zero or empty.
pub open spec fn item_of(d: DriveItemView) -> ItemView {
    ItemView {
        name: d.name,
        is_dir: d.is_folder,
        size: d.size,
        last_modified: match d.last_modified {
            Some(t) => unix_time(t),
            None => 0,
        },
        etag: text_or_empty(d.etag),
        mime_type: text_or_empty(d.mime_type),
    }
}

/// The metadata of each description.
pub open spec fn items_of(ds: Seq<DriveItemView>) -> Seq<ItemView> {
    ds.map_values(|d: DriveItemView| item_of(d))
}

/// The metadata that a description holds.
pub fn to_item(item: &DriveItem) -> (r: GraphItem)
    ensures
        r@ == item_of(item@),
{
    let last_modified = match &item.last_modified {
        Some(t) => parse_iso8601_to_unix(t.as_str()),
        None => 0,
    };
    GraphItem {
        name: item.name.clone(),
        is_dir: item.is_folder,
        size: item.size,
        last_modified,
        etag: take_text(&item.etag),
        mime_type: take_text(&item.mime_type),
    }
}

/// The URL path of a drive: a selector as it is, anything else as a drive id.
pub open spec fn drive_root(drive_base: Seq<char>) -> Seq<char> {
    let trimmed = trim_both(drive_base, '/');
    if trimmed.contains('/') {
        "/"@ + trimmed
    } else {
        "/drives/"@ + trimmed
    }
}

/// The URL path of a drive.
pub fn drive_root_segment(drive_base: &str) -> (r: String)
    ensures
        r@ == drive_root(drive_base@),
{
    let trimmed = trim_both_of(drive_base, '/');
    if has_char(trimmed.as_str(), '/') {
        "/".to_owned().concat(trimmed.as_str())
    } else {
        "/drives/".to_owned().concat(trimmed.as_str())
    }
}

/// Each piece, percent-encoded.
pub open spec fn pct_pieces(pieces: Seq<Seq<char>>) -> Seq<Seq<char>> {
    pieces.map_values(|p: Seq<char>| pct_bytes(encode_utf8(p)))
}

/// A path with each segment percent-encoded.
pub open spec fn pct_path(path: Seq<char>) -> Seq<char> {
    join_with(pct_pieces(split_on(path, '/')), "/"@)
}

fn encode_path(path: &str) -> (r: String)
    ensures
        r@ == pct_path(path@),
{
    let pieces = split_text(path, '/');
    let ghost all = pct_pieces(split_on(path@, '/'));
    let mut parts: Vec<String> = Vec::new();
    assert(texts(parts@) =~= all.take(0));
    for i in 0..pieces.len()
        invariant
            texts(pieces@) == split_on(path@, '/'),
            all == pct_pieces(texts(pieces@)),
            texts(parts@) == all.take(i as int),
    {
        let ghost before = parts@;
        let part = pct_encode(pieces[i].as_str());
        parts.push(part);
        assert(part@ == all[i as int]);
        assert(texts(parts@) =~= texts(before).push(part@));
        assert(all.take(i + 1) =~= all.take(i as int).push(all[i as int]));
    }
    assert(all.take(pieces@.len() as int) =~= all);
    join_texts(&parts, "/")
}

/// The `parentReference.path` of a folder: `/<drive>/root:` for the drive root
/// and `/<drive>/root:/folder` for another folder. Unlike an item address it
/// has no trailing colon.
pub open spec fn parent_reference(drive_base: Seq<char>, parent: Seq<char>) -> Seq<char> {
    let trimmed = trim_both(parent, '/');
    if trimmed.len() == 0 {
        drive_root(drive_base) + "/root:"@
    } else {
        drive_root(drive_base) + "/root:/"@ + pct_path(trimmed)
    }
}

/// The `parentReference.path` of a folder.
pub fn parent_reference_path(drive_base: &str, parent: &str) -> (r: String)
    ensures
        r@ == parent_reference(drive_base@, parent@),
{
    let root = drive_root_segment(drive_base);
    let trimmed = trim_both_of(parent, '/');
    if trimmed.as_str().is_empty() {
        root.concat("/root:")
    } else {
        root.concat("/root:/").concat(encode_path(trimmed.as_str()).as_str())
    }
}

/// The URL path of an item.
pub open spec fn item_path(drive_base: Seq<char>, path: Seq<char>) -> Seq<char> {
    let trimmed = trim_start(path, '/');
    if trimmed.len() == 0 {
        drive_root(drive_base) + "/root"@
    } else {
        drive_root(drive_base) + "/root:/"@ + pct_path(trimmed) + ":"@
    }
}

/// The URL path of an item.
pub fn item_path_segment(drive_base: &str, path: &str) -> (r: String)
    ensures
        r@ == item_path(drive_base@, path@),
{
    let trimmed = trim_start_of(path, '/');
    let root = drive_root_segment(drive_base);
    if trimmed.as_str().is_empty() {
        root.concat("/root")
    } else {
        root.concat("/root:/").concat(encode_path(trimmed.as_str()).as_str()).concat(":")
    }
}

/// The URL of an item, with a suffix that names what of it is meant.
pub open spec fn item_url(config: ConfigView, path: Seq<char>, suffix: Seq<char>) -> Seq<char> {
    "https://graph.microsoft.com/v1.0"@ + item_path(config.drive_base, path) + suffix
}

fn make_item_url(config: &Config, path: &str, suffix: &str) -> (r: String)
    ensures
        r@ == item_url(config@, path@, suffix@),
{
    "https://graph.microsoft.com/v1.0".to_owned().concat(
        item_path_segment(config.drive_base.as_str(), path).as_str(),
    ).concat(suffix)
}

/// The URL at which a delta crawl of the drive begins.
pub open spec fn delta_url(drive_base: Seq<char>) -> Seq<char> {
    "https://graph.microsoft.com/v1.0"@ + drive_root(drive_base) + "/root/delta"@
}

/// The URL at which a delta crawl of the drive begins.
pub fn initial_delta_url(drive_base: &str) -> (r: String)
    ensures
        r@ == delta_url(drive_base@),
{
    "https://graph.microsoft.com/v1.0".to_owned().concat(
        drive_root_segment(drive_base).as_str(),
    ).concat("/root/delta")
}

/// A request to Graph, to be sent with a bearer token.
#[derive(Debug)]
pub struct GraphCall {
    pub method: Method,
    pub url: String,
    pub content_type: Option<String>,
    pub body: Vec<u8>,
}

/// What a [`GraphCall`] stands for.
pub struct CallView {
    pub method: MethodView,
    pub url: Seq<char>,
    pub content_type: Option<Seq<char>>,
    pub body: Seq<u8>,
}

impl View for GraphCall {
    type V = CallView;

    open spec fn view(&self) -> CallView {
        CallView {
            method: self.method@,
            url: self.url@,
            content_type: opt_text(self.content_type),
            body: self.body@,
        }
    }
}

/// The headers of a Graph request.
pub open spec fn call_headers(content_type: Option<Seq<char>>, bearer: Seq<char>) -> Seq<
    (Seq<char>, Seq<char>),
> {
    match content_type {
        Some(ct) => seq![("authorization"@, bearer), ("content-type"@, ct)],
        None => seq![("authorization"@, bearer)],
    }
}

/// The HTTP request of a Graph request, with its bearer token.
pub open spec fn with_bearer(call: CallView, bearer: Seq<char>) -> RequestView {
    RequestView {
        method: call.method,
        url: call.url,
        headers: call_headers(call.content_type, bearer),
        body: call.body,
    }
}

/// The HTTP request of a Graph request, with its bearer token.
pub fn graph_request(call: GraphCall, bearer: String) -> (r: HttpRequest)
    ensures
        r@ == with_bearer(call@, bearer@),
{
    let mut headers: Vec<(String, String)> = Vec::new();
    let ghost ct = opt_text(call.content_type);
    headers.push(("authorization".to_owned(), bearer));
    if let Some(ct) = call.content_type {
        headers.push(("content-type".to_owned(), ct));
    }
    assert(header_texts(headers@) =~= call_headers(ct, bearer@));
    HttpRequest { method: call.method, url: call.url, headers, body: call.body }
}

/// A request without body.
pub open spec fn plain_call(method: MethodView, url: Seq<char>) -> CallView {
    CallView { method, url, content_type: None, body: Seq::empty() }
}

fn make_plain_call(method: Method, url: String) -> (r: GraphCall)
    ensures
        r@ == plain_call(method@, url@),
{
    GraphCall { method, url, content_type: None, body: Vec::new() }
}

/// A request with a JSON body.
pub open spec fn json_call(method: MethodView, url: Seq<char>, body: JsonView) -> CallView {
    CallView {
        method,
        url,
        content_type: Some("application/json"@),
        body: encode_utf8(json_text(body)),
    }
}

fn make_json_call(method: Method, url: String, body: &Value) -> (r: GraphCall)
    ensures
        r@ == json_call(method@, url@, json_view(*body)),
{
    let text = json_to_string(body);
    GraphCall {
        method,
        url,
        content_type: Some("application/json".to_owned()),
        body: bytes_of(text.as_str()),
    }
}

/// What is reported of a reply with an unexpected status.
pub open spec fn bad_status(what: Seq<char>, reply: ResponseView) -> Seq<char> {
    what + decimal(reply.status as nat) + ": "@ + utf8_lossy(reply.body)
}

fn make_bad_status(what: &str, reply: &HttpResponse) -> (r: String)
    ensures
        r@ == bad_status(what@, reply@),
{
    let mut e = what.to_owned();
    e.append(decimal_text(reply.status as u64).as_str());
    e.append(": ");
    e.append(text_from_utf8_lossy(reply.body.as_slice()).as_str());
    e
}

/// How far a `stat` is.
#[derive(Debug)]
pub enum StatStep {
    Start,
    Replied(Result<HttpResponse, String>),
    Parsed(Result<DriveItem, String>),
}

/// What to do next in a `stat`.
#[derive(Debug)]
pub enum StatAction {
    Call(GraphCall),
    /// Parse the body as a drive item.
    Parse(Vec<u8>),
    Done(Result<GraphItem, String>),
}

/// What a [`StatAction`] stands for.
pub enum StatActionView {
    Call(CallView),
    Parse(Seq<u8>),
    Done(Result<ItemView, Seq<char>>),
}

impl View for StatAction {
    type V = StatActionView;

    open spec fn view(&self) -> StatActionView {
        match *self {
            StatAction::Call(call) => StatActionView::Call(call@),
            StatAction::Parse(body) => StatActionView::Parse(body@),
            StatAction::Done(Ok(item)) => StatActionView::Done(Ok(item@)),
            StatAction::Done(Err(e)) => StatActionView::Done(Err(e@)),
        }
    }
}

/// What a `stat` does next.
pub open spec fn stat_next(config: ConfigView, path: Seq<char>, step: StatStep) -> StatActionView {
    match step {
        StatStep::Start => StatActionView::Call(
            plain_call(MethodView::Get, item_url(config, path, ""@)),
        ),
        StatStep::Replied(Err(e)) => StatActionView::Done(Err(e@)),
        StatStep::Replied(Ok(reply)) => if reply@.status == 404 {
            StatActionView::Done(Err("not found"@))
        } else if reply@.status != 200 {
            StatActionView::Done(Err(bad_status("graph stat failed with status "@, reply@)))
        } else {
            StatActionView::Parse(reply@.body)
        },
        StatStep::Parsed(Err(e)) => StatActionView::Done(
            Err("failed to parse drive item: "@ + e@),
        ),
        StatStep::Parsed(Ok(item)) => StatActionView::Done(Ok(item_of(item@))),
    }
}

/// Metadata of a single item.
pub fn stat(config: &Config, path: &str, step: StatStep) -> (r: StatAction)
    ensures
        r@ == stat_next(config@, path@, step),
{
    match step {
        StatStep::Start => StatAction::Call(
            make_plain_call(Method::Get, make_item_url(config, path, "")),
        ),
        StatStep::Replied(Err(e)) => StatAction::Done(Err(e)),
        StatStep::Replied(Ok(reply)) => {
            if reply.status == 404 {
                StatAction::Done(Err("not found".to_owned()))
            } else if reply.status != 200 {
                StatAction::Done(
                    Err(make_bad_status("graph stat failed with status ", &reply)),
                )
            } else {
                StatAction::Parse(reply.body)
            }
        },
        StatStep::Parsed(Err(e)) => StatAction::Done(
            Err("failed to parse drive item: ".to_owned().concat(e.as_str())),
        ),
        StatStep::Parsed(Ok(item)) => StatAction::Done(Ok(to_item(&item))),
    }
}

/// Decides whether a pagination link is followed. The bearer token is attached
/// to every request, so a link that leads anywhere but to Graph would leak it.
pub open spec fn next_link(next: Seq<char>, pages_so_far: int) -> Result<Seq<char>, Seq<char>> {
    if pages_so_far >= MAX_CHILDREN_PAGES {
        Err("graph children listing exceeded 500 pages; aborting"@)
    } else if !GRAPH_ORIGIN@.is_prefix_of(next) {
        Err("graph @odata.nextLink points outside graph.microsoft.com; refusing"@)
    } else {
        Ok(next)
    }
}

/// Decides whether a pagination link is followed.
pub fn validate_next_link(next: &str, pages_so_far: usize) -> (r: Result<String, String>)
    ensures
        match r {
            Ok(url) => next_link(next@, pages_so_far as int) == Ok::<Seq<char>, Seq<char>>(url@),
            Err(e) => next_link(next@, pages_so_far as int) == Err::<Seq<char>, Seq<char>>(e@),
        },
{
    if pages_so_far >= MAX_CHILDREN_PAGES {
        return Err("graph children listing exceeded 500 pages; aborting".to_owned());
    }
    if !starts_with(next, GRAPH_ORIGIN) {
        return Err(
            "graph @odata.nextLink points outside graph.microsoft.com; refusing".to_owned(),
        );
    }
    Ok(next.to_owned())
}

/// A listing under way: what has come so far, and on how many pages.
#[derive(Debug)]
pub struct Listing {
    pub items: Vec<GraphItem>,
    pub pages: usize,
}

/// What a [`Listing`] stands for.
pub struct ListingView {
    pub items: Seq<ItemView>,
    pub pages: int,
}

impl View for Listing {
    type V = ListingView;

    open spec fn view(&self) -> ListingView {
        ListingView { items: item_views(self.items@), pages: self.pages as int }
    }
}

/// How far a listing is.
#[derive(Debug)]
pub enum ListStep {
    Start,
    Replied { listing: Listing, reply: Result<HttpResponse, String> },
    Parsed { listing: Listing, page: Result<DriveItemPage, String> },
}

/// What to do next in a listing.
#[derive(Debug)]
pub enum ListAction {
    Call { listing: Listing, call: GraphCall },
    /// Parse the body as a page of drive items.
    Parse { listing: Listing, body: Vec<u8> },
    Done(Result<Vec<GraphItem>, String>),
}

/// What a [`ListAction`] stands for.
pub enum ListActionView {
    Call { listing: ListingView, call: CallView },
    Parse { listing: ListingView, body: Seq<u8> },
    Done(Result<Seq<ItemView>, Seq<char>>),
}

impl View for ListAction {
    type V = ListActionView;

    open spec fn view(&self) -> ListActionView {
        match *self {
            ListAction::Call { listing, call } => ListActionView::Call {
                listing: listing@,
                call: call@,
            },
            ListAction::Parse { listing, body } => ListActionView::Parse {
                listing: listing@,
                body: body@,
            },
            ListAction::Done(Ok(items)) => ListActionView::Done(Ok(item_views(items@))),
            ListAction::Done(Err(e)) => ListActionView::Done(Err(e@)),
        }
    }
}

/// A listing with the items of one more page.
pub open spec fn with_page(listing: ListingView, page: DriveItemPage) -> ListingView {
    ListingView {
        items: listing.items + items_of(drive_views(page.value@)),
        pages: listing.pages + 1,
    }
}

/// What a listing does after a page: follow the link to the next one, if that
/// is allowed, or end.
pub open spec fn after_page(listing: ListingView, page: DriveItemPage) -> ListActionView {
    let more = with_page(listing, page);
    match opt_text(page.next_link) {
        None => ListActionView::Done(Ok(more.items)),
        Some(next) => match next_link(next, more.pages) {
            Err(e) => ListActionView::Done(Err(e)),
            Ok(url) => ListActionView::Call {
                listing: more,
                call: plain_call(MethodView::Get, url),
            },
        },
    }
}

/// What a listing does next.
pub open spec fn list_next(config: ConfigView, path: Seq<char>, step: ListStep) -> ListActionView {
    match step {
        ListStep::Start => ListActionView::Call {
            listing: ListingView { items: Seq::empty(), pages: 0 },
            call: plain_call(MethodView::Get, item_url(config, path, "/children?$top=200"@)),
        },
        ListStep::Replied { listing, reply: Err(e) } => ListActionView::Done(Err(e@)),
        ListStep::Replied { listing, reply: Ok(reply) } => if reply@.status != 200 {
            ListActionView::Done(Err(bad_status("graph children failed with status "@, reply@)))
        } else {
            ListActionView::Parse { listing: listing@, body: reply@.body }
        },
        ListStep::Parsed { listing, page: Err(e) } => ListActionView::Done(
            Err("failed to parse children page: "@ + e@),
        ),
        ListStep::Parsed { listing, page: Ok(page) } => after_page(listing@, page),
    }
}

/// Adds the items of a page to a list.
fn add_items(items: &mut Vec<GraphItem>, page: &Vec<DriveItem>)
    ensures
        item_views(final(items)@) == item_views(old(items)@) + items_of(drive_views(page@)),
{
    let ghost start = item_views(items@);
    let ghost all = items_of(drive_views(page@));
    assert(start + all.take(0) =~= start);
    for i in 0..page.len()
        invariant
            all == items_of(drive_views(page@)),
            item_views(items@) == start + all.take(i as int),
    {
        let ghost before = items@;
        let item = to_item(&page[i]);
        items.push(item);
        assert(item@ == all[i as int]);
        assert(item_views(items@) =~= item_views(before).push(item@));
        assert(start + all.take(i + 1) =~= (start + all.take(i as int)).push(all[i as int]));
    }
    assert(all.take(page@.len() as int) =~= all);
}

/// Lists the immediate children of a folder, following pagination links.
pub fn children(config: &Config, path: &str, step: ListStep) -> (r: ListAction)
    requires
        step matches ListStep::Parsed { listing, page } ==> listing.pages < usize::MAX,
    ensures
        r@ == list_next(config@, path@, step),
{
    match step {
        ListStep::Start => {
            let listing = Listing { items: Vec::new(), pages: 0 };
            assert(item_views(listing.items@) =~= Seq::empty());
            let url = make_item_url(config, path, "/children?$top=200");
            ListAction::Call { listing, call: make_plain_call(Method::Get, url) }
        },
        ListStep::Replied { listing: _, reply: Err(e) } => ListAction::Done(Err(e)),
        ListStep::Replied { listing, reply: Ok(reply) } => {
            if reply.status != 200 {
                ListAction::Done(
                    Err(make_bad_status("graph children failed with status ", &reply)),
                )
            } else {
                ListAction::Parse { listing, body: reply.body }
            }
        },
        ListStep::Parsed { listing: _, page: Err(e) } => ListAction::Done(
            Err("failed to parse children page: ".to_owned().concat(e.as_str())),
        ),
        ListStep::Parsed { listing, page: Ok(page) } => {
            let mut items = listing.items;
            add_items(&mut items, &page.value);
            let pages = listing.pages + 1;
            match &page.next_link {
                None => ListAction::Done(Ok(items)),
                Some(next) => match validate_next_link(next.as_str(), pages) {
                    Err(e) => ListAction::Done(Err(e)),
                    Ok(url) => ListAction::Call {
                        listing: Listing { items, pages },
                        call: make_plain_call(Method::Get, url),
                    },
                },
            }
        },
    }
}

/// Whether the URL is one that pre-authenticated content may be fetched from
/// or sent to, without the bearer token.
pub fn is_https_url(url: &str) -> (r: bool)
    ensures
        r == "https://"@.is_prefix_of(url@),
{
    starts_with(url, "https://")
}

/// A request without bearer token, headers or body.
pub open spec fn bare_request(method: MethodView, url: Seq<char>) -> RequestView {
    RequestView { method, url, headers: Seq::empty(), body: Seq::empty() }
}

fn make_bare_request(method: Method, url: String) -> (r: HttpRequest)
    ensures
        r@ == bare_request(method@, url@),
{
    let headers: Vec<(String, String)> = Vec::new();
    assert(header_texts(headers@) =~= Seq::empty());
    HttpRequest { method, url, headers, body: Vec::new() }
}

/// How far a download is.
#[derive(Debug)]
pub enum ContentStep {
    Start,
    Replied(Result<HttpResponse, String>),
    Redirected(Result<HttpResponse, String>),
}

/// What to do next in a download.
#[derive(Debug)]
pub enum ContentAction {
    Call(GraphCall),
    /// Send without a bearer token.
    Fetch(HttpRequest),
    Done(Result<Vec<u8>, String>),
}

/// What a [`ContentAction`] stands for.
pub enum ContentActionView {
    Call(CallView),
    Fetch(RequestView),
    Done(Result<Seq<u8>, Seq<char>>),
}

impl View for ContentAction {
    type V = ContentActionView;

    open spec fn view(&self) -> ContentActionView {
        match *self {
            ContentAction::Call(call) => ContentActionView::Call(call@),
            ContentAction::Fetch(request) => ContentActionView::Fetch(request@),
            ContentAction::Done(Ok(data)) => ContentActionView::Done(Ok(data@)),
            ContentAction::Done(Err(e)) => ContentActionView::Done(Err(e@)),
        }
    }
}

/// Whether the status asks to look elsewhere.
pub open spec fn is_redirect(status: u16) -> bool {
    status == 301 || status == 302 || status == 303 || status == 307 || status == 308
}

/// What a download does after the reply of Graph: the content, or a single
/// redirect to an `https` URL, which is followed without the bearer token.
pub open spec fn after_content(reply: ResponseView) -> ContentActionView {
    if reply.status == 200 {
        ContentActionView::Done(Ok(reply.body))
    } else if is_redirect(reply.status) {
        match header_text(reply.headers, "location"@) {
            None => ContentActionView::Done(
                Err("graph get_content redirect missing Location header"@),
            ),
            Some(raw) => if !"https://"@.is_prefix_of(trim_white(raw)) {
                ContentActionView::Done(
                    Err("graph get_content redirect is not https: "@ + trim_white(raw)),
                )
            } else {
                ContentActionView::Fetch(bare_request(MethodView::Get, trim_white(raw)))
            },
        }
    } else {
        ContentActionView::Done(
            Err("graph get_content failed with status "@ + decimal(reply.status as nat)),
        )
    }
}

/// What a download does next.
pub open spec fn content_next(
    config: ConfigView,
    path: Seq<char>,
    step: ContentStep,
) -> ContentActionView {
    match step {
        ContentStep::Start => ContentActionView::Call(
            plain_call(MethodView::Get, item_url(config, path, "/content"@)),
        ),
        ContentStep::Replied(Err(e)) => ContentActionView::Done(Err(e@)),
        ContentStep::Replied(Ok(reply)) => after_content(reply@),
        ContentStep::Redirected(Err(e)) => ContentActionView::Done(Err(e@)),
        ContentStep::Redirected(Ok(reply)) => if reply@.status != 200 {
            ContentActionView::Done(
                Err(
                    "graph redirected get_content failed with status "@ + decimal(
                        reply@.status as nat,
                    ),
                ),
            )
        } else {
            ContentActionView::Done(Ok(reply@.body))
        },
    }
}

fn content_replied(reply: HttpResponse) -> (r: ContentAction)
    ensures
        r@ == after_content(reply@),
{
    if reply.status == 200 {
        return ContentAction::Done(Ok(reply.body));
    }
    if reply.status == 301 || reply.status == 302 || reply.status == 303 || reply.status == 307
        || reply.status == 308 {
        return match reply.header_value("location") {
            None => ContentAction::Done(
                Err("graph get_content redirect missing Location header".to_owned()),
            ),
            Some(raw) => {
                let location = trim_white_of(raw.as_str());
                if !is_https_url(location.as_str()) {
                    ContentAction::Done(
                        Err(
                            "graph get_content redirect is not https: ".to_owned().concat(
                                location.as_str(),
                            ),
                        ),
                    )
                } else {
                    ContentAction::Fetch(make_bare_request(Method::Get, location))
                }
            },
        };
    }
    ContentAction::Done(
        Err(
            "graph get_content failed with status ".to_owned().concat(
                decimal_text(reply.status as u64).as_str(),
            ),
        ),
    )
}

/// Downloads the content of a file.
pub fn get_content(config: &Config, path: &str, step: ContentStep) -> (r: ContentAction)
    ensures
        r@ == content_next(config@, path@, step),
{
    match step {
        ContentStep::Start => ContentAction::Call(
            make_plain_call(Method::Get, make_item_url(config, path, "/content")),
        ),
        ContentStep::Replied(Err(e)) => ContentAction::Done(Err(e)),
        ContentStep::Replied(Ok(reply)) => content_replied(reply),
        ContentStep::Redirected(Err(e)) => ContentAction::Done(Err(e)),
        ContentStep::Redirected(Ok(reply)) => {
            if reply.status != 200 {
                ContentAction::Done(
                    Err(
                        "graph redirected get_content failed with status ".to_owned().concat(
                            decimal_text(reply.status as u64).as_str(),
                        ),
                    ),
                )
            } else {
                ContentAction::Done(Ok(reply.body))
            }
        },
    }
}

/// How far an upload is.
#[derive(Debug)]
pub enum UploadStep {
    Start,
    /// Graph replied to a simple upload.
    Stored(Result<HttpResponse, String>),
    /// Graph replied to the request for an upload session.
    Opened(Result<HttpResponse, String>),
    /// The upload URL of the session was parsed.
    Session(Result<String, String>),
    /// The chunk from `offset` on was sent.
    Sent { upload_url: String, offset: usize, reply: Result<HttpResponse, String> },
    /// The session was cancelled after a failure.
    Cancelled { error: String },
}

/// What to do next in an upload.
#[derive(Debug)]
pub enum UploadAction {
    /// Upload in a single request.
    Store(GraphCall),
    /// Ask for an upload session.
    Open(GraphCall),
    /// Parse the body as an upload session.
    Parse(Vec<u8>),
    /// Send a chunk, without a bearer token.
    Send { upload_url: String, offset: usize, request: HttpRequest },
    /// Give the session up, without a bearer token.
    Cancel { request: HttpRequest, error: String },
    Done(Result<(), String>),
}

/// What an [`UploadAction`] stands for.
pub enum UploadActionView {
    Store(CallView),
    Open(CallView),
    Parse(Seq<u8>),
    Send { upload_url: Seq<char>, offset: int, request: RequestView },
    Cancel { request: RequestView, error: Seq<char> },
    Done(Result<(), Seq<char>>),
}

impl View for UploadAction {
    type V = UploadActionView;

    open spec fn view(&self) -> UploadActionView {
        match *self {
            UploadAction::Store(call) => UploadActionView::Store(call@),
            UploadAction::Open(call) => UploadActionView::Open(call@),
            UploadAction::Parse(body) => UploadActionView::Parse(body@),
            UploadAction::Send { upload_url, offset, request } => UploadActionView::Send {
                upload_url: upload_url@,
                offset: offset as int,
                request: request@,
            },
            UploadAction::Cancel { request, error } => UploadActionView::Cancel {
                request: request@,
                error: error@,
            },
            UploadAction::Done(Ok(_)) => UploadActionView::Done(Ok(())),
            UploadAction::Done(Err(e)) => UploadActionView::Done(Err(e@)),
        }
    }
}

/// Where the chunk that starts at `offset` ends.
pub open spec fn chunk_end(offset: int, total: int) -> int {
    if offset + UPLOAD_CHUNK_BYTES < total {
        offset + UPLOAD_CHUNK_BYTES
    } else {
        total
    }
}

/// The request that sends the chunk at `offset`.
pub open spec fn chunk_request(upload_url: Seq<char>, data: Seq<u8>, offset: int) -> RequestView {
    let total = data.len() as int;
    let end = chunk_end(offset, total);
    RequestView {
        method: MethodView::Put,
        url: upload_url,
        headers: seq![
            (
                "content-range"@,
                "bytes "@ + decimal(offset as nat) + "-"@ + decimal((end - 1) as nat) + "/"@
                    + decimal(total as nat),
            ),
            ("content-length"@, decimal((end - offset) as nat)),
            ("content-type"@, "application/octet-stream"@),
        ],
        body: data.subrange(offset, end),
    }
}

/// The upload goes on with the chunk at `offset`, or ends.
pub open spec fn next_chunk(upload_url: Seq<char>, data: Seq<u8>, offset: int) -> UploadActionView {
    if offset < data.len() {
        UploadActionView::Send {
            upload_url,
            offset,
            request: chunk_request(upload_url, data, offset),
        }
    } else {
        UploadActionView::Done(Ok(()))
    }
}

/// A failed session is given up before the failure is reported.
pub open spec fn give_up(upload_url: Seq<char>, error: Seq<char>) -> UploadActionView {
    UploadActionView::Cancel { request: bare_request(MethodView::Delete, upload_url), error }
}

/// What follows a chunk: it is accepted with 202, the last one with 200 or
/// 201.
pub open spec fn after_chunk(
    upload_url: Seq<char>,
    data: Seq<u8>,
    offset: int,
    reply: Result<HttpResponse, String>,
) -> UploadActionView {
    let end = chunk_end(offset, data.len() as int);
    match reply {
        Err(e) => give_up(upload_url, e@),
        Ok(sent) => if (end == data.len() && (sent@.status == 200 || sent@.status == 201)) || (end
            != data.len() && sent@.status == 202) {
            next_chunk(upload_url, data, end)
        } else {
            give_up(
                upload_url,
                bad_status(
                    "graph upload session chunk "@ + decimal(offset as nat) + "-"@ + decimal(
                        (end - 1) as nat,
                    ) + " failed with status "@,
                    sent@,
                ),
            )
        },
    }
}

/// The body of the request for an upload session: an existing file is
/// replaced.
pub open spec fn session_body() -> JsonView {
    JsonView::Object(
        Map::empty().insert(
            "item"@,
            JsonView::Object(
                Map::empty().insert(
                    "@microsoft.graph.conflictBehavior"@,
                    JsonView::Text("replace"@),
                ),
            ),
        ),
    )
}

/// How an upload begins: what is too large is refused, small files go in one
/// request, others need a session.
pub open spec fn upload_start(
    config: ConfigView,
    path: Seq<char>,
    data: Seq<u8>,
) -> UploadActionView {
    if data.len() > MAX_UPLOAD_BYTES {
        UploadActionView::Done(
            Err(
                "file is "@ + decimal(data.len()) + " bytes, larger than this build's "@ + decimal(
                    MAX_UPLOAD_BYTES as nat,
                ) + "-byte upload limit"@,
            ),
        )
    } else if data.len() > MAX_SIMPLE_UPLOAD_BYTES {
        UploadActionView::Open(
            json_call(
                MethodView::Post,
                item_url(config, path, "/createUploadSession"@),
                session_body(),
            ),
        )
    } else {
        UploadActionView::Store(
            CallView {
                method: MethodView::Put,
                url: item_url(config, path, "/content"@),
                content_type: Some("application/octet-stream"@),
                body: data,
            },
        )
    }
}

/// What an upload does next.
pub open spec fn upload_next(
    config: ConfigView,
    path: Seq<char>,
    data: Seq<u8>,
    step: UploadStep,
) -> UploadActionView {
    match step {
        UploadStep::Start => upload_start(config, path, data),
        UploadStep::Stored(Err(e)) => UploadActionView::Done(Err(e@)),
        UploadStep::Stored(Ok(reply)) => if reply@.status != 200 && reply@.status != 201 {
            UploadActionView::Done(
                Err(bad_status("graph put_content failed with status "@, reply@)),
            )
        } else {
            UploadActionView::Done(Ok(()))
        },
        UploadStep::Opened(Err(e)) => UploadActionView::Done(Err(e@)),
        UploadStep::Opened(Ok(reply)) => if reply@.status != 200 && reply@.status != 201 {
            UploadActionView::Done(
                Err(bad_status("graph createUploadSession failed with status "@, reply@)),
            )
        } else {
            UploadActionView::Parse(reply@.body)
        },
        UploadStep::Session(Err(e)) => UploadActionView::Done(
            Err("failed to parse upload session: "@ + e@),
        ),
        UploadStep::Session(Ok(url)) => if !"https://"@.is_prefix_of(trim_white(url@)) {
            UploadActionView::Done(
                Err("graph createUploadSession returned a non-https uploadUrl"@),
            )
        } else {
            next_chunk(trim_white(url@), data, 0)
        },
        UploadStep::Sent { upload_url, offset, reply } => after_chunk(
            upload_url@,
            data,
            offset as int,
            reply,
        ),
        UploadStep::Cancelled { error } => UploadActionView::Done(Err(error@)),
    }
}

fn send_chunk(upload_url: String, data: &[u8], offset: usize) -> (r: UploadAction)
    ensures
        r@ == next_chunk(upload_url@, data@, offset as int),
{
    let total = data.len();
    if offset >= total {
        return UploadAction::Done(Ok(()));
    }
    let end = if total - offset > UPLOAD_CHUNK_BYTES {
        offset + UPLOAD_CHUNK_BYTES
    } else {
        total
    };
    let mut range = "bytes ".to_owned();
    range.append(decimal_text(offset as u64).as_str());
    range.append("-");
    range.append(decimal_text((end - 1) as u64).as_str());
    range.append("/");
    range.append(decimal_text(total as u64).as_str());
    let mut headers: Vec<(String, String)> = Vec::new();
    headers.push(("content-range".to_owned(), range));
    headers.push(("content-length".to_owned(), decimal_text((end - offset) as u64)));
    headers.push(("content-type".to_owned(), "application/octet-stream".to_owned()));
    assert(header_texts(headers@) =~= chunk_request(
        upload_url@,
        data@,
        offset as int,
    ).headers);
    let body = slice_to_vec(slice_subrange(data, offset, end));
    let request = HttpRequest { method: Method::Put, url: upload_url.clone(), headers, body };
    UploadAction::Send { upload_url, offset, request }
}

fn cancel_upload(upload_url: String, error: String) -> (r: UploadAction)
    ensures
        r@ == give_up(upload_url@, error@),
{
    UploadAction::Cancel { request: make_bare_request(Method::Delete, upload_url), error }
}

/// Goes on with a chunked upload after the chunk at `offset` was sent.
fn put_chunked(
    data: &[u8],
    upload_url: String,
    offset: usize,
    reply: Result<HttpResponse, String>,
) -> (r: UploadAction)
    requires
        offset < data@.len(),
    ensures
        r@ == after_chunk(upload_url@, data@, offset as int, reply),
{
    let total = data.len();
    let end = if total - offset > UPLOAD_CHUNK_BYTES {
        offset + UPLOAD_CHUNK_BYTES
    } else {
        total
    };
    match reply {
        Err(e) => cancel_upload(upload_url, e),
        Ok(sent) => {
            let accepted = if end == total {
                sent.status == 200 || sent.status == 201
            } else {
                sent.status == 202
            };
            if accepted {
                send_chunk(upload_url, data, end)
            } else {
                let mut what = "graph upload session chunk ".to_owned();
                what.append(decimal_text(offset as u64).as_str());
                what.append("-");
                what.append(decimal_text((end - 1) as u64).as_str());
                what.append(" failed with status ");
                cancel_upload(upload_url, make_bad_status(what.as_str(), &sent))
            }
        },
    }
}

fn start_upload(config: &Config, path: &str, data: &[u8]) -> (r: UploadAction)
    ensures
        r@ == upload_start(config@, path@, data@),
{
    let total = data.len() as u64;
    if total > MAX_UPLOAD_BYTES {
        let mut e = "file is ".to_owned();
        e.append(decimal_text(total).as_str());
        e.append(" bytes, larger than this build's ");
        e.append(decimal_text(MAX_UPLOAD_BYTES).as_str());
        e.append("-byte upload limit");
        return UploadAction::Done(Err(e));
    }
    if total > MAX_SIMPLE_UPLOAD_BYTES {
        let item = json_set(
            json_object(),
            "@microsoft.graph.conflictBehavior",
            json_string("replace"),
        );
        let body = json_set(json_object(), "item", item);
        let url = make_item_url(config, path, "/createUploadSession");
        return UploadAction::Open(make_json_call(Method::Post, url, &body));
    }
    UploadAction::Store(
        GraphCall {
            method: Method::Put,
            url: make_item_url(config, path, "/content"),
            content_type: Some("application/octet-stream".to_owned()),
            body: slice_to_vec(data),
        },
    )
}

/// Uploads the content of a file.
pub fn put_content(config: &Config, path: &str, data: &[u8], step: UploadStep) -> (r: UploadAction)
    requires
        step matches UploadStep::Sent { upload_url, offset, reply } ==> offset < data@.len(),
    ensures
        r@ == upload_next(config@, path@, data@, step),
{
    match step {
        UploadStep::Start => start_upload(config, path, data),
        UploadStep::Stored(Err(e)) => UploadAction::Done(Err(e)),
        UploadStep::Stored(Ok(reply)) => {
            if reply.status != 200 && reply.status != 201 {
                UploadAction::Done(
                    Err(make_bad_status("graph put_content failed with status ", &reply)),
                )
            } else {
                UploadAction::Done(Ok(()))
            }
        },
        UploadStep::Opened(Err(e)) => UploadAction::Done(Err(e)),
        UploadStep::Opened(Ok(reply)) => {
            if reply.status != 200 && reply.status != 201 {
                UploadAction::Done(
                    Err(
                        make_bad_status("graph createUploadSession failed with status ", &reply),
                    ),
                )
            } else {
                UploadAction::Parse(reply.body)
            }
        },
        UploadStep::Session(Err(e)) => UploadAction::Done(
            Err("failed to parse upload session: ".to_owned().concat(e.as_str())),
        ),
        UploadStep::Session(Ok(url)) => {
            let upload_url = trim_white_of(url.as_str());
            if !is_https_url(upload_url.as_str()) {
                UploadAction::Done(
                    Err("graph createUploadSession returned a non-https uploadUrl".to_owned()),
                )
            } else {
                send_chunk(upload_url, data, 0)
            }
        },
        UploadStep::Sent { upload_url, offset, reply } => put_chunked(
            data,
            upload_url,
            offset,
            reply,
        ),
        UploadStep::Cancelled { error } => UploadAction::Done(Err(error)),
    }
}

/// How far an operation with a single request is.
#[derive(Debug)]
pub enum CallStep {
    Start,
    Replied(Result<HttpResponse, String>),
}

/// What to do next in an operation with a single request.
#[derive(Debug)]
pub enum CallAction {
    Call(GraphCall),
    Done(Result<(), String>),
}

/// What a [`CallAction`] stands for.
pub enum CallActionView {
    Call(CallView),
    Done(Result<(), Seq<char>>),
}

impl View for CallAction {
    type V = CallActionView;

    open spec fn view(&self) -> CallActionView {
        match *self {
            CallAction::Call(call) => CallActionView::Call(call@),
            CallAction::Done(Ok(_)) => CallActionView::Done(Ok(())),
            CallAction::Done(Err(e)) => CallActionView::Done(Err(e@)),
        }
    }
}

/// The body of the request for a new folder: an existing name is an error.
pub open spec fn folder_body(name: Seq<char>) -> JsonView {
    JsonView::Object(
        Map::empty().insert("name"@, JsonView::Text(name)).insert(
            "folder"@,
            JsonView::Object(Map::empty()),
        ).insert("@microsoft.graph.conflictBehavior"@, JsonView::Text("fail"@)),
    )
}

/// What the creation of a folder does next.
pub open spec fn folder_next(
    config: ConfigView,
    parent_path: Seq<char>,
    name: Seq<char>,
    step: CallStep,
) -> CallActionView {
    match step {
        CallStep::Start => CallActionView::Call(
            json_call(
                MethodView::Post,
                item_url(config, parent_path, "/children"@),
                folder_body(name),
            ),
        ),
        CallStep::Replied(Err(e)) => CallActionView::Done(Err(e@)),
        CallStep::Replied(Ok(reply)) => if reply@.status != 201 {
            CallActionView::Done(
                Err(bad_status("graph create_folder failed with status "@, reply@)),
            )
        } else {
            CallActionView::Done(Ok(()))
        },
    }
}

/// Creates a folder `name` in the folder at `parent_path`.
pub fn create_folder(config: &Config, parent_path: &str, name: &str, step: CallStep) -> (r:
    CallAction)
    ensures
        r@ == folder_next(config@, parent_path@, name@, step),
{
    match step {
        CallStep::Start => {
            let url = make_item_url(config, parent_path, "/children");
            let body = json_set(json_object(), "name", json_string(name));
            let body = json_set(body, "folder", json_object());
            let body = json_set(body, "@microsoft.graph.conflictBehavior", json_string("fail"));
            CallAction::Call(make_json_call(Method::Post, url, &body))
        },
        CallStep::Replied(Err(e)) => CallAction::Done(Err(e)),
        CallStep::Replied(Ok(reply)) => {
            if reply.status != 201 {
                CallAction::Done(
                    Err(make_bad_status("graph create_folder failed with status ", &reply)),
                )
            } else {
                CallAction::Done(Ok(()))
            }
        },
    }
}

/// What a deletion does next.
pub open spec fn delete_next(config: ConfigView, path: Seq<char>, step: CallStep) -> CallActionView {
    match step {
        CallStep::Start => CallActionView::Call(
            plain_call(MethodView::Delete, item_url(config, path, ""@)),
        ),
        CallStep::Replied(Err(e)) => CallActionView::Done(Err(e@)),
        CallStep::Replied(Ok(reply)) => if reply@.status != 204 && reply@.status != 404 {
            CallActionView::Done(
                Err("graph delete failed with status "@ + decimal(reply@.status as nat)),
            )
        } else {
            CallActionView::Done(Ok(()))
        },
    }
}

/// Deletes the item at `path`; one that is not there counts as deleted.
pub fn delete(config: &Config, path: &str, step: CallStep) -> (r: CallAction)
    ensures
        r@ == delete_next(config@, path@, step),
{
    match step {
        CallStep::Start => CallAction::Call(
            make_plain_call(Method::Delete, make_item_url(config, path, "")),
        ),
        CallStep::Replied(Err(e)) => CallAction::Done(Err(e)),
        CallStep::Replied(Ok(reply)) => {
            if reply.status != 204 && reply.status != 404 {
                CallAction::Done(
                    Err(
                        "graph delete failed with status ".to_owned().concat(
                            decimal_text(reply.status as u64).as_str(),
                        ),
                    ),
                )
            } else {
                CallAction::Done(Ok(()))
            }
        },
    }
}

/// The name at the end of a destination path.
pub open spec fn new_name(to_path: Seq<char>) -> Seq<char> {
    match last_pos(to_path, '/') {
        Some(i) => to_path.skip(i + 1),
        None => to_path,
    }
}

/// The folder of a destination path.
pub open spec fn new_parent(to_path: Seq<char>) -> Seq<char> {
    match last_pos(to_path, '/') {
        Some(i) => to_path.take(i),
        None => Seq::empty(),
    }
}

/// The body of the request that moves or renames an item.
pub open spec fn move_body(drive_base: Seq<char>, to_path: Seq<char>) -> JsonView {
    JsonView::Object(
        Map::empty().insert("name"@, JsonView::Text(new_name(to_path))).insert(
            "parentReference"@,
            JsonView::Object(
                Map::empty().insert(
                    "path"@,
                    JsonView::Text(parent_reference(drive_base, new_parent(to_path))),
                ),
            ),
        ),
    )
}

/// What a move does next.
pub open spec fn move_next(
    config: ConfigView,
    from_path: Seq<char>,
    to_path: Seq<char>,
    step: CallStep,
) -> CallActionView {
    match step {
        CallStep::Start => CallActionView::Call(
            json_call(
                MethodView::Patch,
                item_url(config, from_path, ""@),
                move_body(config.drive_base, to_path),
            ),
        ),
        CallStep::Replied(Err(e)) => CallActionView::Done(Err(e@)),
        CallStep::Replied(Ok(reply)) => if reply@.status != 200 {
            CallActionView::Done(
                Err(bad_status("graph move_or_rename failed with status "@, reply@)),
            )
        } else {
            CallActionView::Done(Ok(()))
        },
    }
}

/// Moves or renames the item at `from_path`, since a WebDAV `MOVE` covers
/// both.
pub fn move_or_rename(config: &Config, from_path: &str, to_path: &str, step: CallStep) -> (r:
    CallAction)
    ensures
        r@ == move_next(config@, from_path@, to_path@, step),
{
    match step {
        CallStep::Start => {
            let url = make_item_url(config, from_path, "");
            let cs = chars_of(to_path);
            let (name, parent) = match find_last(&cs, '/') {
                Some(i) => {
                    let name = text_of(&cs, i + 1, cs.len());
                    let parent = text_of(&cs, 0, i);
                    assert(name@ =~= to_path@.skip(i + 1));
                    assert(parent@ =~= to_path@.take(i as int));
                    (name, parent)
                },
                None => (to_path.to_owned(), String::new()),
            };
            let place = parent_reference_path(config.drive_base.as_str(), parent.as_str());
            let reference = json_set(json_object(), "path", json_string(place.as_str()));
            let body = json_set(json_object(), "name", json_string(name.as_str()));
            let body = json_set(body, "parentReference", reference);
            CallAction::Call(make_json_call(Method::Patch, url, &body))
        },
        CallStep::Replied(Err(e)) => CallAction::Done(Err(e)),
        CallStep::Replied(Ok(reply)) => {
            if reply.status != 200 {
                CallAction::Done(
                    Err(make_bad_status("graph move_or_rename failed with status ", &reply)),
                )
            } else {
                CallAction::Done(Ok(()))
            }
        },
    }
}

} // verus!
