//! Laws of the answers to WebDAV requests: what a client is told of an item, of
//! the outcome of an operation, and how a request finds its handler.
use vstd::prelude::*;
use vstd::utf8::*;
use crate::config::Config;
use crate::dav::{
    child_entries, credentials_wanted, deleted, entry_of, folder_of, got, headed, lock_response,
    methods_supported, mkcol_next, moved, propfind_next, put_next, self_entry, DavView,
    MkcolActionView, MkcolStep, PropfindActionView, PropfindStep, PutActionView, PutStep,
};
use crate::graph::{item_views, GraphItem, ItemView};
use crate::http_client::MethodView;
use crate::index::last_of_path;
use crate::path_laws::{clean, lemma_last_is};
use crate::server::{
    first_text, head_of, may_pass, path_portion, requested_path, routed, RequestHeaders,
    RouteView,
};
use crate::text::{decimal, join_with, trim_both, trim_end, utf8_lossy};
use crate::text_laws::{law_trim_both, only};
use crate::xml::{
    decoded_or_raw, entries_xml, entry_xml, escaped, fixdate, href_of, pct_bytes, EntryView,
};

verus! {

/// A link to a path; that of a folder ends with a separator.
pub open spec fn link_to(path: Seq<char>, is_dir: bool) -> Seq<char> {
    let link = pct_bytes(encode_utf8(path));
    if is_dir && !(link.len() > 0 && link.last() == '/') {
        link + "/"@
    } else {
        link
    }
}

/// What a client is told of the item at a path: its link, whether it is a
/// folder, when it was last modified, its tag, and the length of a file.
pub open spec fn told(path: Seq<char>, item: ItemView) -> Seq<char> {
    "<D:response>\n  <D:href>"@ + link_to(path, item.is_dir)
        + "</D:href>\n  <D:propstat>\n    <D:prop>\n      <D:resourcetype>"@ + (if item.is_dir {
        "<D:collection/>"@
    } else {
        ""@
    }) + "</D:resourcetype>\n      <D:getlastmodified>"@ + fixdate(item.last_modified as nat)
        + "</D:getlastmodified>\n      <D:getetag>&quot;"@ + escaped(item.etag)
        + "&quot;</D:getetag>\n      "@ + (if item.is_dir {
        Seq::empty()
    } else {
        "<D:getcontentlength>"@ + decimal(item.size as nat) + "</D:getcontentlength>"@
    })
        + "\n    </D:prop>\n    <D:status>HTTP/1.1 200 OK</D:status>\n  </D:propstat>\n</D:response>"@
}

/// The answer that tells a client of items.
pub open spec fn answer_with(parts: Seq<Seq<char>>) -> Seq<char> {
    "<?xml version=\"1.0\" encoding=\"utf-8\"?>\n<D:multistatus xmlns:D=\"DAV:\">\n"@ + join_with(
        parts,
        "\n"@,
    ) + "\n</D:multistatus>"@
}

/// The path of the item that is asked for, under the name that Graph has for it.
pub open spec fn own_path(path: Seq<char>, name: Seq<char>) -> Seq<char> {
    if only(path, '/') {
        "/"@
    } else {
        path_below(folder_of(path), name)
    }
}

/// The path of a name in a folder.
pub open spec fn path_below(folder: Seq<char>, name: Seq<char>) -> Seq<char> {
    if only(folder, '/') {
        "/"@ + name
    } else {
        trim_end(folder, '/') + "/"@ + name
    }
}

proof fn lemma_only_slashes(path: Seq<char>)
    ensures
        only(path, '/') <==> trim_both(path, '/').len() == 0,
{
    let none = Seq::<char>::empty();
    if only(path, '/') {
        law_trim_both(path, none, none, '/');
        assert(path + none + none =~= path);
        assert(only(none, '/'));
    }
    if trim_both(path, '/').len() == 0 {
        crate::text_laws::law_trim_start(path, '/');
        let u = crate::text::trim_start(path, '/');
        let a = choose|a: Seq<char>| only(a, '/') && path == #[trigger] (a + u);
        crate::text_laws::law_trim_end(u, '/');
        let b = choose|b: Seq<char>|
            only(b, '/') && u == #[trigger] (crate::text::trim_end(u, '/') + b);
        assert(u =~= b);
        assert forall|i: int| 0 <= i < path.len() implies #[trigger] path[i] == '/' by {
            if i < a.len() {
                assert(path[i] == a[i]);
            } else {
                assert(path[i] == b[i - a.len()]);
            }
        }
    }
}

proof fn lemma_told(path: Seq<char>, item: ItemView, e: EntryView)
    requires
        e.href == path,
        e.is_dir == item.is_dir,
        e.size == item.size,
        e.last_modified == item.last_modified,
        e.etag == item.etag,
    ensures
        entry_xml(e) == told(path, item),
{
    assert(href_of(e) == link_to(path, item.is_dir));
}

/// The entry of an item, in its folder or on its own, has the size, the time, the
/// tag and the kind that Graph gave for it.
pub proof fn law_entry_is_the_item(path: Seq<char>, item: ItemView)
    ensures
        entry_of(path, item).size == item.size,
        entry_of(path, item).last_modified == item.last_modified,
        entry_of(path, item).etag == item.etag,
        entry_of(path, item).is_dir == item.is_dir,
        entry_of(path, item).href == path_below(path, item.name),
        self_entry(path, item).size == item.size,
        self_entry(path, item).last_modified == item.last_modified,
        self_entry(path, item).etag == item.etag,
        self_entry(path, item).is_dir == item.is_dir,
        self_entry(path, item).href == own_path(path, item.name),
{
    lemma_only_slashes(path);
    lemma_only_slashes(folder_of(path));
}

/// A client that asks for an item that is not listed is told of that item alone,
/// and one that asks for a folder is told of the folder and then of each of its
/// children, in the order in which Graph lists them. Of each it is told what
/// Graph says of it: its own size, its own time, its own tag, its own kind.
pub proof fn law_propfind_tells_what_graph_says(
    path: Seq<char>,
    depth: Option<Seq<char>>,
    item: GraphItem,
    children: Vec<GraphItem>,
)
    ensures
        !(item@.is_dir && depth != Some("0"@)) ==> (propfind_next(
            path,
            depth,
            PropfindStep::Item(Ok(item)),
        ) matches PropfindActionView::Respond(r) && r.body == encode_utf8(
            answer_with(seq![told(own_path(path, item@.name), item@)]),
        )),
        propfind_next(path, depth, PropfindStep::Children { item, children: Ok(children) }) matches
            PropfindActionView::Respond(r) && r.body == encode_utf8(
            answer_with(
                Seq::new(
                    children@.len() + 1,
                    |i: int|
                        if i == 0 {
                            told(own_path(path, item@.name), item@)
                        } else {
                            told(path_below(path, children@[i - 1]@.name), children@[i - 1]@)
                        },
                ),
            ),
        ),
{
    let me = self_entry(path, item@);
    lemma_only_slashes(path);
    lemma_only_slashes(folder_of(path));
    lemma_told(own_path(path, item@.name), item@, me);
    assert(entries_xml(seq![me]) =~= seq![told(own_path(path, item@.name), item@)]);
    let all = seq![me] + child_entries(path, item_views(children@));
    let parts = Seq::new(
        children@.len() + 1,
        |i: int|
            if i == 0 {
                told(own_path(path, item@.name), item@)
            } else {
                told(path_below(path, children@[i - 1]@.name), children@[i - 1]@)
            },
    );
    assert(entries_xml(all) =~= parts) by {
        assert forall|i: int| 0 <= i < parts.len() implies entries_xml(all)[i] == parts[i] by {
            if i > 0 {
                let c = children@[i - 1]@;
                assert(all[i] == entry_of(path, c));
                lemma_told(path_below(path, c.name), c, all[i]);
            }
        }
    }
}

/// The link of an item leads to the path at which it was asked for, whatever
/// separators end that path.
pub proof fn law_own_path(a: Seq<char>, t: Seq<char>, name: Seq<char>, c: Seq<char>)
    requires
        only(a, '/'),
        only(c, '/'),
        t.len() > 0 ==> t[0] != '/' && t.last() != '/',
        clean(name),
    ensures
        folder_of(a + t + "/"@ + name + c) == a + t,
        last_of_path(a + t + "/"@ + name + c) == name,
        own_path(a + t + "/"@ + name + c, name) == (if t.len() == 0 {
            "/"@ + name
        } else {
            a + t + "/"@ + name
        }),
{
    let path = a + t + "/"@ + name + c;
    let front = a + t + "/"@ + name;
    let none = Seq::<char>::empty();
    reveal_strlit("/");
    assert(only(none, '/'));
    assert(name.contains(name.last()));
    assert(name.contains(name[0]));
    assert(front.last() == name.last());
    lemma_trim_tail(front, c);
    let i = (a + t).len() as int;
    assert(front[i] == '/');
    assert forall|j: int| i < j < front.len() implies front[j] != '/' by {
        assert(front[j] == name[j - i - 1]);
        assert(name.contains(name[j - i - 1]));
    }
    lemma_last_is(front, i);
    assert(front.take(i) =~= a + t);
    assert(front.skip(i + 1) =~= name);
    assert(path[i + 1] == name[0]);
    assert(!only(path, '/'));
    if t.len() == 0 {
        assert(a + t =~= a);
    } else {
        assert((a + t)[a.len() as int] == t[0]);
        assert(!only(a + t, '/'));
        assert((a + t).last() == t.last());
        assert(trim_end(a + t, '/') == a + t);
    }
}

proof fn lemma_trim_tail(t: Seq<char>, c: Seq<char>)
    requires
        t.len() > 0,
        t.last() != '/',
        only(c, '/'),
    ensures
        trim_end(t + c, '/') == t,
    decreases c.len(),
{
    if c.len() > 0 {
        let up = c.drop_last();
        assert(only(up, '/')) by {
            assert forall|i: int| 0 <= i < up.len() implies #[trigger] up[i] == '/' by {
                assert(up[i] == c[i]);
            }
        }
        assert(c[c.len() - 1] == '/');
        assert((t + c).drop_last() =~= t + up);
        lemma_trim_tail(t, up);
    } else {
        assert(t + c =~= t);
    }
}

/// Whether the response is a text with the status.
pub open spec fn says(r: DavView, status: u16, message: Seq<char>) -> bool {
    r.status == status && r.content_type == "text/plain"@ && r.body == encode_utf8(message)
        && r.content_length is None
}

/// Whether the response has the status and nothing else.
pub open spec fn only_status(r: DavView, status: u16) -> bool {
    r.status == status && r.body.len() == 0 && r.content_length is None
}

/// A `PROPFIND` asks for the item, and for its children if it is a folder and
/// the depth is not zero. An unbounded depth is refused, an item that is not
/// there is not found, and any other failure is reported.
pub proof fn law_propfind_steps(
    path: Seq<char>,
    depth: Option<Seq<char>>,
    item: GraphItem,
    children: Vec<GraphItem>,
    error: String,
)
    ensures
        depth == Some("infinity"@) ==> (propfind_next(path, depth, PropfindStep::Start) matches
            PropfindActionView::Respond(r) && r.status == 403 && r.content_type
            == "application/xml; charset=utf-8"@ && r.body == encode_utf8(
            "<?xml version=\"1.0\" encoding=\"utf-8\"?>\n<D:error xmlns:D=\"DAV:\"><D:propfind-finite-depth/></D:error>"@,
        )),
        depth != Some("infinity"@) ==> propfind_next(path, depth, PropfindStep::Start) is Stat,
        item@.is_dir && depth != Some("0"@) ==> (propfind_next(
            path,
            depth,
            PropfindStep::Item(Ok(item)),
        ) matches PropfindActionView::List { item: i } && i == item@),
        !(item@.is_dir && depth != Some("0"@)) ==> (propfind_next(
            path,
            depth,
            PropfindStep::Item(Ok(item)),
        ) matches PropfindActionView::Respond(r) && r.status == 207 && r.content_type
            == "application/xml; charset=utf-8"@ && r.content_length is None),
        propfind_next(path, depth, PropfindStep::Children { item, children: Ok(children) }) matches
            PropfindActionView::Respond(r) && r.status == 207 && r.content_type
            == "application/xml; charset=utf-8"@ && r.content_length is None,
        error@ == "not found"@ ==> (propfind_next(path, depth, PropfindStep::Item(Err(error))) matches
            PropfindActionView::Respond(r) && only_status(r, 404)),
        error@ != "not found"@ ==> (propfind_next(path, depth, PropfindStep::Item(Err(error))) matches
            PropfindActionView::Respond(r) && says(r, 502, error@)),
        propfind_next(path, depth, PropfindStep::Children { item, children: Err(error) }) matches
            PropfindActionView::Respond(r) && says(r, 502, error@),
{
}

/// A `GET` answers with the content as it is; a `HEAD` with what a `GET` would
/// say of it, and without the content.
pub proof fn law_get_and_head(data: Vec<u8>, item: GraphItem, error: String)
    ensures
        ({
            let r = got(Ok(data));
            r.status == 200 && r.content_type == "application/octet-stream"@ && r.body == data@
                && r.content_length is None
        }),
        says(got(Err(error)), 502, error@),
        ({
            let r = headed(Ok(item));
            &&& r.status == 200 && r.body.len() == 0
            &&& item@.is_dir ==> r.content_length == Some(0u64) && r.content_type
                == "httpd/unix-directory"@
            &&& !item@.is_dir ==> r.content_length == Some(item@.size)
            &&& !item@.is_dir && item@.mime_type.len() > 0 ==> r.content_type == item@.mime_type
            &&& !item@.is_dir && item@.mime_type.len() == 0 ==> r.content_type
                == "application/octet-stream"@
        }),
        error@ == "not found"@ ==> only_status(headed(Err(error)), 404),
        error@ != "not found"@ ==> says(headed(Err(error)), 502, error@),
{
}

/// What is stored, created or moved is answered with 201, what is deleted with
/// 204, and what fails with 502 and the error. A body of more than 64 MiB is
/// refused before anything is sent.
pub proof fn law_outcomes(body: Seq<u8>, path: Seq<char>, error: String)
    ensures
        body.len() <= 67108864 ==> put_next(body, PutStep::Start) is Store,
        body.len() > 67108864 ==> (put_next(body, PutStep::Start) matches PutActionView::Respond(r)
            && says(
            r,
            413,
            "file is "@ + decimal(body.len())
                + " bytes; this build only supports uploads up to 67108864 bytes"@,
        )),
        put_next(body, PutStep::Stored(Ok(()))) matches PutActionView::Respond(r) && only_status(
            r,
            201,
        ),
        put_next(body, PutStep::Stored(Err(error))) matches PutActionView::Respond(r) && says(
            r,
            502,
            error@,
        ),
        mkcol_next(path, MkcolStep::Created(Ok(()))) matches MkcolActionView::Respond(r)
            && only_status(r, 201),
        mkcol_next(path, MkcolStep::Created(Err(error))) matches MkcolActionView::Respond(r) && says(
            r,
            502,
            error@,
        ),
        only_status(deleted(Ok(())), 204),
        says(deleted(Err(error)), 502, error@),
        only_status(moved(Ok(())), 201),
        says(moved(Err(error)), 502, error@),
{
    reveal_strlit(" bytes; this build only supports uploads up to 67108864 bytes");
    reveal_strlit(" bytes; this build only supports uploads up to ");
    reveal_strlit(" bytes");
    lemma_limit_text();
    assert("file is "@ + decimal(body.len()) + " bytes; this build only supports uploads up to "@
        + decimal(67108864) + " bytes"@ =~= "file is "@ + decimal(body.len())
        + " bytes; this build only supports uploads up to 67108864 bytes"@);
}

proof fn lemma_limit_text()
    ensures
        decimal(67108864) == seq!['6', '7', '1', '0', '8', '8', '6', '4'],
{
    reveal_with_fuel(decimal, 9);
    assert(decimal(67108864) =~= seq!['6', '7', '1', '0', '8', '8', '6', '4']);
}

/// A folder is created under the last name of the path, in the folder that the
/// rest of the path names.
pub proof fn law_mkcol_creates_the_last_name(
    a: Seq<char>,
    t: Seq<char>,
    name: Seq<char>,
    c: Seq<char>,
)
    requires
        only(a, '/'),
        only(c, '/'),
        t.len() > 0 ==> t[0] != '/' && t.last() != '/',
        clean(name),
    ensures
        mkcol_next(a + t + "/"@ + name + c, MkcolStep::Start) matches MkcolActionView::Create {
            parent,
            name: n,
        } && parent == a + t && n == name,
{
    law_own_path(a, t, name, c);
}

/// A lock is granted for the path that is asked for, exclusively and for
/// writing, and its token in the answer is the one in the header.
pub proof fn law_lock_is_granted(path: Seq<char>)
    ensures
        ({
            let r = lock_response(path);
            let token = "opaquelocktoken:"@ + pct_bytes(encode_utf8(path));
            let link = pct_bytes(encode_utf8(path));
            &&& r.status == 200 && r.content_type == "application/xml; charset=utf-8"@
            &&& r.headers == seq![("lock-token"@, "<"@ + token + ">"@)]
            &&& r.content_length is None
            &&& r.body == encode_utf8(
                "<?xml version=\"1.0\" encoding=\"utf-8\"?>\n<D:prop xmlns:D=\"DAV:\">\n  <D:lockdiscovery>\n    <D:activelock>\n      <D:locktype><D:write/></D:locktype>\n      <D:lockscope><D:exclusive/></D:lockscope>\n      <D:depth>0</D:depth>\n      <D:owner>onedrive-davfs</D:owner>\n      <D:timeout>Second-3600</D:timeout>\n      <D:locktoken><D:href>"@
                    + token + "</D:href></D:locktoken>\n      <D:lockroot><D:href>"@ + link
                    + "</D:href></D:lockroot>\n    </D:activelock>\n  </D:lockdiscovery>\n</D:prop>"@,
            )
        }),
{
    let link = pct_bytes(encode_utf8(path));
    let head = "<?xml version=\"1.0\" encoding=\"utf-8\"?>\n<D:prop xmlns:D=\"DAV:\">\n  <D:lockdiscovery>\n    <D:activelock>\n      <D:locktype><D:write/></D:locktype>\n      <D:lockscope><D:exclusive/></D:lockscope>\n      <D:depth>0</D:depth>\n      <D:owner>onedrive-davfs</D:owner>\n      <D:timeout>Second-3600</D:timeout>\n      <D:locktoken><D:href>"@;
    let whole = "<?xml version=\"1.0\" encoding=\"utf-8\"?>\n<D:prop xmlns:D=\"DAV:\">\n  <D:lockdiscovery>\n    <D:activelock>\n      <D:locktype><D:write/></D:locktype>\n      <D:lockscope><D:exclusive/></D:lockscope>\n      <D:depth>0</D:depth>\n      <D:owner>onedrive-davfs</D:owner>\n      <D:timeout>Second-3600</D:timeout>\n      <D:locktoken><D:href>opaquelocktoken:"@;
    let mid = "</D:href></D:locktoken>\n      <D:lockroot><D:href>"@;
    let tail = "</D:href></D:lockroot>\n    </D:activelock>\n  </D:lockdiscovery>\n</D:prop>"@;
    reveal_strlit("opaquelocktoken:");
    reveal_strlit("<opaquelocktoken:");
    reveal_strlit("<");
    reveal_strlit(
        "<?xml version=\"1.0\" encoding=\"utf-8\"?>\n<D:prop xmlns:D=\"DAV:\">\n  <D:lockdiscovery>\n    <D:activelock>\n      <D:locktype><D:write/></D:locktype>\n      <D:lockscope><D:exclusive/></D:lockscope>\n      <D:depth>0</D:depth>\n      <D:owner>onedrive-davfs</D:owner>\n      <D:timeout>Second-3600</D:timeout>\n      <D:locktoken><D:href>",
    );
    reveal_strlit(
        "<?xml version=\"1.0\" encoding=\"utf-8\"?>\n<D:prop xmlns:D=\"DAV:\">\n  <D:lockdiscovery>\n    <D:activelock>\n      <D:locktype><D:write/></D:locktype>\n      <D:lockscope><D:exclusive/></D:lockscope>\n      <D:depth>0</D:depth>\n      <D:owner>onedrive-davfs</D:owner>\n      <D:timeout>Second-3600</D:timeout>\n      <D:locktoken><D:href>opaquelocktoken:",
    );
    assert("<opaquelocktoken:"@ =~= "<"@ + "opaquelocktoken:"@);
    assert(whole =~= head + "opaquelocktoken:"@);
    assert("<opaquelocktoken:"@ + link + ">"@ =~= "<"@ + ("opaquelocktoken:"@ + link) + ">"@);
    assert(whole + link + mid + link + tail =~= head + ("opaquelocktoken:"@ + link) + mid + link
        + tail);
}

/// The answers that no item is needed for.
pub proof fn law_fixed_answers()
    ensures
        says(credentials_wanted(), 401, "unauthorized"@),
        credentials_wanted().headers == seq![
            ("www-authenticate"@, "Basic realm=\"onedrive-davfs\""@),
        ],
        only_status(methods_supported(), 200),
        methods_supported().headers[0] == (
            "allow"@,
            "OPTIONS, PROPFIND, GET, PUT, MKCOL, DELETE, MOVE, LOCK, UNLOCK"@,
        ),
        methods_supported().headers[1] == ("dav"@, "1, 2"@),
        methods_supported().headers[2] == ("ms-author-via"@, "DAV"@),
{
}

/// A request that may pass is handled by its method, for the path that it asks
/// for: reading, storing and deleting by theirs, the others by name. A depth is
/// handed on, a destination is decoded, and what is not supported is refused.
pub proof fn law_requests_find_their_handler(
    config: Config,
    method: MethodView,
    target: Option<Seq<char>>,
    headers: RequestHeaders,
)
    requires
        may_pass(config@.basic_auth_secret, first_text(headers.authorization@)),
    ensures
        ({
            let route = routed(Ok(config), method, target, headers);
            let wanted = requested_path(target);
            &&& method is Get ==> route == RouteView::Get { path: wanted }
            &&& method is Put ==> route == RouteView::Put { path: wanted }
            &&& method is Delete ==> route == RouteView::Delete { path: wanted }
            &&& method == MethodView::Other("PROPFIND"@) ==> route == (RouteView::Propfind {
                path: wanted,
                depth: if headers.depth@.len() > 0 {
                    Some(utf8_lossy(headers.depth@[0]@))
                } else {
                    None
                },
            })
            &&& method == MethodView::Other("MKCOL"@) ==> route == RouteView::Mkcol { path: wanted }
            &&& method == MethodView::Other("MOVE"@) && headers.destination@.len() > 0 ==> route == (
            RouteView::Move {
                path: wanted,
                destination: decoded_or_raw(path_portion(utf8_lossy(headers.destination@[0]@))),
            })
            &&& method == MethodView::Other("MOVE"@) && headers.destination@.len() == 0 ==> (route
                matches RouteView::Respond(r) && r.status == 400)
            &&& method == MethodView::Other("LOCK"@) ==> route == RouteView::Respond(
                lock_response(wanted),
            )
            &&& method == MethodView::Other("UNLOCK"@) ==> (route matches RouteView::Respond(r)
                && only_status(r, 204))
            &&& method is Head || method is Post || method is Options || method is Patch || method
                is Connect || method is Trace ==> (route matches RouteView::Respond(r) && r.status
                == 405)
            &&& method matches MethodView::Other(m) ==> {
                m != "PROPFIND"@ && m != "MKCOL"@ && m != "MOVE"@ && m != "LOCK"@ && m != "UNLOCK"@
                    ==> (route matches RouteView::Respond(r) && says(
                    r,
                    405,
                    "unsupported method: "@ + m,
                ))
            }
        }),
{
    reveal_strlit("PROPFIND");
    reveal_strlit("MKCOL");
    reveal_strlit("MOVE");
    reveal_strlit("LOCK");
    reveal_strlit("UNLOCK");
    assert("MOVE"@[0] != "LOCK"@[0]);
}

/// A request asks for the path before its query, decoded if it can be; without a
/// target it asks for nothing. Without a secret every request passes.
pub proof fn law_requested_path(
    path: Seq<char>,
    query: Seq<char>,
    authorization: Option<Seq<char>>,
)
    requires
        !path.contains('?'),
    ensures
        requested_path(Some(path)) == decoded_or_raw(path),
        requested_path(Some(path + "?"@ + query)) == decoded_or_raw(path),
        requested_path(None).len() == 0,
        may_pass(None, authorization),
{
    reveal_strlit("?");
    let whole = path + "?"@ + query;
    let k = path.len() as int;
    crate::text::lemma_first_pos(path, '?');
    crate::text::lemma_first_pos(whole, '?');
    if let Some(i) = crate::text::first_pos(path, '?') {
        assert(path.contains(path[i]));
    }
    assert(whole[k] == '?');
    assert forall|j: int| 0 <= j < k implies whole[j] != '?' by {
        assert(whole[j] == path[j]);
        assert(path.contains(path[j]));
    }
    assert(crate::text::first_pos(whole, '?') == Some(k));
    assert(whole.take(k) =~= path);
}

/// A destination without a path behind its host names nothing; a header has the
/// text of its first value.
pub proof fn law_destination_without_path(scheme: Seq<char>, host: Seq<char>, values: Seq<Vec<u8>>)
    requires
        !scheme.contains('/'),
        !host.contains('/'),
    ensures
        path_portion(scheme + "://"@ + host).len() == 0,
        path_portion(scheme) == scheme,
        values.len() > 0 ==> first_text(values) == Some(utf8_lossy(values[0]@)),
        values.len() == 0 ==> first_text(values) is None,
{
    reveal_strlit("://");
    let raw = scheme + "://"@ + host;
    let i = scheme.len() as int + 1;
    crate::text::lemma_first_pos(raw, '/');
    crate::text::lemma_first_pos(scheme, '/');
    crate::text::lemma_first_pos(host, '/');
    assert(raw[i - 1] == "://"@[0] && raw[i] == "://"@[1] && raw[i + 1] == "://"@[2]);
    assert forall|j: int| 0 <= j < i implies raw[j] != '/' by {
        if j < i - 1 {
            assert(raw[j] == scheme[j]);
            assert(scheme.contains(scheme[j]));
        }
    }
    assert(crate::text::first_pos(raw, '/') == Some(i));
    assert(raw.skip(i + 2) =~= host);
    if let Some(j) = crate::text::first_pos(scheme, '/') {
        assert(scheme.contains(scheme[j]));
    }
    if let Some(j) = crate::text::first_pos(host, '/') {
        assert(host.contains(host[j]));
    }
}

/// A response says what its body is, and how long it is, or how long the body of
/// a `GET` would be.
pub proof fn law_response_head(r: DavView)
    ensures
        head_of(r).len() == 2,
        head_of(r)[0] == ("content-type"@, r.content_type),
        r.content_length is None ==> head_of(r)[1] == ("content-length"@, decimal(r.body.len())),
        r.content_length matches Some(n) ==> head_of(r)[1] == ("content-length"@, decimal(n as nat)),
{
}

} // verus!
