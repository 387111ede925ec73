//! Laws of the requests to Graph: which request each operation makes for a path,
//! what it makes of the reply, and what a whole upload or listing amounts to.
use vstd::prelude::*;
use vstd::utf8::*;
use crate::config::ConfigView;
use crate::graph::{
    chunk_end, chunk_request, content_next, delete_next, delta_url, drive_root, drive_views,
    folder_next, item_of, item_url, items_of, list_next, move_next, stat_next, upload_next,
    with_bearer, CallActionView, CallStep, CallView, ContentActionView, ContentStep, DriveItem,
    DriveItemPage, DriveItemView, ItemView, ListActionView, ListStep, Listing, StatActionView,
    StatStep, UploadActionView, UploadStep,
};
use crate::graph_laws::law_chunk_size;
use crate::http_client::{header_text, HttpResponse};
use crate::json::{json_text, JsonView};
use crate::path_laws::lemma_last_is;
use crate::text::{decimal, trim_start, utf8_lossy};
use crate::text_laws::{in_link, law_encoded_path, law_trim_both, only};
use crate::timestamp::unix_time;
use crate::xml::{pct_bytes, pct_decoded};

verus! {

/// A drive is addressed by its selector if that has a separator inside, and by
/// its id if not; separators around either do not matter.
pub proof fn law_drive_address(a: Seq<char>, t: Seq<char>, b: Seq<char>)
    requires
        only(a, '/'),
        only(b, '/'),
        t.len() > 0 ==> t[0] != '/' && t.last() != '/',
    ensures
        t.contains('/') ==> drive_root(a + t + b) == "/"@ + t,
        !t.contains('/') ==> drive_root(a + t + b) == "/drives/"@ + t,
        t.contains('/') ==> delta_url(a + t + b) == "https://graph.microsoft.com/v1.0/"@ + t
            + "/root/delta"@,
        !t.contains('/') ==> delta_url(a + t + b) == "https://graph.microsoft.com/v1.0/drives/"@ + t
            + "/root/delta"@,
{
    law_trim_both(a, t, b, '/');
    reveal_strlit("/");
    reveal_strlit("/drives/");
    reveal_strlit("https://graph.microsoft.com/v1.0");
    reveal_strlit("https://graph.microsoft.com/v1.0/");
    reveal_strlit("https://graph.microsoft.com/v1.0/drives/");
    if t.contains('/') {
        assert("https://graph.microsoft.com/v1.0"@ + ("/"@ + t) + "/root/delta"@
            =~= "https://graph.microsoft.com/v1.0/"@ + t + "/root/delta"@);
    } else {
        assert("https://graph.microsoft.com/v1.0"@ + ("/drives/"@ + t) + "/root/delta"@
            =~= "https://graph.microsoft.com/v1.0/drives/"@ + t + "/root/delta"@);
    }
}

/// The address of what is at the path `t`, without leading separators, of a
/// drive; of the drive's root if there is no such path.
pub open spec fn address(drive_base: Seq<char>, t: Seq<char>, what: Seq<char>) -> Seq<char> {
    if t.len() == 0 {
        "https://graph.microsoft.com/v1.0"@ + drive_root(drive_base) + "/root"@ + what
    } else {
        "https://graph.microsoft.com/v1.0"@ + drive_root(drive_base) + "/root:/"@ + pct_bytes(
            encode_utf8(t),
        ) + ":"@ + what
    }
}

/// What stands for a path in an address is made of characters that mean nothing
/// else there, and decoding it gives the path back.
pub proof fn law_address_names_its_path(t: Seq<char>)
    ensures
        pct_decoded(pct_bytes(encode_utf8(t))) == Some(t),
        forall|i: int|
            0 <= i < pct_bytes(encode_utf8(t)).len() ==> in_link(
                #[trigger] pct_bytes(encode_utf8(t))[i],
            ),
{
    law_encoded_path(t);
}

proof fn lemma_item_url(config: ConfigView, a: Seq<char>, t: Seq<char>, suffix: Seq<char>)
    requires
        only(a, '/'),
        t.len() > 0 ==> t[0] != '/',
    ensures
        item_url(config, a + t, suffix) == address(config.drive_base, t, suffix),
{
    lemma_leading(a, t);
    law_encoded_path(t);
    let origin = "https://graph.microsoft.com/v1.0"@;
    let root = drive_root(config.drive_base);
    if t.len() == 0 {
        assert(item_url(config, a + t, suffix) =~= origin + root + "/root"@ + suffix);
    } else {
        let link = pct_bytes(encode_utf8(t));
        assert(origin + (root + "/root:/"@ + link + ":"@) + suffix =~= origin + root + "/root:/"@
            + link + ":"@ + suffix);
    }
}

proof fn lemma_leading(a: Seq<char>, t: Seq<char>)
    requires
        only(a, '/'),
        t.len() > 0 ==> t[0] != '/',
    ensures
        trim_start(a + t, '/') == t,
    decreases a.len(),
{
    if a.len() > 0 {
        let rest = a.drop_first();
        assert(only(rest, '/')) by {
            assert forall|i: int| 0 <= i < rest.len() implies #[trigger] rest[i] == '/' by {
                assert(rest[i] == a[i + 1]);
            }
        }
        assert(a[0] == '/');
        assert((a + t).drop_first() =~= rest + t);
        lemma_leading(rest, t);
    } else {
        assert(a + t =~= t);
    }
}

/// Whether the request has no body and reads what is at the address.
pub open spec fn reads(call: CallView, url: Seq<char>) -> bool {
    call.method is Get && call.url == url && call.body.len() == 0 && call.content_type is None
}

/// A lookup, a listing and a download read the item itself, its children and its
/// content; a deletion deletes the item.
pub proof fn law_item_requests(config: ConfigView, a: Seq<char>, t: Seq<char>)
    requires
        only(a, '/'),
        t.len() > 0 ==> t[0] != '/',
    ensures
        ({
            let base = config.drive_base;
            &&& stat_next(config, a + t, StatStep::Start) matches StatActionView::Call(call)
                && reads(call, address(base, t, ""@))
            &&& list_next(config, a + t, ListStep::Start) matches ListActionView::Call {
                listing,
                call,
            } && reads(call, address(base, t, "/children?$top=200"@)) && listing.items.len() == 0
                && listing.pages == 0
            &&& content_next(config, a + t, ContentStep::Start) matches ContentActionView::Call(call)
                && reads(call, address(base, t, "/content"@))
            &&& delete_next(config, a + t, CallStep::Start) matches CallActionView::Call(call)
                && call.method is Delete && call.url == address(base, t, ""@) && call.body.len() == 0
        }),
{
    lemma_item_url(config, a, t, ""@);
    lemma_item_url(config, a, t, "/children?$top=200"@);
    lemma_item_url(config, a, t, "/content"@);
}

/// A small file is stored with one request that puts all of it to the content of
/// the item. A larger one is announced first, to replace what is there. One that
/// is too large is refused.
pub proof fn law_upload_begins(config: ConfigView, a: Seq<char>, t: Seq<char>, data: Seq<u8>)
    requires
        only(a, '/'),
        t.len() > 0 ==> t[0] != '/',
    ensures
        ({
            let action = upload_next(config, a + t, data, UploadStep::Start);
            let base = config.drive_base;
            &&& data.len() <= 4194304 ==> (action matches UploadActionView::Store(call) && {
                &&& call.method is Put
                &&& call.url == address(base, t, "/content"@)
                &&& call.content_type == Some("application/octet-stream"@)
                &&& call.body == data
            })
            &&& 4194304 < data.len() <= 67108864 ==> (action matches UploadActionView::Open(call) && {
                &&& call.method is Post
                &&& call.url == address(base, t, "/createUploadSession"@)
                &&& call.content_type == Some("application/json"@)
                &&& call.body == encode_utf8(
                    json_text(
                        JsonView::Object(
                            map!["item"@ => JsonView::Object(
                                map!["@microsoft.graph.conflictBehavior"@ => JsonView::Text("replace"@)],
                            )],
                        ),
                    ),
                )
            })
            &&& data.len() > 67108864 ==> (action matches UploadActionView::Done(Err(_)))
        }),
{
    lemma_item_url(config, a, t, "/content"@);
    lemma_item_url(config, a, t, "/createUploadSession"@);
}

/// A folder is created by posting its name to the children of its parent; a name
/// that is taken is an error.
pub proof fn law_folder_request(config: ConfigView, a: Seq<char>, t: Seq<char>, name: Seq<char>)
    requires
        only(a, '/'),
        t.len() > 0 ==> t[0] != '/',
    ensures
        folder_next(config, a + t, name, CallStep::Start) matches CallActionView::Call(call) && {
            &&& call.method is Post
            &&& call.url == address(config.drive_base, t, "/children"@)
            &&& call.content_type == Some("application/json"@)
            &&& call.body == encode_utf8(
                json_text(
                    JsonView::Object(
                        map![
                            "name"@ => JsonView::Text(name),
                            "folder"@ => JsonView::Object(Map::empty()),
                            "@microsoft.graph.conflictBehavior"@ => JsonView::Text("fail"@),
                        ],
                    ),
                ),
            )
        },
{
    lemma_item_url(config, a, t, "/children"@);
}

/// How a folder is referred to as a parent.
pub open spec fn parent_address(drive_base: Seq<char>, t: Seq<char>) -> Seq<char> {
    if t.len() == 0 {
        drive_root(drive_base) + "/root:"@
    } else {
        drive_root(drive_base) + "/root:/"@ + pct_bytes(encode_utf8(t))
    }
}

/// The request that moves an item to a folder under a name patches the item. It
/// gives the name as it is, character for character, and names the folder,
/// whatever separators stand around its path.
pub proof fn law_move_request(
    config: ConfigView,
    a: Seq<char>,
    from: Seq<char>,
    b: Seq<char>,
    folder: Seq<char>,
    c: Seq<char>,
    name: Seq<char>,
)
    requires
        only(a, '/') && only(b, '/') && only(c, '/'),
        from.len() > 0 ==> from[0] != '/',
        folder.len() > 0 ==> folder[0] != '/' && folder.last() != '/',
        !name.contains('/'),
    ensures
        move_next(config, a + from, b + folder + c + "/"@ + name, CallStep::Start) matches
            CallActionView::Call(call) && {
            &&& call.method is Patch
            &&& call.url == address(config.drive_base, from, ""@)
            &&& call.content_type == Some("application/json"@)
            &&& call.body == encode_utf8(
                json_text(
                    JsonView::Object(
                        map![
                            "name"@ => JsonView::Text(name),
                            "parentReference"@ => JsonView::Object(
                                map!["path"@ => JsonView::Text(
                                    parent_address(config.drive_base, folder),
                                )],
                            ),
                        ],
                    ),
                ),
            )
        },
        move_next(config, a + from, name, CallStep::Start) matches CallActionView::Call(call) && {
            &&& call.method is Patch
            &&& call.url == address(config.drive_base, from, ""@)
            &&& call.body == encode_utf8(
                json_text(
                    JsonView::Object(
                        map![
                            "name"@ => JsonView::Text(name),
                            "parentReference"@ => JsonView::Object(
                                map!["path"@ => JsonView::Text(
                                    parent_address(config.drive_base, Seq::empty()),
                                )],
                            ),
                        ],
                    ),
                ),
            )
        },
{
    lemma_item_url(config, a, from, ""@);
    reveal_strlit("/");
    let up = b + folder + c;
    let to = up + "/"@ + name;
    let i = up.len() as int;
    assert(to[i] == '/');
    assert forall|j: int| i < j < to.len() implies to[j] != '/' by {
        assert(to[j] == name[j - i - 1]);
        assert(name.contains(name[j - i - 1]));
    }
    lemma_last_is(to, i);
    assert(to.skip(i + 1) =~= name);
    assert(to.take(i) =~= up);
    law_trim_both(b, folder, c, '/');
    law_encoded_path(folder);
    crate::text::lemma_last_pos(name, '/');
    assert(crate::text::last_pos(name, '/') is None) by {
        if let Some(k) = crate::text::last_pos(name, '/') {
            assert(name.contains(name[k]));
        }
    }
}

/// What an operation reports of a reply: success for the statuses that mean it,
/// else an error that shows the status.
pub proof fn law_replies(
    config: ConfigView,
    path: Seq<char>,
    other: Seq<char>,
    reply: HttpResponse,
    error: String,
)
    ensures
        ({
            let r = reply@;
            let shown = decimal(r.status as nat) + ": "@ + utf8_lossy(r.body);
            let folder = folder_next(config, path, other, CallStep::Replied(Ok(reply)));
            let delete = delete_next(config, path, CallStep::Replied(Ok(reply)));
            let moved = move_next(config, path, other, CallStep::Replied(Ok(reply)));
            &&& r.status == 201 ==> (folder matches CallActionView::Done(Ok(_)))
            &&& r.status != 201 ==> (folder matches CallActionView::Done(Err(e)) && e
                == "graph create_folder failed with status "@ + shown)
            &&& r.status == 204 || r.status == 404 ==> (delete matches CallActionView::Done(Ok(_)))
            &&& r.status != 204 && r.status != 404 ==> (delete matches CallActionView::Done(Err(e))
                && e == "graph delete failed with status "@ + decimal(r.status as nat))
            &&& r.status == 200 ==> (moved matches CallActionView::Done(Ok(_)))
            &&& r.status != 200 ==> (moved matches CallActionView::Done(Err(e)) && e
                == "graph move_or_rename failed with status "@ + shown)
        }),
        folder_next(config, path, other, CallStep::Replied(Err(error))) matches
            CallActionView::Done(Err(e)) && e == error@,
        delete_next(config, path, CallStep::Replied(Err(error))) matches CallActionView::Done(Err(e))
            && e == error@,
        move_next(config, path, other, CallStep::Replied(Err(error))) matches
            CallActionView::Done(Err(e)) && e == error@,
{
    let r = reply@;
    let body = utf8_lossy(r.body);
    let n = decimal(r.status as nat);
    assert("graph create_folder failed with status "@ + n + ": "@ + body
        =~= "graph create_folder failed with status "@ + (n + ": "@ + body));
    assert("graph move_or_rename failed with status "@ + n + ": "@ + body
        =~= "graph move_or_rename failed with status "@ + (n + ": "@ + body));
}

/// The metadata of an item is what Graph says of it: its name, size and kind as
/// they are, its time in Unix seconds, and nothing for what Graph leaves out.
pub proof fn law_item_is_as_described(d: DriveItemView)
    ensures
        ({
            let i = item_of(d);
            &&& i.name == d.name && i.size == d.size && i.is_dir == d.is_folder
            &&& d.last_modified matches Some(t) ==> i.last_modified == unix_time(t)
            &&& d.last_modified is None ==> i.last_modified == 0
            &&& d.etag matches Some(t) ==> i.etag == t
            &&& d.etag is None ==> i.etag.len() == 0
            &&& d.mime_type matches Some(t) ==> i.mime_type == t
            &&& d.mime_type is None ==> i.mime_type.len() == 0
        }),
{
}

/// A lookup gives the item that Graph described, says so if there is none, and
/// fails with what Graph said in any other case.
pub proof fn law_stat_replies(
    config: ConfigView,
    path: Seq<char>,
    reply: HttpResponse,
    item: DriveItem,
    error: String,
)
    ensures
        ({
            let r = reply@;
            let action = stat_next(config, path, StatStep::Replied(Ok(reply)));
            &&& r.status == 200 ==> action == StatActionView::Parse(r.body)
            &&& r.status == 404 ==> (action matches StatActionView::Done(Err(e)) && e
                == "not found"@)
            &&& r.status != 200 && r.status != 404 ==> (action matches StatActionView::Done(Err(e))
                && e == "graph stat failed with status "@ + decimal(r.status as nat) + ": "@
                + utf8_lossy(r.body))
        }),
        stat_next(config, path, StatStep::Parsed(Ok(item))) matches StatActionView::Done(Ok(i)) && i
            == item_of(item@),
        stat_next(config, path, StatStep::Parsed(Err(error))) matches StatActionView::Done(Err(e))
            && e == "failed to parse drive item: "@ + error@,
        stat_next(config, path, StatStep::Replied(Err(error))) matches StatActionView::Done(Err(e))
            && e == error@,
{
}

/// A listing keeps the items of the pages that have come, in their order, and
/// adds those of the next page. It ends with a page without a link, and follows
/// a link to Graph unless it has followed too many.
pub proof fn law_listing_adds_pages(
    config: ConfigView,
    path: Seq<char>,
    listing: Listing,
    page: DriveItemPage,
)
    ensures
        ({
            let old = listing@.items;
            let new = page.value@;
            let action = list_next(config, path, ListStep::Parsed { listing, page: Ok(page) });
            let more = match action {
                ListActionView::Done(Ok(items)) => items,
                ListActionView::Call { listing: l, call } => l.items,
                _ => old + items_of(drive_views(new)),
            };
            &&& more.len() == old.len() + new.len()
            &&& forall|i: int| 0 <= i < old.len() ==> more[i] == #[trigger] old[i]
            &&& forall|i: int|
                0 <= i < new.len() ==> more[old.len() + i] == item_of((#[trigger] new[i])@)
            &&& page.next_link matches Some(next) ==> ({
                let good = "https://graph.microsoft.com/"@.is_prefix_of(next@) && listing@.pages + 1
                    < 500;
                &&& good ==> (action matches ListActionView::Call { listing: l, call } && reads(
                    call,
                    next@,
                ) && l.pages == listing@.pages + 1)
                &&& !good ==> (action matches ListActionView::Done(Err(_)))
            })
            &&& page.next_link is None ==> (action matches ListActionView::Done(Ok(_)))
        }),
{
    let old = listing@.items;
    let new = page.value@;
    let all = old + items_of(drive_views(new));
    assert forall|i: int| 0 <= i < new.len() implies all[old.len() + i] == item_of(
        (#[trigger] new[i])@,
    ) by {
        assert(items_of(drive_views(new))[i] == item_of(new[i]@));
    }
}

/// A listing looks at the reply before it is parsed, and keeps what it has.
pub proof fn law_listing_replies(
    config: ConfigView,
    path: Seq<char>,
    listing: Listing,
    reply: HttpResponse,
    error: String,
)
    ensures
        ({
            let r = reply@;
            let action = list_next(
                config,
                path,
                ListStep::Replied { listing, reply: Ok(reply) },
            );
            &&& r.status == 200 ==> (action matches ListActionView::Parse { listing: l, body } && l
                == listing@ && body == r.body)
            &&& r.status != 200 ==> (action matches ListActionView::Done(Err(e)) && e
                == "graph children failed with status "@ + decimal(r.status as nat) + ": "@
                + utf8_lossy(r.body))
        }),
        list_next(config, path, ListStep::Replied { listing, reply: Err(error) }) matches
            ListActionView::Done(Err(e)) && e == error@,
        list_next(config, path, ListStep::Parsed { listing, page: Err(error) }) matches
            ListActionView::Done(Err(e)) && e == "failed to parse children page: "@ + error@,
{
}

/// A download gives the body of the reply, or of the place that the reply refers
/// to, which is read once and without credentials. It never succeeds on another
/// status.
pub proof fn law_download_gives_the_body(
    config: ConfigView,
    path: Seq<char>,
    reply: HttpResponse,
    error: String,
)
    ensures
        ({
            let r = reply@;
            let action = content_next(config, path, ContentStep::Replied(Ok(reply)));
            let then = content_next(config, path, ContentStep::Redirected(Ok(reply)));
            let away = r.status == 301 || r.status == 302 || r.status == 303 || r.status == 307
                || r.status == 308;
            let place = crate::text::trim_white(header_text(r.headers, "location"@)->0);
            &&& r.status == 200 ==> (action matches ContentActionView::Done(Ok(data)) && data
                == r.body)
            &&& away && header_text(r.headers, "location"@) is Some && "https://"@.is_prefix_of(
                place,
            ) ==> (action matches ContentActionView::Fetch(request) && request.method is Get
                && request.url == place && request.headers.len() == 0 && request.body.len() == 0)
            &&& away && !(header_text(r.headers, "location"@) is Some && "https://"@.is_prefix_of(
                place,
            )) ==> (action matches ContentActionView::Done(Err(_)))
            &&& r.status != 200 && !away ==> (action matches ContentActionView::Done(Err(e)) && e
                == "graph get_content failed with status "@ + decimal(r.status as nat))
            &&& r.status == 200 ==> (then matches ContentActionView::Done(Ok(data)) && data == r.body)
            &&& r.status != 200 ==> (then matches ContentActionView::Done(Err(_)))
        }),
        content_next(config, path, ContentStep::Replied(Err(error))) matches
            ContentActionView::Done(Err(e)) && e == error@,
        content_next(config, path, ContentStep::Redirected(Err(error))) matches
            ContentActionView::Done(Err(e)) && e == error@,
{
}

/// A request to Graph is sent as it is, with the bearer token and with the type
/// of its body if it has one.
pub proof fn law_request_is_sent_as_it_is(call: CallView, bearer: Seq<char>)
    ensures
        ({
            let r = with_bearer(call, bearer);
            &&& r.method == call.method && r.url == call.url && r.body == call.body
            &&& r.headers[0] == ("authorization"@, bearer)
            &&& call.content_type is None ==> r.headers.len() == 1
            &&& call.content_type matches Some(ct) ==> r.headers.len() == 2 && r.headers[1] == (
                "content-type"@,
                ct,
            )
        }),
{
}

/// A chunk puts the bytes from its offset on, says where they belong in the file
/// and how many there are, and is at most 10 MiB long.
pub proof fn law_chunk_says_where_it_belongs(url: Seq<char>, data: Seq<u8>, offset: int)
    requires
        0 <= offset < data.len(),
    ensures
        ({
            let r = chunk_request(url, data, offset);
            let n = r.body.len() as int;
            &&& r.method is Put && r.url == url
            &&& 0 < n <= 10485760 && offset + n <= data.len()
            &&& n < 10485760 ==> offset + n == data.len()
            &&& r.body == data.subrange(offset, offset + n)
            &&& r.headers.contains(
                (
                    "content-range"@,
                    "bytes "@ + decimal(offset as nat) + "-"@ + decimal((offset + n - 1) as nat)
                        + "/"@ + decimal(data.len()),
                ),
            )
            &&& r.headers.contains(("content-length"@, decimal(n as nat)))
            &&& r.headers.contains(("content-type"@, "application/octet-stream"@))
        }),
{
    let r = chunk_request(url, data, offset);
    law_chunk_size(offset, data.len() as int);
    assert(r.headers.contains(r.headers[0]));
    assert(r.headers.contains(r.headers[1]));
    assert(r.headers.contains(r.headers[2]));
}

/// Whether the step is what follows from the action.
pub open spec fn upload_answers(action: UploadActionView, step: UploadStep) -> bool {
    match action {
        UploadActionView::Store(_) => step is Stored,
        UploadActionView::Open(_) => step is Opened,
        UploadActionView::Parse(_) => step is Session,
        UploadActionView::Send { upload_url, offset, request } => step matches UploadStep::Sent {
            upload_url: u,
            offset: o,
            reply,
        } && u@ == upload_url && o == offset,
        UploadActionView::Cancel { request, error } => step matches UploadStep::Cancelled {
            error: e,
        } && e@ == error,
        UploadActionView::Done(_) => false,
    }
}

/// Whether the steps are those of an upload from its beginning.
pub open spec fn is_upload(
    config: ConfigView,
    path: Seq<char>,
    data: Seq<u8>,
    steps: Seq<UploadStep>,
) -> bool
    decreases steps.len(),
{
    if steps.len() == 0 {
        false
    } else if steps.len() == 1 {
        steps[0] is Start
    } else {
        is_upload(config, path, data, steps.drop_last()) && upload_answers(
            upload_next(config, path, data, steps.drop_last().last()),
            steps.last(),
        )
    }
}

/// The bytes that an action puts to Graph.
pub open spec fn bytes_put(action: UploadActionView) -> Seq<u8> {
    match action {
        UploadActionView::Store(call) => if call.method is Put {
            call.body
        } else {
            Seq::empty()
        },
        UploadActionView::Send { upload_url, offset, request } => if request.method is Put {
            request.body
        } else {
            Seq::empty()
        },
        _ => Seq::empty(),
    }
}

/// The bytes that an upload has put to Graph, in the order in which it did so.
pub open spec fn all_put(
    config: ConfigView,
    path: Seq<char>,
    data: Seq<u8>,
    steps: Seq<UploadStep>,
) -> Seq<u8>
    decreases steps.len(),
{
    if steps.len() == 0 {
        Seq::empty()
    } else {
        all_put(config, path, data, steps.drop_last()) + bytes_put(
            upload_next(config, path, data, steps.last()),
        )
    }
}

/// An upload that ends well has put the whole file, in order and once; and it
/// ends well only on a reply that says that the file is there.
pub proof fn law_upload_stores_the_file(
    config: ConfigView,
    path: Seq<char>,
    data: Seq<u8>,
    steps: Seq<UploadStep>,
)
    requires
        is_upload(config, path, data, steps),
    ensures
        upload_next(config, path, data, steps.last()) matches UploadActionView::Done(Ok(_)) ==> {
            &&& all_put(config, path, data, steps) == data
            &&& match steps.last() {
                UploadStep::Stored(Ok(reply)) => reply@.status == 200 || reply@.status == 201,
                UploadStep::Sent { upload_url, offset, reply: Ok(reply) } => reply@.status == 200
                    || reply@.status == 201,
                _ => false,
            }
        },
{
    lemma_put_so_far(config, path, data, steps);
}

proof fn lemma_put_so_far(
    config: ConfigView,
    path: Seq<char>,
    data: Seq<u8>,
    steps: Seq<UploadStep>,
)
    requires
        is_upload(config, path, data, steps),
    ensures
        ({
            let put = all_put(config, path, data, steps);
            match upload_next(config, path, data, steps.last()) {
                UploadActionView::Store(_) => put == data,
                UploadActionView::Open(_) => put.len() == 0 && data.len() > 0,
                UploadActionView::Parse(_) => put.len() == 0 && data.len() > 0,
                UploadActionView::Send { upload_url, offset, request } => 0 <= offset < data.len()
                    && put == data.take(chunk_end(offset, data.len() as int)),
                UploadActionView::Cancel { request, error } => true,
                UploadActionView::Done(Ok(_)) => {
                    &&& put == data
                    &&& match steps.last() {
                        UploadStep::Stored(Ok(reply)) => reply@.status == 200 || reply@.status
                            == 201,
                        UploadStep::Sent { upload_url, offset, reply: Ok(reply) } => reply@.status
                            == 200 || reply@.status == 201,
                        _ => false,
                    }
                },
                UploadActionView::Done(Err(_)) => true,
            }
        }),
    decreases steps.len(),
{
    let front = steps.drop_last();
    let action = upload_next(config, path, data, steps.last());
    let put = all_put(config, path, data, steps);
    let before = all_put(config, path, data, front);
    if steps.len() == 1 {
        assert(front =~= Seq::<UploadStep>::empty());
        assert(before =~= Seq::<u8>::empty());
        assert(put =~= bytes_put(action));
    } else {
        lemma_put_so_far(config, path, data, front);
        if let UploadActionView::Send { upload_url, offset, request } = action {
            let end = chunk_end(offset, data.len() as int);
            assert(before =~= data.take(offset));
            assert(data.take(offset) + data.subrange(offset, end) =~= data.take(end));
        } else {
            assert(put =~= before);
            if action matches UploadActionView::Done(Ok(_)) {
                if steps.last() is Sent {
                    assert(data.take(data.len() as int) =~= data);
                }
            }
        }
    }
}

/// What each reply of an upload leads to: a file that is stored at once is
/// stored if the status says so; a session begins at the first byte, at the
/// place that Graph named, if that is a safe one; a failed session is given up,
/// and its error is reported.
pub proof fn law_upload_replies(
    config: ConfigView,
    path: Seq<char>,
    data: Seq<u8>,
    reply: HttpResponse,
    url: String,
    offset: usize,
    error: String,
)
    requires
        offset < data.len(),
    ensures
        ({
            let r = reply@;
            let good = r.status == 200 || r.status == 201;
            let stored = upload_next(config, path, data, UploadStep::Stored(Ok(reply)));
            let opened = upload_next(config, path, data, UploadStep::Opened(Ok(reply)));
            let session = upload_next(config, path, data, UploadStep::Session(Ok(url)));
            let place = crate::text::trim_white(url@);
            &&& good ==> (stored matches UploadActionView::Done(Ok(_)))
            &&& !good ==> (stored matches UploadActionView::Done(Err(e)) && e
                == "graph put_content failed with status "@ + decimal(r.status as nat) + ": "@
                + utf8_lossy(r.body))
            &&& good ==> opened == UploadActionView::Parse(r.body)
            &&& !good ==> (opened matches UploadActionView::Done(Err(e)) && e
                == "graph createUploadSession failed with status "@ + decimal(r.status as nat)
                + ": "@ + utf8_lossy(r.body))
            &&& "https://"@.is_prefix_of(place) ==> (session matches UploadActionView::Send {
                upload_url,
                offset: first,
                request,
            } && first == 0 && upload_url == place && request == chunk_request(place, data, 0))
            &&& !"https://"@.is_prefix_of(place) ==> (session matches UploadActionView::Done(Err(_)))
        }),
        ({
            let failed = UploadStep::Sent { upload_url: url, offset, reply: Err(error) };
            upload_next(config, path, data, failed) matches UploadActionView::Cancel {
                request,
                error: e,
            } && request.method is Delete && request.url == url@ && request.headers.len() == 0 && e
                == error@
        }),
        upload_next(config, path, data, UploadStep::Cancelled { error }) matches
            UploadActionView::Done(Err(e)) && e == error@,
        upload_next(config, path, data, UploadStep::Stored(Err(error))) matches
            UploadActionView::Done(Err(e)) && e == error@,
        upload_next(config, path, data, UploadStep::Opened(Err(error))) matches
            UploadActionView::Done(Err(e)) && e == error@,
{
}

/// A chunk goes on to the next one, or ends the upload, on the status that fits:
/// 202 while more is to come, 200 or 201 at the end.
pub proof fn law_chunk_replies(
    config: ConfigView,
    path: Seq<char>,
    data: Seq<u8>,
    url: String,
    offset: usize,
    reply: HttpResponse,
)
    requires
        offset < data.len(),
    ensures
        ({
            let step = UploadStep::Sent { upload_url: url, offset, reply: Ok(reply) };
            let action = upload_next(config, path, data, step);
            let r = reply@;
            let last = data.len() - offset <= 10485760;
            &&& last && (r.status == 200 || r.status == 201) ==> (action matches
                UploadActionView::Done(Ok(_)))
            &&& !last && r.status == 202 ==> (action matches UploadActionView::Send {
                upload_url,
                offset: next,
                request,
            } && upload_url == url@ && next == offset + 10485760 && request == chunk_request(
                url@,
                data,
                next,
            ))
            &&& last && r.status != 200 && r.status != 201 ==> (action matches
                UploadActionView::Cancel { request, error } && request.method is Delete
                && request.url == url@)
            &&& !last && r.status != 202 ==> (action matches UploadActionView::Cancel {
                request,
                error,
            } && request.method is Delete && request.url == url@)
        }),
{
}

/// Why an upload or a listing is refused.
pub proof fn law_refusals(
    config: ConfigView,
    path: Seq<char>,
    data: Seq<u8>,
    url: String,
    reply: HttpResponse,
    listing: Listing,
    page: DriveItemPage,
)
    ensures
        data.len() > 67108864 ==> upload_next(config, path, data, UploadStep::Start)
            == UploadActionView::Done(
            Err::<(), Seq<char>>(
                "file is "@ + decimal(data.len()) + " bytes, larger than this build's "@ + decimal(
                    67108864,
                ) + "-byte upload limit"@,
            ),
        ),
        !"https://"@.is_prefix_of(crate::text::trim_white(url@)) ==> upload_next(
            config,
            path,
            data,
            UploadStep::Session(Ok(url)),
        ) == UploadActionView::Done(
            Err::<(), Seq<char>>("graph createUploadSession returned a non-https uploadUrl"@),
        ),
        reply@.status == 302 && header_text(reply@.headers, "location"@) is None ==> content_next(
            config,
            path,
            ContentStep::Replied(Ok(reply)),
        ) == ContentActionView::Done(
            Err::<Seq<u8>, Seq<char>>("graph get_content redirect missing Location header"@),
        ),
        page.next_link matches Some(next) ==> {
            let action = list_next(config, path, ListStep::Parsed { listing, page: Ok(page) });
            &&& listing@.pages + 1 >= 500 ==> action == ListActionView::Done(
                Err::<Seq<ItemView>, Seq<char>>(
                    "graph children listing exceeded 500 pages; aborting"@,
                ),
            )
            &&& listing@.pages + 1 < 500 && !"https://graph.microsoft.com/"@.is_prefix_of(next@)
                ==> action == ListActionView::Done(
                Err::<Seq<ItemView>, Seq<char>>(
                    "graph @odata.nextLink points outside graph.microsoft.com; refusing"@,
                ),
            )
        },
{
}

} // verus!
