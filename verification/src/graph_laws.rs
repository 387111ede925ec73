//! Laws of the Graph client: where the bearer token goes, and that an upload
//! sends the whole file.
use vstd::prelude::*;
use crate::config::ConfigView;
use crate::graph::{
    chunk_end, chunk_request, content_next, item_url, list_next, stat_next, upload_next,
    ContentActionView, ContentStep, ListActionView, ListStep, StatActionView, StatStep,
    UploadActionView, UploadStep, GRAPH_ORIGIN,
};
use crate::http_client::{HttpResponse, RequestView};

verus! {

/// Whether the URL is one of Graph's.
pub open spec fn is_graph_url(url: Seq<char>) -> bool {
    GRAPH_ORIGIN@.is_prefix_of(url)
}

/// Whether the request carries no credentials.
pub open spec fn has_no_bearer(request: RequestView) -> bool {
    forall|i: int|
        0 <= i < request.headers.len() ==> (#[trigger] request.headers[i]).0 != "authorization"@
}

/// Every item URL is one of Graph's.
pub proof fn law_item_url_is_graph(config: ConfigView, path: Seq<char>, suffix: Seq<char>)
    ensures
        is_graph_url(item_url(config, path, suffix)),
{
    let base = "https://graph.microsoft.com/v1.0"@;
    reveal_strlit("https://graph.microsoft.com/v1.0");
    reveal_strlit("https://graph.microsoft.com/");
    assert(GRAPH_ORIGIN@ =~= base.take(28));
    let url = item_url(config, path, suffix);
    assert(url.take(28) =~= base.take(28));
}

/// A pagination link is only followed if it leads to Graph, and a listing
/// makes at most a fixed number of requests.
pub proof fn law_listing_stays_on_graph(config: ConfigView, path: Seq<char>, step: ListStep)
    ensures
        list_next(config, path, step) matches ListActionView::Call { listing, call }
            ==> is_graph_url(call.url) && (step is Parsed ==> listing.pages
            < crate::graph::MAX_CHILDREN_PAGES),
{
    law_item_url_is_graph(config, path, "/children?$top=200"@);
}

/// A `stat` sends the bearer token to Graph only.
pub proof fn law_stat_stays_on_graph(config: ConfigView, path: Seq<char>, step: StatStep)
    ensures
        stat_next(config, path, step) matches StatActionView::Call(call) ==> is_graph_url(call.url),
{
    law_item_url_is_graph(config, path, ""@);
}

/// A download sends the bearer token to Graph only; a redirect is followed
/// without it, and only to `https`.
pub proof fn law_download_keeps_bearer(config: ConfigView, path: Seq<char>, step: ContentStep)
    ensures
        match content_next(config, path, step) {
            ContentActionView::Call(call) => is_graph_url(call.url),
            ContentActionView::Fetch(request) => has_no_bearer(request)
                && "https://"@.is_prefix_of(request.url),
            ContentActionView::Done(_) => true,
        },
{
    law_item_url_is_graph(config, path, "/content"@);
}

proof fn lemma_chunk_has_no_bearer(url: Seq<char>, data: Seq<u8>, offset: int)
    ensures
        has_no_bearer(chunk_request(url, data, offset)),
{
    reveal_strlit("authorization");
    reveal_strlit("content-range");
    reveal_strlit("content-length");
    reveal_strlit("content-type");
    assert("content-range"@[0] != "authorization"@[0]);
    assert("content-length"@[0] != "authorization"@[0]);
    assert("content-type"@[0] != "authorization"@[0]);
}

/// An upload sends the bearer token to Graph only; the chunks of a session,
/// and its cancellation, go without it.
pub proof fn law_upload_keeps_bearer(
    config: ConfigView,
    path: Seq<char>,
    data: Seq<u8>,
    step: UploadStep,
)
    ensures
        match upload_next(config, path, data, step) {
            UploadActionView::Store(call) => is_graph_url(call.url),
            UploadActionView::Open(call) => is_graph_url(call.url),
            UploadActionView::Send { upload_url, offset, request } => has_no_bearer(request)
                && request.url == upload_url,
            UploadActionView::Cancel { request, error } => has_no_bearer(request),
            _ => true,
        },
{
    law_item_url_is_graph(config, path, "/content"@);
    law_item_url_is_graph(config, path, "/createUploadSession"@);
    if let UploadActionView::Send { upload_url, offset, request } = upload_next(
        config,
        path,
        data,
        step,
    ) {
        lemma_chunk_has_no_bearer(upload_url, data, offset);
    }
}

/// A chunk is not empty, ends within the file, and is a multiple of 320 KiB
/// unless it is the last one.
pub proof fn law_chunk_size(offset: int, total: int)
    requires
        0 <= offset < total,
    ensures
        offset < chunk_end(offset, total) <= total,
        chunk_end(offset, total) < total ==> (chunk_end(offset, total) - offset) % 327680 == 0,
{
}

/// The bodies of the chunks from `offset` on, one after the other.
pub open spec fn chunks_from(url: Seq<char>, data: Seq<u8>, offset: int) -> Seq<u8>
    decreases data.len() - offset,
{
    if 0 <= offset < data.len() {
        chunk_request(url, data, offset).body + chunks_from(
            url,
            data,
            chunk_end(offset, data.len() as int),
        )
    } else {
        Seq::empty()
    }
}

/// The chunks of a session, sent one after the other, are the whole file.
pub proof fn law_chunks_are_the_file(url: Seq<char>, data: Seq<u8>, offset: int)
    requires
        0 <= offset <= data.len(),
    ensures
        chunks_from(url, data, offset) == data.skip(offset),
        chunks_from(url, data, 0) == data,
    decreases data.len() - offset,
{
    lemma_chunks(url, data, offset);
    lemma_chunks(url, data, 0);
    assert(data.skip(0) =~= data);
}

proof fn lemma_chunks(url: Seq<char>, data: Seq<u8>, offset: int)
    requires
        0 <= offset <= data.len(),
    ensures
        chunks_from(url, data, offset) == data.skip(offset),
    decreases data.len() - offset,
{
    if offset < data.len() {
        let end = chunk_end(offset, data.len() as int);
        lemma_chunks(url, data, end);
        assert(data.subrange(offset, end) + data.skip(end) =~= data.skip(offset));
    } else {
        assert(data.skip(offset) =~= Seq::empty());
    }
}

/// After an accepted chunk the upload goes on where the chunk ended, and it
/// ends only behind the last byte; a chunk that is not accepted leads to the
/// cancellation of the session.
pub proof fn law_upload_advances(
    config: ConfigView,
    path: Seq<char>,
    data: Seq<u8>,
    upload_url: String,
    offset: usize,
    reply: Result<HttpResponse, String>,
)
    requires
        offset < data.len(),
    ensures
        match upload_next(config, path, data, UploadStep::Sent { upload_url, offset, reply }) {
            UploadActionView::Send { upload_url: u, offset: next, request } => u == upload_url@
                && next == chunk_end(offset as int, data.len() as int) && request == chunk_request(
                u,
                data,
                next,
            ),
            UploadActionView::Done(r) => r is Ok && chunk_end(offset as int, data.len() as int)
                == data.len(),
            UploadActionView::Cancel { request, error } => request.url == upload_url@,
            _ => false,
        },
{
}

} // verus!
