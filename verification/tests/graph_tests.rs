use onedrive_davfs::config::Config;
use onedrive_davfs::graph::{
    children, create_folder, delete, drive_root_segment, get_content, graph_request,
    initial_delta_url, is_https_url, item_path_segment, move_or_rename, parent_reference_path,
    put_content, stat, validate_next_link, CallAction, CallStep, ContentAction, ContentStep,
    DriveItem, DriveItemPage, GraphCall, ListAction, ListStep, StatAction, StatStep, UploadAction,
    UploadStep, MAX_CHILDREN_PAGES, MAX_SIMPLE_UPLOAD_BYTES, MAX_UPLOAD_BYTES, UPLOAD_CHUNK_BYTES,
};
use onedrive_davfs::http_client::{HttpResponse, Method};

fn config() -> Config {
    Config {
        client_id: None,
        tenant_id: "common".into(),
        drive_base: "me/drive".into(),
        basic_auth_secret: None,
        state_dir: 0,
    }
}

fn reply(status: u16, body: &str) -> Result<HttpResponse, String> {
    Ok(HttpResponse { status, headers: vec![], body: body.as_bytes().to_vec() })
}

fn item(name: &str, is_folder: bool) -> DriveItem {
    DriveItem {
        name: name.into(),
        size: 5,
        is_folder,
        last_modified: Some("2026-01-12T08:30:00Z".into()),
        etag: Some("tag".into()),
        mime_type: None,
    }
}

#[test]
fn drive_root_segment_supports_default_me_drive_selector() {
    assert_eq!(drive_root_segment("me/drive"), "/me/drive");
}

#[test]
fn drive_root_segment_supports_explicit_drive_id() {
    assert_eq!(drive_root_segment("B087983F641B9ED3"), "/drives/B087983F641B9ED3");
}

#[test]
fn item_path_segment_preserves_graph_selector_shape() {
    assert_eq!(item_path_segment("me/drive", ""), "/me/drive/root");
    assert_eq!(
        item_path_segment("me/drive", "/Documents/report 1.docx"),
        "/me/drive/root:/Documents/report%201.docx:"
    );
}

#[test]
fn next_link_must_stay_on_graph_origin() {
    assert!(validate_next_link("https://graph.microsoft.com/v1.0/x?skip=1", 1).is_ok());
    assert!(validate_next_link("https://evil.example/steal", 1).is_err());
    assert!(validate_next_link("http://graph.microsoft.com/v1.0/x", 1).is_err());
    assert!(validate_next_link("https://graph.microsoft.com.evil/x", 1).is_err());
    assert!(validate_next_link("https://graph.microsoft.com/v1.0/x", MAX_CHILDREN_PAGES).is_err());
}

#[test]
fn download_redirect_requires_https() {
    assert!(is_https_url(
        "https://my.microsoftpersonalcontent.com/personal/x/_layouts/15/download.aspx?x=1"
    ));
    assert!(is_https_url("https://mytenant.sharepoint.com/sites/x/_layouts/download.aspx?x=1"));
    assert!(is_https_url("https://evil.example/x"));
    assert!(!is_https_url("http://sharepoint.com/x"));
    assert!(!is_https_url("javascript:alert(1)"));
    assert!(!is_https_url(""));
}

#[test]
fn move_parent_reference_uses_drive_selector() {
    assert_eq!(parent_reference_path("me/drive", "/Documents"), "/me/drive/root:/Documents");
    assert_eq!(parent_reference_path("me/drive", "/"), "/me/drive/root:");
    assert_eq!(
        parent_reference_path("B087983F641B9ED3", "/Documents"),
        "/drives/B087983F641B9ED3/root:/Documents"
    );
}

#[test]
fn delta_begins_at_the_drive_root() {
    assert_eq!(
        initial_delta_url("me/drive"),
        "https://graph.microsoft.com/v1.0/me/drive/root/delta"
    );
}

#[test]
fn graph_requests_carry_the_bearer() {
    let call = GraphCall {
        method: Method::Get,
        url: "u".into(),
        content_type: Some("t".into()),
        body: vec![1],
    };
    let req = graph_request(call, "Bearer x".into());
    assert_eq!(
        req.headers,
        vec![
            ("authorization".to_string(), "Bearer x".to_string()),
            ("content-type".to_string(), "t".to_string())
        ]
    );
    assert_eq!(req.body, vec![1]);
}

#[test]
fn stat_steps() {
    let c = config();
    match stat(&c, "/a b", StatStep::Start) {
        StatAction::Call(call) => {
            assert_eq!(call.url, "https://graph.microsoft.com/v1.0/me/drive/root:/a%20b:");
            assert!(matches!(call.method, Method::Get));
            assert!(call.content_type.is_none());
        }
        _ => panic!("expected a call"),
    }
    let done = |step| match stat(&c, "/a b", step) {
        StatAction::Done(r) => r,
        _ => panic!("expected the end"),
    };
    assert_eq!(done(StatStep::Replied(reply(404, ""))).unwrap_err(), "not found");
    assert_eq!(
        done(StatStep::Replied(reply(500, "oops"))).unwrap_err(),
        "graph stat failed with status 500: oops"
    );
    assert_eq!(done(StatStep::Replied(Err("net".into()))).unwrap_err(), "net");
    assert_eq!(
        done(StatStep::Parsed(Err("eof".into()))).unwrap_err(),
        "failed to parse drive item: eof"
    );
    match stat(&c, "/a b", StatStep::Replied(reply(200, "{}"))) {
        StatAction::Parse(body) => assert_eq!(body, b"{}"),
        _ => panic!("expected a parse"),
    }
    let it = done(StatStep::Parsed(Ok(item("a b", false)))).unwrap();
    assert_eq!(it.name, "a b");
    assert_eq!(it.last_modified, 1768206600);
    assert_eq!(it.etag, "tag");
    assert_eq!(it.mime_type, "");
    assert!(!it.is_dir);
}

#[test]
fn children_follow_pages() {
    let c = config();
    let listing = match children(&c, "/d", ListStep::Start) {
        ListAction::Call { listing, call } => {
            assert_eq!(
                call.url,
                "https://graph.microsoft.com/v1.0/me/drive/root:/d:/children?$top=200"
            );
            listing
        }
        _ => panic!("expected a call"),
    };
    let listing = match children(&c, "/d", ListStep::Replied { listing, reply: reply(200, "x") }) {
        ListAction::Parse { listing, body } => {
            assert_eq!(body, b"x");
            listing
        }
        _ => panic!("expected a parse"),
    };
    let next = "https://graph.microsoft.com/v1.0/next";
    let page = DriveItemPage { value: vec![item("1", true)], next_link: Some(next.into()) };
    let listing = match children(&c, "/d", ListStep::Parsed { listing, page: Ok(page) }) {
        ListAction::Call { listing, call } => {
            assert_eq!(call.url, next);
            assert_eq!(listing.pages, 1);
            listing
        }
        _ => panic!("expected a call"),
    };
    let page = DriveItemPage { value: vec![item("2", false)], next_link: None };
    match children(&c, "/d", ListStep::Parsed { listing, page: Ok(page) }) {
        ListAction::Done(Ok(items)) => {
            let names: Vec<String> = items.into_iter().map(|i| i.name).collect();
            assert_eq!(names, vec!["1", "2"]);
        }
        _ => panic!("expected the end"),
    }
}

#[test]
fn children_errors() {
    let c = config();
    let listing = || match children(&c, "/d", ListStep::Start) {
        ListAction::Call { listing, .. } => listing,
        _ => panic!("expected a call"),
    };
    let fail = |step| match children(&c, "/d", step) {
        ListAction::Done(Err(e)) => e,
        _ => panic!("expected an error"),
    };
    assert_eq!(
        fail(ListStep::Replied { listing: listing(), reply: reply(503, "busy") }),
        "graph children failed with status 503: busy"
    );
    assert_eq!(fail(ListStep::Replied { listing: listing(), reply: Err("net".into()) }), "net");
    assert_eq!(
        fail(ListStep::Parsed { listing: listing(), page: Err("eof".into()) }),
        "failed to parse children page: eof"
    );
    let page = DriveItemPage { value: vec![], next_link: Some("https://evil.example/".into()) };
    assert_eq!(
        fail(ListStep::Parsed { listing: listing(), page: Ok(page) }),
        "graph @odata.nextLink points outside graph.microsoft.com; refusing"
    );
    let mut far = listing();
    far.pages = MAX_CHILDREN_PAGES - 1;
    let page = DriveItemPage {
        value: vec![],
        next_link: Some("https://graph.microsoft.com/x".into()),
    };
    assert_eq!(
        fail(ListStep::Parsed { listing: far, page: Ok(page) }),
        "graph children listing exceeded 500 pages; aborting"
    );
}

#[test]
fn downloads_and_redirects() {
    let c = config();
    match get_content(&c, "/f", ContentStep::Start) {
        ContentAction::Call(call) => {
            assert_eq!(call.url, "https://graph.microsoft.com/v1.0/me/drive/root:/f:/content")
        }
        _ => panic!("expected a call"),
    }
    let done = |step| match get_content(&c, "/f", step) {
        ContentAction::Done(r) => r,
        _ => panic!("expected the end"),
    };
    assert_eq!(done(ContentStep::Replied(reply(200, "data"))).unwrap(), b"data");
    assert_eq!(
        done(ContentStep::Replied(reply(302, ""))).unwrap_err(),
        "graph get_content redirect missing Location header"
    );
    assert_eq!(
        done(ContentStep::Replied(reply(418, ""))).unwrap_err(),
        "graph get_content failed with status 418"
    );
    let redirect = |to: &str| {
        Ok(HttpResponse {
            status: 307,
            headers: vec![("LOCATION".into(), to.as_bytes().to_vec())],
            body: vec![],
        })
    };
    match get_content(&c, "/f", ContentStep::Replied(redirect(" https://cdn.example/x\n"))) {
        ContentAction::Fetch(req) => {
            assert_eq!(req.url, "https://cdn.example/x");
            assert!(req.headers.is_empty());
        }
        _ => panic!("expected a fetch"),
    }
    assert_eq!(
        done(ContentStep::Replied(redirect("http://cdn.example/x"))).unwrap_err(),
        "graph get_content redirect is not https: http://cdn.example/x"
    );
    assert_eq!(done(ContentStep::Redirected(reply(200, "there"))).unwrap(), b"there");
    assert_eq!(
        done(ContentStep::Redirected(reply(403, ""))).unwrap_err(),
        "graph redirected get_content failed with status 403"
    );
    assert_eq!(done(ContentStep::Redirected(Err("net".into()))).unwrap_err(), "net");
}

#[test]
fn small_uploads_take_one_request() {
    let c = config();
    match put_content(&c, "/f", b"abc", UploadStep::Start) {
        UploadAction::Store(call) => {
            assert_eq!(call.url, "https://graph.microsoft.com/v1.0/me/drive/root:/f:/content");
            assert_eq!(call.content_type.as_deref(), Some("application/octet-stream"));
            assert_eq!(call.body, b"abc");
        }
        _ => panic!("expected a single request"),
    }
    let done = |step| match put_content(&c, "/f", b"abc", step) {
        UploadAction::Done(r) => r,
        _ => panic!("expected the end"),
    };
    assert!(done(UploadStep::Stored(reply(201, ""))).is_ok());
    assert!(done(UploadStep::Stored(reply(200, ""))).is_ok());
    assert_eq!(
        done(UploadStep::Stored(reply(409, "no"))).unwrap_err(),
        "graph put_content failed with status 409: no"
    );
    assert_eq!(done(UploadStep::Stored(Err("net".into()))).unwrap_err(), "net");
}

#[test]
fn large_uploads_go_in_chunks() {
    let c = config();
    let data: Vec<u8> = (0..(2 * UPLOAD_CHUNK_BYTES + 5)).map(|i| (i % 251) as u8).collect();
    match put_content(&c, "/f", &data, UploadStep::Start) {
        UploadAction::Open(call) => {
            assert_eq!(
                call.url,
                "https://graph.microsoft.com/v1.0/me/drive/root:/f:/createUploadSession"
            );
            assert_eq!(
                String::from_utf8(call.body).unwrap(),
                "{\"item\":{\"@microsoft.graph.conflictBehavior\":\"replace\"}}"
            );
        }
        _ => panic!("expected a session"),
    }
    match put_content(&c, "/f", &data, UploadStep::Opened(reply(200, "s"))) {
        UploadAction::Parse(body) => assert_eq!(body, b"s"),
        _ => panic!("expected a parse"),
    }
    let mut sent: Vec<u8> = vec![];
    let mut ranges: Vec<String> = vec![];
    let mut action = put_content(&c, "/f", &data, UploadStep::Session(Ok(" https://up/ ".into())));
    loop {
        match action {
            UploadAction::Send { upload_url, offset, request } => {
                assert_eq!(upload_url, "https://up/");
                assert_eq!(offset, sent.len());
                assert_eq!(request.headers[1].1, request.body.len().to_string());
                ranges.push(request.headers[0].1.clone());
                sent.extend_from_slice(&request.body);
                let status = if sent.len() == data.len() { 201 } else { 202 };
                action = put_content(
                    &c,
                    "/f",
                    &data,
                    UploadStep::Sent { upload_url, offset, reply: reply(status, "") },
                );
            }
            UploadAction::Done(r) => {
                assert!(r.is_ok());
                break;
            }
            _ => panic!("unexpected action"),
        }
    }
    assert_eq!(sent, data);
    assert_eq!(
        ranges,
        vec![
            "bytes 0-10485759/20971525",
            "bytes 10485760-20971519/20971525",
            "bytes 20971520-20971524/20971525"
        ]
    );
}

#[test]
fn chunks_are_multiples_of_the_unit() {
    assert_eq!(UPLOAD_CHUNK_BYTES % (320 * 1024), 0);
}

#[test]
fn a_failed_chunk_cancels_the_session() {
    let c = config();
    let data = vec![0u8; MAX_SIMPLE_UPLOAD_BYTES as usize + 1];
    let sent = |reply| {
        put_content(
            &c,
            "/f",
            &data,
            UploadStep::Sent { upload_url: "https://up/".into(), offset: 0, reply },
        )
    };
    match sent(reply(202, "wait")) {
        UploadAction::Cancel { request, error } => {
            assert!(matches!(request.method, Method::Delete));
            assert_eq!(request.url, "https://up/");
            assert!(request.headers.is_empty());
            assert_eq!(
                error,
                "graph upload session chunk 0-4194304 failed with status 202: wait"
            );
        }
        _ => panic!("expected a cancellation"),
    }
    match sent(Err("net".into())) {
        UploadAction::Cancel { error, .. } => assert_eq!(error, "net"),
        _ => panic!("expected a cancellation"),
    }
    match put_content(&c, "/f", &data, UploadStep::Cancelled { error: "net".into() }) {
        UploadAction::Done(r) => assert_eq!(r.unwrap_err(), "net"),
        _ => panic!("expected the end"),
    }
    let done = |step| match put_content(&c, "/f", &data, step) {
        UploadAction::Done(r) => r.unwrap_err(),
        _ => panic!("expected the end"),
    };
    assert_eq!(
        done(UploadStep::Session(Ok("http://up/".into()))),
        "graph createUploadSession returned a non-https uploadUrl"
    );
    assert_eq!(done(UploadStep::Session(Err("e".into()))), "failed to parse upload session: e");
    assert_eq!(
        done(UploadStep::Opened(reply(401, "x"))),
        "graph createUploadSession failed with status 401: x"
    );
    assert_eq!(done(UploadStep::Opened(Err("net".into()))), "net");
}

#[test]
fn huge_uploads_are_refused() {
    let data = vec![0u8; MAX_UPLOAD_BYTES as usize + 1];
    match put_content(&config(), "/f", &data, UploadStep::Start) {
        UploadAction::Done(r) => assert_eq!(
            r.unwrap_err(),
            "file is 67108865 bytes, larger than this build's 67108864-byte upload limit"
        ),
        _ => panic!("expected a refusal"),
    }
}

#[test]
fn folders_deletes_and_moves() {
    let c = config();
    match create_folder(&c, "/p", "n\"m", CallStep::Start) {
        CallAction::Call(call) => {
            assert_eq!(call.url, "https://graph.microsoft.com/v1.0/me/drive/root:/p:/children");
            assert!(matches!(call.method, Method::Post));
            assert_eq!(
                String::from_utf8(call.body).unwrap(),
                "{\"@microsoft.graph.conflictBehavior\":\"fail\",\"folder\":{},\"name\":\"n\\\"m\"}"
            );
        }
        _ => panic!("expected a call"),
    }
    match move_or_rename(&c, "/a", "/p/q/b", CallStep::Start) {
        CallAction::Call(call) => {
            assert_eq!(call.url, "https://graph.microsoft.com/v1.0/me/drive/root:/a:");
            assert!(matches!(call.method, Method::Patch));
            assert_eq!(
                String::from_utf8(call.body).unwrap(),
                "{\"name\":\"b\",\"parentReference\":{\"path\":\"/me/drive/root:/p/q\"}}"
            );
        }
        _ => panic!("expected a call"),
    }
    match delete(&c, "/a", CallStep::Start) {
        CallAction::Call(call) => assert!(matches!(call.method, Method::Delete)),
        _ => panic!("expected a call"),
    }
    let end = |a| match a {
        CallAction::Done(r) => r,
        _ => panic!("expected the end"),
    };
    assert!(end(create_folder(&c, "/p", "n", CallStep::Replied(reply(201, "")))).is_ok());
    assert_eq!(
        end(create_folder(&c, "/p", "n", CallStep::Replied(reply(200, "x")))).unwrap_err(),
        "graph create_folder failed with status 200: x"
    );
    assert!(end(delete(&c, "/a", CallStep::Replied(reply(404, "")))).is_ok());
    assert!(end(delete(&c, "/a", CallStep::Replied(reply(204, "")))).is_ok());
    assert_eq!(
        end(delete(&c, "/a", CallStep::Replied(reply(200, "")))).unwrap_err(),
        "graph delete failed with status 200"
    );
    assert!(end(move_or_rename(&c, "/a", "b", CallStep::Replied(reply(200, "")))).is_ok());
    assert_eq!(
        end(move_or_rename(&c, "/a", "b", CallStep::Replied(reply(412, "y")))).unwrap_err(),
        "graph move_or_rename failed with status 412: y"
    );
    assert_eq!(
        end(move_or_rename(&c, "/a", "b", CallStep::Replied(Err("net".into())))).unwrap_err(),
        "net"
    );
}
