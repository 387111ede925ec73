use onedrive_davfs::config::Config;
use onedrive_davfs::dav::{
    delete, get, head, lock, mkcol, move_to, propfind, put, unlock, DavResponse, MkcolAction,
    MkcolStep, PropfindAction, PropfindStep, PutAction, PutStep,
};
use onedrive_davfs::graph::{GraphItem, MAX_UPLOAD_BYTES};
use onedrive_davfs::http_client::Method;
use onedrive_davfs::server::{
    base64_decode, check_basic_auth, destination_path, handle_request, header_value,
    put_unreadable, respond, RequestHeaders, Route,
};

fn item(name: &str, is_dir: bool) -> GraphItem {
    GraphItem {
        name: name.into(),
        is_dir,
        size: 3,
        last_modified: 0,
        etag: "t".into(),
        mime_type: String::new(),
    }
}

fn text(r: &DavResponse) -> String {
    String::from_utf8(r.body.clone()).unwrap()
}

fn answered(a: PropfindAction) -> DavResponse {
    match a {
        PropfindAction::Respond(r) => r,
        _ => panic!("expected a response"),
    }
}

#[test]
fn propfind_refuses_infinite_depth() {
    let r = answered(propfind("/", Some("infinity"), PropfindStep::Start));
    assert_eq!(r.status, 403);
    assert!(text(&r).contains("<D:propfind-finite-depth/>"));
    assert!(matches!(propfind("/", Some("1"), PropfindStep::Start), PropfindAction::Stat));
    assert!(matches!(propfind("/", None, PropfindStep::Start), PropfindAction::Stat));
}

#[test]
fn propfind_of_an_item() {
    let r = answered(propfind("/d/f.txt", None, PropfindStep::Item(Ok(item("f.txt", false)))));
    assert_eq!(r.status, 207);
    assert_eq!(r.content_type, "application/xml; charset=utf-8");
    assert!(text(&r).contains("<D:href>/d/f.txt</D:href>"));
    let r = answered(propfind("/d", Some("0"), PropfindStep::Item(Ok(item("d", true)))));
    assert!(text(&r).contains("<D:href>/d/</D:href>"));
    let r = answered(propfind("/", Some("0"), PropfindStep::Item(Ok(item("root", true)))));
    assert!(text(&r).contains("<D:href>/</D:href>"));
    let r = answered(propfind("/x", None, PropfindStep::Item(Err("not found".into()))));
    assert_eq!((r.status, r.body.len()), (404, 0));
    let r = answered(propfind("/x", None, PropfindStep::Item(Err("boom".into()))));
    assert_eq!((r.status, text(&r)), (502, "boom".to_string()));
}

#[test]
fn propfind_of_a_folder_lists_children() {
    let listing = propfind("/d/", Some("1"), PropfindStep::Item(Ok(item("d", true))));
    let folder = match listing {
        PropfindAction::List { item } => item,
        _ => panic!("expected a listing"),
    };
    let children = Ok(vec![item("a", false), item("b", true)]);
    let r = answered(propfind("/d/", Some("1"), PropfindStep::Children { item: folder, children }));
    let xml = text(&r);
    assert_eq!(r.status, 207);
    let hrefs: Vec<&str> =
        xml.split("<D:href>").skip(1).map(|p| p.split("</D:href>").next().unwrap()).collect();
    assert_eq!(hrefs, vec!["/d/", "/d/a", "/d/b/"]);
    let r = answered(propfind(
        "/d",
        None,
        PropfindStep::Children { item: item("d", true), children: Err("late".into()) },
    ));
    assert_eq!((r.status, text(&r)), (502, "late".to_string()));
}

#[test]
fn get_and_head() {
    let r = get(Ok(vec![1, 2]));
    assert_eq!((r.status, r.content_type.as_str()), (200, "application/octet-stream"));
    assert_eq!(r.body, vec![1, 2]);
    let r = get(Err("gone".into()));
    assert_eq!((r.status, text(&r)), (502, "gone".to_string()));
    let r = head(Ok(item("f", false)));
    assert_eq!((r.status, r.content_length), (200, Some(3)));
    assert_eq!(r.content_type, "application/octet-stream");
    assert!(r.body.is_empty());
    let r = head(Ok(item("d", true)));
    assert_eq!((r.content_type.as_str(), r.content_length), ("httpd/unix-directory", Some(0)));
    let mut typed = item("f", false);
    typed.mime_type = "text/csv".into();
    assert_eq!(head(Ok(typed)).content_type, "text/csv");
    assert_eq!(head(Err("not found".into())).status, 404);
    assert_eq!(head(Err("x".into())).status, 502);
}

#[test]
fn put_mkcol_delete_move() {
    assert!(matches!(put(b"x", PutStep::Start), PutAction::Store));
    let big = vec![0u8; MAX_UPLOAD_BYTES as usize + 1];
    match put(&big, PutStep::Start) {
        PutAction::Respond(r) => {
            assert_eq!(r.status, 413);
            assert_eq!(
                text(&r),
                "file is 67108865 bytes; this build only supports uploads up to 67108864 bytes"
            );
        }
        PutAction::Store => panic!("expected a refusal"),
    }
    let status = |a| match a {
        PutAction::Respond(r) => r.status,
        PutAction::Store => panic!("expected a response"),
    };
    assert_eq!(status(put(b"x", PutStep::Stored(Ok(())))), 201);
    assert_eq!(status(put(b"x", PutStep::Stored(Err("e".into())))), 502);
    match mkcol("/a/b/", MkcolStep::Start) {
        MkcolAction::Create { parent, name } => {
            assert_eq!((parent.as_str(), name.as_str()), ("/a", "b"))
        }
        MkcolAction::Respond(_) => panic!("expected a call"),
    }
    match mkcol("/b", MkcolStep::Start) {
        MkcolAction::Create { parent, name } => {
            assert_eq!((parent.as_str(), name.as_str()), ("", "b"))
        }
        MkcolAction::Respond(_) => panic!("expected a call"),
    }
    let status = |a| match a {
        MkcolAction::Respond(r) => r.status,
        _ => panic!("expected a response"),
    };
    assert_eq!(status(mkcol("/b", MkcolStep::Created(Ok(())))), 201);
    assert_eq!(status(mkcol("/b", MkcolStep::Created(Err("e".into())))), 502);
    assert_eq!(delete(Ok(())).status, 204);
    assert_eq!(delete(Err("e".into())).status, 502);
    assert_eq!(move_to(Ok(())).status, 201);
    assert_eq!(move_to(Err("e".into())).status, 502);
}

#[test]
fn locks_are_always_granted() {
    let r = lock("/a b");
    assert_eq!(r.status, 200);
    assert_eq!(
        r.headers,
        vec![("lock-token", "<opaquelocktoken:/a%20b>".to_string())]
    );
    assert!(text(&r).contains(
        "<D:locktoken><D:href>opaquelocktoken:/a%20b</D:href></D:locktoken>\n      <D:lockroot><D:href>/a%20b</D:href></D:lockroot>"
    ));
    assert_eq!(unlock().status, 204);
}

#[test]
fn fixed_responses() {
    let r = DavResponse::unauthorized();
    assert_eq!((r.status, text(&r)), (401, "unauthorized".to_string()));
    assert_eq!(
        r.headers,
        vec![("www-authenticate", "Basic realm=\"onedrive-davfs\"".to_string())]
    );
    let r = DavResponse::options();
    assert_eq!((r.status, r.headers.len()), (200, 3));
    assert_eq!(r.headers[1], ("dav", "1, 2".to_string()));
}

#[test]
fn base64_is_decoded() {
    assert_eq!(base64_decode("aGVsbG8=").unwrap(), b"hello");
    assert_eq!(base64_decode("aGVs\nbG8").unwrap(), b"hello");
    assert_eq!(base64_decode("+/+/").unwrap(), vec![0xfb, 0xff, 0xbf]);
    assert_eq!(base64_decode("").unwrap(), Vec::<u8>::new());
    assert_eq!(base64_decode("Q").unwrap(), vec![64]);
    assert_eq!(base64_decode("a*b"), None);
    assert_eq!(base64_decode("a-b_"), None);
}

fn config(secret: Option<&str>) -> Config {
    Config {
        client_id: None,
        tenant_id: "common".into(),
        drive_base: "me/drive".into(),
        basic_auth_secret: secret.map(|s| s.to_string()),
        state_dir: 0,
    }
}

#[test]
fn only_the_secret_passes() {
    let c = config(Some("pass:word"));
    let check = |raw: Option<&str>| check_basic_auth(&c, raw.map(|s| s.to_string()));
    // "me:pass:word"
    assert!(check(Some("Basic bWU6cGFzczp3b3Jk")));
    // ":pass:word"
    assert!(check(Some("Basic OnBhc3M6d29yZA==")));
    // "me:word"
    assert!(!check(Some("Basic bWU6d29yZA==")));
    // "pass:word" has the user "pass"
    assert!(!check(Some("Basic cGFzczp3b3Jk")));
    // "me"
    assert!(!check(Some("Basic bWU=")));
    assert!(!check(Some("basic bWU6cGFzczp3b3Jk")));
    assert!(!check(Some("Basic *")));
    // not UTF-8
    assert!(!check(Some("Basic /zo=")));
    assert!(!check(None));
    assert!(check_basic_auth(&config(None), None));
}

#[test]
fn destinations() {
    assert_eq!(destination_path("https://host/OneDrive/foo"), "/OneDrive/foo");
    assert_eq!(destination_path("/OneDrive/foo"), "/OneDrive/foo");
    assert_eq!(destination_path("http://host"), "");
    assert_eq!(destination_path("http://h/a://b/c"), "/a://b/c");
    assert_eq!(destination_path("/a://b/c"), "/a://b/c");
    assert_eq!(destination_path("/a%20b"), "/a%20b");
    assert_eq!(destination_path("a:/b"), "a:/b");
    assert_eq!(destination_path(""), "");
}

#[test]
fn first_header_values() {
    assert_eq!(header_value(&vec![b"a".to_vec(), b"b".to_vec()]).as_deref(), Some("a"));
    assert_eq!(header_value(&vec![vec![0xff]]).as_deref(), Some("\u{fffd}"));
    assert_eq!(header_value(&vec![]), None);
}

fn headers(auth: Option<&str>, depth: Option<&str>, dest: Option<&str>) -> RequestHeaders {
    let v = |o: Option<&str>| o.map(|s| s.as_bytes().to_vec()).into_iter().collect();
    RequestHeaders { authorization: v(auth), depth: v(depth), destination: v(dest) }
}

#[test]
fn requests_are_routed() {
    let c = Ok(config(None));
    let none = headers(None, None, None);
    let other = |m: &str| Method::Other(m.to_string());
    let go = |m: Method, h: &RequestHeaders| handle_request(&c, &m, Some("/p?q=1"), h);
    assert!(matches!(go(Method::Get, &none), Route::Get { path } if path == "/p"));
    assert!(matches!(go(Method::Put, &none), Route::Put { path } if path == "/p"));
    assert!(matches!(go(Method::Delete, &none), Route::Delete { path } if path == "/p"));
    assert!(matches!(go(other("MKCOL"), &none), Route::Mkcol { path } if path == "/p"));
    assert!(
        matches!(go(other("PROPFIND"), &headers(None, Some("1"), None)), Route::Propfind { path, depth } if path == "/p" && depth.as_deref() == Some("1"))
    );
    assert!(
        matches!(go(other("MOVE"), &headers(None, None, Some("http://h/x"))), Route::Move { path, destination } if path == "/p" && destination == "/x")
    );
    let answer = |m: Method| match go(m, &none) {
        Route::Respond(r) => (r.status, text(&r)),
        _ => panic!("expected a response"),
    };
    assert_eq!(answer(other("MOVE")), (400, "missing Destination header".to_string()));
    assert_eq!(answer(other("LOCK")).0, 200);
    assert_eq!(answer(other("UNLOCK")).0, 204);
    assert_eq!(answer(other("COPY")), (405, "unsupported method: COPY".to_string()));
    assert_eq!(answer(Method::Head), (405, "unsupported method: Method::Head".to_string()));
    assert_eq!(answer(Method::Options).0, 405);
    assert!(matches!(handle_request(&c, &Method::Get, None, &none), Route::Get { path } if path.is_empty()));
}

#[test]
fn paths_are_decoded() {
    let c = Ok(config(None));
    let other = |m: &str| Method::Other(m.to_string());
    let go = |m: Method, target: &str, dest: Option<&str>| {
        handle_request(&c, &m, Some(target), &headers(None, None, dest))
    };
    assert!(matches!(
        go(other("MOVE"), "/x%C3%A9", Some("http://127.0.0.1:8765/a%20b")),
        Route::Move { path, destination } if path == "/xé" && destination == "/a b"
    ));
    assert!(matches!(
        go(other("MOVE"), "/x", Some("/a://b%2Fc")),
        Route::Move { destination, .. } if destination == "/a://b/c"
    ));
    assert!(matches!(
        go(other("MOVE"), "/x", Some("http://h/100%")),
        Route::Move { destination, .. } if destination == "/100%"
    ));
    assert!(matches!(go(Method::Get, "/a%20b?q=%20", None), Route::Get { path } if path == "/a b"));
    match go(other("LOCK"), "/a%20b", None) {
        Route::Respond(r) => {
            assert_eq!(r.headers[0].1, "<opaquelocktoken:/a%20b>");
        }
        _ => panic!("expected a response"),
    }
}

#[test]
fn requests_need_configuration_and_credentials() {
    let none = headers(None, None, None);
    let status = |r| match r {
        Route::Respond(r) => (r.status, text(&r)),
        _ => panic!("expected a response"),
    };
    let broken: Result<Config, String> = Err("bad".into());
    assert_eq!(
        status(handle_request(&broken, &Method::Get, Some("/"), &none)),
        (500, "config error: bad".to_string())
    );
    let locked = Ok(config(Some("secret-secret-secret")));
    assert_eq!(
        status(handle_request(&locked, &Method::Get, Some("/"), &none)),
        (401, "unauthorized".to_string())
    );
    assert_eq!(put_unreadable("e".into()).status, 400);
}

#[test]
fn nothing_is_served_without_a_secret() {
    let dirs = vec!["/state".to_string()];
    let none = headers(None, None, None);
    let secret = "ONEDRIVE_BASIC_AUTH_SECRET".to_string();
    let opt_out = "ONEDRIVE_ALLOW_UNAUTHENTICATED".to_string();
    for (vars, status) in [
        (vec![], 500),
        (vec![(secret.clone(), "changeme".to_string())], 500),
        (vec![(secret, "k9F2mQ7vX1pL4zR8wB3n".to_string())], 401),
    ] {
        let config = Config::load(&vars, &dirs);
        for method in [Method::Get, Method::Put, Method::Other("PROPFIND".to_string())] {
            match handle_request(&config, &method, Some("/x"), &none) {
                Route::Respond(r) => assert_eq!(r.status, status),
                _ => panic!("expected a refusal"),
            }
        }
    }
    let open = Config::load(&vec![(opt_out, "1".to_string())], &dirs);
    assert!(matches!(
        handle_request(&open, &Method::Get, Some("/x"), &none),
        Route::Get { path } if path == "/x"
    ));
}

#[test]
fn response_heads() {
    let pairs = |r: &DavResponse| -> Vec<(String, String)> { respond(r) };
    let r = lock("/x");
    let h = pairs(&r);
    assert_eq!(h[0], ("content-type".to_string(), "application/xml; charset=utf-8".to_string()));
    assert_eq!(h[1], ("content-length".to_string(), r.body.len().to_string()));
    assert_eq!(h.len(), 2);
    let h = pairs(&head(Ok(item("f", false))));
    assert_eq!(h[1].1, "3");
}
