use onedrive_davfs::auth::{
    bearer_token, save_error, urlencode, TokenAction, TokenFile, TokenResponse, TokenStep,
};
use onedrive_davfs::config::{validate_basic_auth_secret, Config, MIN_BASIC_AUTH_SECRET_LEN};
use onedrive_davfs::http_client::{
    await_response, read_body, send, send_error, split_url, BodyAction, BodyEvent, BodyKind,
    HttpRequest, HttpResponse, Method, Pending, PendingAction, SendOp,
};
use onedrive_davfs::state_file::{
    read_at, read_file, rename, write_atomic, write_file, AtomicAction, AtomicStep, FileRead,
    ReadAction, ReadEvent, WriteAction, WriteEvent,
};

#[test]
fn header_value_is_case_insensitive() {
    let response = HttpResponse {
        status: 302,
        headers: vec![("Location".to_string(), b"https://example.test/file".to_vec())],
        body: Vec::new(),
    };

    assert_eq!(
        response.header_value("location").as_deref(),
        Some("https://example.test/file")
    );
}

#[test]
fn header_value_takes_the_first_and_replaces_bad_bytes() {
    let response = HttpResponse {
        status: 200,
        headers: vec![
            ("x".to_string(), b"\xff".to_vec()),
            ("X".to_string(), b"second".to_vec()),
        ],
        body: Vec::new(),
    };
    assert_eq!(response.header_value("X").as_deref(), Some("\u{fffd}"));
    assert_eq!(response.header_value("y"), None);
}

#[test]
fn urls_are_split() {
    assert_eq!(
        split_url("https://h:1/p?q").unwrap(),
        ("h:1".to_string(), "/p?q".to_string())
    );
    assert_eq!(split_url("https://h").unwrap(), ("h".to_string(), "/".to_string()));
    assert_eq!(
        split_url("http://h/").unwrap_err(),
        "only https:// URLs are supported, got: http://h/"
    );
}

#[test]
fn a_request_becomes_host_calls() {
    let req = HttpRequest {
        method: Method::Put,
        url: "https://h/p".into(),
        headers: vec![("a".into(), "b".into())],
        body: vec![7],
    };
    let ops = send(req).unwrap();
    assert_eq!(ops.len(), 10);
    assert!(matches!(&ops[0], SendOp::AppendHeader { name, value } if name == "a" && value == "b"));
    assert!(matches!(&ops[1], SendOp::SetMethod(Method::Put)));
    assert!(matches!(&ops[2], SendOp::SetScheme));
    assert!(matches!(&ops[3], SendOp::SetAuthority(a) if a == "h"));
    assert!(matches!(&ops[4], SendOp::SetPath(p) if p == "/p"));
    assert!(matches!(&ops[5], SendOp::TakeBody));
    assert!(matches!(&ops[6], SendOp::OpenStream));
    assert!(matches!(&ops[7], SendOp::WriteBody(b) if b == &vec![7]));
    assert!(matches!(&ops[8], SendOp::FinishBody));
    assert!(matches!(&ops[9], SendOp::Dispatch));
    let errors: Vec<String> = ops.iter().map(|op| send_error(op, "E")).collect();
    assert_eq!(
        errors,
        vec![
            "invalid header a: E",
            "invalid HTTP method",
            "failed to set scheme",
            "failed to set authority",
            "failed to set path",
            "request body already taken",
            "failed to open request body stream",
            "failed writing request body: E",
            "failed finishing request body: E",
            "failed to send request: E"
        ]
    );
    let plain = HttpRequest {
        method: Method::Get,
        url: "https://h".into(),
        headers: vec![],
        body: vec![],
    };
    assert_eq!(send(plain).unwrap().len(), 5);
    let insecure = HttpRequest {
        method: Method::Get,
        url: "ftp://h".into(),
        headers: vec![],
        body: vec![],
    };
    assert!(send(insecure).is_err());
}

#[test]
fn pending_responses() {
    assert!(matches!(await_response(Pending::NotReady), PendingAction::Poll));
    assert!(matches!(await_response(Pending::Ready), PendingAction::ReadBody));
    assert!(
        matches!(await_response(Pending::Consumed), PendingAction::Fail(e) if e == "response already consumed")
    );
    assert!(
        matches!(await_response(Pending::Failed("x".into())), PendingAction::Fail(e) if e == "transport error: x")
    );
}

#[test]
fn bodies_are_collected_in_order() {
    let mut buf = vec![];
    assert!(matches!(
        read_body(BodyKind::Response, &mut buf, BodyEvent::Chunk(vec![1, 2])),
        BodyAction::Read
    ));
    assert!(matches!(
        read_body(BodyKind::Response, &mut buf, BodyEvent::Chunk(vec![])),
        BodyAction::Poll
    ));
    assert!(matches!(
        read_body(BodyKind::Response, &mut buf, BodyEvent::Chunk(vec![3])),
        BodyAction::Read
    ));
    match read_body(BodyKind::Response, &mut buf, BodyEvent::Closed) {
        BodyAction::Done(r) => assert_eq!(r.unwrap(), vec![1, 2, 3]),
        _ => panic!("expected the end"),
    }
    assert!(buf.is_empty());
}

#[test]
fn bodies_that_cannot_be_read() {
    let mut buf = vec![9];
    let mut fail = |kind, event| match read_body(kind, &mut buf, event) {
        BodyAction::Done(r) => r.unwrap_err(),
        _ => panic!("expected the end"),
    };
    let failed = || BodyEvent::Failed("e".into());
    assert_eq!(fail(BodyKind::Request, failed()), "error reading request body: e");
    assert_eq!(fail(BodyKind::Response, failed()), "error reading response body: e");
    assert_eq!(fail(BodyKind::Request, BodyEvent::NotTaken), "failed to consume request body");
    assert_eq!(fail(BodyKind::Response, BodyEvent::NotTaken), "failed to consume response body");
    assert_eq!(
        fail(BodyKind::Request, BodyEvent::NotOpened),
        "failed to open request body stream"
    );
    assert_eq!(
        fail(BodyKind::Response, BodyEvent::NotOpened),
        "failed to open response body stream"
    );
    assert_eq!(buf, vec![9]);
}

fn drive(read: &mut FileRead, file: &[u8], most: usize) -> Vec<u8> {
    let mut action = read.step("n", ReadEvent::Opened);
    loop {
        match action {
            ReadAction::Done(r) => return r.unwrap().unwrap(),
            ReadAction::Read { len, offset } => {
                let a = (offset as usize).min(file.len());
                let b = (a + (len as usize).min(most)).min(file.len());
                action = read.step(
                    "n",
                    ReadEvent::Chunk { bytes: file[a..b].to_vec(), eof: b == file.len() },
                );
            }
        }
    }
}

#[test]
fn files_are_read_whole_or_in_part() {
    let file: Vec<u8> = (0..200_000u32).map(|i| (i % 256) as u8).collect();
    for most in [1_000, 65_536, 1_000_000] {
        assert_eq!(drive(&mut read_file(), &file, most), file);
        assert_eq!(drive(&mut read_at(10, 70_000), &file, most), file[10..70_010]);
        assert_eq!(drive(&mut read_at(199_990, 70_000), &file, most), file[199_990..]);
        assert_eq!(drive(&mut read_at(300_000, 5), &file, most), Vec::<u8>::new());
        assert_eq!(drive(&mut read_at(3, 0), &file, most), Vec::<u8>::new());
    }
    assert!(matches!(
        read_file().step("n", ReadEvent::NotOpened),
        ReadAction::Done(Ok(None))
    ));
    assert!(
        matches!(read_file().step("n", ReadEvent::Failed("e".into())), ReadAction::Done(Err(e)) if e == "failed reading n: e")
    );
    assert!(
        matches!(read_at(7, 9).step("n", ReadEvent::Failed("e".into())), ReadAction::Done(Err(e)) if e == "failed reading n at 7: e")
    );
}

#[test]
fn files_are_written_piece_by_piece() {
    let data = [1u8, 2, 3, 4];
    assert!(matches!(
        write_file("n", &data, 0, WriteEvent::Opened),
        WriteAction::Write { from: 0 }
    ));
    assert!(matches!(
        write_file("n", &data, 0, WriteEvent::Written(3)),
        WriteAction::Write { from: 3 }
    ));
    assert!(matches!(
        write_file("n", &data, 3, WriteEvent::Written(1)),
        WriteAction::Done(Ok(()))
    ));
    assert!(matches!(
        write_file("n", &[], 0, WriteEvent::Opened),
        WriteAction::Done(Ok(()))
    ));
    let fail = |event| match write_file("n", &data, 0, event) {
        WriteAction::Done(Err(e)) => e,
        _ => panic!("expected an error"),
    };
    assert_eq!(fail(WriteEvent::Written(0)), "short write to n");
    assert_eq!(fail(WriteEvent::NotOpened("e".into())), "failed opening n for write: e");
    assert_eq!(fail(WriteEvent::Failed("e".into())), "failed writing n: e");
}

#[test]
fn a_file_that_takes_little_at_a_time_gets_everything() {
    let contents: Vec<u8> = (0..100).collect();
    for most in [1, 7, 100, 1000] {
        let mut file: Vec<u8> = vec![];
        let mut done = 0;
        let mut event = WriteEvent::Opened;
        loop {
            match write_file("n", &contents, done, event) {
                WriteAction::Done(r) => {
                    assert!(r.is_ok());
                    break;
                }
                WriteAction::Write { from } => {
                    assert_eq!(from, file.len() as u64);
                    let rest = &contents[from as usize..];
                    let n = rest.len().min(most);
                    file.extend_from_slice(&rest[..n]);
                    done = from;
                    event = WriteEvent::Written(n as u64);
                }
            }
        }
        assert_eq!(file, contents);
    }
}

#[test]
fn readers_see_old_or_new_contents() {
    // The number of the action that fails; none for the last.
    for failing in 0..4 {
        let mut files = vec![("n".to_string(), "old".to_string())];
        let find = |files: &Vec<(String, String)>, name: &str| {
            files.iter().find(|f| f.0 == name).map(|f| f.1.clone())
        };
        let mut step = AtomicStep::Start;
        for i in 0.. {
            let outcome = if i == failing { Err("e".to_string()) } else { Ok(()) };
            step = match write_atomic("n", step) {
                AtomicAction::Write { file } => {
                    let text = if outcome.is_ok() { "new contents" } else { "new c" };
                    files.push((file, text.to_string()));
                    AtomicStep::Written(outcome)
                }
                AtomicAction::Rename { from, to } => {
                    if outcome.is_ok() {
                        files.retain(|f| f.0 != to);
                        for f in files.iter_mut() {
                            if f.0 == from {
                                f.0 = to.clone();
                            }
                        }
                    }
                    AtomicStep::Renamed(outcome)
                }
                AtomicAction::Unlink { file, error } => {
                    files.retain(|f| f.0 != file);
                    AtomicStep::Unlinked { error }
                }
                AtomicAction::Done(r) => {
                    let want = if r.is_ok() { "new contents" } else { "old" };
                    assert_eq!(find(&files, "n").as_deref(), Some(want));
                    assert_eq!(r.is_ok(), failing > 1);
                    if r.is_ok() {
                        assert_eq!(find(&files, "n.tmp"), None);
                    }
                    break;
                }
            };
            let seen = find(&files, "n");
            assert!(seen.as_deref() == Some("old") || seen.as_deref() == Some("new contents"));
        }
    }
}

#[test]
fn atomic_writes_rename_a_complete_file() {
    assert!(
        matches!(write_atomic("n", AtomicStep::Start), AtomicAction::Write { file } if file == "n.tmp")
    );
    assert!(
        matches!(write_atomic("n", AtomicStep::Written(Ok(()))), AtomicAction::Rename { from, to } if from == "n.tmp" && to == "n")
    );
    assert!(
        matches!(write_atomic("n", AtomicStep::Written(Err("e".into()))), AtomicAction::Done(Err(e)) if e == "e")
    );
    assert!(matches!(
        write_atomic("n", AtomicStep::Renamed(Ok(()))),
        AtomicAction::Done(Ok(()))
    ));
    match write_atomic("n", AtomicStep::Renamed(Err("e".into()))) {
        AtomicAction::Unlink { file, error } => {
            assert_eq!(file, "n.tmp");
            assert_eq!(error, "failed renaming n.tmp -> n: e");
            assert!(
                matches!(write_atomic("n", AtomicStep::Unlinked { error }), AtomicAction::Done(Err(e)) if e == "failed renaming n.tmp -> n: e")
            );
        }
        _ => panic!("expected an unlink"),
    }
    assert!(rename("a", "b", Ok(())).is_ok());
    assert_eq!(rename("a", "b", Err("e".into())).unwrap_err(), "failed renaming a -> b: e");
}

#[test]
fn missing_secret_is_rejected_unless_opted_out() {
    assert!(validate_basic_auth_secret(None, false).is_err());
    assert_eq!(validate_basic_auth_secret(None, true).unwrap(), None);
}

#[test]
fn placeholder_and_short_secrets_are_rejected() {
    assert!(validate_basic_auth_secret(Some("REPLACE_ME".into()), false).is_err());
    assert!(validate_basic_auth_secret(Some("replace_me".into()), false).is_err());
    assert!(validate_basic_auth_secret(Some("short".into()), false).is_err());
    assert!(validate_basic_auth_secret(Some("short".into()), true).is_err());
}

#[test]
fn strong_secret_is_accepted() {
    let s = "k9F2mQ7vX1pL4zR8wB3n";
    assert_eq!(
        validate_basic_auth_secret(Some(s.into()), false).unwrap(),
        Some(s.to_string())
    );
}

#[test]
fn the_secret_is_measured_in_bytes() {
    assert!(validate_basic_auth_secret(Some("é".repeat(8)), false).is_ok());
    assert_eq!(
        validate_basic_auth_secret(Some("é".repeat(7)), false).unwrap_err(),
        "ONEDRIVE_BASIC_AUTH_SECRET is too short (need at least 16 characters)"
    );
    assert_eq!(MIN_BASIC_AUTH_SECRET_LEN, 16);
}

fn vars(pairs: &[(&str, &str)]) -> Vec<(String, String)> {
    pairs.iter().map(|(k, v)| (k.to_string(), v.to_string())).collect()
}

#[test]
fn configuration_from_the_environment() {
    let dirs = vec!["/other".to_string(), "/state".to_string()];
    let env = vars(&[
        ("ONEDRIVE_BASIC_AUTH_SECRET", "k9F2mQ7vX1pL4zR8wB3n"),
        ("ONEDRIVE_CLIENT_ID", "id"),
        ("ONEDRIVE_CLIENT_ID", "later"),
    ]);
    let c = Config::load(&env, &dirs).unwrap();
    assert_eq!(c.client_id.as_deref(), Some("id"));
    assert_eq!(c.tenant_id, "common");
    assert_eq!(c.drive_base, "me/drive");
    assert_eq!(c.state_dir, 1);
    assert_eq!(
        Config::load(&env, &vec!["/x".to_string()]).unwrap_err(),
        "no /state preopen found; run wasmtime with --dir <state-dir>::/state"
    );
    let open = vars(&[
        ("ONEDRIVE_ALLOW_UNAUTHENTICATED", "1"),
        ("ONEDRIVE_TENANT_ID", "t"),
        ("ONEDRIVE_DRIVE_BASE", "D"),
    ]);
    let c = Config::load(&open, &dirs).unwrap();
    assert_eq!(c.basic_auth_secret, None);
    assert_eq!(c.tenant_id, "t");
    assert_eq!(c.drive_base, "D");
    let almost = vars(&[("ONEDRIVE_ALLOW_UNAUTHENTICATED", "yes")]);
    assert!(Config::load(&almost, &dirs).is_err());
}

fn config(client_id: Option<&str>) -> Config {
    Config {
        client_id: client_id.map(|s| s.to_string()),
        tenant_id: "tn".into(),
        drive_base: "me/drive".into(),
        basic_auth_secret: None,
        state_dir: 0,
    }
}

fn token(access: Option<&str>, expires_at: u64) -> TokenFile {
    TokenFile {
        refresh_token: "r t".into(),
        access_token: access.map(|s| s.to_string()),
        expires_at,
    }
}

#[test]
fn forms_are_encoded() {
    assert_eq!(urlencode("a b/c~é"), "a+b%2Fc~%C3%A9");
}

#[test]
fn a_valid_token_is_used() {
    let c = config(None);
    assert!(matches!(bearer_token(&c, TokenStep::Start), TokenAction::Read));
    assert!(
        matches!(bearer_token(&c, TokenStep::Read(Ok(Some(vec![1])))), TokenAction::Parse(b) if b == vec![1])
    );
    let loaded = TokenStep::Loaded { token: Ok(token(Some("at"), 100)), now: 99 };
    assert!(matches!(bearer_token(&c, loaded), TokenAction::Done(Ok(b)) if b == "Bearer at"));
}

#[test]
fn an_expired_token_is_refreshed() {
    let c = config(Some("c id"));
    let loaded = TokenStep::Loaded { token: Ok(token(Some("at"), 100)), now: 100 };
    match bearer_token(&c, loaded) {
        TokenAction::Send { refresh_token, request } => {
            assert_eq!(refresh_token, "r t");
            assert_eq!(request.url, "https://login.microsoftonline.com/tn/oauth2/v2.0/token");
            assert_eq!(
                String::from_utf8(request.body).unwrap(),
                "client_id=c+id&grant_type=refresh_token&refresh_token=r+t&scope=offline_access+Files.ReadWrite.All+User.Read"
            );
        }
        _ => panic!("expected a request"),
    }
    let replied = TokenStep::Replied {
        refresh_token: "r t".into(),
        reply: Ok(HttpResponse { status: 200, headers: vec![], body: vec![5] }),
    };
    assert!(
        matches!(bearer_token(&c, replied), TokenAction::ParseAnswer { refresh_token, body } if refresh_token == "r t" && body == vec![5])
    );
    let answered = |refresh: Option<&str>, expires_in| TokenStep::Answered {
        refresh_token: "r t".into(),
        answer: Ok(TokenResponse {
            access_token: "new".into(),
            refresh_token: refresh.map(|s| s.to_string()),
            expires_in,
        }),
        now: 1000,
    };
    match bearer_token(&c, answered(None, 3600)) {
        TokenAction::Save { token_file, access_token } => {
            assert_eq!(token_file.refresh_token, "r t");
            assert_eq!(token_file.access_token.as_deref(), Some("new"));
            assert_eq!(token_file.expires_at, 4540);
            assert_eq!(access_token, "new");
        }
        _ => panic!("expected a save"),
    }
    match bearer_token(&c, answered(Some("r2"), 30)) {
        TokenAction::Save { token_file, .. } => {
            assert_eq!(token_file.refresh_token, "r2");
            assert_eq!(token_file.expires_at, 1000);
        }
        _ => panic!("expected a save"),
    }
    let saved = TokenStep::Saved { access_token: "new".into(), outcome: Ok(()) };
    assert!(matches!(bearer_token(&c, saved), TokenAction::Done(Ok(b)) if b == "Bearer new"));
}

#[test]
fn token_errors() {
    let fail = |c: &Config, step| match bearer_token(c, step) {
        TokenAction::Done(Err(e)) => e,
        _ => panic!("expected an error"),
    };
    let c = config(Some("id"));
    assert_eq!(
        fail(&c, TokenStep::Read(Ok(None))),
        "no token.json found in state dir; run tools/device-code-login.sh first"
    );
    assert_eq!(fail(&c, TokenStep::Read(Err("io".into()))), "io");
    assert_eq!(
        fail(&c, TokenStep::Loaded { token: Err("eof".into()), now: 0 }),
        "failed to parse token.json: eof"
    );
    assert_eq!(
        fail(&config(None), TokenStep::Loaded { token: Ok(token(None, 100)), now: 0 }),
        "missing required env var ONEDRIVE_CLIENT_ID for token refresh"
    );
    assert_eq!(
        fail(
            &c,
            TokenStep::Replied {
                refresh_token: "r".into(),
                reply: Ok(HttpResponse { status: 400, headers: vec![], body: b"bad".to_vec() })
            }
        ),
        "token refresh failed with status 400: bad"
    );
    assert_eq!(
        fail(&c, TokenStep::Replied { refresh_token: "r".into(), reply: Err("net".into()) }),
        "net"
    );
    assert_eq!(
        fail(
            &c,
            TokenStep::Answered { refresh_token: "r".into(), answer: Err("eof".into()), now: 0 }
        ),
        "failed to parse token response: eof"
    );
    assert_eq!(
        fail(&c, TokenStep::Saved { access_token: "x".into(), outcome: Err("full".into()) }),
        "full"
    );
    assert_eq!(save_error("x"), "failed to serialize token.json: x");
}
