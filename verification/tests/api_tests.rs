use onedrive_davfs::api::{
    graph_tree, join_child_path, lookup_to_tree, query_param, search, search_index, status, tree,
    TreeAction, TreeStep, SEARCH_MAX_RESULTS,
};
use onedrive_davfs::dav::DavResponse;
use onedrive_davfs::format::ChildInfo;
use onedrive_davfs::graph::GraphItem;
use onedrive_davfs::index::{DeltaItem, Index, ItemMeta};
use onedrive_davfs::snapshot::{Lookup, SnapshotMeta};
use onedrive_davfs::sync::{
    begin, run, run_inner, DeltaError, DeltaPage, RunAction, RunStep, SnapshotStats, Sync,
    SyncAction, SyncEvent, SyncLimits,
};
use onedrive_davfs::sync_stats::{load, SyncStats};
use serde_json::Value;

#[test]
fn query_param_reads_path() {
    assert_eq!(query_param(Some("path=/Documents"), "path").as_deref(), Some("/Documents"));
    assert_eq!(query_param(Some("path=%2FDocs%20A"), "path").as_deref(), Some("/Docs A"));
    assert_eq!(query_param(Some("foo=1"), "path"), None);
    assert_eq!(query_param(None, "path"), None);
}

#[test]
fn query_param_takes_the_first_and_keeps_malformed_values() {
    assert_eq!(query_param(Some("&a&q=1&q=2"), "q").as_deref(), Some("1"));
    assert_eq!(query_param(Some("q=100%"), "q").as_deref(), Some("100%"));
    assert_eq!(query_param(Some("q=a=b"), "q").as_deref(), Some("a=b"));
    assert_eq!(query_param(Some("q="), "q").as_deref(), Some(""));
}

#[test]
fn join_child_path_normalizes_root() {
    assert_eq!(join_child_path("/", "a"), "/a");
    assert_eq!(join_child_path("/Docs", "a.txt"), "/Docs/a.txt");
}

fn item(id: &str, parent: &str, name: &str, is_dir: bool) -> DeltaItem {
    DeltaItem {
        id: id.to_string(),
        parent_id: Some(parent.to_string()),
        name: name.to_string(),
        deleted: false,
        is_root: false,
        meta: ItemMeta {
            is_dir,
            size: if is_dir { 0 } else { 42 },
            mtime: 1234,
            etag: "etag".to_string(),
        },
    }
}

fn root(id: &str) -> DeltaItem {
    DeltaItem {
        id: id.to_string(),
        parent_id: None,
        name: String::new(),
        deleted: false,
        is_root: true,
        meta: ItemMeta { is_dir: true, size: 0, mtime: 0, etag: String::new() },
    }
}

fn sample_index() -> Index {
    let mut idx = Index::default();
    idx.apply(root("r"));
    idx.apply(item("docs", "r", "Documents", true));
    idx.apply(item("f1", "docs", "Report.docx", false));
    idx.apply(item("f2", "r", "report-summary.txt", false));
    idx.apply(item("f3", "r", "other.txt", false));
    idx
}

#[test]
fn search_index_requires_min_query_length() {
    let idx = sample_index();
    let out = search_index(&idx, "r");
    assert_eq!(out["ready"], Value::from(true));
    assert_eq!(out["results"], Value::Array(vec![]));
}

#[test]
fn search_index_is_case_insensitive_substring_over_files_and_folders() {
    let idx = sample_index();
    let out = search_index(&idx, "REPORT");
    let results = out["results"].as_array().unwrap();
    let names: Vec<&str> = results.iter().map(|r| r["name"].as_str().unwrap()).collect();
    assert!(names.contains(&"Report.docx"));
    assert!(names.contains(&"report-summary.txt"));
    assert!(!names.contains(&"other.txt"));
}

#[test]
fn search_index_derives_correct_paths_via_parent_walk() {
    let idx = sample_index();
    let out = search_index(&idx, "Report.docx");
    let results = out["results"].as_array().unwrap();
    assert_eq!(results.len(), 1);
    assert_eq!(results[0]["path"], Value::from("/Documents/Report.docx"));
    assert_eq!(results[0]["isDir"], Value::from(false));
}

#[test]
fn search_index_sorts_directories_first_then_by_path() {
    let idx = sample_index();
    let out = search_index(&idx, "do");
    let results = out["results"].as_array().unwrap();
    // "Documents" (dir) should sort before any file matches.
    assert_eq!(results[0]["isDir"], Value::from(true));
}

#[test]
fn search_index_truncates_and_flags_when_over_cap() {
    let mut idx = Index::default();
    idx.apply(root("r"));
    for i in 0..(SEARCH_MAX_RESULTS + 5) {
        idx.apply(item(&format!("f{i}"), "r", &format!("match-{i}.txt"), false));
    }
    let out = search_index(&idx, "match");
    assert_eq!(out["truncated"], Value::from(true));
    assert_eq!(out["results"].as_array().unwrap().len(), SEARCH_MAX_RESULTS);
}

#[test]
fn search_index_not_truncated_when_under_cap() {
    let idx = sample_index();
    let out = search_index(&idx, "report");
    assert_eq!(out["truncated"], Value::from(false));
}

#[test]
fn search_results_are_ordered_and_complete() {
    let mut idx = Index::default();
    idx.apply(root("r"));
    idx.apply(item("1", "r", "xx-b", false));
    idx.apply(item("2", "r", "xx-a", false));
    idx.apply(item("3", "r", "xx-z", true));
    idx.apply(item("4", "3", "xx-c", true));
    idx.apply(item("5", "lost", "xx-lost", false));
    let out = search_index(&idx, "XX");
    let paths: Vec<&str> = out["results"]
        .as_array()
        .unwrap()
        .iter()
        .map(|r| r["path"].as_str().unwrap())
        .collect();
    assert_eq!(paths, vec!["/xx-z", "/xx-z/xx-c", "/xx-a", "/xx-b"]);
    assert_eq!(out["query"], Value::from("XX"));
    assert_eq!(out["results"][2]["size"], Value::from(42u64));
    assert_eq!(out["results"][2]["mtime"], Value::from(1234u64));
}

fn parsed(r: &DavResponse) -> Value {
    assert_eq!(r.content_type, "application/json");
    serde_json::from_slice(&r.body).unwrap()
}

#[test]
fn search_needs_an_index() {
    let q = Some("q=re%70ort");
    let v = parsed(&search(true, q, Ok(Some(sample_index()))));
    assert_eq!(v["query"], Value::from("report"));
    assert_eq!(v["results"].as_array().unwrap().len(), 2);
    for r in [
        search(false, q, Ok(Some(sample_index()))),
        search(true, q, Ok(None)),
        search(true, q, Err("x".into())),
    ] {
        assert_eq!(String::from_utf8(r.body).unwrap(), "{\"ok\":true,\"ready\":false}");
    }
    let v = parsed(&search(true, None, Ok(Some(sample_index()))));
    assert_eq!(v["query"], Value::from(""));
}

fn stats(built_at: u64, total_dirs: u64) -> SnapshotStats {
    SnapshotStats {
        meta: SnapshotMeta {
            delta_token: Some("t".into()),
            pending_next_link: None,
            crawl_complete: true,
            generation: 4,
            built_at,
            root_id: None,
        },
        total_dirs,
        total_files: 9,
    }
}

fn tick() -> SyncStats {
    SyncStats {
        applied: 1,
        pages: 2,
        complete: true,
        duration_ms: 3,
        resync: false,
        items_per_sec: Value::from(1.5f64),
        at: 5,
        has_token: true,
        target: "index.bin".into(),
    }
}

#[test]
fn status_documents() {
    let r = status(false, Ok(None), Ok(None));
    assert_eq!(String::from_utf8(r.body).unwrap(), "{\"indexEnabled\":false,\"ok\":true}");
    let r = status(true, Err("bad".into()), Ok(None));
    assert_eq!(
        String::from_utf8(r.body).unwrap(),
        "{\"error\":\"bad\",\"indexEnabled\":true,\"ok\":true}"
    );
    let r = status(true, Ok(None), Err("x".into()));
    assert_eq!(
        String::from_utf8(r.body).unwrap(),
        "{\"indexEnabled\":true,\"ok\":true,\"present\":false}"
    );
    let v = parsed(&status(true, Ok(Some(stats(7, 8))), Ok(Some(tick()))));
    assert_eq!(v["present"], Value::from(true));
    assert_eq!(v["hasToken"], Value::from(true));
    assert_eq!(v["pendingNextLink"], Value::from(false));
    assert_eq!(v["generation"], Value::from(4u64));
    assert_eq!(v["builtAt"], Value::from(7u64));
    assert_eq!(v["totalDirs"], Value::from(8u64));
    assert_eq!(v["totalFiles"], Value::from(9u64));
    assert_eq!(v["lastTick"]["itemsPerSec"], Value::from(1.5f64));
    assert_eq!(v["lastTick"]["durationMs"], Value::from(3u64));
    assert_eq!(v["lastTick"]["at"], Value::from(5u64));
}

#[test]
fn last_tick_is_loaded() {
    assert!(load(Ok(None), Err("x".into())).unwrap().is_none());
    assert_eq!(load(Err("io".into()), Ok(tick())).unwrap_err(), "io");
    assert_eq!(load(Ok(Some(vec![])), Err("eof".into())).unwrap_err(), "sync_stats.json: eof");
    assert_eq!(load(Ok(Some(vec![])), Ok(tick())).unwrap().unwrap().at, 5);
}

fn child(name: &str, is_dir: bool) -> ChildInfo {
    ChildInfo {
        name: name.into(),
        is_dir,
        size: 2,
        mtime: 3,
        etag: "e".into(),
        id: "i".into(),
    }
}

fn graph_item(name: &str, is_dir: bool) -> GraphItem {
    GraphItem {
        name: name.into(),
        is_dir,
        size: 6,
        last_modified: 7,
        etag: "g".into(),
        mime_type: String::new(),
    }
}

#[test]
fn trees_show_folders_only() {
    let hit = Lookup::Dir {
        info: child("d", true),
        children: vec![child("a", true), child("f", false), child("b", true)],
    };
    let v = lookup_to_tree("d/", &hit, "index");
    assert_eq!(v["path"], Value::from("/d"));
    assert_eq!(v["name"], Value::from("d"));
    assert_eq!(v["source"], Value::from("index"));
    let kids = v["children"].as_array().unwrap();
    assert_eq!(kids.len(), 2);
    assert_eq!(kids[1]["path"], Value::from("d/b"));
    assert_eq!(kids[1]["isDir"], Value::from(true));
    let v = lookup_to_tree("/", &Lookup::Dir { info: child("x", true), children: vec![] }, "index");
    assert_eq!(v["name"], Value::from(""));
    let v = lookup_to_tree("/f", &Lookup::File(child("f", false)), "index");
    assert_eq!(v["isDir"], Value::from(false));
    assert_eq!(v["children"], Value::Array(vec![]));
    let kids = vec![graph_item("a", true), graph_item("f", false)];
    let v = graph_tree("/", &graph_item("root", true), &kids);
    assert_eq!(v["name"], Value::from(""));
    assert_eq!(v["source"], Value::from("graph"));
    assert_eq!(v["mtime"], Value::from(7u64));
    assert_eq!(v["children"].as_array().unwrap().len(), 1);
    assert_eq!(v["children"][0]["path"], Value::from("/a"));
}

#[test]
fn tree_requests() {
    let q = Some("path=%2Fd");
    assert!(matches!(tree(true, q, TreeStep::Start), TreeAction::Check(p) if p == "/d"));
    assert!(matches!(tree(true, None, TreeStep::Start), TreeAction::Check(p) if p == "/"));
    let ok = |p: &str| TreeStep::Checked(Ok(p.to_string()));
    assert!(matches!(tree(true, q, ok("/d")), TreeAction::LookUp { path } if path == "/d"));
    assert!(matches!(tree(false, q, ok("/d")), TreeAction::Stat { path } if path == "/d"));
    let answer = |step| match tree(true, q, step) {
        TreeAction::Respond(r) => r,
        _ => panic!("expected a response"),
    };
    let r = answer(TreeStep::Checked(Err("bad path".into())));
    assert_eq!((r.status, r.body), (400, b"bad path".to_vec()));
    let hit = Ok(Some(Lookup::File(child("f", false))));
    let r = answer(TreeStep::LookedUp { path: "/f".into(), hit });
    assert_eq!(parsed(&r)["source"], Value::from("index"));
    for hit in [Ok(None), Err("x".to_string())] {
        assert!(matches!(
            tree(true, q, TreeStep::LookedUp { path: "/f".into(), hit }),
            TreeAction::Stat { .. }
        ));
    }
    let found = |it| TreeStep::Item { path: "/f".into(), item: it };
    assert_eq!(answer(found(Err("not found".into()))).status, 404);
    assert_eq!(answer(found(Err("boom".into()))).status, 502);
    assert_eq!(parsed(&answer(found(Ok(graph_item("f", false)))))["size"], Value::from(6u64));
    let folder = match tree(true, q, found(Ok(graph_item("d", true)))) {
        TreeAction::List { folder, .. } => folder,
        _ => panic!("expected a listing"),
    };
    let r = answer(TreeStep::Children {
        path: "/d".into(),
        folder,
        children: Ok(vec![graph_item("s", true)]),
    });
    assert_eq!(parsed(&r)["children"][0]["path"], Value::from("/d/s"));
    let r = answer(TreeStep::Children {
        path: "/d".into(),
        folder: graph_item("d", true),
        children: Err("late".into()),
    });
    assert_eq!(r.status, 502);
}

const LIMITS: SyncLimits = SyncLimits { max_pages: 3, budget_ms: 1000 };

fn page(items: Vec<DeltaItem>, next: Option<&str>, token: Option<&str>) -> SyncEvent {
    SyncEvent::Page {
        page: Ok(DeltaPage {
            items,
            next_link: next.map(|s| s.to_string()),
            delta_token: token.map(|s| s.to_string()),
        }),
        now: 0,
    }
}

fn fresh() -> Sync {
    begin(Ok(None), Ok(None), Ok(None), "me/drive", 0).unwrap()
}

#[test]
fn a_tick_is_as_long_as_the_clock_has_run() {
    let s = begin(Ok(None), Ok(None), Ok(None), "me/drive", 40).unwrap();
    assert_eq!(s.duration_ms(42), 2);
    assert_eq!(s.duration_ms(40), 0);
    assert_eq!(s.duration_ms(39), 0);
}

#[test]
fn resync_bumps_generation_and_clears_nodes() {
    let mut idx = Index { generation: 4, crawl_complete: true, ..Index::default() };
    idx.root = Some("r".into());
    let next = Index { generation: idx.generation.saturating_add(1), ..Index::default() };
    assert_eq!(next.generation, 5);
    assert!(next.nodes.is_empty());
    assert!(next.root.is_none());

    let mut s = begin(Ok(Some(idx)), Ok(None), Ok(None), "me/drive", 0).unwrap();
    let event = SyncEvent::Page { page: Err(DeltaError::Resync), now: 0 };
    assert!(matches!(run_inner(&mut s, LIMITS, "me/drive", event), SyncAction::Reload));
    assert_eq!(s.index.generation, 5);
    assert!(s.index.nodes.is_empty());
    assert!(s.index.root.is_none());
    assert!(s.resync && s.dirty && !s.complete);
}

#[test]
fn a_crawl_from_nothing() {
    let mut s = fresh();
    let go = |s: &mut Sync, e| run_inner(s, LIMITS, "me/drive", e);
    assert!(
        matches!(go(&mut s, SyncEvent::Begun { now: 0 }), SyncAction::Fetch(u) if u == "https://graph.microsoft.com/v1.0/me/drive/root/delta")
    );
    assert!(
        matches!(go(&mut s, page(vec![root("r"), item("a", "r", "a", true)], Some("next"), None)), SyncAction::Fetch(u) if u == "next")
    );
    assert_eq!(s.index.pending_next_link.as_deref(), Some("next"));
    let last = page(vec![item("x", "lost", "x", false)], None, Some("tok"));
    assert!(matches!(go(&mut s, last), SyncAction::Save { file } if file == "index.bin"));
    assert!(s.complete && s.index.crawl_complete);
    assert!(s.index.nodes.get("x").is_none());
    assert_eq!(s.index.delta_token.as_deref(), Some("tok"));
    assert!(matches!(go(&mut s, SyncEvent::Saved(Ok(()))), SyncAction::Measure));
    let measured =
        SyncEvent::Measured { now: 2, items_per_sec: Value::from(0.5f64), at: 9 };
    match go(&mut s, measured) {
        SyncAction::Done(Ok(r)) => {
            assert_eq!(
                r.report.to_string(),
                "{\"applied\":3,\"complete\":true,\"duration_ms\":2,\"has_token\":true,\"items_per_sec\":0.5,\"pages\":2,\"resync\":false,\"target\":\"index.bin\"}"
            );
            assert_eq!((r.stats.applied, r.stats.pages, r.stats.at), (3, 2, 9));
            assert_eq!(r.stats.items_per_sec, Value::from(0.5f64));
            assert_eq!(r.stats.target, "index.bin");
        }
        _ => panic!("expected the report"),
    }
}

#[test]
fn a_tick_has_limits() {
    let mut s = fresh();
    let late = SyncEvent::Begun { now: 5000 };
    assert!(matches!(run_inner(&mut s, LIMITS, "d", late), SyncAction::Fetch(_)));
    let event = SyncEvent::Page {
        page: Ok(DeltaPage { items: vec![], next_link: Some("n".into()), delta_token: None }),
        now: 5000,
    };
    assert!(matches!(run_inner(&mut s, LIMITS, "d", event), SyncAction::Save { .. }));
    let mut s = fresh();
    for i in 0..3 {
        let action = run_inner(&mut s, LIMITS, "d", page(vec![], Some(&format!("n{i}")), None));
        assert_eq!(matches!(action, SyncAction::Fetch(_)), i < 2);
    }
    assert_eq!(s.pages, 3);
}

#[test]
fn a_clean_tick_saves_nothing() {
    let mut idx = sample_index();
    idx.delta_token = Some("t".into());
    idx.crawl_complete = true;
    let mut s = begin(Ok(Some(idx)), Ok(None), Ok(Some(stats(7, 8))), "d", 0).unwrap();
    assert!(s.complete && !s.dirty);
    assert_eq!(s.url, "t");
    assert!(matches!(
        run_inner(&mut s, LIMITS, "d", page(vec![], None, Some("t"))),
        SyncAction::Measure
    ));
    assert!(!s.dirty);
}

#[test]
fn outdated_snapshots_are_written_again() {
    for (st, dirty) in [(stats(0, 8), true), (stats(7, 0), true), (stats(7, 8), false)] {
        let s = begin(Ok(None), Ok(None), Ok(Some(st)), "d", 0).unwrap();
        assert_eq!(s.dirty, dirty);
    }
    assert!(!begin(Ok(None), Ok(None), Err("x".into()), "d", 0).unwrap().dirty);
}

#[test]
fn a_rebuild_replaces_the_live_snapshot_only_when_complete() {
    let mut s = begin(Ok(Some(sample_index())), Ok(None), Ok(None), "d", 0).unwrap();
    let resync = SyncEvent::Page { page: Err(DeltaError::Resync), now: 0 };
    run_inner(&mut s, LIMITS, "d", resync);
    let back = SyncEvent::Reloaded { live: Ok(Some(sample_index())), now: 0 };
    assert!(matches!(run_inner(&mut s, LIMITS, "d", back), SyncAction::Fetch(_)));
    assert!(s.rebuild);
    let last = page(vec![root("r")], None, Some("t"));
    assert!(
        matches!(run_inner(&mut s, LIMITS, "d", last), SyncAction::Save { file } if file == "index.rebuild.bin")
    );
    assert!(matches!(
        run_inner(&mut s, LIMITS, "d", SyncEvent::Saved(Ok(()))),
        SyncAction::Rename
    ));
    assert!(matches!(
        run_inner(&mut s, LIMITS, "d", SyncEvent::Renamed(Ok(()))),
        SyncAction::Measure
    ));
    assert!(!s.rebuild);
    let mut s = fresh();
    run_inner(&mut s, LIMITS, "d", SyncEvent::Reloaded { live: Ok(None), now: 0 });
    assert!(!s.rebuild);
    let s = begin(Ok(None), Ok(Some(sample_index())), Ok(None), "d", 0).unwrap();
    assert!(s.rebuild);
}

#[test]
fn sync_errors() {
    assert_eq!(begin(Err("a".into()), Err("b".into()), Ok(None), "d", 0).unwrap_err(), "a");
    assert_eq!(begin(Ok(None), Err("b".into()), Ok(None), "d", 0).unwrap_err(), "b");
    for event in [
        SyncEvent::Page { page: Err(DeltaError::Other("e".into())), now: 0 },
        SyncEvent::Saved(Err("e".into())),
        SyncEvent::Renamed(Err("e".into())),
    ] {
        match run_inner(&mut fresh(), LIMITS, "d", event) {
            SyncAction::Done(Err(e)) => assert_eq!(e, "e"),
            _ => panic!("expected an error"),
        }
    }
    let text = |a| match a {
        RunAction::Respond(r) => (r.status, String::from_utf8(r.body).unwrap()),
        RunAction::Sync => panic!("expected a response"),
    };
    assert!(matches!(run(true, RunStep::Start), RunAction::Sync));
    assert_eq!(
        text(run(false, RunStep::Start)),
        (200, "{\"reason\":\"index disabled\",\"skipped\":true}".to_string())
    );
    assert_eq!(text(run(true, RunStep::Finished(Err("e".into())))), (502, "e".to_string()));
    assert_eq!(
        text(run(true, RunStep::Finished(Ok(Value::from(1u64))))),
        (200, "1".to_string())
    );
}
