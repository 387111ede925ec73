use onedrive_davfs::format::{
    parse_child_block, parse_dir_table, parse_header, read_str, write_child, write_dir_row,
    write_header, ChildInfo, DirRow,
};
use onedrive_davfs::index::{DeltaItem, Index, ItemMeta};
use onedrive_davfs::snapshot::{
    decode, encode, load, lookup_bytes, lookup_file, lookup_file_step, meta_section, mutate, save,
    snapshot_meta, Lookup, LookupAction, SnapshotMeta, INDEX_FILE, REBUILD_FILE,
};
use onedrive_davfs::state_file::AtomicAction;
use onedrive_davfs::sync_stats;

fn root() -> DeltaItem {
    DeltaItem {
        id: "r".into(),
        parent_id: None,
        name: String::new(),
        deleted: false,
        is_root: true,
        meta: ItemMeta { is_dir: true, size: 0, mtime: 1, etag: "er".into() },
    }
}

fn sample() -> Index {
    let mut idx = Index {
        generation: 3,
        crawl_complete: true,
        delta_token: Some("https://graph.microsoft.com/v1.0/me/drive/root/delta?token=abc".into()),
        ..Index::default()
    };
    idx.apply(root());
    idx.apply(DeltaItem {
        id: "d".into(),
        parent_id: Some("r".into()),
        name: "Docs".into(),
        deleted: false,
        is_root: false,
        meta: ItemMeta { is_dir: true, size: 0, mtime: 2, etag: "ed".into() },
    });
    idx.apply(DeltaItem {
        id: "f".into(),
        parent_id: Some("d".into()),
        name: "a.txt".into(),
        deleted: false,
        is_root: false,
        meta: ItemMeta { is_dir: false, size: 9, mtime: 3, etag: "ef".into() },
    });
    idx
}

fn bytes_of(idx: &Index) -> Vec<u8> {
    encode(idx, Ok(b"{}".to_vec())).unwrap()
}

#[test]
fn round_trip_preserves_tree_and_token() {
    let idx = sample();
    let bytes = bytes_of(&idx);
    assert_eq!(meta_section(&bytes).unwrap(), b"{}");
    let out = decode(&bytes, Ok(snapshot_meta(&idx))).unwrap();
    assert_eq!(out.root.as_deref(), Some("r"));
    assert_eq!(out.resolve("/Docs/a.txt").as_deref(), Some("f"));
    assert_eq!(out.nodes.get("f").unwrap().meta.size, 9);
    assert_eq!(out.delta_token, idx.delta_token);
    assert!(out.crawl_complete);
    assert_eq!(out.generation, 3);

    let hit = lookup_bytes(&bytes, "/Docs").unwrap().unwrap();
    match hit {
        Lookup::Dir { children, .. } => {
            assert_eq!(children.len(), 1);
            assert_eq!(children[0].name, "a.txt");
        }
        Lookup::File(_) => panic!("expected dir"),
    }
    match lookup_bytes(&bytes, "/Docs/a.txt").unwrap().unwrap() {
        Lookup::File(f) => assert_eq!(f.size, 9),
        Lookup::Dir { .. } => panic!("expected file"),
    }
}

#[test]
fn rejects_bad_magic() {
    let err = decode(b"NOPE", Ok(snapshot_meta(&Index::default()))).unwrap_err();
    assert!(err.contains("too short") || err.contains("magic"));
}

#[test]
fn every_node_survives_a_round_trip() {
    let idx = sample();
    let out = decode(&bytes_of(&idx), Ok(snapshot_meta(&idx))).unwrap();
    assert_eq!(out.nodes.len(), 3);
    for id in ["r", "d", "f"] {
        assert_eq!(out.nodes.get(id), idx.nodes.get(id));
        assert_eq!(out.path_of(id), idx.path_of(id));
    }
    assert_eq!(out.children_of("/Docs"), idx.children_of("/Docs"));
}

#[test]
fn lookups_of_the_root_and_of_nothing() {
    let bytes = bytes_of(&sample());
    match lookup_bytes(&bytes, "/").unwrap().unwrap() {
        Lookup::Dir { info, children } => {
            assert_eq!(info.id, "r");
            assert_eq!(info.name, "");
            assert_eq!(children.len(), 1);
            assert!(children[0].is_dir);
        }
        Lookup::File(_) => panic!("expected dir"),
    }
    assert!(lookup_bytes(&bytes, "/Docs/b.txt").unwrap().is_none());
    assert!(lookup_bytes(&bytes, "/Nope/b.txt").unwrap().is_none());
}

fn run(bytes: &[u8], path: &str) -> (Result<Option<Lookup>, String>, usize) {
    let mut action = lookup_file();
    let mut reads = 0;
    loop {
        match action {
            LookupAction::Done(r) => return (r, reads),
            LookupAction::Read { offset, len, next } => {
                reads += 1;
                let n = bytes.len() as u64;
                let a = offset.min(n) as usize;
                let b = offset.saturating_add(len).min(n) as usize;
                action = lookup_file_step(path, next, Ok(Some(bytes[a..b].to_vec())));
            }
        }
    }
}

#[test]
fn reading_piecewise_finds_the_same() {
    let bytes = bytes_of(&sample());
    for path in ["/", "/Docs", "/Docs/a.txt", "/Docs/x", "/No/x"] {
        let whole = lookup_bytes(&bytes, path);
        let (piecewise, reads) = run(&bytes, path);
        assert_eq!(format!("{whole:?}"), format!("{piecewise:?}"));
        assert!(reads <= 3);
    }
}

#[test]
fn piecewise_lookup_errors() {
    let first = |r| match lookup_file() {
        LookupAction::Read { next, .. } => lookup_file_step("/", next, r),
        LookupAction::Done(_) => panic!("nothing asked"),
    };
    assert!(matches!(first(Ok(None)), LookupAction::Done(Ok(None))));
    match first(Ok(Some(vec![0; 5]))) {
        LookupAction::Done(Err(e)) => assert_eq!(e, "index header truncated"),
        _ => panic!("expected an error"),
    }
    match first(Err("disk".into())) {
        LookupAction::Done(Err(e)) => assert_eq!(e, "disk"),
        _ => panic!("expected an error"),
    }
    let bytes = bytes_of(&sample());
    match first(Ok(Some(bytes[..32].to_vec()))) {
        LookupAction::Read { next, .. } => match lookup_file_step("/", next, Ok(None)) {
            LookupAction::Done(Err(e)) => assert_eq!(e, "index dir table missing"),
            _ => panic!("expected an error"),
        },
        LookupAction::Done(_) => panic!("expected a read"),
    }
}

#[test]
fn decode_errors() {
    let idx = sample();
    let meta = || -> Result<SnapshotMeta, String> { Ok(snapshot_meta(&sample())) };
    let good = bytes_of(&idx);
    assert_eq!(decode(&good, Err("bad".into())).unwrap_err(), "index meta: bad");
    assert_eq!(decode(&[], meta()).unwrap_err(), "index header too short");
    let mut magic = good.clone();
    magic[0] = b'X';
    assert_eq!(decode(&magic, meta()).unwrap_err(), "index magic mismatch");
    let mut version = good.clone();
    version[4] = 2;
    assert_eq!(decode(&version, meta()).unwrap_err(), "unsupported index version 2");
    let mut far = good.clone();
    far[15] = 1;
    assert_eq!(decode(&far, meta()).unwrap_err(), "index offsets out of range");
    let mut long = good.clone();
    long[31] = 1;
    assert_eq!(decode(&long, meta()).unwrap_err(), "index meta truncated");
    let mut head = good[..32].to_vec();
    for b in head[20..28].iter_mut() {
        *b = 0xff;
    }
    head[31] = 1;
    assert_eq!(meta_section(&head).unwrap_err(), "index meta overflow");
    assert_eq!(encode(&idx, Err("no json".into())).unwrap_err(), "no json");
}

#[test]
fn child_block_errors() {
    let child = ChildInfo {
        name: "n".into(),
        is_dir: true,
        size: 1,
        mtime: 2,
        etag: "e".into(),
        id: "i".into(),
    };
    let mut buf = Vec::new();
    write_child(&mut buf, &child);
    assert_eq!(buf.len(), 5 + 1 + 16 + 5 + 5);
    assert_eq!(parse_child_block(&buf, 0, buf.len() as u32).unwrap().len(), 1);
    assert_eq!(parse_child_block(&buf, 0, 99).unwrap_err(), "child block out of range");
    assert_eq!(parse_child_block(&buf, 0, 3).unwrap_err(), "truncated string length");
    assert_eq!(parse_child_block(&buf, 0, 4).unwrap_err(), "truncated string");
    assert_eq!(parse_child_block(&buf, 0, 5).unwrap_err(), "truncated child flags");
    assert_eq!(parse_child_block(&buf, 0, 8).unwrap_err(), "truncated child numbers");
    buf[4] = 0xff;
    assert_eq!(parse_child_block(&buf, 0, buf.len() as u32).unwrap_err(), "non-utf8 string");
}

#[test]
fn dir_table_errors() {
    let row = DirRow {
        path: "/".into(),
        block_off: 32,
        block_len: 7,
        id: "r".into(),
        size: 1,
        mtime: 2,
        etag: String::new(),
    };
    let mut buf = Vec::new();
    write_dir_row(&mut buf, &row);
    let back = parse_dir_table(&buf, 1).unwrap();
    assert_eq!(back[0].block_len, 7);
    assert_eq!(back[0].path, "/");
    assert_eq!(parse_dir_table(&buf[..9], 1).unwrap_err(), "truncated dir row");
    assert_eq!(parse_dir_table(&buf[..24], 1).unwrap_err(), "truncated dir row meta");
    assert_eq!(parse_dir_table(&buf, 2).unwrap_err(), "truncated string length");
}

#[test]
fn header_layout_is_little_endian() {
    let mut buf = vec![0u8; 32];
    write_header(&mut buf, 0x0102, 3, 0x20, 4);
    assert_eq!(&buf[..10], b"ODIX\x01\0\0\0\x02\x01");
    assert_eq!(parse_header(&buf).unwrap(), (0x0102, 3, 0x20, 4));
}

#[test]
fn strings_are_read_with_their_length() {
    let data = [2, 0, 0, 0, b'h', b'i', 9];
    let mut pos = 0;
    assert_eq!(read_str(&data, &mut pos).unwrap(), "hi");
    assert_eq!(pos, 6);
}

#[test]
fn saving_begins_with_the_temporary_file() {
    let idx = sample();
    let (bytes, action) = save(INDEX_FILE, &idx, Ok(b"{}".to_vec())).unwrap();
    assert_eq!(bytes, bytes_of(&idx));
    assert!(matches!(action, AtomicAction::Write { file } if file == "index.bin.tmp"));
    assert_eq!(save(INDEX_FILE, &idx, Err("no json".into())).unwrap_err(), "no json");
    let (bytes, action) = sync_stats::save(Ok(vec![1])).unwrap();
    assert_eq!(bytes, vec![1]);
    assert!(matches!(action, AtomicAction::Write { file } if file == "sync_stats.json.tmp"));
    assert_eq!(sync_stats::save(Err("e".into())).unwrap_err(), "e");
}

#[test]
fn load_and_mutate() {
    let idx = sample();
    let bytes = bytes_of(&idx);
    assert!(load(Ok(None), Ok(snapshot_meta(&idx))).unwrap().is_none());
    assert_eq!(load(Err("io".into()), Ok(snapshot_meta(&idx))).unwrap_err(), "io");
    let loaded = load(Ok(Some(bytes)), Ok(snapshot_meta(&idx)));
    let patched = mutate(loaded, |ix| {
        let mut ix = ix;
        let changed = ix.remove_at_path("/Docs/a.txt");
        (ix, changed)
    })
    .unwrap();
    assert!(patched.resolve("/Docs/a.txt").is_none());
    assert!(mutate(Ok(Some(sample())), |ix| (ix, false)).is_none());
    assert!(mutate(Ok(None), |ix| (ix, true)).is_none());
    assert!(mutate(Err("x".into()), |ix| (ix, true)).is_none());
    assert_eq!(INDEX_FILE, "index.bin");
    assert_eq!(REBUILD_FILE, "index.rebuild.bin");
}
