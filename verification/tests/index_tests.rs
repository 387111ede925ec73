use onedrive_davfs::index::{
    last_segment, normalize_path, parent_path, DeltaItem, Index, ItemMeta, MAX_DEPTH,
};

fn file(id: &str, parent: &str, name: &str) -> DeltaItem {
    DeltaItem {
        id: id.into(),
        parent_id: Some(parent.into()),
        name: name.into(),
        deleted: false,
        is_root: false,
        meta: ItemMeta { is_dir: false, size: 1, mtime: 10, etag: "e".into() },
    }
}

fn dir(id: &str, parent: &str, name: &str) -> DeltaItem {
    let mut it = file(id, parent, name);
    it.meta.is_dir = true;
    it
}

fn root(id: &str) -> DeltaItem {
    DeltaItem {
        id: id.into(),
        parent_id: None,
        name: String::new(),
        deleted: false,
        is_root: true,
        meta: ItemMeta { is_dir: true, size: 0, mtime: 0, etag: String::new() },
    }
}

fn gone(id: &str) -> DeltaItem {
    DeltaItem {
        id: id.into(),
        parent_id: None,
        name: String::new(),
        deleted: true,
        is_root: false,
        meta: ItemMeta { is_dir: true, size: 0, mtime: 0, etag: String::new() },
    }
}

fn meta(size: u64) -> ItemMeta {
    ItemMeta { is_dir: false, size, mtime: 1, etag: String::new() }
}

#[test]
fn out_of_order_page_converges() {
    let mut idx = Index::default();
    idx.apply(file("c", "b", "c.txt"));
    idx.apply(dir("b", "a", "docs"));
    idx.apply(root("a"));
    assert_eq!(idx.resolve("/docs/c.txt").as_deref(), Some("c"));
    let kids = idx.children_of("/docs").unwrap();
    assert_eq!(kids, vec![("c.txt".into(), "c".into())]);
}

#[test]
fn move_is_reparent_without_rewriting_descendants() {
    let mut idx = Index::default();
    idx.apply(root("r"));
    idx.apply(dir("a", "r", "a"));
    idx.apply(dir("b", "r", "b"));
    idx.apply(file("f", "a", "f.txt"));
    idx.apply(dir("a", "b", "a"));
    assert_eq!(idx.resolve("/a"), None);
    assert_eq!(idx.resolve("/b/a/f.txt").as_deref(), Some("f"));
    assert_eq!(idx.path_of("f").as_deref(), Some("/b/a/f.txt"));
}

#[test]
fn delete_is_recursive() {
    let mut idx = Index::default();
    idx.apply(root("r"));
    idx.apply(dir("a", "r", "a"));
    idx.apply(file("f", "a", "f.txt"));
    idx.apply(gone("a"));
    assert!(idx.resolve("/a").is_none());
    assert!(idx.nodes.get("f").is_none());
}

#[test]
fn rename_detaches_old_name() {
    let mut idx = Index::default();
    idx.apply(root("r"));
    idx.apply(file("f", "r", "old.txt"));
    idx.apply(file("f", "r", "new.txt"));
    assert!(idx.resolve("/old.txt").is_none());
    assert_eq!(idx.resolve("/new.txt").as_deref(), Some("f"));
}

#[test]
fn same_name_replaces_other_id() {
    let mut idx = Index::default();
    idx.apply(root("r"));
    idx.apply(file("local:/x", "r", "x.txt"));
    idx.apply(file("real", "r", "x.txt"));
    assert_eq!(idx.resolve("/x.txt").as_deref(), Some("real"));
    assert!(idx.nodes.get("local:/x").is_none());
}

#[test]
fn orphan_sweep_drops_unreachable() {
    let mut idx = Index::default();
    idx.apply(root("r"));
    idx.apply(file("f", "missing", "f.txt"));
    idx.sweep_orphans();
    assert!(idx.nodes.get("f").is_none());
    assert!(idx.nodes.get("r").is_some());
}

#[test]
fn upsert_and_remove_by_path() {
    let mut idx = Index::default();
    idx.apply(root("r"));
    assert!(idx.upsert_at_path(
        "/n.txt",
        ItemMeta { is_dir: false, size: 4, mtime: 1, etag: String::new() }
    ));
    assert!(idx.resolve("/n.txt").is_some());
    assert!(idx.remove_at_path("/n.txt"));
    assert!(idx.resolve("/n.txt").is_none());
}

#[test]
fn upsert_of_a_known_path_only_changes_its_metadata() {
    let mut idx = Index::default();
    idx.apply(root("r"));
    idx.apply(file("f", "r", "f.txt"));
    assert!(idx.upsert_at_path("/f.txt", meta(99)));
    assert_eq!(idx.resolve("/f.txt").as_deref(), Some("f"));
    assert_eq!(idx.nodes.get("f").unwrap().meta.size, 99);
    assert_eq!(idx.nodes.len(), 2);
}

#[test]
fn upsert_needs_a_name_and_a_folder() {
    let mut idx = Index::default();
    assert!(!idx.upsert_at_path("/f.txt", meta(1)));
    idx.apply(root("r"));
    assert!(!idx.upsert_at_path("/missing/f.txt", meta(1)));
    assert!(idx.upsert_at_path("/", meta(7)));
    assert_eq!(idx.nodes.get("r").unwrap().meta.size, 7);
    assert!(!idx.remove_at_path("/nothing"));
}

#[test]
fn move_by_path_keeps_the_id() {
    let mut idx = Index::default();
    idx.apply(root("r"));
    idx.apply(dir("d", "r", "d"));
    idx.apply(file("f", "r", "f.txt"));
    assert!(idx.move_at_path("/f.txt", "/d/g.txt"));
    assert_eq!(idx.resolve("/d/g.txt").as_deref(), Some("f"));
    assert_eq!(idx.resolve("/f.txt"), None);
    assert!(!idx.move_at_path("/f.txt", "/x"));
    assert!(!idx.move_at_path("/d/g.txt", "/no/g.txt"));
    assert!(!idx.move_at_path("/d/g.txt", "/"));
}

#[test]
fn items_without_id_or_parent_change_nothing() {
    let mut idx = Index::default();
    idx.apply(root("r"));
    idx.apply(file("", "r", "x"));
    let mut it = file("f", "r", "f.txt");
    it.parent_id = None;
    idx.apply(it);
    assert_eq!(idx.nodes.len(), 1);
    assert_eq!(idx.children_of("/").unwrap(), vec![]);
}

#[test]
fn removing_the_root_forgets_it() {
    let mut idx = Index::default();
    idx.apply(root("r"));
    idx.apply(file("f", "r", "f.txt"));
    idx.remove("r");
    assert!(idx.root.is_none());
    assert!(idx.nodes.is_empty());
    assert_eq!(idx.resolve("/"), None);
}

#[test]
fn a_page_gives_the_same_index_in_any_order() {
    let items = || vec![root("r"), dir("a", "r", "a"), dir("b", "a", "b"), file("f", "b", "f")];
    let mut one = Index::default();
    for it in items() {
        one.apply(it);
    }
    let mut two = Index::default();
    for it in items().into_iter().rev() {
        two.apply(it);
    }
    for id in ["r", "a", "b", "f"] {
        assert_eq!(one.nodes.get(id), two.nodes.get(id));
        assert_eq!(one.path_of(id), two.path_of(id));
    }
    assert_eq!(one.root, two.root);
    assert_eq!(two.path_of("f").as_deref(), Some("/a/b/f"));
    assert_eq!(two.resolve("/a/b/f").as_deref(), Some("f"));
}

#[test]
fn names_are_listed_in_byte_order() {
    let mut idx = Index::default();
    idx.apply(root("r"));
    for (id, name) in [("1", "b"), ("2", "a"), ("3", "é"), ("4", "Z"), ("5", "aa")] {
        idx.apply(file(id, "r", name));
    }
    let names: Vec<String> = idx.children_of("/").unwrap().into_iter().map(|e| e.0).collect();
    assert_eq!(names, vec!["Z", "a", "aa", "b", "é"]);
}

#[test]
fn cycles_and_deep_chains_have_no_path() {
    let mut idx = Index::default();
    idx.apply(dir("a", "b", "a"));
    idx.apply(dir("b", "a", "b"));
    assert_eq!(idx.path_of("a"), None);
    let mut deep = Index::default();
    deep.apply(root("n0"));
    for i in 1..(MAX_DEPTH + 1) {
        deep.apply(dir(&format!("n{i}"), &format!("n{}", i - 1), "d"));
    }
    assert!(deep.path_of(&format!("n{}", MAX_DEPTH - 1)).is_some());
    assert_eq!(deep.path_of(&format!("n{MAX_DEPTH}")), None);
}

#[test]
fn a_sweep_keeps_whatever_can_walk_to_the_root() {
    let mut deep = Index::default();
    deep.apply(root("n0"));
    let last = 3 * MAX_DEPTH;
    for i in 1..(last + 1) {
        deep.apply(dir(&format!("n{i}"), &format!("n{}", i - 1), "d"));
    }
    deep.apply(dir("a", "b", "a"));
    deep.apply(dir("b", "a", "b"));
    deep.sweep_orphans();
    assert_eq!(deep.nodes.len(), last + 1);
    assert!(deep.nodes.get(&format!("n{last}")).is_some());
    assert!(deep.nodes.get("a").is_none());
    assert!(deep.kids.get("a").is_none());
    let path = "/d".repeat(last);
    assert_eq!(deep.resolve(&path), Some(format!("n{last}")));
}

#[test]
fn path_helpers() {
    assert_eq!(parent_path("/a/b"), "/a");
    assert_eq!(parent_path("/a/b//"), "/a");
    assert_eq!(parent_path("/a"), "/");
    assert_eq!(parent_path("a"), "/");
    assert_eq!(parent_path(""), "/");
    assert_eq!(last_segment("/a/b/"), "b");
    assert_eq!(last_segment("/"), "");
    assert_eq!(last_segment("x"), "x");
    assert_eq!(normalize_path("//a///b/"), "/a/b");
    assert_eq!(normalize_path(""), "/");
    assert_eq!(normalize_path(&normalize_path("a//b")), "/a/b");
}

fn check_consistent(idx: &Index) {
    for i in 0..idx.nodes.len() {
        let (id, node) = (idx.nodes.key_at(i), idx.nodes.value_at(i));
        if let Some(p) = &node.parent {
            let set = idx.kids.get(p).unwrap();
            let listed = (0..set.len()).any(|j| set.name_at(j) == &node.name && set.id_at(j) == id);
            assert!(listed);
        }
    }
    for i in 0..idx.kids.len() {
        let (p, set) = (idx.kids.key_at(i), idx.kids.value_at(i));
        for j in 0..set.len() {
            let node = idx.nodes.get(set.id_at(j)).unwrap();
            assert_eq!(node.parent.as_ref(), Some(p));
            assert_eq!(&node.name, set.name_at(j));
            assert!(j == 0 || set.name_at(j - 1) != set.name_at(j));
        }
    }
}

#[test]
fn pages_keep_the_index_consistent() {
    let mut idx = Index::default();
    let page = vec![
        dir("a", "r", "a"),
        root("r"),
        file("f", "a", "x"),
        file("g", "a", "x"),
        dir("b", "a", "b"),
        file("h", "b", "y"),
        dir("b", "r", "a"),
        gone("nothing"),
        file("g", "b", "z"),
    ];
    for it in page {
        idx.apply(it);
        check_consistent(&idx);
    }
    assert_eq!(idx.root.as_deref(), Some("r"));
    assert_eq!(idx.resolve("/a").as_deref(), Some("b"));
    assert_eq!(idx.resolve("/a/z").as_deref(), Some("g"));
    assert!(idx.nodes.get("a").is_none());
    assert!(idx.nodes.get("f").is_none());
    assert_eq!(idx.path_of("h").as_deref(), Some("/a/y"));
}

#[test]
fn a_second_sweep_drops_nothing() {
    let mut idx = Index::default();
    idx.apply(root("r"));
    idx.apply(dir("d", "r", "d"));
    idx.apply(file("f", "d", "f"));
    idx.apply(file("x", "lost", "x"));
    idx.apply(dir("y", "z", "y"));
    idx.apply(dir("z", "y", "z"));
    idx.sweep_orphans();
    check_consistent(&idx);
    let ids = |ix: &Index| -> Vec<String> {
        (0..ix.nodes.len()).map(|i| ix.nodes.key_at(i).clone()).collect()
    };
    let first = ids(&idx);
    assert_eq!(first, vec!["d", "f", "r"]);
    idx.sweep_orphans();
    assert_eq!(ids(&idx), first);
    let mut rootless = Index::default();
    rootless.apply(file("x", "lost", "x"));
    rootless.sweep_orphans();
    assert_eq!(rootless.nodes.len(), 1);
}

#[test]
fn paths_tell_nodes_apart() {
    let mut idx = Index::default();
    idx.apply(root("r"));
    idx.apply(dir("d", "r", "d"));
    idx.apply(file("f", "d", "x"));
    idx.apply(file("g", "r", "x"));
    for id in ["r", "d", "f", "g"] {
        let path = idx.path_of(id).unwrap();
        assert_eq!(idx.resolve(&path).as_deref(), Some(id));
    }
    assert_eq!(idx.path_of("f").unwrap(), "/d/x");
    assert_eq!(parent_path(&idx.path_of("f").unwrap()), idx.path_of("d").unwrap());
    assert_eq!(last_segment(&idx.path_of("f").unwrap()), "x");
    assert_eq!(idx.path_of("nothing"), None);
}

#[test]
fn a_move_takes_everything_along() {
    let mut idx = Index::default();
    idx.apply(root("r"));
    idx.apply(dir("a", "r", "a"));
    idx.apply(dir("s", "a", "sub"));
    idx.apply(file("f", "s", "f.txt"));
    idx.apply(dir("b", "r", "b"));
    idx.apply(dir("t", "b", "target"));
    idx.apply(file("g", "t", "g.txt"));
    let before = idx.clone();
    assert!(idx.move_at_path("/a", "/b/target/"));
    for rest in ["", "/sub", "/sub/f.txt", "/nothing"] {
        assert_eq!(
            idx.resolve(&format!("/b/target{rest}")),
            before.resolve(&format!("/a{rest}"))
        );
    }
    assert_eq!(idx.resolve("/a"), None);
    assert!(idx.nodes.get("t").is_none());
    assert!(idx.nodes.get("g").is_none());
    for id in ["s", "f"] {
        assert_eq!(idx.nodes.get(id), before.nodes.get(id));
    }
    assert_eq!(idx.nodes.get("a").unwrap().meta, before.nodes.get("a").unwrap().meta);
    check_consistent(&idx);
}
