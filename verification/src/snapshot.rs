//! Segmented on-disk snapshot of [`crate::index::Index`]; the byte format is
//! in [`crate::format`].
//!
//! The meta section holds a JSON object. This module frames it: `encode`
//! takes its bytes, `meta_section` finds them again, and `decode` takes the
//! values that were read from them.
use vstd::prelude::*;
use vstd::slice::{slice_subrange, slice_to_vec};
use vstd::string::*;
use crate::format::{
    child_block, child_views, header_bytes, header_of, parse_child_block, parse_dir_table,
    parse_header, put_bytes, row_views, rows_from, two32, write_child, write_dir_row, write_header,
    ChildInfo, ChildView, DirRow, RowView, HEADER_LEN,
};
use crate::format_laws::{children_bytes, rows_bytes};
use crate::index::{
    empty_index, kids_of, last_of_path, last_segment, located, normalize_path, parent_of_path,
    parent_path, Index, IndexView, ItemMeta, MetaView, Node, NodeView,
};
use crate::state_file::{atomic_next, write_atomic, AtomicAction, AtomicStep, AtomicStepView};
use crate::text::{clone_opt, opt_is, opt_text, path_text, segments, text_eq};
use crate::textmap::{in_order, NameSet, TextMap};

verus! {

/// File name of the live snapshot.
pub const INDEX_FILE: &'static str = "index.bin";

/// File name of the snapshot that is being rebuilt.
pub const REBUILD_FILE: &'static str = "index.rebuild.bin";

/// The values of the meta section.
#[derive(Debug)]
pub struct SnapshotMeta {
    pub delta_token: Option<String>,
    pub pending_next_link: Option<String>,
    pub crawl_complete: bool,
    pub generation: u64,
    pub built_at: u64,
    pub root_id: Option<String>,
}

/// What a [`SnapshotMeta`] stands for.
pub struct SnapshotMetaView {
    pub delta_token: Option<Seq<char>>,
    pub pending_next_link: Option<Seq<char>>,
    pub crawl_complete: bool,
    pub generation: u64,
    pub built_at: u64,
    pub root_id: Option<Seq<char>>,
}

impl View for SnapshotMeta {
    type V = SnapshotMetaView;

    open spec fn view(&self) -> SnapshotMetaView {
        SnapshotMetaView {
            delta_token: opt_text(self.delta_token),
            pending_next_link: opt_text(self.pending_next_link),
            crawl_complete: self.crawl_complete,
            generation: self.generation,
            built_at: self.built_at,
            root_id: opt_text(self.root_id),
        }
    }
}

impl Clone for SnapshotMeta {
    fn clone(&self) -> (r: Self)
        ensures
            r@ == self@,
    {
        SnapshotMeta {
            delta_token: clone_opt(&self.delta_token),
            pending_next_link: clone_opt(&self.pending_next_link),
            crawl_complete: self.crawl_complete,
            generation: self.generation,
            built_at: self.built_at,
            root_id: clone_opt(&self.root_id),
        }
    }
}

/// What a path stands for in a snapshot.
#[derive(Debug)]
pub enum Lookup {
    File(ChildInfo),
    Dir { info: ChildInfo, children: Vec<ChildInfo> },
}

/// What a [`Lookup`] stands for.
pub enum LookupView {
    File(ChildView),
    Dir { info: ChildView, children: Seq<ChildView> },
}

impl View for Lookup {
    type V = LookupView;

    open spec fn view(&self) -> LookupView {
        match *self {
            Lookup::File(c) => LookupView::File(c@),
            Lookup::Dir { info, children } => LookupView::Dir {
                info: info@,
                children: child_views(children@),
            },
        }
    }
}

impl Clone for Lookup {
    fn clone(&self) -> (r: Self)
        ensures
            r@ == self@,
    {
        match self {
            Lookup::File(c) => Lookup::File(c.clone()),
            Lookup::Dir { info, children } => {
                let mut copies: Vec<ChildInfo> = Vec::new();
                let ghost all = child_views(children@);
                assert(child_views(copies@) =~= all.take(0));
                for i in 0..children.len()
                    invariant
                        all == child_views(children@),
                        child_views(copies@) == all.take(i as int),
                {
                    let ghost before = copies@;
                    let c = children[i].clone();
                    copies.push(c);
                    assert(child_views(copies@) =~= child_views(before).push(c@));
                    assert(all.take(i + 1) =~= all.take(i as int).push(all[i as int]));
                }
                assert(all.take(children@.len() as int) =~= all);
                Lookup::Dir { info: info.clone(), children: copies }
            },
        }
    }
}

/// The values that the meta section of the index's snapshot holds.
pub open spec fn meta_values(s: IndexView) -> SnapshotMetaView {
    SnapshotMetaView {
        delta_token: s.delta_token,
        pending_next_link: s.pending_next_link,
        crawl_complete: s.crawl_complete,
        generation: s.generation,
        built_at: 0,
        root_id: s.root,
    }
}

/// The values that the meta section of the index's snapshot holds.
pub fn snapshot_meta(index: &Index) -> (r: SnapshotMeta)
    ensures
        r@ == meta_values(index@),
{
    SnapshotMeta {
        delta_token: clone_opt(&index.delta_token),
        pending_next_link: clone_opt(&index.pending_next_link),
        crawl_complete: index.crawl_complete,
        generation: index.generation,
        built_at: 0,
        root_id: clone_opt(&index.root),
    }
}

/// Whether the snapshot has a directory row for `id`: a node with a path that
/// is a folder or the recorded root.
pub open spec fn has_row(s: IndexView, id: Seq<char>) -> bool {
    s.nodes.dom().contains(id) && located(s, id) is Some && (s.nodes[id].meta.is_dir || s.root
        == Some(id))
}

/// The path/id pairs of the directory rows.
pub open spec fn dir_set(s: IndexView) -> Set<(Seq<char>, Seq<char>)> {
    Set::new(
        |e: (Seq<char>, Seq<char>)| has_row(s, e.1) && located(s, e.1) == Some(e.0),
    )
}

/// A listed child as the snapshot describes it.
pub open spec fn child_of(s: IndexView, e: (Seq<char>, Seq<char>)) -> ChildView {
    ChildView {
        name: e.0,
        is_dir: s.nodes[e.1].meta.is_dir,
        size: s.nodes[e.1].meta.size,
        mtime: s.nodes[e.1].meta.mtime,
        etag: s.nodes[e.1].meta.etag,
        id: e.1,
    }
}

/// The known children among the listed pairs.
pub open spec fn listing(s: IndexView, q: Seq<(Seq<char>, Seq<char>)>) -> Seq<ChildView>
    decreases q.len(),
{
    if q.len() == 0 {
        Seq::empty()
    } else if s.nodes.dom().contains(q.last().1) {
        listing(s, q.drop_last()).push(child_of(s, q.last()))
    } else {
        listing(s, q.drop_last())
    }
}

/// The children that the snapshot stores for the directory `id`.
pub open spec fn children_stored(s: IndexView, id: Seq<char>) -> Seq<ChildView> {
    listing(s, in_order(kids_of(s, id)))
}

/// The row of a directory whose block starts at `off`.
pub open spec fn row_of(s: IndexView, e: (Seq<char>, Seq<char>), off: nat) -> RowView {
    RowView {
        path: e.0,
        block_off: off as u64,
        block_len: (children_bytes(children_stored(s, e.1)).len() % two32()) as u32,
        id: e.1,
        size: s.nodes[e.1].meta.size,
        mtime: s.nodes[e.1].meta.mtime,
        etag: s.nodes[e.1].meta.etag,
    }
}

/// The child blocks of the directories, one after the other.
pub open spec fn blocks(s: IndexView, q: Seq<(Seq<char>, Seq<char>)>) -> Seq<u8>
    decreases q.len(),
{
    if q.len() == 0 {
        Seq::empty()
    } else {
        blocks(s, q.drop_last()) + children_bytes(children_stored(s, q.last().1))
    }
}

/// The rows of the directories; each block starts where the one before ends.
pub open spec fn dir_rows(s: IndexView, q: Seq<(Seq<char>, Seq<char>)>) -> Seq<RowView>
    decreases q.len(),
{
    if q.len() == 0 {
        Seq::empty()
    } else {
        dir_rows(s, q.drop_last()).push(
            row_of(s, q.last(), HEADER_LEN as nat + blocks(s, q.drop_last()).len()),
        )
    }
}

/// The snapshot of an index, given the bytes of its meta section.
#[verifier::opaque]
pub open spec fn encoded(s: IndexView, meta: Seq<u8>) -> Seq<u8> {
    let q = in_order(dir_set(s));
    let body = blocks(s, q);
    let table = rows_bytes(dir_rows(s, q));
    header_bytes(
        HEADER_LEN as nat + body.len(),
        q.len() % two32(),
        HEADER_LEN as nat + body.len() + table.len(),
        meta.len() % two32(),
    ) + body + table + meta
}

/// The path/id pairs of the directory rows.
fn collect_dirs(index: &Index) -> (r: NameSet)
    ensures
        r@ == dir_set(index@),
{
    let mut dirs = NameSet::new();
    let n = index.nodes.len();
    let ghost ks = index.nodes.keys();
    let ghost s = index@;
    for i in 0..n
        invariant
            n == ks.len(),
            ks == index.nodes.keys(),
            s == index@,
            forall|e: (Seq<char>, Seq<char>)| #[trigger]
                dirs@.contains(e) <==> dir_set(s).contains(e) && ks.take(i as int).contains(e.1),
    {
        let id = index.nodes.key_at(i);
        let node = index.nodes.value_at(i);
        let ghost before = dirs@;
        let ghost now = ks.take(i as int);
        let ghost then = ks.take(i + 1);
        assert(then =~= now.push(id@));
        let row = node.meta.is_dir || opt_is(&index.root, id.as_str());
        if row {
            if let Some(path) = index.path_of(id.as_str()) {
                dirs.insert(path, id.clone());
            }
        }
        assert forall|e: (Seq<char>, Seq<char>)| #[trigger]
            dirs@.contains(e) <==> dir_set(s).contains(e) && then.contains(e.1) by {
            assert(then.contains(e.1) <==> now.contains(e.1) || e.1 == id@) by {
                if now.contains(e.1) {
                    let k = choose|k: int| 0 <= k < now.len() && now[k] == e.1;
                    assert(then[k] == e.1);
                }
                assert(then[i as int] == id@);
            }
            assert(before.contains(e) <==> dir_set(s).contains(e) && now.contains(e.1));
        }
    }
    assert(ks.take(n as int) =~= ks);
    assert(dirs@ =~= dir_set(s));
    dirs
}

/// Appends the child block of directory `id`.
fn write_block(index: &Index, id: &str, body: &mut Vec<u8>)
    ensures
        final(body)@ == old(body)@ + children_bytes(children_stored(index@, id@)),
{
    let ghost s = index@;
    let ghost start = body@;
    match index.kids.get(id) {
        Some(set) => {
            let n = set.len();
            let ghost q = set.listed();
            assert(start + children_bytes(listing(s, q.take(0))) =~= start);
            for i in 0..n
                invariant
                    n == q.len(),
                    q == set.listed(),
                    s == index@,
                    body@ == start + children_bytes(listing(s, q.take(i as int))),
            {
                assert(q.take(i + 1).drop_last() =~= q.take(i as int));
                let name = set.name_at(i);
                let cid = set.id_at(i);
                if let Some(child) = index.nodes.get(cid.as_str()) {
                    let info = ChildInfo {
                        name: name.clone(),
                        is_dir: child.meta.is_dir,
                        size: child.meta.size,
                        mtime: child.meta.mtime,
                        etag: child.meta.etag.clone(),
                        id: cid.clone(),
                    };
                    write_child(body, &info);
                    proof {
                        let before = listing(s, q.take(i as int));
                        let after = listing(s, q.take(i + 1));
                        assert(info@ == child_of(s, q[i as int]));
                        assert(after.drop_last() =~= before);
                        assert(body@ =~= start + children_bytes(after));
                    }
                }
            }
            assert(q.take(n as int) =~= q);
        },
        None => {
            proof {
                lemma_in_order_empty();
                assert(body@ =~= start + children_bytes(children_stored(s, id@)));
            }
        },
    }
}

/// The ordered form of the empty set is empty.
pub proof fn lemma_in_order_empty()
    ensures
        in_order(Set::empty()) == Seq::<(Seq<char>, Seq<char>)>::empty(),
{
    let e = Seq::<(Seq<char>, Seq<char>)>::empty();
    assert(e.to_set() =~= Set::empty());
    crate::textmap::lemma_in_order(e);
}

/// Appends the child blocks of the directories and returns their rows.
fn write_blocks(index: &Index, dirs: &NameSet, body: &mut Vec<u8>) -> (rows: Vec<DirRow>)
    requires
        dirs@ == dir_set(index@),
        old(body)@.len() == HEADER_LEN,
    ensures
        final(body)@ == old(body)@ + blocks(index@, in_order(dirs@)),
        row_views(rows@) == dir_rows(index@, in_order(dirs@)),
{
    let ghost s = index@;
    let ghost q = in_order(dirs@);
    let ghost start = body@;
    let n = dirs.len();
    let mut rows: Vec<DirRow> = Vec::new();
    assert(start + blocks(s, q.take(0)) =~= start);
    assert(row_views(rows@) =~= dir_rows(s, q.take(0)));
    for i in 0..n
        invariant
            s == index@,
            n == q.len(),
            q == dirs.listed(),
            q.to_set() == dir_set(s),
            start.len() == HEADER_LEN,
            body@ == start + blocks(s, q.take(i as int)),
            row_views(rows@) == dir_rows(s, q.take(i as int)),
    {
        assert(q.take(i + 1).drop_last() =~= q.take(i as int));
        assert(q.to_set().contains(q[i as int]));
        let path = dirs.name_at(i);
        let id = dirs.id_at(i);
        let block_off = body.len();
        let ghost before = body@;
        write_block(index, id.as_str(), body);
        let block_len = (((body.len() - block_off) as u64) % 0x1_0000_0000) as u32;
        let node = index.nodes.get(id.as_str()).unwrap();
        let row = DirRow {
            path: path.clone(),
            block_off: block_off as u64,
            block_len,
            id: id.clone(),
            size: node.meta.size,
            mtime: node.meta.mtime,
            etag: node.meta.etag.clone(),
        };
        let ghost earlier = rows@;
        rows.push(row);
        proof {
            assert(row@ == row_of(
                s,
                q[i as int],
                HEADER_LEN as nat + blocks(s, q.take(i as int)).len(),
            ));
            assert(row_views(rows@) =~= row_views(earlier).push(row@));
            assert(body@ =~= start + blocks(s, q.take(i + 1)));
        }
    }
    assert(q.take(n as int) =~= q);
    rows
}

/// Appends the directory table.
fn write_table(rows: &Vec<DirRow>, body: &mut Vec<u8>)
    ensures
        final(body)@ == old(body)@ + rows_bytes(row_views(rows@)),
{
    let ghost all = row_views(rows@);
    let ghost start = body@;
    let n = rows.len();
    assert(start + rows_bytes(all.take(0)) =~= start);
    for i in 0..n
        invariant
            n == rows@.len(),
            all == row_views(rows@),
            body@ == start + rows_bytes(all.take(i as int)),
    {
        write_dir_row(body, &rows[i]);
        assert(all.take(i + 1).drop_last() =~= all.take(i as int));
        assert(all.take(i + 1).last() == rows@[i as int]@);
        assert(body@ =~= start + rows_bytes(all.take(i + 1)));
    }
    assert(all.take(n as int) =~= all);
}

/// The snapshot of an index, given the outcome of serialising the values of
/// its meta section.
pub fn encode(index: &Index, meta_json: Result<Vec<u8>, String>) -> (r: Result<Vec<u8>, String>)
    ensures
        match (r, meta_json) {
            (Ok(bytes), Ok(meta)) => bytes@ == encoded(index@, meta@),
            (Err(a), Err(b)) => a == b,
            _ => false,
        },
{
    let meta = match meta_json {
        Ok(meta) => meta,
        Err(e) => {
            return Err(e);
        },
    };
    let ghost s = index@;
    let ghost q = in_order(dir_set(s));
    let dirs = collect_dirs(index);
    let mut body: Vec<u8> = Vec::new();
    for i in 0..HEADER_LEN
        invariant
            body@.len() == i,
    {
        body.push(0);
    }
    let ghost zeros = body@;
    let rows = write_blocks(index, &dirs, &mut body);
    let dir_table_off = body.len() as u64;
    write_table(&rows, &mut body);
    let meta_off = body.len() as u64;
    put_bytes(&mut body, meta.as_slice());
    let dir_count = ((rows.len() as u64) % 0x1_0000_0000) as u32;
    let meta_len = ((meta.len() as u64) % 0x1_0000_0000) as u32;
    let ghost before = body@;
    write_header(&mut body, dir_table_off, dir_count, meta_off, meta_len);
    proof {
        reveal(encoded);
        let part = blocks(s, q);
        let table = rows_bytes(dir_rows(s, q));
        lemma_dir_rows_len(s, q);
        assert(before =~= zeros + part + table + meta@);
        assert(before.skip(HEADER_LEN as int) =~= part + table + meta@);
        assert(body@ =~= encoded(s, meta@));
    }
    Ok(body)
}

/// There is one row per directory.
pub proof fn lemma_dir_rows_len(s: IndexView, q: Seq<(Seq<char>, Seq<char>)>)
    ensures
        dir_rows(s, q).len() == q.len(),
    decreases q.len(),
{
    if q.len() > 0 {
        lemma_dir_rows_len(s, q.drop_last());
    }
}

/// The bytes of the meta section.
pub open spec fn meta_at(bytes: Seq<u8>) -> Result<Seq<u8>, Seq<char>> {
    match header_of(bytes) {
        Err(e) => Err(e),
        Ok((_, _, meta_off, meta_len)) => if meta_off + meta_len > u64::MAX {
            Err("index meta overflow"@)
        } else if meta_off + meta_len > bytes.len() {
            Err("index meta truncated"@)
        } else {
            Ok(bytes.subrange(meta_off as int, meta_off + meta_len))
        },
    }
}

/// Finds the bytes of the meta section.
pub fn meta_section<'a>(bytes: &'a [u8]) -> (r: Result<&'a [u8], String>)
    ensures
        match r {
            Ok(m) => meta_at(bytes@) == Ok::<Seq<u8>, Seq<char>>(m@),
            Err(e) => meta_at(bytes@) == Err::<Seq<u8>, Seq<char>>(e@),
        },
{
    let (_off, _count, meta_off, meta_len) = match parse_header(bytes) {
        Ok(h) => h,
        Err(e) => {
            return Err(e);
        },
    };
    let end = match meta_off.checked_add(meta_len as u64) {
        Some(end) => end,
        None => {
            return Err("index meta overflow".to_owned());
        },
    };
    if end > bytes.len() as u64 {
        return Err("index meta truncated".to_owned());
    }
    Ok(slice_subrange(bytes, meta_off as usize, end as usize))
}

/// The rows of the directory table.
pub open spec fn table_of(bytes: Seq<u8>) -> Result<Seq<RowView>, Seq<char>> {
    match header_of(bytes) {
        Err(e) => Err(e),
        Ok((off, count, meta_off, _)) => if off > meta_off || meta_off > bytes.len() {
            Err("index dir table truncated"@)
        } else {
            rows_from(bytes.subrange(off as int, meta_off as int), 0, count as nat)
        },
    }
}

/// Reads the rows of the directory table.
fn read_table(bytes: &[u8]) -> (r: Result<Vec<DirRow>, String>)
    ensures
        match r {
            Ok(v) => table_of(bytes@) == Ok::<Seq<RowView>, Seq<char>>(row_views(v@)),
            Err(e) => table_of(bytes@) == Err::<Seq<RowView>, Seq<char>>(e@),
        },
{
    let (off, count, meta_off, _len) = match parse_header(bytes) {
        Ok(h) => h,
        Err(e) => {
            return Err(e);
        },
    };
    if off > meta_off || meta_off > bytes.len() as u64 {
        return Err("index dir table truncated".to_owned());
    }
    parse_dir_table(slice_subrange(bytes, off as usize, meta_off as usize), count)
}

/// The node that a row describes, before its parent is known.
pub open spec fn row_node(r: RowView) -> NodeView {
    NodeView {
        parent: None,
        name: last_of_path(r.path),
        meta: MetaView { is_dir: true, size: r.size, mtime: r.mtime, etag: r.etag },
    }
}

/// The node that a listed child of directory `p` describes.
pub open spec fn child_node(p: Seq<char>, c: ChildView) -> NodeView {
    NodeView {
        parent: Some(p),
        name: c.name,
        meta: MetaView { is_dir: c.is_dir, size: c.size, mtime: c.mtime, etag: c.etag },
    }
}

/// The nodes with the children of directory `p` added.
pub open spec fn add_children(
    nodes: Map<Seq<char>, NodeView>,
    p: Seq<char>,
    cs: Seq<ChildView>,
) -> Map<Seq<char>, NodeView>
    decreases cs.len(),
{
    if cs.len() == 0 {
        nodes
    } else {
        add_children(nodes, p, cs.drop_last()).insert(cs.last().id, child_node(p, cs.last()))
    }
}

/// The name/id pairs of the children.
pub open spec fn child_pairs(cs: Seq<ChildView>) -> Set<(Seq<char>, Seq<char>)> {
    cs.map_values(|c: ChildView| (c.name, c.id)).to_set()
}

/// The index with a directory and its children added.
pub open spec fn with_dir(s: IndexView, r: RowView, cs: Seq<ChildView>) -> IndexView {
    IndexView {
        nodes: add_children(s.nodes.insert(r.id, row_node(r)), r.id, cs),
        kids: s.kids.insert(r.id, child_pairs(cs)),
        ..s
    }
}

/// The index with all directories of the rows added.
pub open spec fn with_dirs(
    s: IndexView,
    bytes: Seq<u8>,
    rows: Seq<RowView>,
) -> Result<IndexView, Seq<char>>
    decreases rows.len(),
{
    if rows.len() == 0 {
        Ok(s)
    } else {
        match with_dirs(s, bytes, rows.drop_last()) {
            Err(e) => Err(e),
            Ok(t) => match child_block(
                bytes,
                rows.last().block_off as nat,
                rows.last().block_len as nat,
            ) {
                Err(e) => Err(e),
                Ok(cs) => Ok(with_dir(t, rows.last(), cs)),
            },
        }
    }
}

/// The id of the last row for each path.
pub open spec fn path_ids(rows: Seq<RowView>) -> Map<Seq<char>, Seq<char>>
    decreases rows.len(),
{
    if rows.len() == 0 {
        Map::empty()
    } else {
        path_ids(rows.drop_last()).insert(rows.last().path, rows.last().id)
    }
}

/// The index with one directory tied to its parent: the row at `/` becomes
/// nameless, parentless and, if none is recorded, the root; another row gets
/// the directory at its parent path as parent, if there is one.
pub open spec fn tied(s: IndexView, ids: Map<Seq<char>, Seq<char>>, r: RowView) -> IndexView {
    if r.path == seq!['/'] {
        IndexView {
            nodes: if s.nodes.dom().contains(r.id) {
                s.nodes.insert(
                    r.id,
                    NodeView { parent: None, name: Seq::empty(), meta: s.nodes[r.id].meta },
                )
            } else {
                s.nodes
            },
            root: if s.root is None {
                Some(r.id)
            } else {
                s.root
            },
            ..s
        }
    } else if ids.dom().contains(parent_of_path(r.path)) && s.nodes.dom().contains(r.id) {
        IndexView {
            nodes: s.nodes.insert(
                r.id,
                NodeView { parent: Some(ids[parent_of_path(r.path)]), ..s.nodes[r.id] },
            ),
            ..s
        }
    } else {
        s
    }
}

/// The index with all directories tied to their parents.
pub open spec fn tied_all(
    s: IndexView,
    ids: Map<Seq<char>, Seq<char>>,
    rows: Seq<RowView>,
) -> IndexView
    decreases rows.len(),
{
    if rows.len() == 0 {
        s
    } else {
        tied(tied_all(s, ids, rows.drop_last()), ids, rows.last())
    }
}

/// The index that holds only the values of the meta section.
pub open spec fn index_from_meta(m: SnapshotMetaView) -> IndexView {
    IndexView {
        delta_token: m.delta_token,
        pending_next_link: m.pending_next_link,
        crawl_complete: m.crawl_complete,
        generation: m.generation,
        root: m.root_id,
        ..empty_index()
    }
}

/// The index with the directories of the rows added and tied together.
pub open spec fn rebuilt(
    first: IndexView,
    bytes: Seq<u8>,
    rows: Seq<RowView>,
) -> Result<IndexView, Seq<char>> {
    match with_dirs(first, bytes, rows) {
        Err(e) => Err(e),
        Ok(s) => Ok(tied_all(s, path_ids(rows), rows)),
    }
}

/// The index that a snapshot describes, given the outcome of reading the
/// values of its meta section.
pub open spec fn decoded(
    bytes: Seq<u8>,
    meta: Result<SnapshotMetaView, Seq<char>>,
) -> Result<IndexView, Seq<char>> {
    match meta_at(bytes) {
        Err(e) => Err(e),
        Ok(_) => match meta {
            Err(e) => Err("index meta: "@ + e),
            Ok(m) => match table_of(bytes) {
                Err(e) => Err(e),
                Ok(rows) => rebuilt(index_from_meta(m), bytes, rows),
            },
        },
    }
}

/// Adds a directory and its children.
fn add_dir(index: &mut Index, row: &DirRow, children: Vec<ChildInfo>)
    ensures
        final(index)@ == with_dir(old(index)@, row@, child_views(children@)),
{
    let ghost s = index@;
    let ghost cs = child_views(children@);
    index.nodes.insert(
        row.id.clone(),
        Node {
            parent: None,
            name: last_segment(row.path.as_str()),
            meta: ItemMeta {
                is_dir: true,
                size: row.size,
                mtime: row.mtime,
                etag: row.etag.clone(),
            },
        },
    );
    let ghost base = s.nodes.insert(row.id@, row_node(row@));
    let mut set = NameSet::new();
    let n = children.len();
    assert(set@ =~= child_pairs(cs.take(0)));
    for i in 0..n
        invariant
            n == children@.len(),
            cs == child_views(children@),
            index@ == (IndexView { nodes: add_children(base, row.id@, cs.take(i as int)), ..s }),
            set@ == child_pairs(cs.take(i as int)),
    {
        let c = &children[i];
        assert(cs.take(i + 1).drop_last() =~= cs.take(i as int));
        assert(cs.take(i + 1).last() == c@);
        index.nodes.insert(
            c.id.clone(),
            Node {
                parent: Some(row.id.clone()),
                name: c.name.clone(),
                meta: ItemMeta {
                    is_dir: c.is_dir,
                    size: c.size,
                    mtime: c.mtime,
                    etag: c.etag.clone(),
                },
            },
        );
        set.insert(c.name.clone(), c.id.clone());
        proof {
            let f = |c: ChildView| (c.name, c.id);
            let a = cs.take(i as int).map_values(f);
            assert(cs.take(i + 1).map_values(f) =~= a.push((c.name@, c.id@)));
            a.lemma_push_to_set_commute((c.name@, c.id@));
        }
    }
    assert(cs.take(n as int) =~= cs);
    index.kids.insert(row.id.clone(), set);
}

/// Ties one directory to its parent.
fn tie(index: &mut Index, ids: &TextMap<String>, row: &DirRow)
    ensures
        final(index)@ == tied(old(index)@, ids@, row@),
{
    let ghost s = index@;
    if text_eq(row.path.as_str(), "/") {
        proof {
            reveal_strlit("/");
            assert("/"@ =~= seq!['/']);
        }
        if let Some(node) = index.nodes.remove(row.id.as_str()) {
            index.nodes.insert(
                row.id.clone(),
                Node { parent: None, name: String::new(), meta: node.meta },
            );
        }
        assert(index@.nodes =~= tied(s, ids@, row@).nodes);
        if index.root.is_none() {
            index.root = Some(row.id.clone());
        }
    } else {
        proof {
            reveal_strlit("/");
            assert("/"@ =~= seq!['/']);
        }
        let parent = parent_path(row.path.as_str());
        if let Some(pid) = ids.get(parent.as_str()) {
            if let Some(node) = index.nodes.remove(row.id.as_str()) {
                index.nodes.insert(
                    row.id.clone(),
                    Node { parent: Some(pid.clone()), name: node.name, meta: node.meta },
                );
            }
        }
        assert(index@.nodes =~= tied(s, ids@, row@).nodes);
    }
}

/// Adds the directories of the rows to an index and ties them together.
fn rebuild(bytes: &[u8], rows: &Vec<DirRow>, first: Index) -> (r: Result<Index, String>)
    ensures
        match r {
            Ok(ix) => rebuilt(first@, bytes@, row_views(rows@)) == Ok::<IndexView, Seq<char>>(ix@),
            Err(e) => rebuilt(first@, bytes@, row_views(rows@)) == Err::<IndexView, Seq<char>>(e@),
        },
{
    let ghost all = row_views(rows@);
    let ghost start = first@;
    let mut index = first;
    let mut ids: TextMap<String> = TextMap::new();
    let n = rows.len();
    for i in 0..n
        invariant
            n == rows@.len(),
            all == row_views(rows@),
            start == first@,
            with_dirs(start, bytes@, all.take(i as int)) == Ok::<IndexView, Seq<char>>(index@),
            ids@ == path_ids(all.take(i as int)),
    {
        let row = &rows[i];
        assert(all.take(i + 1).drop_last() =~= all.take(i as int));
        assert(all.take(i + 1).last() == row@);
        let children = match parse_child_block(bytes, row.block_off, row.block_len) {
            Ok(cs) => cs,
            Err(e) => {
                proof {
                    lemma_with_dirs_stuck(start, bytes@, all, i + 1);
                }
                return Err(e);
            },
        };
        add_dir(&mut index, row, children);
        ids.insert(row.path.clone(), row.id.clone());
    }
    assert(all.take(n as int) =~= all);
    let ghost built = index@;
    for i in 0..n
        invariant
            n == rows@.len(),
            all == row_views(rows@),
            ids@ == path_ids(all),
            index@ == tied_all(built, ids@, all.take(i as int)),
    {
        assert(all.take(i + 1).drop_last() =~= all.take(i as int));
        assert(all.take(i + 1).last() == rows@[i as int]@);
        tie(&mut index, &ids, &rows[i]);
    }
    Ok(index)
}

/// Rebuilds an index from its snapshot, given the outcome of reading the
/// values of the meta section.
pub fn decode(bytes: &[u8], meta: Result<SnapshotMeta, String>) -> (r: Result<Index, String>)
    ensures
        match r {
            Ok(ix) => decoded(bytes@, meta_view(meta)) == Ok::<IndexView, Seq<char>>(ix@),
            Err(e) => decoded(bytes@, meta_view(meta)) == Err::<IndexView, Seq<char>>(e@),
        },
{
    if let Err(e) = meta_section(bytes) {
        return Err(e);
    }
    let values = match meta {
        Ok(m) => m,
        Err(e) => {
            return Err("index meta: ".to_owned().concat(e.as_str()));
        },
    };
    let rows = match read_table(bytes) {
        Ok(rows) => rows,
        Err(e) => {
            return Err(e);
        },
    };
    let ghost m = values@;
    let first = Index {
        nodes: TextMap::new(),
        kids: TextMap::new(),
        root: values.root_id,
        delta_token: values.delta_token,
        pending_next_link: values.pending_next_link,
        crawl_complete: values.crawl_complete,
        generation: values.generation,
    };
    assert(first@ == index_from_meta(m));
    rebuild(bytes, &rows, first)
}

/// What the outcome of reading the meta section stands for.
pub open spec fn meta_view(m: Result<SnapshotMeta, String>) -> Result<
    SnapshotMetaView,
    Seq<char>,
> {
    match m {
        Ok(m) => Ok(m@),
        Err(e) => Err(e@),
    }
}

/// A block that cannot be read among the first `k` rows decides the outcome.
proof fn lemma_with_dirs_stuck(s: IndexView, bytes: Seq<u8>, rows: Seq<RowView>, k: int)
    requires
        0 <= k <= rows.len(),
        with_dirs(s, bytes, rows.take(k)) is Err,
    ensures
        with_dirs(s, bytes, rows) == with_dirs(s, bytes, rows.take(k)),
    decreases rows.len() - k,
{
    if k < rows.len() {
        assert(rows.take(k + 1).drop_last() =~= rows.take(k));
        lemma_with_dirs_stuck(s, bytes, rows, k + 1);
    } else {
        assert(rows.take(k) =~= rows);
    }
}

/// Whether `r` is what the outcomes of reading a snapshot file and the values of
/// its meta section amount to.
pub open spec fn is_loaded(
    read: Result<Option<Vec<u8>>, String>,
    meta: Result<SnapshotMeta, String>,
    r: Result<Option<Index>, String>,
) -> bool {
    match (read, r) {
        (Err(a), Err(b)) => a == b,
        (Ok(None), Ok(None)) => true,
        (Ok(Some(bytes)), Ok(Some(ix))) => decoded(bytes@, meta_view(meta)) == Ok::<
            IndexView,
            Seq<char>,
        >(ix@),
        (Ok(Some(bytes)), Err(e)) => decoded(bytes@, meta_view(meta)) == Err::<
            IndexView,
            Seq<char>,
        >(e@),
        _ => false,
    }
}

/// Turns the outcome of reading a snapshot file, and of reading the values of
/// its meta section, into an index; a file that is not there is no index.
pub fn load(
    read: Result<Option<Vec<u8>>, String>,
    meta: Result<SnapshotMeta, String>,
) -> (r: Result<Option<Index>, String>)
    ensures
        is_loaded(read, meta, r),
{
    match read {
        Err(e) => Err(e),
        Ok(None) => Ok(None),
        Ok(Some(bytes)) => match decode(bytes.as_slice(), meta) {
            Ok(ix) => Ok(Some(ix)),
            Err(e) => Err(e),
        },
    }
}

/// Whether `r` is how the index begins to be saved as the snapshot `name`.
pub open spec fn is_saved(
    name: Seq<char>,
    s: IndexView,
    meta_json: Result<Vec<u8>, String>,
    r: Result<(Vec<u8>, AtomicAction), String>,
) -> bool {
    match (r, meta_json) {
        (Ok((bytes, action)), Ok(meta)) => bytes@ == encoded(s, meta@) && action@ == atomic_next(
            name,
            AtomicStepView::Start,
        ),
        (Err(a), Err(b)) => a == b,
        _ => false,
    }
}

/// Begins to save an index as the snapshot `name`, given the outcome of
/// serialising the values of its meta section: the contents of the file, and
/// the first action of writing it atomically.
pub fn save(name: &str, index: &Index, meta_json: Result<Vec<u8>, String>) -> (r: Result<
    (Vec<u8>, AtomicAction),
    String,
>)
    ensures
        is_saved(name@, index@, meta_json, r),
{
    match encode(index, meta_json) {
        Ok(bytes) => Ok((bytes, write_atomic(name, AtomicStep::Start))),
        Err(e) => Err(e),
    }
}

/// What is saved of a patch: the patched index, if the patch reports a change.
pub open spec fn worth_saving(out: (Index, bool)) -> Option<Index> {
    if out.1 {
        Some(out.0)
    } else {
        None
    }
}

/// Patches a loaded snapshot. Yields the index to be saved: nothing if there
/// was no readable snapshot or the patch reports no change.
pub fn mutate<F: FnOnce(Index) -> (Index, bool)>(
    loaded: Result<Option<Index>, String>,
    f: F,
) -> (r: Option<Index>)
    requires
        loaded matches Ok(Some(ix)) ==> f.requires((ix,)),
    ensures
        match loaded {
            Ok(Some(ix)) => exists|out: (Index, bool)| #[trigger]
                f.ensures((ix,), out) && r == worth_saving(out),
            _ => r is None,
        },
{
    match loaded {
        Ok(Some(ix)) => {
            let (patched, changed) = f(ix);
            if changed {
                Some(patched)
            } else {
                None
            }
        },
        _ => None,
    }
}

/// The first row with the given path.
pub open spec fn row_with(rows: Seq<RowView>, path: Seq<char>) -> Option<RowView>
    decreases rows.len(),
{
    if rows.len() == 0 {
        None
    } else if row_with(rows.drop_last(), path) is Some {
        row_with(rows.drop_last(), path)
    } else if rows.last().path == path {
        Some(rows.last())
    } else {
        None
    }
}

/// Where a lookup has to read: the block of the directory at the path, or the
/// block of its parent directory, in which the last segment is looked for.
#[derive(Debug)]
pub enum Plan {
    Dir(DirRow),
    Within { row: DirRow, name: String },
    Nowhere,
}

/// What a [`Plan`] stands for.
pub enum PlanView {
    Dir(RowView),
    Within { row: RowView, name: Seq<char> },
    Nowhere,
}

impl View for Plan {
    type V = PlanView;

    open spec fn view(&self) -> PlanView {
        match *self {
            Plan::Dir(row) => PlanView::Dir(row@),
            Plan::Within { row, name } => PlanView::Within { row: row@, name: name@ },
            Plan::Nowhere => PlanView::Nowhere,
        }
    }
}

/// Where a lookup of `path` has to read, given the directory rows.
pub open spec fn planned(rows: Seq<RowView>, path: Seq<char>) -> PlanView {
    let norm = path_text(segments(path));
    match row_with(rows, norm) {
        Some(row) => PlanView::Dir(row),
        None => match row_with(rows, parent_of_path(norm)) {
            Some(row) => PlanView::Within { row, name: last_of_path(norm) },
            None => PlanView::Nowhere,
        },
    }
}

/// The first child with the given name.
pub open spec fn child_with(cs: Seq<ChildView>, name: Seq<char>) -> Option<ChildView>
    decreases cs.len(),
{
    if cs.len() == 0 {
        None
    } else if child_with(cs.drop_last(), name) is Some {
        child_with(cs.drop_last(), name)
    } else if cs.last().name == name {
        Some(cs.last())
    } else {
        None
    }
}

/// A directory row as the description of a child.
pub open spec fn row_info(row: RowView) -> ChildView {
    ChildView {
        name: last_of_path(row.path),
        is_dir: true,
        size: row.size,
        mtime: row.mtime,
        etag: row.etag,
        id: row.id,
    }
}

/// The result of a lookup, given what was read as the block of its plan.
pub open spec fn looked_up(
    plan: PlanView,
    block: Result<Seq<u8>, Seq<char>>,
) -> Result<Option<LookupView>, Seq<char>> {
    match plan {
        PlanView::Nowhere => Ok(None),
        _ => match block {
            Err(e) => Err(e),
            Ok(data) => match child_block(data, 0, data.len() % two32()) {
                Err(e) => Err(e),
                Ok(cs) => match plan {
                    PlanView::Dir(row) => Ok(
                        Some(LookupView::Dir { info: row_info(row), children: cs }),
                    ),
                    PlanView::Within { row, name } => match child_with(cs, name) {
                        Some(c) => Ok(Some(LookupView::File(c))),
                        None => Ok(None),
                    },
                    PlanView::Nowhere => Ok(None),
                },
            },
        },
    }
}

/// What the outcome of a lookup stands for.
pub open spec fn lookup_view(r: Result<Option<Lookup>, String>) -> Result<
    Option<LookupView>,
    Seq<char>,
> {
    match r {
        Ok(Some(hit)) => Ok(Some(hit@)),
        Ok(None) => Ok(None),
        Err(e) => Err(e@),
    }
}

/// What the outcome of reading bytes stands for.
pub open spec fn bytes_view(r: Result<Vec<u8>, String>) -> Result<Seq<u8>, Seq<char>> {
    match r {
        Ok(data) => Ok(data@),
        Err(e) => Err(e@),
    }
}

/// Finds the first row with the given path.
fn find_dir<'a>(rows: &'a Vec<DirRow>, path: &str) -> (r: Option<&'a DirRow>)
    ensures
        match r {
            Some(row) => row_with(row_views(rows@), path@) == Some(row@),
            None => row_with(row_views(rows@), path@) is None,
        },
{
    let ghost all = row_views(rows@);
    let n = rows.len();
    for i in 0..n
        invariant
            n == rows@.len(),
            all == row_views(rows@),
            row_with(all.take(i as int), path@) is None,
    {
        assert(all.take(i + 1).drop_last() =~= all.take(i as int));
        assert(all.take(i + 1).last() == rows@[i as int]@);
        if text_eq(rows[i].path.as_str(), path) {
            proof {
                lemma_row_with_stays(all, path@, i + 1);
            }
            return Some(&rows[i]);
        }
    }
    assert(all.take(n as int) =~= all);
    None
}

/// A row found among the first `k` is the one that is found.
pub proof fn lemma_row_with_stays(rows: Seq<RowView>, path: Seq<char>, k: int)
    requires
        0 <= k <= rows.len(),
        row_with(rows.take(k), path) is Some,
    ensures
        row_with(rows, path) == row_with(rows.take(k), path),
    decreases rows.len() - k,
{
    if k < rows.len() {
        assert(rows.take(k + 1).drop_last() =~= rows.take(k));
        lemma_row_with_stays(rows, path, k + 1);
    } else {
        assert(rows.take(k) =~= rows);
    }
}

/// A child found among the first `k` is the one that is found.
pub proof fn lemma_child_with_stays(cs: Seq<ChildView>, name: Seq<char>, k: int)
    requires
        0 <= k <= cs.len(),
        child_with(cs.take(k), name) is Some,
    ensures
        child_with(cs, name) == child_with(cs.take(k), name),
    decreases cs.len() - k,
{
    if k < cs.len() {
        assert(cs.take(k + 1).drop_last() =~= cs.take(k));
        lemma_child_with_stays(cs, name, k + 1);
    } else {
        assert(cs.take(k) =~= cs);
    }
}

/// Decides where a lookup of `path` has to read.
pub fn plan_lookup(rows: &Vec<DirRow>, path: &str) -> (r: Plan)
    ensures
        r@ == planned(row_views(rows@), path@),
{
    let norm = normalize_path(path);
    if let Some(row) = find_dir(rows, norm.as_str()) {
        return Plan::Dir(row.clone());
    }
    let parent = parent_path(norm.as_str());
    match find_dir(rows, parent.as_str()) {
        Some(row) => Plan::Within { row: row.clone(), name: last_segment(norm.as_str()) },
        None => Plan::Nowhere,
    }
}

/// Ends a lookup, given what was read as the block of its plan.
pub fn lookup_with(plan: Plan, block: Result<Vec<u8>, String>) -> (r: Result<
    Option<Lookup>,
    String,
>)
    ensures
        lookup_view(r) == looked_up(plan@, bytes_view(block)),
{
    if let Plan::Nowhere = plan {
        return Ok(None);
    }
    let data = match block {
        Ok(data) => data,
        Err(e) => {
            return Err(e);
        },
    };
    let len = ((data.len() as u64) % 0x1_0000_0000) as u32;
    let children = match parse_child_block(data.as_slice(), 0, len) {
        Ok(cs) => cs,
        Err(e) => {
            return Err(e);
        },
    };
    match plan {
        Plan::Dir(row) => {
            let name = last_segment(row.path.as_str());
            let info = ChildInfo {
                name,
                is_dir: true,
                size: row.size,
                mtime: row.mtime,
                etag: row.etag,
                id: row.id,
            };
            Ok(Some(Lookup::Dir { info, children }))
        },
        Plan::Within { row: _, name } => {
            let ghost all = child_views(children@);
            let n = children.len();
            for i in 0..n
                invariant
                    n == children@.len(),
                    all == child_views(children@),
                    child_with(all.take(i as int), name@) is None,
                    bytes_view(block) == Ok::<Seq<u8>, Seq<char>>(data@),
                    child_block(data@, 0, data@.len() % two32()) == Ok::<
                        Seq<ChildView>,
                        Seq<char>,
                    >(all),
                    plan@ is Within,
                    plan@->name == name@,
            {
                assert(all.take(i + 1).drop_last() =~= all.take(i as int));
                assert(all.take(i + 1).last() == children@[i as int]@);
                if text_eq(children[i].name.as_str(), name.as_str()) {
                    proof {
                        lemma_child_with_stays(all, name@, i + 1);
                    }
                    return Ok(Some(Lookup::File(children[i].clone())));
                }
            }
            assert(all.take(n as int) =~= all);
            Ok(None)
        },
        Plan::Nowhere => Ok(None),
    }
}

/// The result of a lookup in a whole snapshot.
pub open spec fn found_in(bytes: Seq<u8>, path: Seq<char>) -> Result<
    Option<LookupView>,
    Seq<char>,
> {
    match table_of(bytes) {
        Err(e) => Err(e),
        Ok(rows) => {
            let plan = planned(rows, path);
            looked_up(plan, block_in(bytes, plan))
        },
    }
}

/// The block that a plan asks for, read from a whole snapshot.
pub open spec fn block_in(bytes: Seq<u8>, plan: PlanView) -> Result<Seq<u8>, Seq<char>> {
    match plan {
        PlanView::Dir(row) => cut(bytes, row),
        PlanView::Within { row, name } => cut(bytes, row),
        PlanView::Nowhere => Ok(Seq::empty()),
    }
}

/// The bytes of a row's block.
pub open spec fn cut(bytes: Seq<u8>, row: RowView) -> Result<Seq<u8>, Seq<char>> {
    if row.block_off + row.block_len > bytes.len() {
        Err("child block out of range"@)
    } else {
        Ok(bytes.subrange(row.block_off as int, row.block_off + row.block_len))
    }
}

/// Reads a row's block from a whole snapshot.
fn cut_block(bytes: &[u8], row: &DirRow) -> (r: Result<Vec<u8>, String>)
    ensures
        bytes_view(r) == cut(bytes@, row@),
{
    let total = bytes.len() as u64;
    if row.block_off > total || row.block_len as u64 > total - row.block_off {
        return Err("child block out of range".to_owned());
    }
    let start = row.block_off as usize;
    Ok(slice_to_vec(slice_subrange(bytes, start, start + row.block_len as usize)))
}

/// Looks a path up in a whole snapshot.
pub fn lookup_bytes(bytes: &[u8], path: &str) -> (r: Result<Option<Lookup>, String>)
    ensures
        lookup_view(r) == found_in(bytes@, path@),
{
    let rows = match read_table(bytes) {
        Ok(rows) => rows,
        Err(e) => {
            return Err(e);
        },
    };
    let plan = plan_lookup(&rows, path);
    let block = match &plan {
        Plan::Dir(row) => cut_block(bytes, row),
        Plan::Within { row, name: _ } => cut_block(bytes, row),
        Plan::Nowhere => Ok(Vec::new()),
    };
    lookup_with(plan, block)
}

/// What a lookup in a snapshot file waits for.
#[derive(Debug)]
pub enum LookupState {
    Header,
    Table { dir_count: u32 },
    Block { plan: Plan },
}

/// What a [`LookupState`] stands for.
pub enum LookupStateView {
    Header,
    Table { dir_count: u32 },
    Block { plan: PlanView },
}

impl View for LookupState {
    type V = LookupStateView;

    open spec fn view(&self) -> LookupStateView {
        match *self {
            LookupState::Header => LookupStateView::Header,
            LookupState::Table { dir_count } => LookupStateView::Table { dir_count },
            LookupState::Block { plan } => LookupStateView::Block { plan: plan@ },
        }
    }
}

/// What a lookup in a snapshot file does next: read a range of
/// [`INDEX_FILE`] and go on in the next state, or end.
#[derive(Debug)]
pub enum LookupAction {
    Read { offset: u64, len: u64, next: LookupState },
    Done(Result<Option<Lookup>, String>),
}

/// What a [`LookupAction`] stands for.
pub enum LookupActionView {
    Read { offset: u64, len: u64, next: LookupStateView },
    Done(Result<Option<LookupView>, Seq<char>>),
}

impl View for LookupAction {
    type V = LookupActionView;

    open spec fn view(&self) -> LookupActionView {
        match *self {
            LookupAction::Read { offset, len, next } => LookupActionView::Read {
                offset,
                len,
                next: next@,
            },
            LookupAction::Done(r) => LookupActionView::Done(lookup_view(r)),
        }
    }
}

/// What the outcome of reading a range of a file stands for; `None` if there
/// is no such file.
pub open spec fn range_view(r: Result<Option<Vec<u8>>, String>) -> Result<
    Option<Seq<u8>>,
    Seq<char>,
> {
    match r {
        Ok(Some(data)) => Ok(Some(data@)),
        Ok(None) => Ok(None),
        Err(e) => Err(e@),
    }
}

/// Whether the plan has a block of at least one byte.
pub open spec fn wanted(plan: PlanView) -> Option<RowView> {
    match plan {
        PlanView::Dir(row) => if row.block_len == 0 {
            None
        } else {
            Some(row)
        },
        PlanView::Within { row, name } => if row.block_len == 0 {
            None
        } else {
            Some(row)
        },
        PlanView::Nowhere => None,
    }
}

/// What a lookup does once its plan is made: an empty block is not read.
pub open spec fn after_plan(plan: PlanView) -> LookupActionView {
    match wanted(plan) {
        Some(row) => LookupActionView::Read {
            offset: row.block_off,
            len: row.block_len as u64,
            next: LookupStateView::Block { plan },
        },
        None => LookupActionView::Done(looked_up(plan, Ok(Seq::empty()))),
    }
}

/// What a lookup does after a read.
pub open spec fn after_read(
    path: Seq<char>,
    state: LookupStateView,
    reply: Result<Option<Seq<u8>>, Seq<char>>,
) -> LookupActionView {
    match (state, reply) {
        (_, Err(e)) => LookupActionView::Done(Err(e)),
        (LookupStateView::Header, Ok(None)) => LookupActionView::Done(Ok(None)),
        (LookupStateView::Header, Ok(Some(data))) => if data.len() < HEADER_LEN {
            LookupActionView::Done(Err("index header truncated"@))
        } else {
            match header_of(data) {
                Err(e) => LookupActionView::Done(Err(e)),
                Ok((off, count, meta_off, _)) => LookupActionView::Read {
                    offset: off,
                    len: if meta_off > off {
                        (meta_off - off) as u64
                    } else {
                        0
                    },
                    next: LookupStateView::Table { dir_count: count },
                },
            }
        },
        (LookupStateView::Table { dir_count }, Ok(None)) => LookupActionView::Done(
            Err("index dir table missing"@),
        ),
        (LookupStateView::Table { dir_count }, Ok(Some(data))) => match rows_from(
            data,
            0,
            dir_count as nat,
        ) {
            Err(e) => LookupActionView::Done(Err(e)),
            Ok(rows) => after_plan(planned(rows, path)),
        },
        (LookupStateView::Block { plan }, Ok(None)) => LookupActionView::Done(
            looked_up(plan, Err("index child block missing"@)),
        ),
        (LookupStateView::Block { plan }, Ok(Some(data))) => LookupActionView::Done(
            looked_up(plan, Ok(data)),
        ),
    }
}

/// How a lookup in the snapshot file begins.
pub open spec fn first_read() -> LookupActionView {
    LookupActionView::Read { offset: 0, len: HEADER_LEN as u64, next: LookupStateView::Header }
}

/// Starts a lookup in the snapshot file: the header is read first.
pub fn lookup_file() -> (r: LookupAction)
    ensures
        r@ == first_read(),
{
    LookupAction::Read { offset: 0, len: HEADER_LEN as u64, next: LookupState::Header }
}

/// Goes on with a lookup of `path`, given the outcome of the read it asked
/// for.
pub fn lookup_file_step(
    path: &str,
    state: LookupState,
    reply: Result<Option<Vec<u8>>, String>,
) -> (r: LookupAction)
    ensures
        r@ == after_read(path@, state@, range_view(reply)),
{
    let read = match reply {
        Ok(read) => read,
        Err(e) => {
            return LookupAction::Done(Err(e));
        },
    };
    match state {
        LookupState::Header => {
            let data = match read {
                Some(data) => data,
                None => {
                    return LookupAction::Done(Ok(None));
                },
            };
            if data.len() < HEADER_LEN {
                return LookupAction::Done(Err("index header truncated".to_owned()));
            }
            match parse_header(data.as_slice()) {
                Err(e) => LookupAction::Done(Err(e)),
                Ok((off, count, meta_off, _len)) => LookupAction::Read {
                    offset: off,
                    len: meta_off.saturating_sub(off),
                    next: LookupState::Table { dir_count: count },
                },
            }
        },
        LookupState::Table { dir_count } => {
            let data = match read {
                Some(data) => data,
                None => {
                    return LookupAction::Done(Err("index dir table missing".to_owned()));
                },
            };
            match parse_dir_table(data.as_slice(), dir_count) {
                Err(e) => LookupAction::Done(Err(e)),
                Ok(rows) => {
                    let plan = plan_lookup(&rows, path);
                    let range = match &plan {
                        Plan::Dir(row) => Some((row.block_off, row.block_len)),
                        Plan::Within { row, name: _ } => Some((row.block_off, row.block_len)),
                        Plan::Nowhere => None,
                    };
                    match range {
                        Some((offset, len)) if len > 0 => LookupAction::Read {
                            offset,
                            len: len as u64,
                            next: LookupState::Block { plan },
                        },
                        _ => LookupAction::Done(lookup_with(plan, Ok(Vec::new()))),
                    }
                },
            }
        },
        LookupState::Block { plan } => {
            let block = match read {
                Some(data) => Ok(data),
                None => Err("index child block missing".to_owned()),
            };
            LookupAction::Done(lookup_with(plan, block))
        },
    }
}

} // verus!
