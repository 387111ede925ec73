//! Laws of the stored snapshot: which bytes stand where, what is refused, and
//! what is stored of a folder and its children.
use vstd::prelude::*;
use vstd::utf8::*;
use crate::format::{
    child_bytes, header_of, le, le_value, row_bytes, text_at, text_bytes, ChildView, RowView,
};
use crate::format_laws::rows_bytes;
use crate::index::{kids_of, located, IndexView};
use crate::snapshot::{
    after_read, blocks, child_of, children_stored, decoded, dir_rows, dir_set, encoded,
    index_from_meta, listing, meta_at, meta_values, row_info, row_of, table_of, LookupActionView,
    LookupStateView, PlanView, SnapshotMetaView,
};
use crate::snapshot_laws::lemma_in_order_exists;
use crate::text::text_lt;
use crate::textmap::{in_order, pair_lt, pairs_ascending};

verus! {

/// Numbers are stored with the least significant byte first.
pub proof fn law_numbers_are_little_endian(n: nat, a: u8, b: u8, c: u8, d: u8)
    ensures
        le(n, 4) == seq![
            (n % 256) as u8,
            (n / 256 % 256) as u8,
            (n / 65536 % 256) as u8,
            (n / 16777216 % 256) as u8,
        ],
        le(n, 8) == le(n, 4) + le(n / 4294967296, 4),
        le_value(seq![a, b, c, d]) == a + 256 * b + 65536 * c + 16777216 * d,
{
    reveal_with_fuel(le, 9);
    assert(n / 256 / 256 == n / 65536);
    assert(n / 65536 / 256 == n / 16777216);
    assert(n / 16777216 / 256 == n / 4294967296);
    assert(le(n, 4) =~= seq![
        (n % 256) as u8,
        (n / 256 % 256) as u8,
        (n / 65536 % 256) as u8,
        (n / 16777216 % 256) as u8,
    ]);
    assert(le(n, 8) =~= le(n, 4) + le(n / 4294967296, 4));
    reveal_with_fuel(le_value, 5);
    assert(seq![a, b, c, d].drop_first() =~= seq![b, c, d]);
    assert(seq![b, c, d].drop_first() =~= seq![c, d]);
    assert(seq![c, d].drop_first() =~= seq![d]);
    assert(seq![d].drop_first() =~= Seq::<u8>::empty());
}

/// A snapshot begins with `ODIX` and version one, then says where its table
/// begins and how many rows it has, and where its meta section begins and how
/// long it is. The blocks come first, then the table, then the meta section.
pub proof fn law_snapshot_layout(s: IndexView, meta: Seq<u8>)
    requires
        in_order(dir_set(s)).len() < 4294967296,
        meta.len() < 4294967296,
    ensures
        ({
            let q = in_order(dir_set(s));
            let body = blocks(s, q);
            let table = rows_bytes(dir_rows(s, q));
            encoded(s, meta) == seq![79u8, 68u8, 73u8, 88u8, 1u8, 0u8, 0u8, 0u8] + le(
                32 + body.len(),
                8,
            ) + le(q.len(), 4) + le(32 + body.len() + table.len(), 8) + le(meta.len(), 4) + body
                + table + meta
        }),
{
    reveal(encoded);
    law_numbers_are_little_endian(1, 0, 0, 0, 0);
    let q = in_order(dir_set(s));
    let body = blocks(s, q);
    let table = rows_bytes(dir_rows(s, q));
    let a = le(32 + body.len(), 8);
    let b = le(q.len(), 4);
    let c = le(32 + body.len() + table.len(), 8);
    let d = le(meta.len(), 4);
    assert(seq![79u8, 68u8, 73u8, 88u8] + le(1, 4) =~= seq![
        79u8,
        68u8,
        73u8,
        88u8,
        1u8,
        0u8,
        0u8,
        0u8,
    ]);
    assert(q.len() % 0x1_0000_0000 == q.len());
    assert(meta.len() % 0x1_0000_0000 == meta.len());
}

/// What a child and a row are stored as.
pub proof fn law_stored_entries(c: ChildView, r: RowView, t: Seq<char>)
    requires
        encode_utf8(t).len() < 4294967296,
    ensures
        text_bytes(t) == le(encode_utf8(t).len(), 4) + encode_utf8(t),
        c.is_dir ==> child_bytes(c) == text_bytes(c.name) + seq![1u8] + le(c.size as nat, 8) + le(
            c.mtime as nat,
            8,
        ) + text_bytes(c.etag) + text_bytes(c.id),
        !c.is_dir ==> child_bytes(c) == text_bytes(c.name) + seq![0u8] + le(c.size as nat, 8) + le(
            c.mtime as nat,
            8,
        ) + text_bytes(c.etag) + text_bytes(c.id),
        row_bytes(r) == text_bytes(r.path) + le(r.block_off as nat, 8) + le(r.block_len as nat, 4)
            + text_bytes(r.id) + le(r.size as nat, 8) + le(r.mtime as nat, 8) + text_bytes(r.etag),
{
    assert(encode_utf8(t).len() % 0x1_0000_0000 == encode_utf8(t).len());
}

/// A file that is too short for a header, does not begin as a snapshot does, has
/// another version, or points beyond its end is refused; any other header is
/// taken at its word.
pub proof fn law_bad_headers_are_refused(bytes: Seq<u8>)
    ensures
        ({
            let off = le_value(bytes.subrange(8, 16)) as u64;
            let meta_off = le_value(bytes.subrange(20, 28)) as u64;
            let bad = bytes.len() < 32 || bytes.take(4) != seq![79u8, 68u8, 73u8, 88u8] || le_value(
                bytes.subrange(4, 8),
            ) != 1 || bytes.len() > 32 && (off > bytes.len() || meta_off > bytes.len());
            &&& bad ==> header_of(bytes) is Err
            &&& !bad ==> header_of(bytes) == Ok::<(u64, u32, u64, u32), Seq<char>>(
                (
                    off,
                    le_value(bytes.subrange(16, 20)) as u32,
                    meta_off,
                    le_value(bytes.subrange(28, 32)) as u32,
                ),
            )
        }),
{
}

/// A text that does not fit in what is left, or is no UTF-8, is refused.
pub proof fn law_bad_texts_are_refused(data: Seq<u8>, pos: int)
    requires
        0 <= pos,
    ensures
        data.len() < pos + 4 ==> text_at(data, pos) is Err,
        data.len() >= pos + 4 && data.len() < pos + 4 + le_value(data.subrange(pos, pos + 4))
            ==> text_at(data, pos) is Err,
        data.len() >= pos + 4 && data.len() >= pos + 4 + le_value(data.subrange(pos, pos + 4)) && ({
            let end = pos + 4 + le_value(data.subrange(pos, pos + 4));
            !valid_utf8(data.subrange(pos + 4, end))
        }) ==> text_at(data, pos) is Err,
{
}

/// The meta section holds the place in the feed, whether the crawl is complete,
/// the generation and the root, and gives them back. It holds no time.
pub proof fn law_meta_section(s: IndexView, m: SnapshotMetaView)
    ensures
        ({
            let v = meta_values(s);
            v.delta_token == s.delta_token && v.pending_next_link == s.pending_next_link
                && v.crawl_complete == s.crawl_complete && v.generation == s.generation && v.root_id
                == s.root && v.built_at == 0
        }),
        ({
            let t = index_from_meta(m);
            t.delta_token == m.delta_token && t.pending_next_link == m.pending_next_link
                && t.crawl_complete == m.crawl_complete && t.generation == m.generation && t.root
                == m.root_id
        }),
{
}

/// Whether what is stored of a child is what the index has of it.
pub open spec fn describes(s: IndexView, name: Seq<char>, id: Seq<char>, c: ChildView) -> bool {
    &&& c.name == name && c.id == id
    &&& c.is_dir == s.nodes[id].meta.is_dir
    &&& c.size == s.nodes[id].meta.size
    &&& c.mtime == s.nodes[id].meta.mtime
    &&& c.etag == s.nodes[id].meta.etag
}

/// Whether the child is one of the listed pairs.
spec fn is_listed(s: IndexView, q: Seq<(Seq<char>, Seq<char>)>, c: ChildView) -> bool {
    exists|j: int|
        0 <= j < q.len() && s.nodes.dom().contains((#[trigger] q[j]).1) && describes(
            s,
            q[j].0,
            q[j].1,
            c,
        )
}

proof fn lemma_listing(s: IndexView, q: Seq<(Seq<char>, Seq<char>)>)
    ensures
        forall|i: int|
            0 <= i < listing(s, q).len() ==> is_listed(s, q, #[trigger] listing(s, q)[i]),
        forall|j: int|
            0 <= j < q.len() && s.nodes.dom().contains((#[trigger] q[j]).1) ==> exists|i: int|
                0 <= i < listing(s, q).len() && describes(
                    s,
                    q[j].0,
                    q[j].1,
                    #[trigger] listing(s, q)[i],
                ),
    decreases q.len(),
{
    if q.len() > 0 {
        let up = q.drop_last();
        let a = listing(s, up);
        let b = listing(s, q);
        lemma_listing(s, up);
        assert forall|i: int| 0 <= i < b.len() implies is_listed(s, q, #[trigger] b[i]) by {
            if i < a.len() {
                assert(b[i] == a[i]);
                assert(is_listed(s, up, a[i]));
                let j = choose|j: int|
                    0 <= j < up.len() && s.nodes.dom().contains((#[trigger] up[j]).1) && describes(
                        s,
                        up[j].0,
                        up[j].1,
                        a[i],
                    );
                assert(q[j] == up[j]);
            } else {
                let j = q.len() - 1;
                assert(describes(s, q[j].0, q[j].1, b[i]));
            }
        }
        assert forall|j: int|
            0 <= j < q.len() && s.nodes.dom().contains((#[trigger] q[j]).1) implies exists|i: int|
            0 <= i < b.len() && describes(s, q[j].0, q[j].1, #[trigger] b[i]) by {
            if j < up.len() {
                assert(up[j] == q[j]);
                let i = choose|i: int|
                    0 <= i < a.len() && describes(s, up[j].0, up[j].1, #[trigger] a[i]);
                assert(b[i] == a[i]);
            } else {
                assert(describes(s, q[j].0, q[j].1, b[a.len() as int]));
            }
        }
    }
}

/// The children that are stored of a folder are those that are listed in it and
/// known, each as the index has it.
pub proof fn law_stored_children(s: IndexView, id: Seq<char>)
    requires
        kids_of(s, id).finite(),
    ensures
        forall|i: int|
            0 <= i < children_stored(s, id).len() ==> {
                let c = #[trigger] children_stored(s, id)[i];
                kids_of(s, id).contains((c.name, c.id)) && s.nodes.dom().contains(c.id)
                    && describes(s, c.name, c.id, c)
            },
        forall|name: Seq<char>, x: Seq<char>| #[trigger]
            kids_of(s, id).contains((name, x)) && s.nodes.dom().contains(x) ==> exists|i: int|
                0 <= i < children_stored(s, id).len() && describes(
                    s,
                    name,
                    x,
                    #[trigger] children_stored(s, id)[i],
                ),
{
    let q = in_order(kids_of(s, id));
    lemma_in_order_exists(kids_of(s, id));
    lemma_listing(s, q);
    let cs = children_stored(s, id);
    assert forall|i: int| 0 <= i < cs.len() implies ({
        let c = #[trigger] cs[i];
        kids_of(s, id).contains((c.name, c.id)) && s.nodes.dom().contains(c.id) && describes(
            s,
            c.name,
            c.id,
            c,
        )
    }) by {
        assert(is_listed(s, q, cs[i]));
        let j = choose|j: int|
            0 <= j < q.len() && s.nodes.dom().contains((#[trigger] q[j]).1) && describes(
                s,
                q[j].0,
                q[j].1,
                cs[i],
            );
        assert(q.to_set().contains(q[j]));
        assert(q[j] == (cs[i].name, cs[i].id));
    }
    assert forall|name: Seq<char>, x: Seq<char>| #[trigger]
        kids_of(s, id).contains((name, x)) && s.nodes.dom().contains(x) implies exists|i: int|
        0 <= i < cs.len() && describes(s, name, x, #[trigger] cs[i]) by {
        assert(q.to_set().contains((name, x)));
        let j = choose|j: int| 0 <= j < q.len() && q[j] == (name, x);
        assert(s.nodes.dom().contains(q[j].1));
    }
}

/// The children that are stored of a folder come by name.
pub proof fn law_stored_children_by_name(s: IndexView, id: Seq<char>)
    requires
        kids_of(s, id).finite(),
    ensures
        forall|i: int, j: int|
            0 <= i < j < children_stored(s, id).len() ==> {
                let a = #[trigger] children_stored(s, id)[i];
                let b = #[trigger] children_stored(s, id)[j];
                text_lt(a.name, b.name) || a.name == b.name && text_lt(a.id, b.id)
            },
{
    lemma_in_order_exists(kids_of(s, id));
    lemma_listing_order(s, in_order(kids_of(s, id)));
}

proof fn lemma_listing_order(s: IndexView, q: Seq<(Seq<char>, Seq<char>)>)
    requires
        pairs_ascending(q),
    ensures
        forall|i: int, j: int|
            0 <= i < j < listing(s, q).len() ==> {
                let a = #[trigger] listing(s, q)[i];
                let b = #[trigger] listing(s, q)[j];
                pair_lt((a.name, a.id), (b.name, b.id))
            },
    decreases q.len(),
{
    if q.len() > 0 {
        let up = q.drop_last();
        let xs = listing(s, up);
        let ys = listing(s, q);
        assert(pairs_ascending(up)) by {
            assert forall|i: int, j: int| 0 <= i < j < up.len() implies pair_lt(
                #[trigger] up[i],
                #[trigger] up[j],
            ) by {
                assert(pair_lt(q[i], q[j]));
            }
        }
        lemma_listing_order(s, up);
        lemma_listing(s, up);
        assert forall|i: int, j: int| 0 <= i < j < ys.len() implies ({
            let a = #[trigger] ys[i];
            let b = #[trigger] ys[j];
            pair_lt((a.name, a.id), (b.name, b.id))
        }) by {
            assert(ys[i] == xs[i]);
            if j < xs.len() {
                assert(ys[j] == xs[j]);
            } else {
                assert(is_listed(s, up, xs[i]));
                let k = choose|k: int|
                    0 <= k < up.len() && s.nodes.dom().contains((#[trigger] up[k]).1) && describes(
                        s,
                        up[k].0,
                        up[k].1,
                        xs[i],
                    );
                assert(q[k] == up[k]);
                assert(pair_lt(q[k], q[q.len() - 1]));
                assert((ys[j].name, ys[j].id) == q.last());
                assert((xs[i].name, xs[i].id) == up[k]);
            }
        }
    }
}

/// A row of the table describes the folder that it is about, and a folder that
/// is looked up is described by its row.
pub proof fn law_rows_describe_folders(
    s: IndexView,
    path: Seq<char>,
    id: Seq<char>,
    off: nat,
    row: RowView,
)
    ensures
        ({
            let r = row_of(s, (path, id), off);
            r.path == path && r.id == id && r.size == s.nodes[id].meta.size && r.mtime
                == s.nodes[id].meta.mtime && r.etag == s.nodes[id].meta.etag
        }),
        ({
            let c = row_info(row);
            c.id == row.id && c.is_dir && c.size == row.size && c.mtime == row.mtime && c.etag
                == row.etag
        }),
        dir_set(s).contains((path, id)) <==> s.nodes.dom().contains(id) && located(s, id) == Some(
            path,
        ) && (s.nodes[id].meta.is_dir || s.root == Some(id)),
        describes(s, path, id, child_of(s, (path, id))),
{
}

/// A snapshot whose header is bad, whose meta section does not lie within it or
/// cannot be read, or whose table does not lie within it is not loaded.
pub proof fn law_bad_snapshots_are_refused(
    bytes: Seq<u8>,
    meta: Result<SnapshotMetaView, Seq<char>>,
)
    ensures
        header_of(bytes) is Err ==> meta_at(bytes) is Err && table_of(bytes) is Err && decoded(
            bytes,
            meta,
        ) is Err,
        header_of(bytes) matches Ok((off, count, meta_off, meta_len)) ==> {
            &&& meta_off + meta_len > bytes.len() ==> meta_at(bytes) is Err && decoded(bytes, meta)
                is Err
            &&& meta_off + meta_len <= bytes.len() <= u64::MAX ==> meta_at(bytes) == Ok::<
                Seq<u8>,
                Seq<char>,
            >(bytes.subrange(meta_off as int, meta_off + meta_len))
            &&& off > meta_off || meta_off > bytes.len() ==> table_of(bytes) is Err
        },
        meta is Err ==> decoded(bytes, meta) is Err,
        table_of(bytes) is Err ==> decoded(bytes, meta) is Err,
        meta_at(bytes) is Ok ==> (meta matches Err(e) ==> decoded(bytes, meta) == Err::<
            IndexView,
            Seq<char>,
        >("index meta: "@ + e)),
{
}

/// A lookup finds nothing without a file, reads the table that the header names
/// and then the block that the table names, and fails on what is cut off.
pub proof fn law_lookup_steps(
    path: Seq<char>,
    state: LookupStateView,
    data: Seq<u8>,
    count: u32,
    plan: PlanView,
    error: Seq<char>,
)
    ensures
        after_read(path, state, Err(error)) matches LookupActionView::Done(Err(e)) && e == error,
        after_read(path, LookupStateView::Header, Ok(None)) matches LookupActionView::Done(Ok(None)),
        data.len() < 32 || header_of(data) is Err ==> (after_read(
            path,
            LookupStateView::Header,
            Ok(Some(data)),
        ) matches LookupActionView::Done(Err(_))),
        data.len() >= 32 ==> (header_of(data) matches Ok((off, n, meta_off, len)) ==> (off <= meta_off
            ==> after_read(path, LookupStateView::Header, Ok(Some(data))) == (
        LookupActionView::Read {
            offset: off,
            len: (meta_off - off) as u64,
            next: LookupStateView::Table { dir_count: n },
        }))),
        after_read(path, LookupStateView::Table { dir_count: count }, Ok(None)) matches
            LookupActionView::Done(Err(_)),
        !(plan is Nowhere) ==> (after_read(path, LookupStateView::Block { plan }, Ok(None)) matches
            LookupActionView::Done(Err(_))),
{
}

} // verus!
