//! Laws of snapshots: a saved index is loaded again as it was, and lookups in
//! a snapshot agree with the index.
use vstd::prelude::*;
use vstd::arithmetic::div_mod::lemma_small_mod;
use vstd::set_lib::lemma_set_subset_finite;
use crate::format::{
    child_block, header_bytes, header_of, lemma_header_len, two32, ChildView, RowView, HEADER_LEN,
};
use crate::format_laws::{
    child_fits, children_bytes, law_block_round_trip, law_header_round_trip, law_table_round_trip,
    row_fits, rows_bytes, stands_at, text_fits,
};
use crate::index::{
    child_named, kids_of, last_of_path, lineage, located, own_entry, parent_of_path, reaches,
    resolved, walk, IndexView, MetaView, NodeView, MAX_DEPTH,
};
use crate::index_laws::{consistent, distinct, root_on_top};
use crate::path_laws::law_path_parts;
use crate::resolve_laws::{clean_names, law_path_of_child, law_paths_unique, lemma_lineage_walk};
use crate::snapshot::{
    add_children, blocks, child_node, child_of, child_pairs, children_stored, decoded, dir_rows,
    dir_set, encoded, has_row, index_from_meta, lemma_dir_rows_len, listing, meta_at, meta_values,
    path_ids, rebuilt, row_node, row_of, table_of, tied, tied_all, with_dir, with_dirs,
};
use crate::text::{path_text, segments};
use crate::textmap::{in_order, lemma_pair_lt_total, lemma_pair_lt_trans, pair_lt, pairs_ascending};

verus! {

/// Number of pairs before `x` in ascending pairs that do not hold it.
proof fn lemma_rank(q: Seq<(Seq<char>, Seq<char>)>, x: (Seq<char>, Seq<char>)) -> (k: int)
    requires
        pairs_ascending(q),
        !q.contains(x),
    ensures
        0 <= k <= q.len(),
        forall|i: int| 0 <= i < k ==> pair_lt(#[trigger] q[i], x),
        forall|i: int| k <= i < q.len() ==> pair_lt(x, #[trigger] q[i]),
    decreases q.len(),
{
    if q.len() == 0 {
        0
    } else {
        let up = q.drop_last();
        let last = q[q.len() - 1];
        assert(q.contains(last));
        lemma_pair_lt_total(last, x);
        if pair_lt(last, x) {
            assert forall|i: int| 0 <= i < q.len() implies pair_lt(#[trigger] q[i], x) by {
                if i < q.len() - 1 {
                    lemma_pair_lt_trans(q[i], last, x);
                }
            }
            q.len() as int
        } else {
            assert forall|i: int, j: int| 0 <= i < j < up.len() implies pair_lt(
                #[trigger] up[i],
                #[trigger] up[j],
            ) by {
                assert(pair_lt(q[i], q[j]));
            }
            assert(!up.contains(x)) by {
                if up.contains(x) {
                    let i = choose|i: int| 0 <= i < up.len() && up[i] == x;
                    assert(q[i] == x);
                }
            }
            let k = lemma_rank(up, x);
            assert forall|i: int| k <= i < q.len() implies pair_lt(x, #[trigger] q[i]) by {
                if i < up.len() {
                    assert(up[i] == q[i]);
                }
            }
            assert forall|i: int| 0 <= i < k implies pair_lt(#[trigger] q[i], x) by {
                assert(up[i] == q[i]);
            }
            k
        }
    }
}

/// A finite set of pairs has an ascending form.
pub proof fn lemma_in_order_exists(set: Set<(Seq<char>, Seq<char>)>)
    requires
        set.finite(),
    ensures
        pairs_ascending(in_order(set)),
        in_order(set).to_set() == set,
    decreases set.len(),
{
    if set.len() == 0 {
        let q = Seq::<(Seq<char>, Seq<char>)>::empty();
        assert(q.to_set() =~= set);
        assert(pairs_ascending(q) && q.to_set() == set);
    } else {
        let x = set.choose();
        let rest = set.remove(x);
        lemma_in_order_exists(rest);
        let q = in_order(rest);
        assert(!q.contains(x)) by {
            assert(q.to_set().contains(x) <==> q.contains(x));
        }
        let k = lemma_rank(q, x);
        let p = q.insert(k, x);
        assert forall|i: int, j: int| 0 <= i < j < p.len() implies pair_lt(
            #[trigger] p[i],
            #[trigger] p[j],
        ) by {
            let a = if i < k {
                i
            } else {
                i - 1
            };
            let b = if j < k {
                j
            } else {
                j - 1
            };
            if i != k && j != k {
                assert(p[i] == q[a] && p[j] == q[b]);
            } else if i == k {
                assert(p[j] == q[b]);
            } else {
                assert(p[i] == q[a]);
            }
        }
        assert forall|e: (Seq<char>, Seq<char>)| #[trigger]
            p.to_set().contains(e) <==> set.contains(e) by {
            if set.contains(e) && e != x {
                assert(q.to_set().contains(e));
                let i = choose|i: int| 0 <= i < q.len() && q[i] == e;
                assert(p[if i < k {
                    i
                } else {
                    i + 1
                }] == e);
            }
            if e == x {
                assert(p[k] == x);
            }
            if p.contains(e) && e != x {
                let i = choose|i: int| 0 <= i < p.len() && p[i] == e;
                let a = if i < k {
                    i
                } else {
                    i - 1
                };
                assert(p[i] == q[a]);
                assert(q.to_set().contains(q[a]));
            }
        }
        assert(p.to_set() =~= set);
        assert(pairs_ascending(p) && p.to_set() == set);
    }
}

/// Whether the index is a tree: consistent, without orphans, with one root on
/// top of everything, every parent a folder, and every name fit for a path.
pub open spec fn is_tree(s: IndexView) -> bool {
    &&& consistent(s)
    &&& root_on_top(s)
    &&& clean_names(s)
    &&& s.nodes.dom().finite()
    &&& forall|x: Seq<char>| #[trigger]
        s.nodes.dom().contains(x) ==> s.root is Some && reaches(
            s.nodes,
            s.root->0,
            x,
            MAX_DEPTH as nat,
        )
    &&& forall|x: Seq<char>| #[trigger]
        s.nodes.dom().contains(x) && s.nodes[x].parent is Some ==> s.nodes[s.nodes[x].parent->0].meta.is_dir
            || s.root == s.nodes[x].parent
}

/// Whether all lengths of the index's snapshot can be stored.
#[verifier::opaque]
pub open spec fn fits(s: IndexView, meta: Seq<u8>) -> bool {
    &&& forall|x: Seq<char>| #[trigger]
        s.nodes.dom().contains(x) ==> text_fits(x) && text_fits(s.nodes[x].name) && text_fits(
            s.nodes[x].meta.etag,
        )
    &&& forall|x: Seq<char>|
        s.nodes.dom().contains(x) ==> text_fits((#[trigger] located(s, x))->0)
    &&& forall|x: Seq<char>|
        s.nodes.dom().contains(x) ==> children_bytes(#[trigger] children_stored(s, x)).len()
            < two32()
    &&& in_order(dir_set(s)).len() < two32()
    &&& meta.len() < two32()
    &&& encoded(s, meta).len() <= u64::MAX
}

/// What the layout can hold of a node.
pub proof fn lemma_fits_node(s: IndexView, meta: Seq<u8>, x: Seq<char>)
    requires
        fits(s, meta),
        s.nodes.dom().contains(x),
    ensures
        text_fits(x),
        text_fits(s.nodes[x].name),
        text_fits(s.nodes[x].meta.etag),
        text_fits(located(s, x)->0),
        children_bytes(children_stored(s, x)).len() < two32(),
{
    reveal(fits);
}

/// What the layout can hold altogether.
pub proof fn lemma_fits_sizes(s: IndexView, meta: Seq<u8>)
    requires
        fits(s, meta),
    ensures
        in_order(dir_set(s)).len() < two32(),
        meta.len() < two32(),
        encoded(s, meta).len() <= u64::MAX,
{
    reveal(fits);
}

/// Every node of a tree has a path.
pub proof fn lemma_located(s: IndexView, x: Seq<char>)
    requires
        is_tree(s),
        s.nodes.dom().contains(x),
    ensures
        located(s, x) is Some,
{
    lemma_lineage_walk(s, x, MAX_DEPTH as nat);
}

/// What a folder of a tree lists has an ascending form.
pub proof fn lemma_kids_order(s: IndexView, p: Seq<char>)
    requires
        is_tree(s),
    ensures
        pairs_ascending(in_order(kids_of(s, p))),
        in_order(kids_of(s, p)).to_set() == kids_of(s, p),
{
    let f = |x: Seq<char>| (s.nodes[x].name, x);
    let all = s.nodes.dom().map(f);
    s.nodes.dom().lemma_map_finite(f);
    assert forall|e: (Seq<char>, Seq<char>)| #[trigger] kids_of(s, p).contains(e) implies all.contains(
        e,
    ) by {
        assert(own_entry(s.nodes, p, e));
        assert(f(e.1) == e);
    }
    lemma_set_subset_finite(all, kids_of(s, p));
    lemma_in_order_exists(kids_of(s, p));
}

proof fn lemma_dirs_order(s: IndexView)
    requires
        is_tree(s),
    ensures
        pairs_ascending(in_order(dir_set(s))),
        in_order(dir_set(s)).to_set() == dir_set(s),
{
    let f = |x: Seq<char>| (located(s, x)->0, x);
    let all = s.nodes.dom().map(f);
    s.nodes.dom().lemma_map_finite(f);
    assert forall|e: (Seq<char>, Seq<char>)| #[trigger] dir_set(s).contains(e) implies all.contains(
        e,
    ) by {
        assert(f(e.1) == e);
    }
    lemma_set_subset_finite(all, dir_set(s));
    lemma_in_order_exists(dir_set(s));
}

/// The rows of a tree: each is a folder with its path, every folder has one,
/// and no path occurs twice.
pub proof fn lemma_dirs(s: IndexView)
    requires
        is_tree(s),
    ensures
        forall|i: int|
            0 <= i < in_order(dir_set(s)).len() ==> has_row(
                s,
                (#[trigger] in_order(dir_set(s))[i]).1,
            ) && located(s, in_order(dir_set(s))[i].1) == Some(in_order(dir_set(s))[i].0),
        forall|i: int, j: int|
            0 <= i < j < in_order(dir_set(s)).len() ==> (#[trigger] in_order(dir_set(s))[i]).0 != (
            #[trigger] in_order(dir_set(s))[j]).0,
{
    let q = in_order(dir_set(s));
    lemma_dirs_order(s);
    assert forall|i: int| 0 <= i < q.len() implies has_row(s, (#[trigger] q[i]).1) && located(
        s,
        q[i].1,
    ) == Some(q[i].0) by {
        assert(q.to_set().contains(q[i]));
    }
    assert forall|i: int, j: int| 0 <= i < j < q.len() implies (#[trigger] q[i]).0 != (
    #[trigger] q[j]).0 by {
        if q[i].0 == q[j].0 {
            law_paths_unique(s, q[i].1, q[j].1);
            lemma_pair_lt_total(q[i], q[j]);
        }
    }
}

/// Every directory of a tree has its place among the rows.
pub proof fn lemma_dir_index(s: IndexView, x: Seq<char>) -> (i: int)
    requires
        is_tree(s),
        has_row(s, x),
    ensures
        0 <= i < in_order(dir_set(s)).len(),
        in_order(dir_set(s))[i] == (located(s, x)->0, x),
{
    let q = in_order(dir_set(s));
    lemma_dirs_order(s);
    let e = (located(s, x)->0, x);
    assert(dir_set(s).contains(e));
    assert(q.to_set().contains(e));
    choose|i: int| 0 <= i < q.len() && q[i] == e
}

proof fn lemma_dir_row_at(s: IndexView, q: Seq<(Seq<char>, Seq<char>)>, i: int)
    requires
        0 <= i < q.len(),
    ensures
        dir_rows(s, q).len() == q.len(),
        dir_rows(s, q)[i] == row_of(s, q[i], HEADER_LEN as nat + blocks(s, q.take(i)).len()),
    decreases q.len(),
{
    lemma_dir_rows_len(s, q);
    lemma_dir_rows_len(s, q.drop_last());
    if i == q.len() - 1 {
        assert(q.take(i) =~= q.drop_last());
    } else {
        lemma_dir_row_at(s, q.drop_last(), i);
        assert(q.drop_last().take(i) =~= q.take(i));
    }
}

proof fn lemma_block_at(s: IndexView, q: Seq<(Seq<char>, Seq<char>)>, i: int)
    requires
        0 <= i < q.len(),
    ensures
        stands_at(
            blocks(s, q),
            blocks(s, q.take(i)).len() as int,
            children_bytes(children_stored(s, q[i].1)),
        ),
    decreases q.len(),
{
    let piece = children_bytes(children_stored(s, q[i].1));
    let at = blocks(s, q.take(i)).len() as int;
    if i == q.len() - 1 {
        assert(q.take(i) =~= q.drop_last());
        assert(blocks(s, q).subrange(at, at + piece.len()) =~= piece);
    } else {
        lemma_block_at(s, q.drop_last(), i);
        assert(q.drop_last().take(i) =~= q.take(i));
        let up = blocks(s, q.drop_last());
        assert(blocks(s, q).subrange(at, at + piece.len()) =~= up.subrange(at, at + piece.len()));
    }
}

/// Listing known children lists them all.
proof fn lemma_listing(s: IndexView, q: Seq<(Seq<char>, Seq<char>)>)
    requires
        forall|i: int| 0 <= i < q.len() ==> s.nodes.dom().contains((#[trigger] q[i]).1),
    ensures
        listing(s, q).len() == q.len(),
        forall|i: int| 0 <= i < q.len() ==> #[trigger] listing(s, q)[i] == child_of(s, q[i]),
    decreases q.len(),
{
    if q.len() > 0 {
        let up = q.drop_last();
        assert forall|i: int| 0 <= i < up.len() implies s.nodes.dom().contains(
            (#[trigger] up[i]).1,
        ) by {
            assert(up[i] == q[i]);
        }
        lemma_listing(s, up);
        assert(s.nodes.dom().contains(q[q.len() - 1].1));
        assert forall|i: int| 0 <= i < q.len() implies #[trigger] listing(s, q)[i] == child_of(
            s,
            q[i],
        ) by {
            if i < up.len() {
                assert(listing(s, up)[i] == child_of(s, up[i]));
            }
        }
    }
}

/// The stored children of a folder are the entries listed below it.
pub proof fn lemma_children_stored(s: IndexView, p: Seq<char>)
    requires
        is_tree(s),
    ensures
        children_stored(s, p).len() == in_order(kids_of(s, p)).len(),
        forall|i: int|
            0 <= i < children_stored(s, p).len() ==> #[trigger] children_stored(s, p)[i]
                == child_of(s, in_order(kids_of(s, p))[i]) && own_entry(
                s.nodes,
                p,
                in_order(kids_of(s, p))[i],
            ),
        child_pairs(children_stored(s, p)) == kids_of(s, p),
{
    let q = in_order(kids_of(s, p));
    let cs = children_stored(s, p);
    lemma_kids_order(s, p);
    assert forall|i: int| 0 <= i < q.len() implies own_entry(s.nodes, p, #[trigger] q[i]) by {
        assert(q.to_set().contains(q[i]));
        assert(kids_of(s, p).contains(q[i]));
    }
    lemma_listing(s, q);
    let f = |c: ChildView| (c.name, c.id);
    assert forall|i: int| 0 <= i < cs.len() implies #[trigger] cs[i] == child_of(s, q[i])
        && own_entry(s.nodes, p, q[i]) by {
        assert(listing(s, q)[i] == child_of(s, q[i]));
    }
    assert(cs.map_values(f) =~= q) by {
        assert forall|i: int| 0 <= i < q.len() implies cs.map_values(f)[i] == q[i] by {
            assert(cs[i] == child_of(s, q[i]));
        }
    }
}

/// The parts of four byte strings one after the other.
proof fn lemma_four_parts(h: Seq<u8>, b: Seq<u8>, t: Seq<u8>, m: Seq<u8>)
    ensures
        h + b + t + m == h + (b + t + m),
        (h + b + t + m).subrange((h.len() + b.len()) as int, (h.len() + b.len() + t.len()) as int)
            == t,
        (h + b + t + m).subrange(
            (h.len() + b.len() + t.len()) as int,
            (h.len() + b.len() + t.len() + m.len()) as int,
        ) == m,
{
    let d = h + b + t + m;
    let i = (h.len() + b.len()) as int;
    assert(d =~= h + (b + t + m));
    assert(d.subrange(i, i + t.len()) =~= t);
    assert(d.subrange(i + t.len(), i + t.len() + m.len()) =~= m);
}

/// What stands in the second of four byte strings stands in all of them.
proof fn lemma_second_part(
    h: Seq<u8>,
    b: Seq<u8>,
    t: Seq<u8>,
    m: Seq<u8>,
    at: int,
    piece: Seq<u8>,
)
    requires
        stands_at(b, at, piece),
    ensures
        stands_at(h + b + t + m, h.len() + at, piece),
{
    let d = h + b + t + m;
    assert(d.subrange(h.len() + at, h.len() + at + piece.len()) =~= b.subrange(
        at,
        at + piece.len(),
    ));
}

/// All rows of a tree's snapshot can be stored.
proof fn lemma_rows_fit(s: IndexView, meta: Seq<u8>)
    requires
        is_tree(s),
        fits(s, meta),
    ensures
        forall|i: int|
            0 <= i < dir_rows(s, in_order(dir_set(s))).len() ==> row_fits(
                #[trigger] dir_rows(s, in_order(dir_set(s)))[i],
            ),
{
    let q = in_order(dir_set(s));
    let rows = dir_rows(s, q);
    lemma_dir_rows_len(s, q);
    lemma_dirs(s);
    assert forall|i: int| 0 <= i < rows.len() implies row_fits(#[trigger] rows[i]) by {
        lemma_dir_row_at(s, q, i);
        assert(has_row(s, q[i].1));
        lemma_fits_node(s, meta, q[i].1);
    }
}

/// Whether rows and meta section are read back from the file.
#[verifier::opaque]
pub open spec fn framed(data: Seq<u8>, rows: Seq<RowView>, meta: Seq<u8>) -> bool {
    &&& meta_at(data) == Ok::<Seq<u8>, Seq<char>>(meta)
    &&& table_of(data) == Ok::<Seq<RowView>, Seq<char>>(rows)
    &&& header_of(data) is Ok
}

/// What a file of blocks, rows and a meta section holds.
proof fn lemma_frame(body: Seq<u8>, rows: Seq<RowView>, meta: Seq<u8>, data: Seq<u8>)
    requires
        rows.len() < two32(),
        meta.len() < two32(),
        forall|i: int| 0 <= i < rows.len() ==> row_fits(#[trigger] rows[i]),
        data == header_bytes(
            HEADER_LEN as nat + body.len(),
            rows.len(),
            HEADER_LEN as nat + body.len() + rows_bytes(rows).len(),
            meta.len(),
        ) + body + rows_bytes(rows) + meta,
        data.len() <= u64::MAX,
    ensures
        framed(data, rows, meta),
{
    reveal(framed);
    let table = rows_bytes(rows);
    let a = HEADER_LEN as nat + body.len();
    let c = a + table.len();
    let h = header_bytes(a, rows.len(), c, meta.len());
    lemma_header_len(a, rows.len(), c, meta.len());
    lemma_four_parts(h, body, table, meta);
    assert(data.len() == c + meta.len());
    law_header_round_trip(
        a as u64,
        rows.len() as u32,
        c as u64,
        meta.len() as u32,
        body + table + meta,
    );
    assert(table.subrange(0, table.len() as int) =~= table);
    law_table_round_trip(table, 0, rows);
}

/// What the snapshot of a tree holds: its header, its rows and its meta
/// section.
pub proof fn lemma_layout(s: IndexView, meta: Seq<u8>)
    requires
        is_tree(s),
        fits(s, meta),
    ensures
        framed(encoded(s, meta), dir_rows(s, in_order(dir_set(s))), meta),
{
    let q = in_order(dir_set(s));
    let body = blocks(s, q);
    let rows = dir_rows(s, q);
    lemma_dir_rows_len(s, q);
    lemma_rows_fit(s, meta);
    lemma_fits_sizes(s, meta);
    lemma_encoded_is(s, meta, body, rows);
    lemma_frame(body, rows, meta, encoded(s, meta));
}

/// The snapshot in terms of its blocks and rows, if the counts can be stored.
proof fn lemma_encoded_is(s: IndexView, meta: Seq<u8>, body: Seq<u8>, rows: Seq<RowView>)
    requires
        in_order(dir_set(s)).len() < two32(),
        meta.len() < two32(),
        body == blocks(s, in_order(dir_set(s))),
        rows == dir_rows(s, in_order(dir_set(s))),
    ensures
        encoded(s, meta) == header_bytes(
            HEADER_LEN as nat + body.len(),
            rows.len(),
            HEADER_LEN as nat + body.len() + rows_bytes(rows).len(),
            meta.len(),
        ) + body + rows_bytes(rows) + meta,
{
    reveal(encoded);
    let q = in_order(dir_set(s));
    lemma_dir_rows_len(s, q);
    lemma_small_mod(q.len(), two32());
    lemma_small_mod(meta.len(), two32());
}

/// All stored children of a folder can be stored.
proof fn lemma_children_fit(s: IndexView, meta: Seq<u8>, p: Seq<char>)
    requires
        is_tree(s),
        fits(s, meta),
    ensures
        forall|j: int|
            0 <= j < children_stored(s, p).len() ==> child_fits(
                #[trigger] children_stored(s, p)[j],
            ),
{
    let cs = children_stored(s, p);
    let es = in_order(kids_of(s, p));
    lemma_children_stored(s, p);
    assert forall|j: int| 0 <= j < cs.len() implies child_fits(#[trigger] cs[j]) by {
        assert(children_stored(s, p)[j] == child_of(s, es[j]));
        assert(own_entry(s.nodes, p, es[j]));
        lemma_fits_node(s, meta, es[j].1);
    }
}

/// A block that stands in the file is read back.
proof fn lemma_block_frame(
    h: Seq<u8>,
    body: Seq<u8>,
    table: Seq<u8>,
    meta: Seq<u8>,
    at: int,
    cs: Seq<ChildView>,
)
    requires
        h.len() == HEADER_LEN,
        stands_at(body, at, children_bytes(cs)),
        forall|j: int| 0 <= j < cs.len() ==> child_fits(#[trigger] cs[j]),
    ensures
        stands_at(h + body + table + meta, HEADER_LEN + at, children_bytes(cs)),
        child_block(
            h + body + table + meta,
            (HEADER_LEN + at) as nat,
            children_bytes(cs).len(),
        ) == Ok::<Seq<ChildView>, Seq<char>>(cs),
        child_block(children_bytes(cs), 0, children_bytes(cs).len()) == Ok::<
            Seq<ChildView>,
            Seq<char>,
        >(cs),
{
    let piece = children_bytes(cs);
    lemma_second_part(h, body, table, meta, at, piece);
    law_block_round_trip(h + body + table + meta, (HEADER_LEN + at) as nat, cs);
    assert(piece.subrange(0, piece.len() as int) =~= piece);
    law_block_round_trip(piece, 0, cs);
}

/// Whether the `i`-th row describes its folder and its block is read back.
pub open spec fn row_reads(s: IndexView, meta: Seq<u8>, i: int) -> bool {
    let q = in_order(dir_set(s));
    let row = dir_rows(s, q)[i];
    let cs = children_stored(s, q[i].1);
    let piece = children_bytes(cs);
    &&& row.path == q[i].0
    &&& row.id == q[i].1
    &&& row.size == s.nodes[q[i].1].meta.size
    &&& row.mtime == s.nodes[q[i].1].meta.mtime
    &&& row.etag == s.nodes[q[i].1].meta.etag
    &&& row.block_len == piece.len()
    &&& stands_at(encoded(s, meta), row.block_off as int, piece)
    &&& child_block(encoded(s, meta), row.block_off as nat, row.block_len as nat) == Ok::<
        Seq<ChildView>,
        Seq<char>,
    >(cs)
    &&& child_block(piece, 0, piece.len()) == Ok::<Seq<ChildView>, Seq<char>>(cs)
}

/// The block of a row is read back from the snapshot.
pub proof fn lemma_block_read(s: IndexView, meta: Seq<u8>, i: int)
    requires
        is_tree(s),
        fits(s, meta),
        0 <= i < in_order(dir_set(s)).len(),
    ensures
        dir_rows(s, in_order(dir_set(s))).len() == in_order(dir_set(s)).len(),
        row_reads(s, meta, i),
{
    let q = in_order(dir_set(s));
    let x = q[i].1;
    let body = blocks(s, q);
    let rows = dir_rows(s, q);
    let table = rows_bytes(rows);
    let cs = children_stored(s, x);
    let piece = children_bytes(cs);
    let a = HEADER_LEN as nat + body.len();
    let at = blocks(s, q.take(i)).len() as int;
    let h = header_bytes(a, rows.len(), a + table.len(), meta.len());
    lemma_fits_sizes(s, meta);
    lemma_dir_rows_len(s, q);
    lemma_encoded_is(s, meta, body, rows);
    lemma_header_len(a, rows.len(), a + table.len(), meta.len());
    lemma_dir_row_at(s, q, i);
    lemma_block_at(s, q, i);
    lemma_children_fit(s, meta, x);
    lemma_block_frame(h, body, table, meta, at, cs);
    assert(piece.len() < two32()) by {
        lemma_dirs(s);
        assert(has_row(s, x));
        lemma_fits_node(s, meta, x);
    }
    lemma_small_mod(piece.len(), two32());
    assert(HEADER_LEN + at <= u64::MAX);
}

/// Whether one of the pairs has the id.
spec fn holds_id(q: Seq<(Seq<char>, Seq<char>)>, x: Seq<char>) -> bool {
    exists|i: int| 0 <= i < q.len() && (#[trigger] q[i]).1 == x
}

/// Adding the stored children of a folder sets their nodes as they are.
proof fn lemma_add_children(
    s: IndexView,
    nodes: Map<Seq<char>, NodeView>,
    p: Seq<char>,
    q: Seq<(Seq<char>, Seq<char>)>,
    cs: Seq<ChildView>,
)
    requires
        cs.len() == q.len(),
        forall|i: int|
            0 <= i < q.len() ==> #[trigger] cs[i] == child_of(s, q[i]) && own_entry(
                s.nodes,
                p,
                q[i],
            ),
    ensures
        forall|x: Seq<char>| #[trigger]
            add_children(nodes, p, cs).dom().contains(x) <==> nodes.dom().contains(x) || holds_id(
                q,
                x,
            ),
        forall|x: Seq<char>| #[trigger]
            add_children(nodes, p, cs).dom().contains(x) ==> add_children(nodes, p, cs)[x] == (
            if holds_id(q, x) {
                s.nodes[x]
            } else {
                nodes[x]
            }),
    decreases q.len(),
{
    if q.len() > 0 {
        let up = q.drop_last();
        let n = q.len() - 1;
        assert forall|i: int| 0 <= i < up.len() implies #[trigger] cs.drop_last()[i] == child_of(
            s,
            up[i],
        ) && own_entry(s.nodes, p, up[i]) by {
            assert(cs[i] == child_of(s, q[i]));
        }
        lemma_add_children(s, nodes, p, up, cs.drop_last());
        assert(cs[n] == child_of(s, q[n]));
        assert(own_entry(s.nodes, p, q[n]));
        assert(child_node(p, cs.last()) == s.nodes[q[n].1]);
        assert(cs.last().id == q[n].1);
        let before = add_children(nodes, p, cs.drop_last());
        let after = add_children(nodes, p, cs);
        assert(after == before.insert(q[n].1, s.nodes[q[n].1]));
        assert forall|x: Seq<char>| #[trigger] after.dom().contains(x) <==> nodes.dom().contains(x)
            || holds_id(q, x) by {
            lemma_holds_id(q, x);
            assert(before.dom().contains(x) <==> nodes.dom().contains(x) || holds_id(up, x));
        }
        assert forall|x: Seq<char>| #[trigger] after.dom().contains(x) implies after[x] == (
        if holds_id(q, x) {
            s.nodes[x]
        } else {
            nodes[x]
        }) by {
            lemma_holds_id(q, x);
            if x != q[n].1 {
                assert(before.dom().contains(x));
            }
        }
    }
}

proof fn lemma_holds_id(q: Seq<(Seq<char>, Seq<char>)>, x: Seq<char>)
    requires
        q.len() > 0,
    ensures
        holds_id(q, x) <==> holds_id(q.drop_last(), x) || x == q.last().1,
{
    let up = q.drop_last();
    let n = q.len() - 1;
    if holds_id(up, x) {
        let i = choose|i: int| 0 <= i < up.len() && (#[trigger] up[i]).1 == x;
        assert(q[i].1 == x);
    }
    if holds_id(q, x) {
        let i = choose|i: int| 0 <= i < q.len() && (#[trigger] q[i]).1 == x;
        if i < n {
            assert(up[i].1 == x);
        }
    }
    assert(q[n].1 == q.last().1);
}

/// A node as it is after a round trip: the root loses its name and is a
/// folder, every other node is as it was.
pub open spec fn kept(s: IndexView, x: Seq<char>) -> NodeView {
    if s.root == Some(x) {
        NodeView {
            parent: None,
            name: Seq::empty(),
            meta: MetaView { is_dir: true, ..s.nodes[x].meta },
        }
    } else {
        s.nodes[x]
    }
}

/// The path of the root of a tree.
pub proof fn lemma_root_path(s: IndexView)
    requires
        is_tree(s),
        s.root is Some,
    ensures
        located(s, s.root->0) == Some(seq!['/']),
        last_of_path(seq!['/']) == Seq::<char>::empty(),
{
    assert(lineage(s.nodes, s.root->0, MAX_DEPTH as nat) == Some(Seq::<Seq<char>>::empty()));
    assert(seq!['/'].drop_last() =~= Seq::<char>::empty());
    reveal_with_fuel(crate::text::trim_end, 3);
}

/// The path of another node of a tree.
pub proof fn lemma_other_path(s: IndexView, x: Seq<char>)
    requires
        is_tree(s),
        s.nodes.dom().contains(x),
        s.root != Some(x),
    ensures
        s.nodes[x].parent is Some,
        s.nodes.dom().contains(s.nodes[x].parent->0),
        has_row(s, s.nodes[x].parent->0),
        located(s, s.nodes[x].parent->0) == Some(parent_of_path(located(s, x)->0)),
        last_of_path(located(s, x)->0) == s.nodes[x].name,
        located(s, x)->0 != seq!['/'],
{
    let r = s.root->0;
    let p = s.nodes[x].parent->0;
    lemma_located(s, x);
    assert(reaches(s.nodes, r, x, MAX_DEPTH as nat));
    assert(reaches(s.nodes, r, p, (MAX_DEPTH - 1) as nat));
    assert(s.nodes.dom().contains(p));
    lemma_located(s, p);
    law_path_of_child(s, x, p);
    let up = choose|up: Seq<Seq<char>>|
        located(s, p) == Some(#[trigger] path_text(up)) && located(s, x) == Some(
            path_text(up.push(s.nodes[x].name)),
        );
    law_path_parts(up, s.nodes[x].name);
    if located(s, x)->0 == seq!['/'] {
        lemma_root_path(s);
        law_paths_unique(s, x, r);
    }
}

/// The node that a row of a tree describes.
proof fn lemma_row_node(s: IndexView, meta: Seq<u8>, i: int)
    requires
        is_tree(s),
        fits(s, meta),
        0 <= i < in_order(dir_set(s)).len(),
    ensures
        row_node(dir_rows(s, in_order(dir_set(s)))[i]) == (NodeView {
            parent: None,
            ..kept(s, in_order(dir_set(s))[i].1)
        }),
{
    let x = in_order(dir_set(s))[i].1;
    lemma_block_read(s, meta, i);
    lemma_dirs(s);
    assert(has_row(s, x));
    if s.root == Some(x) {
        lemma_root_path(s);
    } else {
        lemma_other_path(s, x);
    }
}

/// What is known of the index after the first `k` folders were added.
spec fn built(s: IndexView, k: int, t: IndexView) -> bool {
    let q = in_order(dir_set(s));
    let first = index_from_meta(meta_values(s));
    &&& t == (IndexView { nodes: t.nodes, kids: t.kids, ..first })
    &&& forall|x: Seq<char>| #[trigger]
        t.nodes.dom().contains(x) <==> s.nodes.dom().contains(x) && (holds_id(q.take(k), x) || (
        s.nodes[x].parent is Some && holds_id(q.take(k), s.nodes[x].parent->0)))
    &&& forall|x: Seq<char>| #[trigger]
        t.nodes.dom().contains(x) ==> t.nodes[x] == kept(s, x) || (has_row(s, x) && t.nodes[x] == (
        NodeView { parent: None, ..kept(s, x) }))
    &&& forall|p: Seq<char>| #[trigger]
        t.kids.dom().contains(p) <==> holds_id(q.take(k), p)
    &&& forall|p: Seq<char>| #[trigger] t.kids.dom().contains(p) ==> t.kids[p] == kids_of(s, p)
}

proof fn lemma_built_step(s: IndexView, meta: Seq<u8>, k: int, t: IndexView)
    requires
        is_tree(s),
        fits(s, meta),
        0 <= k < in_order(dir_set(s)).len(),
        built(s, k, t),
    ensures
        built(
            s,
            k + 1,
            with_dir(
                t,
                dir_rows(s, in_order(dir_set(s)))[k],
                children_stored(s, in_order(dir_set(s))[k].1),
            ),
        ),
{
    let q = in_order(dir_set(s));
    let row = dir_rows(s, q)[k];
    let d = q[k].1;
    let cs = children_stored(s, d);
    let es = in_order(kids_of(s, d));
    let u = with_dir(t, row, cs);
    lemma_block_read(s, meta, k);
    lemma_row_node(s, meta, k);
    lemma_dirs(s);
    assert(has_row(s, d));
    lemma_children_stored(s, d);
    lemma_kids_order(s, d);
    let base = t.nodes.insert(d, row_node(row));
    assert forall|i: int| 0 <= i < es.len() implies #[trigger] cs[i] == child_of(s, es[i])
        && own_entry(s.nodes, d, es[i]) by {}
    lemma_add_children(s, base, d, es, cs);
    assert(q.take(k + 1).drop_last() =~= q.take(k));
    assert(q.take(k + 1).last() == q[k]);
    assert forall|x: Seq<char>| #[trigger]
        u.nodes.dom().contains(x) <==> s.nodes.dom().contains(x) && (holds_id(q.take(k + 1), x) || (
        s.nodes[x].parent is Some && holds_id(q.take(k + 1), s.nodes[x].parent->0))) by {
        lemma_listed_ids(s, d, x);
        lemma_holds_id(q.take(k + 1), x);
        if s.nodes[x].parent is Some {
            lemma_holds_id(q.take(k + 1), s.nodes[x].parent->0);
        }
        assert(u.nodes.dom().contains(x) <==> base.dom().contains(x) || holds_id(es, x));
    }
    assert forall|x: Seq<char>| #[trigger] u.nodes.dom().contains(x) implies u.nodes[x] == kept(
        s,
        x,
    ) || (has_row(s, x) && u.nodes[x] == (NodeView { parent: None, ..kept(s, x) })) by {
        lemma_listed_ids(s, d, x);
        assert(add_children(base, d, cs).dom().contains(x));
        if !holds_id(es, x) && x != d {
            assert(t.nodes.dom().contains(x));
        }
    }
    assert forall|p: Seq<char>| #[trigger]
        u.kids.dom().contains(p) <==> holds_id(q.take(k + 1), p) by {
        lemma_holds_id(q.take(k + 1), p);
    }
}

/// The ids listed below a folder are the nodes with that parent; the root is
/// none of them.
proof fn lemma_listed_ids(s: IndexView, p: Seq<char>, x: Seq<char>)
    requires
        is_tree(s),
    ensures
        holds_id(in_order(kids_of(s, p)), x) <==> s.nodes.dom().contains(x) && s.nodes[x].parent
            == Some(p),
        holds_id(in_order(kids_of(s, p)), x) ==> kept(s, x) == s.nodes[x],
{
    let es = in_order(kids_of(s, p));
    lemma_kids_order(s, p);
    if holds_id(es, x) {
        let i = choose|i: int| 0 <= i < es.len() && (#[trigger] es[i]).1 == x;
        assert(es.to_set().contains(es[i]));
        assert(kids_of(s, p).contains(es[i]));
        assert(own_entry(s.nodes, p, es[i]));
    }
    if s.nodes.dom().contains(x) && s.nodes[x].parent == Some(p) {
        assert(kids_of(s, p).contains((s.nodes[x].name, x)));
        assert(es.to_set().contains((s.nodes[x].name, x)));
        let i = choose|i: int| 0 <= i < es.len() && es[i] == (s.nodes[x].name, x);
        assert(es[i].1 == x);
    }
}

proof fn lemma_built(s: IndexView, meta: Seq<u8>, k: int) -> (t: IndexView)
    requires
        is_tree(s),
        fits(s, meta),
        0 <= k <= in_order(dir_set(s)).len(),
    ensures
        with_dirs(
            index_from_meta(meta_values(s)),
            encoded(s, meta),
            dir_rows(s, in_order(dir_set(s))).take(k),
        ) == Ok::<IndexView, Seq<char>>(t),
        built(s, k, t),
    decreases k,
{
    let q = in_order(dir_set(s));
    let rows = dir_rows(s, q);
    let first = index_from_meta(meta_values(s));
    lemma_dir_rows_len(s, q);
    if k == 0 {
        first
    } else {
        let t = lemma_built(s, meta, k - 1);
        assert(rows.take(k).drop_last() =~= rows.take(k - 1));
        assert(rows.take(k).last() == rows[k - 1]);
        lemma_block_read(s, meta, k - 1);
        lemma_built_step(s, meta, k - 1, t);
        with_dir(t, rows[k - 1], children_stored(s, q[k - 1].1))
    }
}

/// With distinct paths, each path stands for its own row.
proof fn lemma_path_ids(rows: Seq<RowView>, i: int)
    requires
        0 <= i < rows.len(),
        forall|i: int, j: int|
            0 <= i < j < rows.len() ==> (#[trigger] rows[i]).path != (#[trigger] rows[j]).path,
    ensures
        path_ids(rows).dom().contains(rows[i].path),
        path_ids(rows)[rows[i].path] == rows[i].id,
    decreases rows.len(),
{
    let up = rows.drop_last();
    let n = rows.len() - 1;
    if i < n {
        assert forall|i: int, j: int| 0 <= i < j < up.len() implies (#[trigger] up[i]).path != (
        #[trigger] up[j]).path by {
            assert(rows[i].path != rows[j].path);
        }
        lemma_path_ids(up, i);
        assert(rows[i].path != rows[n].path);
    }
}

/// The path of a folder of a tree stands for the folder.
proof fn lemma_dir_id(s: IndexView, meta: Seq<u8>, x: Seq<char>)
    requires
        is_tree(s),
        fits(s, meta),
        has_row(s, x),
    ensures
        path_ids(dir_rows(s, in_order(dir_set(s)))).dom().contains(located(s, x)->0),
        path_ids(dir_rows(s, in_order(dir_set(s))))[located(s, x)->0] == x,
{
    let q = in_order(dir_set(s));
    let rows = dir_rows(s, q);
    lemma_dirs(s);
    lemma_dir_rows_len(s, q);
    let k = lemma_dir_index(s, x);
    assert forall|i: int, j: int| 0 <= i < j < rows.len() implies (#[trigger] rows[i]).path != (
    #[trigger] rows[j]).path by {
        lemma_dir_row_at(s, q, i);
        lemma_dir_row_at(s, q, j);
        assert(q[i].0 != q[j].0);
    }
    lemma_dir_row_at(s, q, k);
    lemma_path_ids(rows, k);
}

/// What is known of the index after the first `k` folders were tied to their
/// parents.
spec fn bound(s: IndexView, k: int, t: IndexView, u: IndexView) -> bool {
    let q = in_order(dir_set(s));
    &&& u == (IndexView { nodes: u.nodes, ..t })
    &&& u.nodes.dom() == t.nodes.dom()
    &&& forall|x: Seq<char>| #[trigger]
        t.nodes.dom().contains(x) ==> u.nodes[x] == (if holds_id(q.take(k), x) {
            kept(s, x)
        } else {
            t.nodes[x]
        })
}

proof fn lemma_bound_step(s: IndexView, meta: Seq<u8>, k: int, t: IndexView, u: IndexView)
    requires
        is_tree(s),
        fits(s, meta),
        0 <= k < in_order(dir_set(s)).len(),
        built(s, in_order(dir_set(s)).len() as int, t),
        bound(s, k, t, u),
    ensures
        bound(
            s,
            k + 1,
            t,
            tied(
                u,
                path_ids(dir_rows(s, in_order(dir_set(s)))),
                dir_rows(s, in_order(dir_set(s)))[k],
            ),
        ),
{
    let q = in_order(dir_set(s));
    let rows = dir_rows(s, q);
    let ids = path_ids(rows);
    let row = rows[k];
    let x = q[k].1;
    let v = tied(u, ids, row);
    lemma_block_read(s, meta, k);
    lemma_dirs(s);
    assert(has_row(s, x));
    assert(q.take(q.len() as int) =~= q);
    assert(holds_id(q, x)) by {
        assert(q[k].1 == x);
    }
    assert(t.nodes.dom().contains(x));
    assert(q.take(k + 1).drop_last() =~= q.take(k));
    assert(q.take(k + 1).last() == q[k]);
    if s.root == Some(x) {
        lemma_root_path(s);
    } else {
        lemma_other_path(s, x);
        let p = s.nodes[x].parent->0;
        lemma_dir_id(s, meta, p);
    }
    assert(v.nodes[x] == kept(s, x));
    assert(v.nodes.dom() =~= t.nodes.dom());
    assert forall|y: Seq<char>| #[trigger] t.nodes.dom().contains(y) implies v.nodes[y] == (
    if holds_id(q.take(k + 1), y) {
        kept(s, y)
    } else {
        t.nodes[y]
    }) by {
        lemma_holds_id(q.take(k + 1), y);
    }
}

proof fn lemma_bound(s: IndexView, meta: Seq<u8>, k: int, t: IndexView)
    requires
        is_tree(s),
        fits(s, meta),
        0 <= k <= in_order(dir_set(s)).len(),
        built(s, in_order(dir_set(s)).len() as int, t),
    ensures
        bound(
            s,
            k,
            t,
            tied_all(
                t,
                path_ids(dir_rows(s, in_order(dir_set(s)))),
                dir_rows(s, in_order(dir_set(s))).take(k),
            ),
        ),
    decreases k,
{
    let q = in_order(dir_set(s));
    let rows = dir_rows(s, q);
    let ids = path_ids(rows);
    lemma_dir_rows_len(s, q);
    if k > 0 {
        lemma_bound(s, meta, k - 1, t);
        assert(rows.take(k).drop_last() =~= rows.take(k - 1));
        assert(rows.take(k).last() == rows[k - 1]);
        lemma_bound_step(s, meta, k - 1, t, tied_all(t, ids, rows.take(k - 1)));
    }
}

/// Whether the index holds the same tree and the same values; the root is
/// nameless and a folder.
pub open spec fn same_tree(s: IndexView, t: IndexView) -> bool {
    &&& t.nodes.dom() == s.nodes.dom()
    &&& forall|x: Seq<char>| #[trigger] s.nodes.dom().contains(x) ==> t.nodes[x] == kept(s, x)
    &&& forall|p: Seq<char>| #[trigger] kids_of(t, p) == kids_of(s, p)
    &&& t.root == s.root
    &&& t.delta_token == s.delta_token
    &&& t.pending_next_link == s.pending_next_link
    &&& t.crawl_complete == s.crawl_complete
    &&& t.generation == s.generation
}

/// A tree that is saved is loaded again: same nodes, same lists, same root,
/// same delta position, same generation.
pub proof fn law_snapshot_round_trip(s: IndexView, meta: Seq<u8>)
    requires
        is_tree(s),
        fits(s, meta),
    ensures
        meta_at(encoded(s, meta)) == Ok::<Seq<u8>, Seq<char>>(meta),
        decoded(encoded(s, meta), Ok(meta_values(s))) is Ok,
        same_tree(s, decoded(encoded(s, meta), Ok(meta_values(s)))->Ok_0),
{
    let q = in_order(dir_set(s));
    let n = q.len() as int;
    let rows = dir_rows(s, q);
    let first = index_from_meta(meta_values(s));
    lemma_layout(s, meta);
    reveal(framed);
    lemma_dir_rows_len(s, q);
    assert(rows.take(n) =~= rows);
    assert(q.take(n) =~= q);
    let t = lemma_built(s, meta, n);
    lemma_bound(s, meta, n, t);
    let u = tied_all(t, path_ids(rows), rows);
    assert(rebuilt(first, encoded(s, meta), rows) == Ok::<IndexView, Seq<char>>(u));
    assert forall|x: Seq<char>| #[trigger] s.nodes.dom().contains(x) implies t.nodes.dom().contains(
        x,
    ) && u.nodes[x] == kept(s, x) by {
        if has_row(s, x) {
            let i = lemma_dir_index(s, x);
            assert(q[i].1 == x);
            assert(holds_id(q, x));
        } else {
            lemma_located(s, x);
            lemma_other_path(s, x);
            let p = s.nodes[x].parent->0;
            let i = lemma_dir_index(s, p);
            assert(q[i].1 == p);
            assert(holds_id(q, p));
            lemma_not_held(s, x);
            assert(t.nodes.dom().contains(x));
        }
    }
    assert(u.nodes.dom() =~= s.nodes.dom());
    assert forall|p: Seq<char>| #[trigger] kids_of(u, p) == kids_of(s, p) by {
        if has_row(s, p) {
            let i = lemma_dir_index(s, p);
            assert(q[i].1 == p);
            assert(holds_id(q, p));
            assert(t.kids.dom().contains(p));
        } else {
            lemma_not_held(s, p);
            assert(!t.kids.dom().contains(p));
            assert forall|e: (Seq<char>, Seq<char>)| !kids_of(s, p).contains(e) by {
                if kids_of(s, p).contains(e) {
                    assert(own_entry(s.nodes, p, e));
                    assert(s.root != Some(e.1));
                    lemma_other_path(s, e.1);
                }
            }
            assert(kids_of(s, p) =~= Set::empty());
        }
    }
}

proof fn lemma_not_held(s: IndexView, x: Seq<char>)
    requires
        is_tree(s),
        !has_row(s, x),
    ensures
        !holds_id(in_order(dir_set(s)), x),
{
    let q = in_order(dir_set(s));
    lemma_dirs(s);
    if holds_id(q, x) {
        let i = choose|i: int| 0 <= i < q.len() && (#[trigger] q[i]).1 == x;
        assert(has_row(s, q[i].1));
    }
}

proof fn lemma_walk_by_lists(s: IndexView, t: IndexView, r: Seq<char>, names: Seq<Seq<char>>)
    requires
        forall|p: Seq<char>| #[trigger] kids_of(t, p) == kids_of(s, p),
    ensures
        walk(t.kids, r, names) == walk(s.kids, r, names),
    decreases names.len(),
{
    if names.len() > 0 {
        lemma_walk_by_lists(s, t, r, names.drop_last());
        if walk(s.kids, r, names.drop_last()) is Some {
            let p = walk(s.kids, r, names.drop_last())->0;
            assert(kids_of(t, p) == kids_of(s, p));
            let none = Set::<(Seq<char>, Seq<char>)>::empty();
            assert(child_named(none, names.last()) is None);
        }
    }
}

/// Every path resolves to the same id before saving and after loading.
pub proof fn law_round_trip_resolves(s: IndexView, meta: Seq<u8>, path: Seq<char>)
    requires
        is_tree(s),
        fits(s, meta),
    ensures
        resolved(decoded(encoded(s, meta), Ok(meta_values(s)))->Ok_0, path) == resolved(s, path),
{
    law_snapshot_round_trip(s, meta);
    let t = decoded(encoded(s, meta), Ok(meta_values(s)))->Ok_0;
    if s.root is Some {
        lemma_walk_by_lists(s, t, s.root->0, segments(path));
    }
}

} // verus!
