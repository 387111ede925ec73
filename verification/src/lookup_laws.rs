//! Laws of lookups: a snapshot answers for a path what the index it was made
//! from answers, and reading the file piece by piece gives the same answer as
//! having all of it.
use vstd::prelude::*;
use vstd::arithmetic::div_mod::lemma_small_mod;
use crate::format::{child_block, header_of, two32, ChildView, RowView, HEADER_LEN};
use crate::format_laws::children_bytes;
use crate::index::{kids_of, located, parent_of_path, resolved, walk, IndexView, MAX_DEPTH};
use crate::path_laws::{
    clean, law_normalize_idempotent, law_path_parts, law_segments_clean, law_segments_of_path,
};
use crate::resolve_laws::{
    law_resolve_path_of, lemma_lineage_more, lemma_walk_last, lemma_walk_lineage, lemma_walk_step,
};
use crate::snapshot::{
    after_plan, after_read, block_in, child_of, child_with, children_stored, cut, dir_rows, dir_set,
    encoded, first_read, found_in, has_row, lemma_child_with_stays, lemma_dir_rows_len, lemma_row_with_stays,
    planned, row_with, table_of, wanted, LookupActionView, LookupStateView, LookupView,
};
use crate::snapshot_laws::{
    fits, framed, is_tree, lemma_block_read, lemma_children_stored, lemma_dir_index, lemma_dirs,
    lemma_fits_node, lemma_kids_order, lemma_layout, lemma_located, lemma_other_path,
    lemma_root_path, row_reads,
};
use crate::text::{path_text, segments};
use crate::textmap::in_order;

verus! {

/// The only row with a path is the one that is found.
proof fn lemma_row_with_is(rows: Seq<RowView>, path: Seq<char>, k: int)
    requires
        0 <= k < rows.len(),
        rows[k].path == path,
        forall|i: int| 0 <= i < k ==> (#[trigger] rows[i]).path != path,
    ensures
        row_with(rows, path) == Some(rows[k]),
{
    lemma_row_with_none(rows.take(k), path);
    assert(rows.take(k + 1).drop_last() =~= rows.take(k));
    assert(rows.take(k + 1).last() == rows[k]);
    lemma_row_with_stays(rows, path, k + 1);
}

/// Where no row has the path, none is found.
proof fn lemma_row_with_none(rows: Seq<RowView>, path: Seq<char>)
    requires
        forall|i: int| 0 <= i < rows.len() ==> (#[trigger] rows[i]).path != path,
    ensures
        row_with(rows, path) is None,
    decreases rows.len(),
{
    if rows.len() > 0 {
        let up = rows.drop_last();
        assert forall|i: int| 0 <= i < up.len() implies (#[trigger] up[i]).path != path by {
            assert(up[i] == rows[i]);
        }
        lemma_row_with_none(up, path);
        assert(rows[rows.len() - 1].path != path);
    }
}

/// The only child with a name is the one that is found.
proof fn lemma_child_with_is(cs: Seq<ChildView>, name: Seq<char>, k: int)
    requires
        0 <= k < cs.len(),
        cs[k].name == name,
        forall|i: int| 0 <= i < k ==> (#[trigger] cs[i]).name != name,
    ensures
        child_with(cs, name) == Some(cs[k]),
{
    lemma_child_with_none(cs.take(k), name);
    assert(cs.take(k + 1).drop_last() =~= cs.take(k));
    assert(cs.take(k + 1).last() == cs[k]);
    lemma_child_with_stays(cs, name, k + 1);
}

/// Where no child has the name, none is found.
proof fn lemma_child_with_none(cs: Seq<ChildView>, name: Seq<char>)
    requires
        forall|i: int| 0 <= i < cs.len() ==> (#[trigger] cs[i]).name != name,
    ensures
        child_with(cs, name) is None,
    decreases cs.len(),
{
    if cs.len() > 0 {
        let up = cs.drop_last();
        assert forall|i: int| 0 <= i < up.len() implies (#[trigger] up[i]).name != name by {
            assert(up[i] == cs[i]);
        }
        lemma_child_with_none(up, name);
        assert(cs[cs.len() - 1].name != name);
    }
}

/// In the snapshot of a tree, the row found for a path is that of the folder
/// with that path.
proof fn lemma_row_of_dir(s: IndexView, meta: Seq<u8>, x: Seq<char>) -> (k: int)
    requires
        is_tree(s),
        fits(s, meta),
        has_row(s, x),
    ensures
        0 <= k < in_order(dir_set(s)).len(),
        in_order(dir_set(s))[k].1 == x,
        in_order(dir_set(s))[k].0 == located(s, x)->0,
        dir_rows(s, in_order(dir_set(s))).len() == in_order(dir_set(s)).len(),
        row_reads(s, meta, k),
        row_with(dir_rows(s, in_order(dir_set(s))), located(s, x)->0) == Some(
            dir_rows(s, in_order(dir_set(s)))[k],
        ),
{
    let q = in_order(dir_set(s));
    let rows = dir_rows(s, q);
    let k = lemma_dir_index(s, x);
    lemma_dirs(s);
    lemma_block_read(s, meta, k);
    assert forall|i: int| 0 <= i < k implies (#[trigger] rows[i]).path != q[k].0 by {
        lemma_block_read(s, meta, i);
        assert(q[i].0 != q[k].0);
    }
    lemma_row_with_is(rows, q[k].0, k);
    k
}

/// In the snapshot of a tree, a path that no folder has has no row.
proof fn lemma_no_row(s: IndexView, meta: Seq<u8>, path: Seq<char>)
    requires
        is_tree(s),
        fits(s, meta),
        forall|x: Seq<char>| #[trigger] has_row(s, x) ==> located(s, x) != Some(path),
    ensures
        row_with(dir_rows(s, in_order(dir_set(s))), path) is None,
{
    let q = in_order(dir_set(s));
    let rows = dir_rows(s, q);
    lemma_dir_rows_len(s, q);
    lemma_dirs(s);
    assert forall|i: int| 0 <= i < rows.len() implies (#[trigger] rows[i]).path != path by {
        lemma_block_read(s, meta, i);
        assert(has_row(s, q[i].1));
    }
    lemma_row_with_none(rows, path);
}

/// The block of a folder is read back.
proof fn lemma_cut(s: IndexView, meta: Seq<u8>, k: int)
    requires
        is_tree(s),
        fits(s, meta),
        0 <= k < in_order(dir_set(s)).len(),
        row_reads(s, meta, k),
        s.nodes.dom().contains(in_order(dir_set(s))[k].1),
    ensures
        cut(encoded(s, meta), dir_rows(s, in_order(dir_set(s)))[k]) == Ok::<Seq<u8>, Seq<char>>(
            children_bytes(children_stored(s, in_order(dir_set(s))[k].1)),
        ),
        child_block(
            children_bytes(children_stored(s, in_order(dir_set(s))[k].1)),
            0,
            children_bytes(children_stored(s, in_order(dir_set(s))[k].1)).len() % two32(),
        ) == Ok::<Seq<ChildView>, Seq<char>>(children_stored(s, in_order(dir_set(s))[k].1)),
{
    let x = in_order(dir_set(s))[k].1;
    lemma_fits_node(s, meta, x);
    lemma_small_mod(children_bytes(children_stored(s, x)).len(), two32());
}

/// What a resolved path of a tree stands for: a known id with that path.
proof fn lemma_resolved_located(s: IndexView, path: Seq<char>)
    requires
        is_tree(s),
        resolved(s, path) is Some,
    ensures
        s.nodes.dom().contains(resolved(s, path)->0),
        located(s, resolved(s, path)->0) == Some(path_text(segments(path))),
{
    let r = s.root->0;
    let names = segments(path);
    let x = resolved(s, path)->0;
    let f = MAX_DEPTH as nat;
    if names.len() > 0 {
        let p = lemma_walk_last(s, r, names);
    }
    lemma_walk_lineage(s, names);
    lemma_located(s, x);
    if names.len() + 1 <= f {
        lemma_lineage_more(s.nodes, x, names.len() + 1, f);
    } else {
        lemma_lineage_more(s.nodes, x, f, names.len() + 1);
    }
}

/// The child found in the stored children of a folder is the entry with that
/// name.
proof fn lemma_child_found(s: IndexView, p: Seq<char>, name: Seq<char>)
    requires
        is_tree(s),
    ensures
        match child_with(children_stored(s, p), name) {
            Some(c) => exists|x: Seq<char>|
                #![trigger kids_of(s, p).contains((name, x))]
                kids_of(s, p).contains((name, x)) && c == child_of(s, (name, x)),
            None => forall|x: Seq<char>| !kids_of(s, p).contains((name, x)),
        },
{
    let cs = children_stored(s, p);
    let es = in_order(kids_of(s, p));
    lemma_children_stored(s, p);
    lemma_kids_order(s, p);
    if exists|i: int| 0 <= i < es.len() && (#[trigger] es[i]).0 == name {
        let i = choose|i: int| 0 <= i < es.len() && (#[trigger] es[i]).0 == name;
        let x = es[i].1;
        assert(es.to_set().contains(es[i]));
        assert(kids_of(s, p).contains((name, x)));
        assert forall|j: int| 0 <= j < i implies (#[trigger] cs[j]).name != name by {
            assert(children_stored(s, p)[j] == child_of(s, es[j]));
            assert(es.to_set().contains(es[j]));
            if es[j].0 == name {
                assert(kids_of(s, p).contains((name, es[j].1)));
                assert(es[j] == es[i]);
                crate::textmap::lemma_pair_lt_total(es[j], es[i]);
            }
        }
        assert(children_stored(s, p)[i] == child_of(s, es[i]));
        lemma_child_with_is(cs, name, i);
    } else {
        assert forall|j: int| 0 <= j < cs.len() implies (#[trigger] cs[j]).name != name by {
            assert(children_stored(s, p)[j] == child_of(s, es[j]));
            assert(es[j].0 != name);
        }
        lemma_child_with_none(cs, name);
        assert forall|x: Seq<char>| !kids_of(s, p).contains((name, x)) by {
            if kids_of(s, p).contains((name, x)) {
                assert(es.to_set().contains((name, x)));
                let i = choose|i: int| 0 <= i < es.len() && es[i] == (name, x);
                assert(es[i].0 == name);
            }
        }
    }
}

/// The answer that a snapshot of the index owes for a path: nothing where the
/// path does not resolve, a folder with its children, or a file.
pub open spec fn answer(s: IndexView, path: Seq<char>) -> Option<LookupView> {
    match resolved(s, path) {
        None => None,
        Some(x) => if has_row(s, x) {
            Some(
                LookupView::Dir {
                    info: ChildView {
                        name: if s.root == Some(x) {
                            Seq::empty()
                        } else {
                            s.nodes[x].name
                        },
                        is_dir: true,
                        size: s.nodes[x].meta.size,
                        mtime: s.nodes[x].meta.mtime,
                        etag: s.nodes[x].meta.etag,
                        id: x,
                    },
                    children: children_stored(s, x),
                },
            )
        } else {
            Some(LookupView::File(child_of(s, (s.nodes[x].name, x))))
        },
    }
}

/// A lookup in the snapshot of a tree gives what the index has at that path.
pub proof fn law_lookup_agrees(s: IndexView, meta: Seq<u8>, path: Seq<char>)
    requires
        is_tree(s),
        fits(s, meta),
    ensures
        found_in(encoded(s, meta), path) == Ok::<Option<LookupView>, Seq<char>>(answer(s, path)),
{
    let q = in_order(dir_set(s));
    let rows = dir_rows(s, q);
    let data = encoded(s, meta);
    let norm = path_text(segments(path));
    lemma_layout(s, meta);
    reveal(framed);
    law_segments_clean(path);
    law_normalize_idempotent(path);
    if resolved(s, path) is Some && has_row(s, resolved(s, path)->0) {
        let x = resolved(s, path)->0;
        lemma_resolved_located(s, path);
        let k = lemma_row_of_dir(s, meta, x);
        lemma_cut(s, meta, k);
        if s.root == Some(x) {
            lemma_root_path(s);
        } else {
            lemma_other_path(s, x);
        }
    } else {
        assert forall|y: Seq<char>| #[trigger] has_row(s, y) implies located(s, y)
            != Some(norm) by {
            if located(s, y) == Some(norm) {
                law_resolve_path_of(s, y);
                assert(resolved(s, norm) == resolved(s, path));
            }
        }
        lemma_no_row(s, meta, norm);
        if resolved(s, path) is Some {
            let x = resolved(s, path)->0;
            lemma_resolved_located(s, path);
            lemma_other_path(s, x);
            let p = s.nodes[x].parent->0;
            let k = lemma_row_of_dir(s, meta, p);
            lemma_cut(s, meta, k);
            lemma_child_found(s, p, s.nodes[x].name);
            assert(kids_of(s, p).contains((s.nodes[x].name, x)));
        } else {
            lemma_nothing_there(s, meta, path);
        }
    }
}

/// Where a path does not resolve, its folder has no entry for it.
proof fn lemma_nothing_there(s: IndexView, meta: Seq<u8>, path: Seq<char>)
    requires
        is_tree(s),
        fits(s, meta),
        resolved(s, path) is None,
        table_of(encoded(s, meta)) == Ok::<Seq<RowView>, Seq<char>>(
            dir_rows(s, in_order(dir_set(s))),
        ),
        row_with(dir_rows(s, in_order(dir_set(s))), path_text(segments(path))) is None,
    ensures
        found_in(encoded(s, meta), path) == Ok::<Option<LookupView>, Seq<char>>(None),
{
    let rows = dir_rows(s, in_order(dir_set(s)));
    let names = segments(path);
    let norm = path_text(names);
    let up_path = parent_of_path(norm);
    if s.root is None {
        assert forall|y: Seq<char>| #[trigger] has_row(s, y) implies located(s, y)
            != Some(up_path) by {}
        lemma_no_row(s, meta, up_path);
    } else {
        let r = s.root->0;
        assert(names.len() > 0);
        let up = names.drop_last();
        law_segments_clean(path);
        assert(clean(names[names.len() - 1]));
        assert forall|i: int| 0 <= i < up.len() implies clean(#[trigger] up[i]) by {
            assert(clean(names[i]));
        }
        assert(up.push(names.last()) =~= names);
        law_path_parts(up, names.last());
        law_segments_of_path(up);
        if exists|p: Seq<char>| #[trigger] has_row(s, p) && located(s, p) == Some(up_path) {
            let p = choose|p: Seq<char>| #[trigger] has_row(s, p) && located(s, p) == Some(up_path);
            let k = lemma_row_of_dir(s, meta, p);
            lemma_cut(s, meta, k);
            law_resolve_path_of(s, p);
            assert(walk(s.kids, r, up) == Some(p));
            lemma_child_found(s, p, names.last());
            assert forall|c: Seq<char>| !kids_of(s, p).contains((names.last(), c)) by {
                lemma_walk_step(s, r, names, p, c);
            }
        } else {
            assert forall|y: Seq<char>| #[trigger] has_row(s, y) implies located(s, y)
                != Some(up_path) by {}
            lemma_no_row(s, meta, up_path);
        }
    }
}

/// What reading a range of a file gives: the bytes of the range that the file
/// has.
pub open spec fn range_of(data: Seq<u8>, offset: int, len: int) -> Seq<u8> {
    let n = data.len() as int;
    let a = if offset < n {
        offset
    } else {
        n
    };
    let b = if offset + len < n {
        offset + len
    } else {
        n
    };
    data.subrange(a, b)
}

/// The end of a lookup whose reads are answered from the file.
pub open spec fn run_lookup(
    data: Seq<u8>,
    path: Seq<char>,
    action: LookupActionView,
    fuel: nat,
) -> Option<Result<Option<LookupView>, Seq<char>>>
    decreases fuel,
{
    match action {
        LookupActionView::Done(r) => Some(r),
        LookupActionView::Read { offset, len, next } => if fuel == 0 {
            None
        } else {
            run_lookup(
                data,
                path,
                after_read(path, next, Ok(Some(range_of(data, offset as int, len as int)))),
                (fuel - 1) as nat,
            )
        },
    }
}

/// A lookup that reads header, table and block from a file ends, after at
/// most three reads, as a lookup in the whole file.
pub proof fn law_lookup_file_agrees(data: Seq<u8>, path: Seq<char>)
    requires
        table_of(data) is Ok,
        block_in(data, planned(table_of(data)->Ok_0, path)) is Ok,
    ensures
        run_lookup(
            data,
            path,
            first_read(),
            3,
        ) == Some(found_in(data, path)),
{
    let (off, count, meta_off, meta_len) = header_of(data)->Ok_0;
    let head = range_of(data, 0, HEADER_LEN as int);
    let rows = table_of(data)->Ok_0;
    let plan = planned(rows, path);
    lemma_header_of_front(data);
    assert(head =~= data.take(HEADER_LEN as int));
    let a1 = after_read(path, LookupStateView::Header, Ok(Some(head)));
    assert(a1 == LookupActionView::Read {
        offset: off,
        len: (meta_off - off) as u64,
        next: LookupStateView::Table { dir_count: count },
    });
    let table = range_of(data, off as int, meta_off - off);
    assert(table =~= data.subrange(off as int, meta_off as int));
    let a2 = after_read(path, LookupStateView::Table { dir_count: count }, Ok(Some(table)));
    assert(a2 == after_plan(plan));
    reveal_with_fuel(run_lookup, 4);
    match wanted(plan) {
        Some(row) => {
            let block = range_of(data, row.block_off as int, row.block_len as int);
            assert(block =~= data.subrange(
                row.block_off as int,
                row.block_off + row.block_len,
            ));
        },
        None => {
            if plan !is Nowhere {
                assert(block_in(data, plan)->Ok_0 =~= Seq::empty());
            }
        },
    }
}

/// A header is read the same from the first bytes alone.
proof fn lemma_header_of_front(data: Seq<u8>)
    requires
        header_of(data) is Ok,
    ensures
        header_of(data.take(HEADER_LEN as int)) == header_of(data),
{
    let h = data.take(HEADER_LEN as int);
    assert(h.take(4) =~= data.take(4));
    assert(h.subrange(4, 8) =~= data.subrange(4, 8));
    assert(h.subrange(8, 16) =~= data.subrange(8, 16));
    assert(h.subrange(16, 20) =~= data.subrange(16, 20));
    assert(h.subrange(20, 28) =~= data.subrange(20, 28));
    assert(h.subrange(28, 32) =~= data.subrange(28, 32));
}

} // verus!
