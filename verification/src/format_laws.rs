//! Laws of the snapshot format: what is written is read back.
use vstd::prelude::*;
use vstd::utf8::*;
use crate::format::{
    child_at, child_block, child_bytes, children_from, header_bytes, header_of, le,
    lemma_header_len, lemma_le_len, lemma_le_value, lemma_pow256, magic, row_at, row_bytes,
    rows_from, text_at, text_bytes, two32, ChildView, RowView, HEADER_LEN, VERSION,
};

verus! {

/// Whether the text's length in bytes can be stored.
pub open spec fn text_fits(t: Seq<char>) -> bool {
    encode_utf8(t).len() < two32()
}

/// Whether all texts of the child can be stored.
pub open spec fn child_fits(c: ChildView) -> bool {
    text_fits(c.name) && text_fits(c.etag) && text_fits(c.id)
}

/// Whether all texts of the row can be stored.
pub open spec fn row_fits(r: RowView) -> bool {
    text_fits(r.path) && text_fits(r.id) && text_fits(r.etag)
}

/// The children as they are stored one after the other.
pub open spec fn children_bytes(cs: Seq<ChildView>) -> Seq<u8>
    decreases cs.len(),
{
    if cs.len() == 0 {
        Seq::empty()
    } else {
        children_bytes(cs.drop_last()) + child_bytes(cs.last())
    }
}

/// The rows as they are stored one after the other.
pub open spec fn rows_bytes(rs: Seq<RowView>) -> Seq<u8>
    decreases rs.len(),
{
    if rs.len() == 0 {
        Seq::empty()
    } else {
        rows_bytes(rs.drop_last()) + row_bytes(rs.last())
    }
}

/// Whether `piece` stands in `data` at `pos`.
pub open spec fn stands_at(data: Seq<u8>, pos: int, piece: Seq<u8>) -> bool {
    0 <= pos && pos + piece.len() <= data.len() && data.subrange(pos, pos + piece.len()) == piece
}

proof fn lemma_stands_parts(data: Seq<u8>, pos: int, a: Seq<u8>, b: Seq<u8>)
    requires
        stands_at(data, pos, a + b),
    ensures
        stands_at(data, pos, a),
        stands_at(data, pos + a.len(), b),
{
    let w = data.subrange(pos, pos + (a + b).len());
    assert(w.take(a.len() as int) =~= a);
    assert(w.skip(a.len() as int) =~= b);
    assert(data.subrange(pos, pos + a.len()) =~= w.take(a.len() as int));
    assert(data.subrange(pos + a.len(), pos + a.len() + b.len()) =~= w.skip(a.len() as int));
}

/// A stored text is read back.
pub proof fn law_text_round_trip(data: Seq<u8>, pos: int, t: Seq<char>)
    requires
        text_fits(t),
        stands_at(data, pos, text_bytes(t)),
    ensures
        text_at(data, pos) == Ok::<(Seq<char>, int), Seq<char>>(
            (t, pos + text_bytes(t).len()),
        ),
{
    let body = encode_utf8(t);
    let n = body.len() % two32();
    lemma_stands_parts(data, pos, le(n, 4), body);
    lemma_le_len(n, 4);
    lemma_pow256();
    lemma_le_value(n, 4);
    encode_utf8_valid_utf8(t);
    encode_utf8_decode_utf8(t);
    assert(data.subrange(pos, pos + 4) == le(n, 4));
    assert(data.subrange(pos + 4, pos + 4 + body.len()) == body);
}

/// A stored child is read back.
pub proof fn law_child_round_trip(data: Seq<u8>, pos: int, c: ChildView)
    requires
        child_fits(c),
        stands_at(data, pos, child_bytes(c)),
    ensures
        child_at(data, pos) == Ok::<(ChildView, int), Seq<char>>(
            (c, pos + child_bytes(c).len()),
        ),
{
    let p1 = text_bytes(c.name);
    let p2 = seq![
        if c.is_dir {
            1u8
        } else {
            0u8
        },
    ];
    let p3 = le(c.size as nat, 8);
    let p4 = le(c.mtime as nat, 8);
    let p5 = text_bytes(c.etag);
    let p6 = text_bytes(c.id);
    lemma_stands_parts(data, pos, p1 + p2 + p3 + p4 + p5, p6);
    lemma_stands_parts(data, pos, p1 + p2 + p3 + p4, p5);
    lemma_stands_parts(data, pos, p1 + p2 + p3, p4);
    lemma_stands_parts(data, pos, p1 + p2, p3);
    lemma_stands_parts(data, pos, p1, p2);
    lemma_le_len(c.size as nat, 8);
    lemma_le_len(c.mtime as nat, 8);
    lemma_pow256();
    lemma_le_value(c.size as nat, 8);
    lemma_le_value(c.mtime as nat, 8);
    let a = pos + p1.len();
    law_text_round_trip(data, pos, c.name);
    assert(data.subrange(a, a + 1)[0] == p2[0]);
    assert(data.subrange(a, a + 1)[0] == data[a]);
    assert(data.subrange(a + 1, a + 9) == p3);
    assert(data.subrange(a + 9, a + 17) == p4);
    law_text_round_trip(data, a + 17, c.etag);
    law_text_round_trip(data, a + 17 + p5.len(), c.id);
}

/// A stored row is read back.
pub proof fn law_row_round_trip(data: Seq<u8>, pos: int, r: RowView)
    requires
        row_fits(r),
        stands_at(data, pos, row_bytes(r)),
    ensures
        row_at(data, pos) == Ok::<(RowView, int), Seq<char>>((r, pos + row_bytes(r).len())),
{
    let p1 = text_bytes(r.path);
    let p2 = le(r.block_off as nat, 8);
    let p3 = le(r.block_len as nat, 4);
    let p4 = text_bytes(r.id);
    let p5 = le(r.size as nat, 8);
    let p6 = le(r.mtime as nat, 8);
    let p7 = text_bytes(r.etag);
    lemma_stands_parts(data, pos, p1 + p2 + p3 + p4 + p5 + p6, p7);
    lemma_stands_parts(data, pos, p1 + p2 + p3 + p4 + p5, p6);
    lemma_stands_parts(data, pos, p1 + p2 + p3 + p4, p5);
    lemma_stands_parts(data, pos, p1 + p2 + p3, p4);
    lemma_stands_parts(data, pos, p1 + p2, p3);
    lemma_stands_parts(data, pos, p1, p2);
    lemma_le_len(r.block_off as nat, 8);
    lemma_le_len(r.block_len as nat, 4);
    lemma_le_len(r.size as nat, 8);
    lemma_le_len(r.mtime as nat, 8);
    lemma_pow256();
    lemma_le_value(r.block_off as nat, 8);
    lemma_le_value(r.block_len as nat, 4);
    lemma_le_value(r.size as nat, 8);
    lemma_le_value(r.mtime as nat, 8);
    let a = pos + p1.len();
    law_text_round_trip(data, pos, r.path);
    assert(data.subrange(a, a + 8) == p2);
    assert(data.subrange(a + 8, a + 12) == p3);
    law_text_round_trip(data, a + 12, r.id);
    let b = a + 12 + p4.len();
    assert(data.subrange(b, b + 8) == p5);
    assert(data.subrange(b + 8, b + 16) == p6);
    law_text_round_trip(data, b + 16, r.etag);
}

proof fn lemma_children_front(cs: Seq<ChildView>)
    requires
        cs.len() > 0,
    ensures
        children_bytes(cs) == child_bytes(cs[0]) + children_bytes(cs.drop_first()),
    decreases cs.len(),
{
    if cs.len() == 1 {
        assert(cs.drop_last() =~= Seq::empty());
        assert(cs.drop_first() =~= Seq::empty());
        assert(children_bytes(cs) =~= child_bytes(cs[0]) + children_bytes(cs.drop_first()));
    } else {
        lemma_children_front(cs.drop_last());
        assert(cs.drop_last().drop_first() =~= cs.drop_first().drop_last());
        assert(children_bytes(cs) =~= child_bytes(cs[0]) + children_bytes(cs.drop_first()));
    }
}

proof fn lemma_rows_front(rs: Seq<RowView>)
    requires
        rs.len() > 0,
    ensures
        rows_bytes(rs) == row_bytes(rs[0]) + rows_bytes(rs.drop_first()),
    decreases rs.len(),
{
    if rs.len() == 1 {
        assert(rs.drop_last() =~= Seq::empty());
        assert(rs.drop_first() =~= Seq::empty());
        assert(rows_bytes(rs) =~= row_bytes(rs[0]) + rows_bytes(rs.drop_first()));
    } else {
        lemma_rows_front(rs.drop_last());
        assert(rs.drop_last().drop_first() =~= rs.drop_first().drop_last());
        assert(rows_bytes(rs) =~= row_bytes(rs[0]) + rows_bytes(rs.drop_first()));
    }
}

proof fn lemma_child_nonempty(c: ChildView)
    ensures
        child_bytes(c).len() > 0,
{
}

proof fn lemma_children_read(data: Seq<u8>, pos: int, cs: Seq<ChildView>)
    requires
        forall|i: int| 0 <= i < cs.len() ==> child_fits(#[trigger] cs[i]),
        stands_at(data, pos, children_bytes(cs)),
        pos + children_bytes(cs).len() == data.len(),
    ensures
        children_from(data, pos) == Ok::<Seq<ChildView>, Seq<char>>(cs),
    decreases cs.len(),
{
    if cs.len() == 0 {
        assert(cs =~= Seq::empty());
    } else {
        lemma_children_front(cs);
        let first = child_bytes(cs[0]);
        let rest = cs.drop_first();
        lemma_stands_parts(data, pos, first, children_bytes(rest));
        lemma_child_nonempty(cs[0]);
        law_child_round_trip(data, pos, cs[0]);
        assert forall|i: int| 0 <= i < rest.len() implies child_fits(#[trigger] rest[i]) by {
            assert(rest[i] == cs[i + 1]);
        }
        lemma_children_read(data, pos + first.len(), rest);
        assert(seq![cs[0]] + rest =~= cs);
    }
}

/// A stored block of children is read back from wherever it stands.
pub proof fn law_block_round_trip(data: Seq<u8>, off: nat, cs: Seq<ChildView>)
    requires
        forall|i: int| 0 <= i < cs.len() ==> child_fits(#[trigger] cs[i]),
        stands_at(data, off as int, children_bytes(cs)),
    ensures
        child_block(data, off, children_bytes(cs).len()) == Ok::<Seq<ChildView>, Seq<char>>(cs),
{
    let block = children_bytes(cs);
    let part = data.subrange(off as int, (off + block.len()) as int);
    assert(part =~= block);
    assert(part.subrange(0, block.len() as int) =~= block);
    lemma_children_read(part, 0, cs);
}

/// A stored directory table is read back.
pub proof fn law_table_round_trip(data: Seq<u8>, pos: int, rs: Seq<RowView>)
    requires
        forall|i: int| 0 <= i < rs.len() ==> row_fits(#[trigger] rs[i]),
        stands_at(data, pos, rows_bytes(rs)),
    ensures
        rows_from(data, pos, rs.len()) == Ok::<Seq<RowView>, Seq<char>>(rs),
    decreases rs.len(),
{
    if rs.len() == 0 {
        assert(rs =~= Seq::empty());
    } else {
        lemma_rows_front(rs);
        let first = row_bytes(rs[0]);
        let rest = rs.drop_first();
        lemma_stands_parts(data, pos, first, rows_bytes(rest));
        law_row_round_trip(data, pos, rs[0]);
        assert forall|i: int| 0 <= i < rest.len() implies row_fits(#[trigger] rest[i]) by {
            assert(rest[i] == rs[i + 1]);
        }
        law_table_round_trip(data, pos + first.len(), rest);
        assert(seq![rs[0]] + rest =~= rs);
    }
}

/// A stored header is read back, if its offsets lie in the file.
pub proof fn law_header_round_trip(a: u64, b: u32, c: u64, d: u32, rest: Seq<u8>)
    requires
        a <= HEADER_LEN + rest.len(),
        c <= HEADER_LEN + rest.len(),
    ensures
        header_of(header_bytes(a as nat, b as nat, c as nat, d as nat) + rest) == Ok::<
            (u64, u32, u64, u32),
            Seq<char>,
        >((a, b, c, d)),
{
    let h = header_bytes(a as nat, b as nat, c as nat, d as nat);
    let data = h + rest;
    lemma_header_len(a as nat, b as nat, c as nat, d as nat);
    assert(data.subrange(0, h.len() as int) =~= h);
    let p1 = magic();
    let p2 = le(VERSION as nat, 4);
    let p3 = le(a as nat, 8);
    let p4 = le(b as nat, 4);
    let p5 = le(c as nat, 8);
    let p6 = le(d as nat, 4);
    lemma_stands_parts(data, 0, p1 + p2 + p3 + p4 + p5, p6);
    lemma_stands_parts(data, 0, p1 + p2 + p3 + p4, p5);
    lemma_stands_parts(data, 0, p1 + p2 + p3, p4);
    lemma_stands_parts(data, 0, p1 + p2, p3);
    lemma_stands_parts(data, 0, p1, p2);
    lemma_le_len(VERSION as nat, 4);
    lemma_le_len(a as nat, 8);
    lemma_le_len(b as nat, 4);
    lemma_le_len(c as nat, 8);
    lemma_le_len(d as nat, 4);
    lemma_pow256();
    lemma_le_value(VERSION as nat, 4);
    lemma_le_value(a as nat, 8);
    lemma_le_value(b as nat, 4);
    lemma_le_value(c as nat, 8);
    lemma_le_value(d as nat, 4);
    assert(data.take(4) =~= data.subrange(0, 4));
    assert(data.subrange(4, 8) == p2);
    assert(data.subrange(8, 16) == p3);
    assert(data.subrange(16, 20) == p4);
    assert(data.subrange(20, 28) == p5);
    assert(data.subrange(28, 32) == p6);
}

} // verus!
