//! Byte format of the on-disk snapshot.
//!
//! Layout (little-endian):
//!   header 32 bytes: magic "ODIX" | u32 version | u64 dir_table_off
//!                    | u32 dir_count | u64 meta_off | u32 meta_len
//!   child blocks (per directory, names sorted)
//!   directory table (paths sorted)
//!   meta JSON
use vstd::prelude::*;
use vstd::slice::{slice_subrange, slice_to_vec};
use vstd::string::*;
use vstd::utf8::*;
use crate::text::{decimal, decimal_text, text_from_utf8};

verus! {

/// Length of the snapshot header.
pub const HEADER_LEN: usize = 32;

/// Version number of the format.
pub const VERSION: u32 = 1;

/// Number of values that fit in four bytes.
pub open spec fn two32() -> nat {
    0x1_0000_0000
}

/// `k` bytes of `n`, least significant first.
pub open spec fn le(n: nat, k: nat) -> Seq<u8>
    decreases k,
{
    if k == 0 {
        Seq::empty()
    } else {
        seq![(n % 256) as u8] + le(n / 256, (k - 1) as nat)
    }
}

/// The number with the given bytes, least significant first.
pub open spec fn le_value(s: Seq<u8>) -> nat
    decreases s.len(),
{
    if s.len() == 0 {
        0
    } else {
        s[0] as nat + 256 * le_value(s.drop_first())
    }
}

/// `256` to the power `k`.
pub open spec fn pow256(k: nat) -> nat
    decreases k,
{
    if k == 0 {
        1
    } else {
        256 * pow256((k - 1) as nat)
    }
}

/// `le` yields `k` bytes.
pub proof fn lemma_le_len(n: nat, k: nat)
    ensures
        le(n, k).len() == k,
    decreases k,
{
    if k > 0 {
        lemma_le_len(n / 256, (k - 1) as nat);
    }
}

/// A number is read back from its bytes.
pub proof fn lemma_le_value(n: nat, k: nat)
    requires
        n < pow256(k),
    ensures
        le_value(le(n, k)) == n,
    decreases k,
{
    if k > 0 {
        assert(n / 256 < pow256((k - 1) as nat));
        lemma_le_value(n / 256, (k - 1) as nat);
        assert(le(n, k).drop_first() =~= le(n / 256, (k - 1) as nat));
    }
}

/// `k` bytes stand for a number below `256^k`.
pub proof fn lemma_le_bound(s: Seq<u8>)
    ensures
        le_value(s) < pow256(s.len()),
    decreases s.len(),
{
    if s.len() > 0 {
        lemma_le_bound(s.drop_first());
    }
}

/// The bounds of four- and eight-byte numbers.
pub proof fn lemma_pow256()
    ensures
        pow256(4) == two32(),
        pow256(8) == 0x1_0000_0000_0000_0000,
{
    reveal_with_fuel(pow256, 9);
}

/// Appends `k` bytes of `n`, least significant first.
fn put_le(buf: &mut Vec<u8>, n: u64, k: usize)
    ensures
        final(buf)@ == old(buf)@ + le(n as nat, k as nat),
{
    let ghost start = buf@;
    let mut rest = n;
    let mut j: usize = 0;
    assert(start + Seq::<u8>::empty() =~= start);
    assert(buf@ + le(n as nat, k as nat) =~= start + le(n as nat, k as nat));
    while j < k
        invariant
            j <= k,
            buf@ + le(rest as nat, (k - j) as nat) == start + le(n as nat, k as nat),
        decreases k - j,
    {
        let ghost before = buf@;
        let b = (rest % 256) as u8;
        buf.push(b);
        assert(before + le(rest as nat, (k - j) as nat) =~= buf@ + le(
            (rest / 256) as nat,
            (k - j - 1) as nat,
        ));
        rest = rest / 256;
        j = j + 1;
    }
    assert(buf@ + le(rest as nat, 0) =~= buf@);
}

/// The number in `data[pos..pos + k]`.
fn get_le(data: &[u8], pos: usize, k: usize) -> (r: u64)
    requires
        k <= 8,
        pos + k <= data@.len(),
    ensures
        r == le_value(data@.subrange(pos as int, pos + k)),
        r < pow256(k as nat),
{
    let ghost all = data@.subrange(pos as int, pos + k);
    let mut v: u64 = 0;
    let mut j: usize = k;
    assert(all.skip(k as int) =~= Seq::empty());
    while j > 0
        invariant
            j <= k <= 8,
            pos + k <= data.len(),
            all == data@.subrange(pos as int, pos + k),
            v == le_value(all.skip(j as int)),
        decreases j,
    {
        proof {
            lemma_le_bound(all.skip(j as int));
            reveal_with_fuel(pow256, 9);
            assert(all.skip(j - 1).drop_first() =~= all.skip(j as int));
            assert(all.skip(j - 1)[0] == data@[pos + j - 1]);
        }
        j = j - 1;
        v = data[pos + j] as u64 + 256 * v;
    }
    assert(all.skip(0) =~= all);
    proof {
        lemma_le_bound(all);
    }
    v
}

/// Appends the bytes.
pub(crate) fn put_bytes(buf: &mut Vec<u8>, bytes: &[u8])
    ensures
        final(buf)@ == old(buf)@ + bytes@,
{
    let ghost start = buf@;
    assert(start + bytes@.take(0) =~= start);
    for i in 0..bytes.len()
        invariant
            buf@ == start + bytes@.take(i as int),
    {
        buf.push(bytes[i]);
        assert(bytes@.take(i + 1) =~= bytes@.take(i as int).push(bytes@[i as int]));
        assert(buf@ =~= start + bytes@.take(i + 1));
    }
    assert(bytes@.take(bytes@.len() as int) =~= bytes@);
}

/// A length as it is stored in four bytes.
fn low32(n: usize) -> (r: u64)
    ensures
        r == n as nat % two32(),
{
    (n as u64) % 0x1_0000_0000
}

/// A listed child of a directory.
#[derive(Debug)]
pub struct ChildInfo {
    pub name: String,
    pub is_dir: bool,
    pub size: u64,
    pub mtime: u64,
    pub etag: String,
    pub id: String,
}

/// A row of the directory table.
#[derive(Debug)]
pub struct DirRow {
    pub path: String,
    pub block_off: u64,
    pub block_len: u32,
    pub id: String,
    pub size: u64,
    pub mtime: u64,
    pub etag: String,
}

/// What a [`ChildInfo`] stands for.
pub struct ChildView {
    pub name: Seq<char>,
    pub is_dir: bool,
    pub size: u64,
    pub mtime: u64,
    pub etag: Seq<char>,
    pub id: Seq<char>,
}

/// What a [`DirRow`] stands for.
pub struct RowView {
    pub path: Seq<char>,
    pub block_off: u64,
    pub block_len: u32,
    pub id: Seq<char>,
    pub size: u64,
    pub mtime: u64,
    pub etag: Seq<char>,
}

impl View for ChildInfo {
    type V = ChildView;

    open spec fn view(&self) -> ChildView {
        ChildView {
            name: self.name@,
            is_dir: self.is_dir,
            size: self.size,
            mtime: self.mtime,
            etag: self.etag@,
            id: self.id@,
        }
    }
}

impl View for DirRow {
    type V = RowView;

    open spec fn view(&self) -> RowView {
        RowView {
            path: self.path@,
            block_off: self.block_off,
            block_len: self.block_len,
            id: self.id@,
            size: self.size,
            mtime: self.mtime,
            etag: self.etag@,
        }
    }
}

impl Clone for ChildInfo {
    fn clone(&self) -> (r: Self)
        ensures
            r@ == self@,
    {
        ChildInfo {
            name: self.name.clone(),
            is_dir: self.is_dir,
            size: self.size,
            mtime: self.mtime,
            etag: self.etag.clone(),
            id: self.id.clone(),
        }
    }
}

impl Clone for DirRow {
    fn clone(&self) -> (r: Self)
        ensures
            r@ == self@,
    {
        DirRow {
            path: self.path.clone(),
            block_off: self.block_off,
            block_len: self.block_len,
            id: self.id.clone(),
            size: self.size,
            mtime: self.mtime,
            etag: self.etag.clone(),
        }
    }
}

/// What a list of children stands for.
pub open spec fn child_views(v: Seq<ChildInfo>) -> Seq<ChildView> {
    v.map_values(|c: ChildInfo| c@)
}

/// What a list of rows stands for.
pub open spec fn row_views(v: Seq<DirRow>) -> Seq<RowView> {
    v.map_values(|r: DirRow| r@)
}

/// A text as it is stored: its length in bytes, then its UTF-8 bytes.
pub open spec fn text_bytes(t: Seq<char>) -> Seq<u8> {
    le(encode_utf8(t).len() % two32(), 4) + encode_utf8(t)
}

/// A child as it is stored.
pub open spec fn child_bytes(c: ChildView) -> Seq<u8> {
    text_bytes(c.name) + seq![
        if c.is_dir {
            1u8
        } else {
            0u8
        },
    ] + le(c.size as nat, 8) + le(c.mtime as nat, 8) + text_bytes(c.etag) + text_bytes(c.id)
}

/// A row as it is stored.
pub open spec fn row_bytes(r: RowView) -> Seq<u8> {
    text_bytes(r.path) + le(r.block_off as nat, 8) + le(r.block_len as nat, 4) + text_bytes(r.id)
        + le(r.size as nat, 8) + le(r.mtime as nat, 8) + text_bytes(r.etag)
}

/// The first four bytes of a snapshot: `ODIX`.
pub open spec fn magic() -> Seq<u8> {
    seq![79u8, 68u8, 73u8, 88u8]
}

/// The header as it is stored.
pub open spec fn header_bytes(
    dir_table_off: nat,
    dir_count: nat,
    meta_off: nat,
    meta_len: nat,
) -> Seq<u8> {
    magic() + le(VERSION as nat, 4) + le(dir_table_off, 8) + le(dir_count, 4) + le(meta_off, 8)
        + le(meta_len, 4)
}

/// Appends a text.
pub fn write_str(buf: &mut Vec<u8>, s: &str)
    ensures
        final(buf)@ == old(buf)@ + text_bytes(s@),
{
    let ghost start = buf@;
    let bytes = s.as_bytes();
    put_le(buf, low32(bytes.len()), 4);
    put_bytes(buf, bytes);
    assert(buf@ =~= start + text_bytes(s@));
}

/// Appends a child.
pub fn write_child(buf: &mut Vec<u8>, c: &ChildInfo)
    ensures
        final(buf)@ == old(buf)@ + child_bytes(c@),
{
    let ghost start = buf@;
    write_str(buf, c.name.as_str());
    buf.push(
        if c.is_dir {
            1
        } else {
            0
        },
    );
    put_le(buf, c.size, 8);
    put_le(buf, c.mtime, 8);
    write_str(buf, c.etag.as_str());
    write_str(buf, c.id.as_str());
    assert(buf@ =~= start + child_bytes(c@));
}

/// Appends a row.
pub fn write_dir_row(buf: &mut Vec<u8>, row: &DirRow)
    ensures
        final(buf)@ == old(buf)@ + row_bytes(row@),
{
    let ghost start = buf@;
    write_str(buf, row.path.as_str());
    put_le(buf, row.block_off, 8);
    put_le(buf, row.block_len as u64, 4);
    write_str(buf, row.id.as_str());
    put_le(buf, row.size, 8);
    put_le(buf, row.mtime, 8);
    write_str(buf, row.etag.as_str());
    assert(buf@ =~= start + row_bytes(row@));
}

/// The header length is fixed.
pub proof fn lemma_header_len(a: nat, b: nat, c: nat, d: nat)
    ensures
        header_bytes(a, b, c, d).len() == HEADER_LEN,
{
    lemma_le_len(VERSION as nat, 4);
    lemma_le_len(a, 8);
    lemma_le_len(b, 4);
    lemma_le_len(c, 8);
    lemma_le_len(d, 4);
}

/// Overwrites the first bytes of `buf` with the header.
pub fn write_header(
    buf: &mut Vec<u8>,
    dir_table_off: u64,
    dir_count: u32,
    meta_off: u64,
    meta_len: u32,
)
    requires
        old(buf)@.len() >= HEADER_LEN,
    ensures
        final(buf)@ == header_bytes(
            dir_table_off as nat,
            dir_count as nat,
            meta_off as nat,
            meta_len as nat,
        ) + old(buf)@.skip(HEADER_LEN as int),
{
    let ghost rest = buf@;
    let mut head: Vec<u8> = Vec::new();
    head.push(79);
    head.push(68);
    head.push(73);
    head.push(88);
    put_le(&mut head, VERSION as u64, 4);
    put_le(&mut head, dir_table_off, 8);
    put_le(&mut head, dir_count as u64, 4);
    put_le(&mut head, meta_off, 8);
    put_le(&mut head, meta_len as u64, 4);
    let ghost h = header_bytes(
        dir_table_off as nat,
        dir_count as nat,
        meta_off as nat,
        meta_len as nat,
    );
    proof {
        assert(head@ =~= h);
        lemma_header_len(
            dir_table_off as nat,
            dir_count as nat,
            meta_off as nat,
            meta_len as nat,
        );
    }
    for i in 0..HEADER_LEN
        invariant
            head@ == h,
            h.len() == HEADER_LEN,
            rest.len() >= HEADER_LEN,
            buf@ == h.take(i as int) + rest.skip(i as int),
    {
        buf.set(i, head[i]);
        assert(buf@ =~= h.take(i + 1) + rest.skip(i + 1));
    }
    assert(h.take(HEADER_LEN as int) =~= h);
}

/// Reading a text at `pos`: the text and the position after it.
pub open spec fn text_at(data: Seq<u8>, pos: int) -> Result<(Seq<char>, int), Seq<char>> {
    if pos + 4 > data.len() {
        Err("truncated string length"@)
    } else {
        let end = pos + 4 + le_value(data.subrange(pos, pos + 4));
        if end > data.len() {
            Err("truncated string"@)
        } else {
            let body = data.subrange(pos + 4, end);
            if valid_utf8(body) {
                Ok((decode_utf8(body), end))
            } else {
                Err("non-utf8 string"@)
            }
        }
    }
}

/// Reads the text at `pos`, moving `pos` behind it.
pub fn read_str(data: &[u8], pos: &mut usize) -> (r: Result<String, String>)
    requires
        *old(pos) <= data@.len(),
    ensures
        match r {
            Ok(s) => text_at(data@, *old(pos) as int) == Ok::<(Seq<char>, int), Seq<char>>(
                (s@, *final(pos) as int),
            ) && *old(pos) + 4 <= *final(pos) <= data@.len(),
            Err(e) => text_at(data@, *old(pos) as int) == Err::<(Seq<char>, int), Seq<char>>(e@),
        },
{
    if data.len() - *pos < 4 {
        return Err("truncated string length".to_owned());
    }
    let len: u64 = get_le(data, *pos, 4);
    let left = data.len() - *pos - 4;
    if len > left as u64 {
        return Err("truncated string".to_owned());
    }
    let start = *pos + 4;
    let end = start + len as usize;
    match text_from_utf8(slice_to_vec(slice_subrange(data, start, end))) {
        Some(s) => {
            *pos = end;
            Ok(s)
        },
        None => Err("non-utf8 string".to_owned()),
    }
}

/// Reading a child at `pos`: the child and the position after it.
pub open spec fn child_at(data: Seq<u8>, pos: int) -> Result<(ChildView, int), Seq<char>> {
    match text_at(data, pos) {
        Err(e) => Err(e),
        Ok((name, a)) => if a >= data.len() {
            Err("truncated child flags"@)
        } else if a + 17 > data.len() {
            Err("truncated child numbers"@)
        } else {
            match text_at(data, a + 17) {
                Err(e) => Err(e),
                Ok((etag, b)) => match text_at(data, b) {
                    Err(e) => Err(e),
                    Ok((id, c)) => Ok(
                        (
                            ChildView {
                                name,
                                is_dir: data[a] != 0,
                                size: le_value(data.subrange(a + 1, a + 9)) as u64,
                                mtime: le_value(data.subrange(a + 9, a + 17)) as u64,
                                etag,
                                id,
                            },
                            c,
                        ),
                    ),
                },
            }
        },
    }
}

/// All children stored from `pos` to the end.
pub open spec fn children_from(data: Seq<u8>, pos: int) -> Result<Seq<ChildView>, Seq<char>>
    decreases data.len() - pos,
{
    if pos >= data.len() {
        Ok(Seq::empty())
    } else {
        match child_at(data, pos) {
            Err(e) => Err(e),
            Ok((c, next)) => match children_from(data, next) {
                Err(e) => Err(e),
                Ok(rest) => Ok(seq![c] + rest),
            },
        }
    }
}

/// The children stored in `bytes[off..off + len]`.
pub open spec fn child_block(
    bytes: Seq<u8>,
    off: nat,
    len: nat,
) -> Result<Seq<ChildView>, Seq<char>> {
    if off + len > bytes.len() {
        Err("child block out of range"@)
    } else {
        children_from(bytes.subrange(off as int, (off + len) as int), 0)
    }
}

/// Reads one child at `pos`, moving `pos` behind it.
fn read_child(data: &[u8], pos: &mut usize) -> (r: Result<ChildInfo, String>)
    requires
        *old(pos) <= data@.len(),
    ensures
        match r {
            Ok(c) => child_at(data@, *old(pos) as int) == Ok::<(ChildView, int), Seq<char>>(
                (c@, *final(pos) as int),
            ) && *old(pos) < *final(pos) <= data@.len(),
            Err(e) => child_at(data@, *old(pos) as int) == Err::<(ChildView, int), Seq<char>>(e@),
        },
{
    let name = match read_str(data, pos) {
        Ok(s) => s,
        Err(e) => {
            return Err(e);
        },
    };
    if *pos >= data.len() {
        return Err("truncated child flags".to_owned());
    }
    if data.len() - *pos < 17 {
        return Err("truncated child numbers".to_owned());
    }
    let is_dir = data[*pos] != 0;
    proof {
        lemma_pow256();
    }
    let size = get_le(data, *pos + 1, 8);
    let mtime = get_le(data, *pos + 9, 8);
    *pos = *pos + 17;
    let etag = match read_str(data, pos) {
        Ok(s) => s,
        Err(e) => {
            return Err(e);
        },
    };
    let id = match read_str(data, pos) {
        Ok(s) => s,
        Err(e) => {
            return Err(e);
        },
    };
    Ok(ChildInfo { name, is_dir, size, mtime, etag, id })
}

/// Reads the children stored in `bytes[off..off + len]`.
pub fn parse_child_block(bytes: &[u8], off: u64, len: u32) -> (r: Result<Vec<ChildInfo>, String>)
    ensures
        match r {
            Ok(v) => child_block(bytes@, off as nat, len as nat) == Ok::<
                Seq<ChildView>,
                Seq<char>,
            >(child_views(v@)),
            Err(e) => child_block(bytes@, off as nat, len as nat) == Err::<
                Seq<ChildView>,
                Seq<char>,
            >(e@),
        },
{
    let total = bytes.len() as u64;
    if off > total || len as u64 > total - off {
        return Err("child block out of range".to_owned());
    }
    let start = off as usize;
    let end = start + len as usize;
    let data = slice_subrange(bytes, start, end);
    let ghost goal = children_from(data@, 0);
    let mut pos: usize = 0;
    let mut out: Vec<ChildInfo> = Vec::new();
    proof {
        assert(forall|rest: Seq<ChildView>| #[trigger] (child_views(out@) + rest) =~= rest);
    }
    while pos < data.len()
        invariant
            pos <= data@.len(),
            goal == child_block(bytes@, off as nat, len as nat),
            goal == (match children_from(data@, pos as int) {
                Ok(rest) => Ok(child_views(out@) + rest),
                Err(e) => Err(e),
            }),
        decreases data@.len() - pos,
    {
        let ghost at = pos as int;
        match read_child(data, &mut pos) {
            Ok(c) => {
                let ghost before = out@;
                out.push(c);
                proof {
                    assert(child_views(out@) =~= child_views(before).push(c@));
                    let more = children_from(data@, pos as int);
                    if more is Ok {
                        assert(child_views(before) + (seq![c@] + more->Ok_0) =~= child_views(out@)
                            + more->Ok_0);
                    }
                }
            },
            Err(e) => {
                return Err(e);
            },
        }
    }
    assert(child_views(out@) + Seq::empty() =~= child_views(out@));
    Ok(out)
}

/// Reading a row at `pos`: the row and the position after it.
pub open spec fn row_at(data: Seq<u8>, pos: int) -> Result<(RowView, int), Seq<char>> {
    match text_at(data, pos) {
        Err(e) => Err(e),
        Ok((path, a)) => if a + 12 > data.len() {
            Err("truncated dir row"@)
        } else {
            match text_at(data, a + 12) {
                Err(e) => Err(e),
                Ok((id, b)) => if b + 16 > data.len() {
                    Err("truncated dir row meta"@)
                } else {
                    match text_at(data, b + 16) {
                        Err(e) => Err(e),
                        Ok((etag, c)) => Ok(
                            (
                                RowView {
                                    path,
                                    block_off: le_value(data.subrange(a, a + 8)) as u64,
                                    block_len: le_value(data.subrange(a + 8, a + 12)) as u32,
                                    id,
                                    size: le_value(data.subrange(b, b + 8)) as u64,
                                    mtime: le_value(data.subrange(b + 8, b + 16)) as u64,
                                    etag,
                                },
                                c,
                            ),
                        ),
                    }
                },
            }
        },
    }
}

/// `count` rows stored from `pos` on.
pub open spec fn rows_from(
    data: Seq<u8>,
    pos: int,
    count: nat,
) -> Result<Seq<RowView>, Seq<char>>
    decreases count,
{
    if count == 0 {
        Ok(Seq::empty())
    } else {
        match row_at(data, pos) {
            Err(e) => Err(e),
            Ok((r, next)) => match rows_from(data, next, (count - 1) as nat) {
                Err(e) => Err(e),
                Ok(rest) => Ok(seq![r] + rest),
            },
        }
    }
}

/// Reads one row at `pos`, moving `pos` behind it.
fn read_row(data: &[u8], pos: &mut usize) -> (r: Result<DirRow, String>)
    requires
        *old(pos) <= data@.len(),
    ensures
        match r {
            Ok(c) => row_at(data@, *old(pos) as int) == Ok::<(RowView, int), Seq<char>>(
                (c@, *final(pos) as int),
            ) && *final(pos) <= data@.len(),
            Err(e) => row_at(data@, *old(pos) as int) == Err::<(RowView, int), Seq<char>>(e@),
        },
{
    let path = match read_str(data, pos) {
        Ok(s) => s,
        Err(e) => {
            return Err(e);
        },
    };
    if data.len() - *pos < 12 {
        return Err("truncated dir row".to_owned());
    }
    proof {
        lemma_pow256();
    }
    let block_off = get_le(data, *pos, 8);
    let block_len = get_le(data, *pos + 8, 4) as u32;
    *pos = *pos + 12;
    let id = match read_str(data, pos) {
        Ok(s) => s,
        Err(e) => {
            return Err(e);
        },
    };
    if data.len() - *pos < 16 {
        return Err("truncated dir row meta".to_owned());
    }
    let size = get_le(data, *pos, 8);
    let mtime = get_le(data, *pos + 8, 8);
    *pos = *pos + 16;
    let etag = match read_str(data, pos) {
        Ok(s) => s,
        Err(e) => {
            return Err(e);
        },
    };
    Ok(DirRow { path, block_off, block_len, id, size, mtime, etag })
}

/// Reads `count` rows.
pub fn parse_dir_table(data: &[u8], count: u32) -> (r: Result<Vec<DirRow>, String>)
    ensures
        match r {
            Ok(v) => rows_from(data@, 0, count as nat) == Ok::<Seq<RowView>, Seq<char>>(
                row_views(v@),
            ),
            Err(e) => rows_from(data@, 0, count as nat) == Err::<Seq<RowView>, Seq<char>>(e@),
        },
{
    let ghost goal = rows_from(data@, 0, count as nat);
    let mut pos: usize = 0;
    let mut rows: Vec<DirRow> = Vec::new();
    let mut k: u32 = 0;
    proof {
        assert(forall|rest: Seq<RowView>| #[trigger] (row_views(rows@) + rest) =~= rest);
    }
    while k < count
        invariant
            k <= count,
            pos <= data@.len(),
            goal == rows_from(data@, 0, count as nat),
            goal == (match rows_from(data@, pos as int, (count - k) as nat) {
                Ok(rest) => Ok(row_views(rows@) + rest),
                Err(e) => Err(e),
            }),
        decreases count - k,
    {
        match read_row(data, &mut pos) {
            Ok(r) => {
                let ghost before = rows@;
                rows.push(r);
                proof {
                    assert(row_views(rows@) =~= row_views(before).push(r@));
                    let more = rows_from(data@, pos as int, (count - k - 1) as nat);
                    if more is Ok {
                        assert(row_views(before) + (seq![r@] + more->Ok_0) =~= row_views(rows@)
                            + more->Ok_0);
                    }
                }
            },
            Err(e) => {
                return Err(e);
            },
        }
        k = k + 1;
    }
    assert(row_views(rows@) + Seq::empty() =~= row_views(rows@));
    Ok(rows)
}

/// What the header says: directory table offset, directory count, meta
/// offset, meta length. A slice that is exactly one header long may point
/// past its own end.
pub open spec fn header_of(bytes: Seq<u8>) -> Result<(u64, u32, u64, u32), Seq<char>> {
    if bytes.len() < HEADER_LEN {
        Err("index header too short"@)
    } else if bytes.take(4) != magic() {
        Err("index magic mismatch"@)
    } else if le_value(bytes.subrange(4, 8)) != VERSION {
        Err("unsupported index version "@ + decimal(le_value(bytes.subrange(4, 8))))
    } else {
        let off = le_value(bytes.subrange(8, 16)) as u64;
        let count = le_value(bytes.subrange(16, 20)) as u32;
        let meta_off = le_value(bytes.subrange(20, 28)) as u64;
        let meta_len = le_value(bytes.subrange(28, 32)) as u32;
        if bytes.len() != HEADER_LEN && (off > bytes.len() || meta_off > bytes.len()) {
            Err("index offsets out of range"@)
        } else {
            Ok((off, count, meta_off, meta_len))
        }
    }
}

/// Reads the header.
pub fn parse_header(bytes: &[u8]) -> (r: Result<(u64, u32, u64, u32), String>)
    ensures
        match r {
            Ok(h) => header_of(bytes@) == Ok::<(u64, u32, u64, u32), Seq<char>>(h),
            Err(e) => header_of(bytes@) == Err::<(u64, u32, u64, u32), Seq<char>>(e@),
        },
{
    if bytes.len() < HEADER_LEN {
        return Err("index header too short".to_owned());
    }
    if bytes[0] != 79 || bytes[1] != 68 || bytes[2] != 73 || bytes[3] != 88 {
        proof {
            let m = bytes@.take(4);
            assert(m[0] == bytes@[0] && m[1] == bytes@[1] && m[2] == bytes@[2] && m[3]
                == bytes@[3]);
        }
        return Err("index magic mismatch".to_owned());
    }
    assert(bytes@.take(4) =~= magic());
    proof {
        lemma_pow256();
    }
    let version = get_le(bytes, 4, 4);
    if version != VERSION as u64 {
        return Err(
            "unsupported index version ".to_owned().concat(decimal_text(version).as_str()),
        );
    }
    let off = get_le(bytes, 8, 8);
    let count = get_le(bytes, 16, 4) as u32;
    let meta_off = get_le(bytes, 20, 8);
    let meta_len = get_le(bytes, 28, 4) as u32;
    let total = bytes.len() as u64;
    if bytes.len() != HEADER_LEN && (off > total || meta_off > total) {
        return Err("index offsets out of range".to_owned());
    }
    Ok((off, count, meta_off, meta_len))
}

} // verus!
