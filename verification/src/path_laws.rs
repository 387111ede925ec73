//! Laws of `/`-separated paths.
use vstd::prelude::*;
use crate::index::{last_of_path, parent_of_path};
use crate::text::{
    flat_path, last_pos, lemma_last_pos, lemma_split_nonempty, path_text, segments, split_on,
    trim_end,
};

verus! {

/// Whether the text can be a segment of a path.
pub open spec fn clean(name: Seq<char>) -> bool {
    name.len() > 0 && !name.contains('/')
}

/// Whether all texts can be segments of a path.
pub open spec fn all_clean(names: Seq<Seq<char>>) -> bool {
    forall|i: int| 0 <= i < names.len() ==> clean(#[trigger] names[i])
}

proof fn lemma_keep_push(s: Seq<Seq<char>>, x: Seq<char>)
    ensures
        s.push(x).filter(|t: Seq<char>| t.len() > 0) == (if x.len() > 0 {
            s.filter(|t: Seq<char>| t.len() > 0).push(x)
        } else {
            s.filter(|t: Seq<char>| t.len() > 0)
        }),
{
    reveal(Seq::filter);
    assert(s.push(x).drop_last() =~= s);
}

/// A separator followed by a text without separator adds one piece.
proof fn lemma_split_tail(a: Seq<char>, c: char, b: Seq<char>)
    requires
        !b.contains(c),
    ensures
        split_on(a.push(c) + b, c) == split_on(a, c).push(b),
    decreases b.len(),
{
    let whole = a.push(c) + b;
    if b.len() == 0 {
        assert(whole =~= a.push(c));
        assert(whole.drop_last() =~= a);
        assert(b =~= Seq::empty());
    } else {
        assert(b.contains(b.last()));
        assert forall|i: int| 0 <= i < b.drop_last().len() implies b.drop_last()[i] != c by {
            assert(b.contains(b[i]));
        }
        lemma_split_tail(a, c, b.drop_last());
        assert(whole.drop_last() =~= a.push(c) + b.drop_last());
        assert(whole.last() == b.last());
        assert(b.drop_last().push(b.last()) =~= b);
        let r = split_on(a, c).push(b.drop_last());
        assert(r.drop_last() =~= split_on(a, c));
        assert(split_on(whole, c) =~= split_on(a, c).push(b));
    }
}

/// A text without separator is one piece.
pub proof fn lemma_split_one(b: Seq<char>, c: char)
    requires
        !b.contains(c),
    ensures
        split_on(b, c) == seq![b],
    decreases b.len(),
{
    if b.len() == 0 {
        assert(b =~= Seq::empty());
    } else {
        assert(b.contains(b.last()));
        assert forall|i: int| 0 <= i < b.drop_last().len() implies b.drop_last()[i] != c by {
            assert(b.contains(b[i]));
        }
        lemma_split_one(b.drop_last(), c);
        assert(b.drop_last().push(b.last()) =~= b);
        assert(split_on(b, c) =~= seq![b]);
    }
}

/// Nothing is in the segments of a text without any.
proof fn lemma_no_segments()
    ensures
        segments(Seq::empty()) == Seq::<Seq<char>>::empty(),
        segments(seq!['/']) == Seq::<Seq<char>>::empty(),
{
    let none = Seq::<Seq<char>>::empty();
    let empty = Seq::<char>::empty();
    reveal(Seq::filter);
    lemma_keep_push(none, empty);
    assert(none.push(empty) =~= seq![empty]);
    assert(segments(empty) =~= none);
    lemma_keep_push(seq![empty], empty);
    assert(seq!['/'].drop_last() =~= empty);
    assert(split_on(seq!['/'], '/') =~= seq![empty].push(empty));
}

/// The segments of a text, a separator and a segment.
proof fn lemma_segments_tail(a: Seq<char>, b: Seq<char>)
    requires
        clean(b),
    ensures
        segments(a.push('/') + b) == segments(a).push(b),
{
    lemma_split_tail(a, '/', b);
    lemma_keep_push(split_on(a, '/'), b);
}

/// A trailing separator does not change the segments.
proof fn lemma_segments_slash(a: Seq<char>)
    ensures
        segments(a.push('/')) == segments(a),
{
    assert(a.push('/').drop_last() =~= a);
    lemma_keep_push(split_on(a, '/'), Seq::empty());
}

proof fn lemma_segments_flat(names: Seq<Seq<char>>)
    requires
        all_clean(names),
    ensures
        segments(flat_path(names)) == names,
    decreases names.len(),
{
    if names.len() == 0 {
        lemma_no_segments();
        assert(names =~= Seq::empty());
    } else {
        let up = names.drop_last();
        assert forall|i: int| 0 <= i < up.len() implies clean(#[trigger] up[i]) by {
            assert(up[i] == names[i]);
        }
        lemma_segments_flat(up);
        assert(clean(names[names.len() - 1]));
        lemma_segments_tail(flat_path(up), names.last());
        assert(up.push(names.last()) =~= names);
    }
}

/// The segments of a path built from segments are those segments.
pub proof fn law_segments_of_path(names: Seq<Seq<char>>)
    requires
        all_clean(names),
    ensures
        segments(path_text(names)) == names,
{
    if names.len() == 0 {
        lemma_no_segments();
        assert(names =~= Seq::empty());
    } else {
        lemma_segments_flat(names);
    }
}

proof fn lemma_pieces_clean(s: Seq<char>)
    ensures
        forall|i: int|
            0 <= i < split_on(s, '/').len() ==> !(#[trigger] split_on(s, '/')[i]).contains('/'),
    decreases s.len(),
{
    let r = split_on(s, '/');
    if s.len() == 0 {
        assert(r =~= seq![Seq::<char>::empty()]);
    } else {
        let before = split_on(s.drop_last(), '/');
        lemma_pieces_clean(s.drop_last());
        lemma_split_nonempty(s.drop_last(), '/');
        assert forall|i: int| 0 <= i < r.len() implies !(#[trigger] r[i]).contains('/') by {
            if s.last() == '/' {
                if i < before.len() {
                    assert(r[i] == before[i]);
                }
            } else if i < before.len() - 1 {
                assert(r[i] == before[i]);
            } else {
                let last = before[before.len() - 1];
                assert(!last.contains('/'));
                assert(r[i] == last.push(s.last()));
                assert forall|j: int| 0 <= j < r[i].len() implies r[i][j] != '/' by {
                    if j < last.len() {
                        assert(last.contains(last[j]));
                    }
                }
            }
        }
    }
}

proof fn lemma_keep_clean(pieces: Seq<Seq<char>>)
    requires
        forall|i: int| 0 <= i < pieces.len() ==> !(#[trigger] pieces[i]).contains('/'),
    ensures
        all_clean(pieces.filter(|t: Seq<char>| t.len() > 0)),
    decreases pieces.len(),
{
    reveal(Seq::filter);
    if pieces.len() > 0 {
        let up = pieces.drop_last();
        assert forall|i: int| 0 <= i < up.len() implies !(#[trigger] up[i]).contains('/') by {
            assert(up[i] == pieces[i]);
        }
        lemma_keep_clean(up);
        assert(!pieces[pieces.len() - 1].contains('/'));
    }
}

/// The segments of a path are non-empty and without separator.
pub proof fn law_segments_clean(path: Seq<char>)
    ensures
        all_clean(segments(path)),
{
    lemma_pieces_clean(path);
    lemma_keep_clean(split_on(path, '/'));
}

/// Normalising a path keeps its segments, so a second time changes nothing.
pub proof fn law_normalize_idempotent(path: Seq<char>)
    ensures
        segments(path_text(segments(path))) == segments(path),
        path_text(segments(path_text(segments(path)))) == path_text(segments(path)),
{
    law_segments_clean(path);
    law_segments_of_path(segments(path));
}

/// A separator with none behind it is the last one.
pub proof fn lemma_last_is(s: Seq<char>, i: int)
    requires
        0 <= i < s.len(),
        s[i] == '/',
        forall|j: int| i < j < s.len() ==> s[j] != '/',
    ensures
        last_pos(s, '/') == Some(i),
{
    lemma_last_pos(s, '/');
    let k = last_pos(s, '/')->0;
    assert(last_pos(s, '/') is Some);
    if k < i {
        assert(s[i] != '/');
    } else if i < k {
        assert(s[k] != '/');
    }
}

/// Folder part and last segment undo the adding of a segment to a path.
pub proof fn law_path_parts(names: Seq<Seq<char>>, name: Seq<char>)
    requires
        clean(name),
    ensures
        parent_of_path(path_text(names.push(name))) == path_text(names),
        last_of_path(path_text(names.push(name))) == name,
{
    let all = names.push(name);
    assert(all.drop_last() =~= names);
    let up = flat_path(names);
    let p = up.push('/') + name;
    assert(path_text(all) == p);
    assert(p.last() == name.last());
    assert(name.contains(name.last()));
    assert(trim_end(p, '/') == p);
    assert forall|j: int| up.len() < j < p.len() implies p[j] != '/' by {
        assert(p[j] == name[j - up.len() - 1]);
        assert(name.contains(name[j - up.len() - 1]));
    }
    lemma_last_is(p, up.len() as int);
    assert(p.skip(up.len() as int + 1) =~= name);
    assert(p.take(up.len() as int) =~= up);
    if names.len() == 0 {
        assert(up.len() == 0);
    } else {
        assert(up.len() > 0);
    }
}

proof fn lemma_segments_trimmed(path: Seq<char>)
    ensures
        segments(trim_end(path, '/')) == segments(path),
    decreases path.len(),
{
    if path.len() > 0 && path.last() == '/' {
        lemma_segments_trimmed(path.drop_last());
        lemma_segments_slash(path.drop_last());
        assert(path.drop_last().push('/') =~= path);
    }
}

/// The segments of a path are those of its folder part and its last segment.
pub proof fn law_segments_parts(path: Seq<char>)
    requires
        last_of_path(path).len() > 0,
    ensures
        clean(last_of_path(path)),
        segments(path) == segments(parent_of_path(path)).push(last_of_path(path)),
{
    let t = trim_end(path, '/');
    lemma_segments_trimmed(path);
    lemma_last_pos(t, '/');
    lemma_no_segments();
    match last_pos(t, '/') {
        None => {
            assert(!t.contains('/'));
            lemma_split_one(t, '/');
            let none = Seq::<Seq<char>>::empty();
            lemma_keep_push(none, t);
            assert(none.push(t) =~= seq![t]);
            assert(none.filter(|t: Seq<char>| t.len() > 0) =~= none) by {
                reveal(Seq::filter);
            }
        },
        Some(i) => {
            let a = t.take(i);
            let b = t.skip(i + 1);
            assert forall|j: int| 0 <= j < b.len() implies b[j] != '/' by {
                assert(b[j] == t[i + 1 + j]);
            }
            assert(a.push('/') + b =~= t);
            lemma_segments_tail(a, b);
            if i == 0 {
                assert(a =~= Seq::empty());
            }
        },
    }
}

/// Splitting two texts with a separator between them splits each.
pub proof fn lemma_split_joined(a: Seq<char>, c: char, b: Seq<char>)
    ensures
        split_on(a.push(c) + b, c) == split_on(a, c) + split_on(b, c),
    decreases b.len(),
{
    let whole = a.push(c) + b;
    let x = split_on(a, c);
    if b.len() == 0 {
        assert(whole =~= a.push(c));
        assert(whole.drop_last() =~= a);
        assert(split_on(whole, c) =~= x + split_on(b, c));
    } else {
        let up = b.drop_last();
        lemma_split_joined(a, c, up);
        lemma_split_nonempty(up, c);
        assert(whole.drop_last() =~= a.push(c) + up);
        assert(whole.last() == b.last());
        let y = split_on(up, c);
        assert((x + y).drop_last() =~= x + y.drop_last());
        assert((x + y).last() == y.last());
        assert(split_on(whole, c) =~= x + split_on(b, c));
    }
}

/// What is kept of two lists is what is kept of each.
proof fn lemma_keep_joined(a: Seq<Seq<char>>, b: Seq<Seq<char>>)
    ensures
        (a + b).filter(|t: Seq<char>| t.len() > 0) == a.filter(|t: Seq<char>| t.len() > 0)
            + b.filter(|t: Seq<char>| t.len() > 0),
    decreases b.len(),
{
    let keep = |t: Seq<char>| t.len() > 0;
    if b.len() == 0 {
        assert(b.filter(keep) =~= Seq::empty()) by {
            reveal(Seq::filter);
        }
        assert(a + b =~= a);
        assert(a.filter(keep) + b.filter(keep) =~= a.filter(keep));
    } else {
        let up = b.drop_last();
        lemma_keep_joined(a, up);
        lemma_keep_push(a + up, b.last());
        lemma_keep_push(up, b.last());
        assert((a + up).push(b.last()) =~= a + b);
        assert(up.push(b.last()) =~= b);
        assert((a + b).filter(keep) =~= a.filter(keep) + b.filter(keep));
    }
}

/// The segments of a path below another one are those of the one and then those
/// of the other.
pub proof fn law_segments_joined(a: Seq<char>, b: Seq<char>)
    ensures
        segments(a + seq!['/'] + b) == segments(a) + segments(b),
{
    assert(a + seq!['/'] + b =~= a.push('/') + b);
    lemma_split_joined(a, '/', b);
    lemma_keep_joined(split_on(a, '/'), split_on(b, '/'));
}

} // verus!
