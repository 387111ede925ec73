//! Law of moves by path: what a move takes along, what it leaves behind, and
//! what it replaces.
use vstd::prelude::*;
use crate::index::{
    applied, below, child_named, clash, descends, detached, kids_of, last_of_path, lists, local_item, own_entry,
    parent_of_path, relocated, resolved, subtree, walk, DeltaView, IndexView,
};
use crate::index_laws::{
    consistent, displaced, filed, law_apply_keeps_consistent, lemma_applied_kids, lemma_clash,
    lemma_detached, root_on_top,
};
use crate::path_laws::{law_segments_joined, law_segments_parts};
use crate::resolve_laws::{
    law_apply_then_walk, lemma_lineage_more, lemma_passes_up, lemma_walk_last, lemma_walk_lineage,
    lemma_walk_step, passes,
};
use crate::text::segments;

verus! {

/// A walk is a walk along the first names and then along the others.
proof fn lemma_walk_joined(s: IndexView, r: Seq<char>, a: Seq<Seq<char>>, b: Seq<Seq<char>>)
    ensures
        walk(s.kids, r, a + b) == (match walk(s.kids, r, a) {
            Some(x) => walk(s.kids, x, b),
            None => None,
        }),
    decreases b.len(),
{
    if b.len() == 0 {
        assert(a + b =~= a);
    } else {
        assert((a + b).drop_last() =~= a + b.drop_last());
        assert((a + b).last() == b.last());
        lemma_walk_joined(s, r, a, b.drop_last());
    }
}

/// Two walks from the root that end at the same id are the same walk.
proof fn lemma_walk_unique(s: IndexView, a: Seq<Seq<char>>, b: Seq<Seq<char>>)
    requires
        consistent(s),
        root_on_top(s),
        s.root is Some,
        walk(s.kids, s.root->0, a) is Some,
        walk(s.kids, s.root->0, a) == walk(s.kids, s.root->0, b),
    ensures
        a == b,
{
    let x = walk(s.kids, s.root->0, a)->0;
    lemma_walk_lineage(s, a);
    lemma_walk_lineage(s, b);
    if a.len() <= b.len() {
        lemma_lineage_more(s.nodes, x, a.len() + 1, b.len() + 1);
    } else {
        lemma_lineage_more(s.nodes, x, b.len() + 1, a.len() + 1);
    }
}

/// What a walk from the root reaches below another id passes that id.
proof fn lemma_below_walk(s: IndexView, names: Seq<Seq<char>>, top: Seq<Seq<char>>, c: Seq<char>)
    requires
        consistent(s),
        root_on_top(s),
        s.root is Some,
        walk(s.kids, s.root->0, top) == Some(c),
        walk(s.kids, s.root->0, names) is Some,
        below(s.kids, c, walk(s.kids, s.root->0, names)->0),
    ensures
        top.is_prefix_of(names),
{
    let x = walk(s.kids, s.root->0, names)->0;
    let chain = choose|chain: Seq<Seq<char>>|
        chain.len() > 0 && chain[0] == c && chain.last() == x && #[trigger] descends(s.kids, chain);
    let n = names.len() as int;
    assert(names.take(n) =~= names);
    let j = lemma_passes_up(s, names, n, chain);
    lemma_walk_unique(s, names.take(j), top);
    assert(names.take(j) =~= names.subrange(0, top.len() as int));
}

/// The item that a move applies, and the walks to its old and its new place.
spec fn is_move(
    s: IndexView,
    it: DeltaView,
    old_place: Seq<Seq<char>>,
    folder: Seq<Seq<char>>,
) -> bool {
    &&& consistent(s)
    &&& root_on_top(s)
    &&& s.root is Some
    &&& filed(it)
    &&& walk(s.kids, s.root->0, old_place) == Some(it.id)
    &&& walk(s.kids, s.root->0, folder) == it.parent_id
    &&& !old_place.is_prefix_of(folder.push(it.name))
    &&& !folder.push(it.name).is_prefix_of(old_place)
}

/// What is displaced lies below the id at the new place.
proof fn lemma_displaced_below(
    s: IndexView,
    it: DeltaView,
    old_place: Seq<Seq<char>>,
    folder: Seq<Seq<char>>,
    x: Seq<char>,
)
    requires
        is_move(s, it, old_place, folder),
        displaced(s, it).contains(x),
    ensures
        walk(s.kids, s.root->0, folder.push(it.name)) is Some,
        below(s.kids, walk(s.kids, s.root->0, folder.push(it.name))->0, x),
{
    let t = detached(s, it);
    let c = clash(t, it)->0;
    let p = it.parent_id->0;
    let to = folder.push(it.name);
    lemma_detached(s, it);
    lemma_clash(s, it, c);
    assert(kids_of(s, p).contains((it.name, c)));
    assert(to.drop_last() =~= folder);
    lemma_walk_step(s, s.root->0, to, p, c);
    let chain = choose|chain: Seq<Seq<char>>|
        chain.len() > 0 && chain[0] == c && chain.last() == x && #[trigger] descends(t.kids, chain);
    assert forall|i: int| 0 <= i < chain.len() - 1 implies lists(
        s.kids,
        #[trigger] chain[i],
        chain[i + 1],
    ) by {
        assert(lists(t.kids, chain[i], chain[i + 1]));
        let n = choose|n: Seq<char>| #[trigger] t.kids[chain[i]].contains((n, chain[i + 1]));
        assert(kids_of(t, chain[i]).contains((n, chain[i + 1])));
        assert(kids_of(s, chain[i]).contains((n, chain[i + 1])));
        assert(s.kids[chain[i]].contains((n, chain[i + 1])));
    }
    assert(descends(s.kids, chain));
}

/// Nothing is displaced that a walk reaches which does not come past the new
/// place.
proof fn lemma_not_displaced(
    s: IndexView,
    it: DeltaView,
    old_place: Seq<Seq<char>>,
    folder: Seq<Seq<char>>,
    names: Seq<Seq<char>>,
)
    requires
        is_move(s, it, old_place, folder),
        walk(s.kids, s.root->0, names) is Some,
        !folder.push(it.name).is_prefix_of(names),
    ensures
        !displaced(s, it).contains(walk(s.kids, s.root->0, names)->0),
{
    let x = walk(s.kids, s.root->0, names)->0;
    if displaced(s, it).contains(x) {
        let to = folder.push(it.name);
        lemma_displaced_below(s, it, old_place, folder, x);
        lemma_below_walk(s, names, to, walk(s.kids, s.root->0, to)->0);
    }
}

/// What lies below the moved id does not lie at or below its new place.
proof fn lemma_apart(old_place: Seq<Seq<char>>, to: Seq<Seq<char>>, rest: Seq<Seq<char>>)
    requires
        !old_place.is_prefix_of(to),
        !to.is_prefix_of(old_place),
    ensures
        !to.is_prefix_of(old_place + rest),
{
    let whole = old_place + rest;
    if to.is_prefix_of(whole) {
        if to.len() <= old_place.len() {
            assert(to =~= old_place.subrange(0, to.len() as int)) by {
                assert forall|i: int| 0 <= i < to.len() implies to[i] == old_place[i] by {
                    assert(to[i] == whole[i]);
                }
            }
        } else {
            assert(old_place =~= to.subrange(0, old_place.len() as int)) by {
                assert forall|i: int| 0 <= i < old_place.len() implies old_place[i] == to[i] by {
                    assert(to[i] == whole[i]);
                }
            }
        }
    }
}

/// The entries below the moved id, at any depth, stay as they are.
proof fn lemma_entries_below(
    s: IndexView,
    it: DeltaView,
    old_place: Seq<Seq<char>>,
    folder: Seq<Seq<char>>,
    rest: Seq<Seq<char>>,
)
    requires
        is_move(s, it, old_place, folder),
        walk(s.kids, it.id, rest) is Some,
    ensures
        kids_of(applied(s, it), walk(s.kids, it.id, rest)->0) == kids_of(
            s,
            walk(s.kids, it.id, rest)->0,
        ),
{
    let a = applied(s, it);
    let r = s.root->0;
    let y = walk(s.kids, it.id, rest)->0;
    let to = folder.push(it.name);
    let here = old_place + rest;
    lemma_walk_joined(s, r, old_place, rest);
    lemma_apart(old_place, to, rest);
    lemma_not_displaced(s, it, old_place, folder, here);
    lemma_applied_kids(s, it);
    if Some(y) == it.parent_id {
        lemma_walk_unique(s, here, folder);
        assert(old_place =~= to.subrange(0, old_place.len() as int));
        assert(false);
    }
    assert forall|e: (Seq<char>, Seq<char>)| #[trigger]
        kids_of(a, y).contains(e) <==> kids_of(s, y).contains(e) by {
        if kids_of(s, y).contains(e) {
            let deeper = rest.push(e.0);
            let there = old_place + deeper;
            assert(there.drop_last() =~= here);
            lemma_walk_step(s, r, there, y, e.1);
            lemma_apart(old_place, to, deeper);
            lemma_not_displaced(s, it, old_place, folder, there);
            if e.1 == it.id {
                lemma_walk_unique(s, there, old_place);
                assert(there.len() > old_place.len());
            }
        }
    }
    assert(kids_of(a, y) =~= kids_of(s, y));
}

/// A walk from the moved id goes where it went.
proof fn lemma_walk_below(
    s: IndexView,
    it: DeltaView,
    old_place: Seq<Seq<char>>,
    folder: Seq<Seq<char>>,
    rest: Seq<Seq<char>>,
)
    requires
        is_move(s, it, old_place, folder),
    ensures
        walk(applied(s, it).kids, it.id, rest) == walk(s.kids, it.id, rest),
    decreases rest.len(),
{
    if rest.len() > 0 {
        let up = rest.drop_last();
        lemma_walk_below(s, it, old_place, folder, up);
        if walk(s.kids, it.id, up) is Some {
            let y = walk(s.kids, it.id, up)->0;
            let a = applied(s, it);
            lemma_entries_below(s, it, old_place, folder, up);
            lemma_walk_listed(s, it.id, rest);
            lemma_walk_listed(a, it.id, rest);
        }
    }
}

/// The last step of a walk looks the name up among the entries.
proof fn lemma_walk_listed(s: IndexView, r: Seq<char>, names: Seq<Seq<char>>)
    requires
        names.len() > 0,
        walk(s.kids, r, names.drop_last()) is Some,
    ensures
        walk(s.kids, r, names) == child_named(
            kids_of(s, walk(s.kids, r, names.drop_last())->0),
            names.last(),
        ),
{
}

/// The walk to the folder of the old place goes where it went.
proof fn lemma_walk_to_old_folder(
    s: IndexView,
    it: DeltaView,
    old_place: Seq<Seq<char>>,
    folder: Seq<Seq<char>>,
    k: int,
)
    requires
        is_move(s, it, old_place, folder),
        0 <= k < old_place.len(),
    ensures
        walk(s.kids, s.root->0, old_place.take(k)) is Some,
        walk(applied(s, it).kids, s.root->0, old_place.take(k)) == walk(
            s.kids,
            s.root->0,
            old_place.take(k),
        ),
    decreases k,
{
    let a = applied(s, it);
    let r = s.root->0;
    let to = folder.push(it.name);
    let here = old_place.take(k);
    assert(here + old_place.skip(k) =~= old_place);
    lemma_walk_joined(s, r, here, old_place.skip(k));
    if k == 0 {
        assert(here =~= Seq::empty());
    } else {
        let up = old_place.take(k - 1);
        assert(here.drop_last() =~= up);
        lemma_walk_to_old_folder(s, it, old_place, folder, k - 1);
        let y = walk(s.kids, r, up)->0;
        let x = walk(s.kids, r, here)->0;
        lemma_not_past(old_place, to, k);
        lemma_not_past(old_place, to, k - 1);
        lemma_not_displaced(s, it, old_place, folder, here);
        lemma_not_displaced(s, it, old_place, folder, up);
        if x == it.id {
            lemma_walk_unique(s, here, old_place);
        }
        lemma_walk_step(s, r, here, y, x);
        lemma_applied_kids(s, it);
        law_apply_keeps_consistent(s, it);
        assert(kids_of(a, y).contains((here.last(), x)));
        lemma_walk_step(a, r, here, y, x);
    }
}

/// No walk towards the old place comes past the new one.
proof fn lemma_not_past(old_place: Seq<Seq<char>>, to: Seq<Seq<char>>, k: int)
    requires
        !to.is_prefix_of(old_place),
        0 <= k <= old_place.len(),
    ensures
        !to.is_prefix_of(old_place.take(k)),
{
    if to.is_prefix_of(old_place.take(k)) {
        assert(to =~= old_place.subrange(0, to.len() as int)) by {
            assert forall|i: int| 0 <= i < to.len() implies to[i] == old_place[i] by {
                assert(to[i] == old_place.take(k)[i]);
            }
        }
    }
}

/// Whatever is below an id that a walk from the root reaches is reached by a
/// longer walk.
proof fn lemma_below_is_reached(
    s: IndexView,
    names: Seq<Seq<char>>,
    chain: Seq<Seq<char>>,
) -> (more: Seq<Seq<char>>)
    requires
        consistent(s),
        chain.len() > 0,
        s.root is Some,
        walk(s.kids, s.root->0, names) == Some(chain[0]),
        descends(s.kids, chain),
    ensures
        walk(s.kids, s.root->0, names + more) == Some(chain.last()),
        chain.len() > 1 ==> more.len() > 0,
    decreases chain.len(),
{
    if chain.len() == 1 {
        assert(names + Seq::empty() =~= names);
        Seq::empty()
    } else {
        let up = chain.drop_last();
        let m = chain.len() - 2;
        assert forall|i: int| 0 <= i < up.len() - 1 implies lists(
            s.kids,
            #[trigger] up[i],
            up[i + 1],
        ) by {
            assert(lists(s.kids, chain[i], chain[i + 1]));
        }
        let first = lemma_below_is_reached(s, names, up);
        assert(lists(s.kids, chain[m], chain[m + 1]));
        let n = choose|n: Seq<char>| #[trigger] s.kids[chain[m]].contains((n, chain[m + 1]));
        assert(kids_of(s, chain[m]).contains((n, chain[m + 1])));
        let more = first.push(n);
        assert((names + more).drop_last() =~= names + first);
        lemma_walk_step(s, s.root->0, names + more, chain[m], chain[m + 1]);
        more
    }
}

/// The nodes below the moved id stay as they are.
proof fn lemma_node_below(
    s: IndexView,
    it: DeltaView,
    old_place: Seq<Seq<char>>,
    folder: Seq<Seq<char>>,
    y: Seq<char>,
)
    requires
        is_move(s, it, old_place, folder),
        below(s.kids, it.id, y),
        y != it.id,
    ensures
        applied(s, it).nodes.dom().contains(y),
        applied(s, it).nodes[y] == s.nodes[y],
{
    let chain = choose|chain: Seq<Seq<char>>|
        chain.len() > 0 && chain[0] == it.id && chain.last() == y && #[trigger] descends(
            s.kids,
            chain,
        );
    let more = lemma_below_is_reached(s, old_place, chain);
    let whole = old_place + more;
    lemma_apart(old_place, folder.push(it.name), more);
    lemma_not_displaced(s, it, old_place, folder, whole);
    let parent = lemma_walk_last(s, s.root->0, whole);
    assert(own_entry(s.nodes, parent, (whole.last(), y)));
    lemma_applied_kids(s, it);
}

/// Nothing is found at the old place any more.
proof fn lemma_old_place_free(
    s: IndexView,
    it: DeltaView,
    old_place: Seq<Seq<char>>,
    folder: Seq<Seq<char>>,
)
    requires
        is_move(s, it, old_place, folder),
    ensures
        walk(applied(s, it).kids, s.root->0, old_place) is None,
{
    let a = applied(s, it);
    let r = s.root->0;
    let n = old_place.len() as int;
    let to = folder.push(it.name);
    if n == 0 {
        assert(old_place =~= to.subrange(0, 0));
        assert(false);
    }
    let up = old_place.take(n - 1);
    assert(old_place.drop_last() =~= up);
    lemma_walk_to_old_folder(s, it, old_place, folder, n - 1);
    let y = walk(s.kids, r, up)->0;
    lemma_walk_step(s, r, old_place, y, it.id);
    lemma_applied_kids(s, it);
    law_apply_keeps_consistent(s, it);
    if walk(a.kids, r, old_place) is Some {
        let x = walk(a.kids, r, old_place)->0;
        lemma_walk_step(a, r, old_place, y, x);
        let e = (old_place.last(), x);
        assert(kids_of(a, y).contains(e));
        if Some(y) == it.parent_id && e == (it.name, it.id) {
            lemma_walk_unique(s, up, folder);
            assert(old_place =~= to);
            assert(old_place =~= to.subrange(0, old_place.len() as int));
        } else {
            assert(kids_of(s, y).contains((old_place.last(), it.id)));
            assert(kids_of(s, y).contains((old_place.last(), x)));
        }
    }
}

/// What was at the new place is gone with everything below it.
proof fn lemma_replaced(
    s: IndexView,
    it: DeltaView,
    old_place: Seq<Seq<char>>,
    folder: Seq<Seq<char>>,
    c: Seq<char>,
    x: Seq<char>,
)
    requires
        is_move(s, it, old_place, folder),
        walk(s.kids, s.root->0, folder.push(it.name)) == Some(c),
        below(s.kids, c, x),
    ensures
        !applied(s, it).nodes.dom().contains(x),
{
    let t = detached(s, it);
    let r = s.root->0;
    let to = folder.push(it.name);
    let p = it.parent_id->0;
    assert(to.drop_last() =~= folder);
    lemma_walk_step(s, r, to, p, c);
    lemma_detached(s, it);
    if c == it.id {
        lemma_walk_unique(s, to, old_place);
        assert(to =~= old_place.subrange(0, to.len() as int));
    }
    lemma_clash(s, it, c);
    let chain = choose|chain: Seq<Seq<char>>|
        chain.len() > 0 && chain[0] == c && chain.last() == x && #[trigger] descends(s.kids, chain);
    assert forall|i: int| 0 <= i < chain.len() implies #[trigger] chain[i] != it.id by {
        if chain[i] == it.id {
            let part = chain.take(i + 1);
            assert forall|j: int| 0 <= j < part.len() - 1 implies lists(
                s.kids,
                #[trigger] part[j],
                part[j + 1],
            ) by {
                assert(lists(s.kids, chain[j], chain[j + 1]));
            }
            assert(part[0] == c && part.last() == it.id && descends(s.kids, part));
            assert(below(s.kids, c, it.id));
            lemma_below_walk(s, old_place, to, c);
        }
    }
    assert forall|i: int| 0 <= i < chain.len() - 1 implies lists(
        t.kids,
        #[trigger] chain[i],
        chain[i + 1],
    ) by {
        assert(lists(s.kids, chain[i], chain[i + 1]));
        let n = choose|n: Seq<char>| #[trigger] s.kids[chain[i]].contains((n, chain[i + 1]));
        assert(kids_of(s, chain[i]).contains((n, chain[i + 1])));
        assert(chain[i + 1] != it.id);
        assert(kids_of(t, chain[i]).contains((n, chain[i + 1])));
        assert(t.kids[chain[i]].contains((n, chain[i + 1])));
    }
    assert(descends(t.kids, chain));
    assert(subtree(t.kids, c).contains(x));
    assert(chain[chain.len() - 1] == x);
    lemma_applied_kids(s, it);
}

/// A move by path between two places of which neither lies within the other
/// takes everything below along: each path below the new place leads where the
/// same path below the old place led, and the nodes stay as they are but for
/// the place of the one that was moved. Nothing is left at the old place, and
/// whatever was at the new place is gone with everything below it. The one
/// exception is a node with an empty id, which no item can speak of.
pub proof fn law_move_carries_subtree(
    s: IndexView,
    from: Seq<char>,
    to: Seq<char>,
    rest: Seq<char>,
)
    requires
        consistent(s),
        root_on_top(s),
        resolved(s, from) is Some,
        resolved(s, from)->0.len() > 0,
        last_of_path(to).len() > 0,
        resolved(s, parent_of_path(to)) is Some,
        !segments(from).is_prefix_of(segments(to)),
        !segments(to).is_prefix_of(segments(from)),
    ensures
        ({
            let (t, done) = relocated(s, from, to);
            let id = resolved(s, from)->0;
            &&& done
            &&& resolved(t, to) == Some(id)
            &&& resolved(t, to + seq!['/'] + rest) == resolved(s, from + seq!['/'] + rest)
            &&& resolved(t, from) is None
            &&& t.nodes.dom().contains(id)
            &&& t.nodes[id].meta == s.nodes[id].meta
            &&& forall|y: Seq<char>| #[trigger]
                below(s.kids, id, y) && y != id ==> t.nodes.dom().contains(y) && t.nodes[y]
                    == s.nodes[y]
            &&& resolved(s, to) matches Some(c) ==> forall|x: Seq<char>| #[trigger]
                below(s.kids, c, x) ==> !t.nodes.dom().contains(x)
        }),
{
    let r = s.root->0;
    let id = resolved(s, from)->0;
    let old_place = segments(from);
    let folder = segments(parent_of_path(to));
    let p = resolved(s, parent_of_path(to))->0;
    law_segments_parts(to);
    assert(segments(to) =~= folder.push(last_of_path(to)));
    if old_place.len() == 0 {
        assert(old_place =~= segments(to).subrange(0, 0));
    }
    let q = lemma_walk_last(s, r, old_place);
    assert(s.nodes.dom().contains(id));
    let it = local_item(id, p, last_of_path(to), s.nodes[id].meta);
    assert(is_move(s, it, old_place, folder));
    let t = applied(s, it);
    assert(relocated(s, from, to) == (t, true));
    assert(!passes(s, folder, id)) by {
        if passes(s, folder, id) {
            let k = choose|k: int|
                0 <= k <= folder.len() && #[trigger] walk(s.kids, r, folder.take(k)) == Some(id);
            lemma_walk_unique(s, folder.take(k), old_place);
            assert(old_place =~= segments(to).subrange(0, old_place.len() as int));
        }
    }
    law_apply_then_walk(s, it, folder);
    let more = segments(rest);
    law_segments_joined(from, rest);
    law_segments_joined(to, rest);
    lemma_walk_joined(s, r, old_place, more);
    lemma_walk_joined(t, r, segments(to), more);
    lemma_walk_below(s, it, old_place, folder, more);
    lemma_old_place_free(s, it, old_place, folder);
    lemma_applied_kids(s, it);
    assert forall|y: Seq<char>| #[trigger] below(s.kids, id, y) && y != id implies t.nodes.dom(
    ).contains(y) && t.nodes[y] == s.nodes[y] by {
        lemma_node_below(s, it, old_place, folder, y);
    }
    if let Some(c) = resolved(s, to) {
        assert forall|x: Seq<char>| #[trigger] below(s.kids, c, x) implies !t.nodes.dom().contains(
            x,
        ) by {
            lemma_replaced(s, it, old_place, folder, c, x);
        }
    }
}

} // verus!
