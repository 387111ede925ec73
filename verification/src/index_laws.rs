//! Laws of the namespace index: what every operation keeps, and how paths and
//! ids fit together.
use vstd::prelude::*;
use crate::index::{
    applied, below, child_named, clash, detached, empty_index, kids_of, lemma_below_child,
    lemma_below_self, lemma_child_named, lists, own_entry, placed, removed, subtree, without,
    DeltaView, IndexView, NodeView,
};
use crate::text::{lemma_text_lt_total, text_lt};

verus! {

/// Whether every node with a parent is listed below that parent under its own
/// name.
pub open spec fn recorded(s: IndexView) -> bool {
    forall|x: Seq<char>| #[trigger]
        s.nodes.dom().contains(x) && s.nodes[x].parent is Some ==> kids_of(
            s,
            s.nodes[x].parent->0,
        ).contains((s.nodes[x].name, x))
}

/// Whether every listed pair is the name and id of a node with that parent.
pub open spec fn accounted(s: IndexView) -> bool {
    forall|p: Seq<char>, e: (Seq<char>, Seq<char>)| #[trigger]
        kids_of(s, p).contains(e) ==> own_entry(s.nodes, p, e)
}

/// Whether no name is listed twice in a folder.
pub open spec fn distinct(s: IndexView) -> bool {
    forall|p: Seq<char>, n: Seq<char>, c: Seq<char>, d: Seq<char>|
        #![trigger kids_of(s, p).contains((n, c)), kids_of(s, p).contains((n, d))]
        kids_of(s, p).contains((n, c)) && kids_of(s, p).contains((n, d)) ==> c == d
}

/// Whether nodes and lists agree and names are unique in each folder.
pub open spec fn consistent(s: IndexView) -> bool {
    recorded(s) && accounted(s) && distinct(s)
}

/// Whether the recorded root, if any, is a node without parent.
pub open spec fn root_on_top(s: IndexView) -> bool {
    s.root matches Some(r) ==> s.nodes.dom().contains(r) && s.nodes[r].parent is None
}

/// The empty index is consistent.
pub proof fn law_empty_consistent()
    ensures
        consistent(empty_index()),
        root_on_top(empty_index()),
{
}

proof fn lemma_without_kids(s: IndexView, gone: Set<Seq<char>>, p: Seq<char>, e: (Seq<char>, Seq<char>))
    ensures
        kids_of(without(s, gone), p).contains(e) <==> !gone.contains(p) && kids_of(s, p).contains(e)
            && !(gone.contains(e.1) && own_entry(s.nodes, p, e)),
{
}

/// What is listed below a removed id is removed.
proof fn lemma_subtree_closed(s: IndexView, top: Seq<char>, p: Seq<char>, e: (Seq<char>, Seq<char>))
    requires
        subtree(s.kids, top).contains(p),
        kids_of(s, p).contains(e),
    ensures
        subtree(s.kids, top).contains(e.1),
{
    assert(s.kids[p].contains((e.0, e.1)));
    assert(lists(s.kids, p, e.1));
    lemma_below_child(s.kids, top, p, e.1);
}

/// Removing an id with everything below it keeps an index consistent.
pub proof fn law_remove_keeps_consistent(s: IndexView, id: Seq<char>)
    requires
        consistent(s),
    ensures
        consistent(removed(s, id)),
        root_on_top(s) ==> root_on_top(removed(s, id)),
{
    let gone = subtree(s.kids, id);
    let t = removed(s, id);
    assert forall|x: Seq<char>| #[trigger]
        t.nodes.dom().contains(x) && t.nodes[x].parent is Some implies kids_of(
        t,
        t.nodes[x].parent->0,
    ).contains((t.nodes[x].name, x)) by {
        let p = s.nodes[x].parent->0;
        assert(s.nodes.dom().contains(x));
        assert(kids_of(s, p).contains((s.nodes[x].name, x)));
        if gone.contains(p) {
            lemma_subtree_closed(s, id, p, (s.nodes[x].name, x));
        }
        lemma_without_kids(s, gone, p, (s.nodes[x].name, x));
    }
    assert forall|p: Seq<char>, e: (Seq<char>, Seq<char>)| #[trigger]
        kids_of(t, p).contains(e) implies own_entry(t.nodes, p, e) by {
        lemma_without_kids(s, gone, p, e);
    }
    assert forall|p: Seq<char>, n: Seq<char>, c: Seq<char>, d: Seq<char>|
        #![trigger kids_of(t, p).contains((n, c)), kids_of(t, p).contains((n, d))]
        kids_of(t, p).contains((n, c)) && kids_of(t, p).contains((n, d)) implies c == d by {
        lemma_without_kids(s, gone, p, (n, c));
        lemma_without_kids(s, gone, p, (n, d));
        assert(kids_of(s, p).contains((n, c)) && kids_of(s, p).contains((n, d)));
    }
}

/// No node of a removed subtree is left, and nothing else goes.
pub proof fn law_remove_is_recursive(s: IndexView, id: Seq<char>)
    requires
        consistent(s),
    ensures
        !removed(s, id).nodes.dom().contains(id),
        forall|x: Seq<char>| #[trigger]
            below(s.kids, id, x) ==> !removed(s, id).nodes.dom().contains(x),
        forall|x: Seq<char>|
            s.nodes.dom().contains(x) && !below(s.kids, id, x) ==> #[trigger] removed(
                s,
                id,
            ).nodes.dom().contains(x) && removed(s, id).nodes[x] == s.nodes[x],
        forall|p: Seq<char>, e: (Seq<char>, Seq<char>)| #[trigger]
            kids_of(removed(s, id), p).contains(e) ==> !below(s.kids, id, e.1),
{
    lemma_below_self(s.kids, id);
    let gone = subtree(s.kids, id);
    assert forall|p: Seq<char>, e: (Seq<char>, Seq<char>)| #[trigger]
        kids_of(removed(s, id), p).contains(e) implies !below(s.kids, id, e.1) by {
        lemma_without_kids(s, gone, p, e);
    }
}

/// The nodes and lists that an item leaves behind when it is taken off its
/// old place: nothing lists it, unless it stays where it is.
pub proof fn lemma_detached(s: IndexView, it: DeltaView)
    requires
        consistent(s),
    ensures
        detached(s, it).nodes == s.nodes,
        detached(s, it).root == s.root,
        forall|p: Seq<char>, e: (Seq<char>, Seq<char>)| #[trigger]
            kids_of(detached(s, it), p).contains(e) <==> kids_of(s, p).contains(e) && (e.1 == it.id
                ==> Some(p) == it.parent_id && e.0 == it.name),
{
    let t = detached(s, it);
    assert forall|p: Seq<char>, e: (Seq<char>, Seq<char>)| #[trigger]
        kids_of(t, p).contains(e) <==> kids_of(s, p).contains(e) && (e.1 == it.id ==> Some(p)
            == it.parent_id && e.0 == it.name) by {
        if kids_of(s, p).contains(e) {
            assert(own_entry(s.nodes, p, e));
        }
    }
}

/// The ids that an item's arrival removes.
pub open spec fn displaced(s: IndexView, it: DeltaView) -> Set<Seq<char>> {
    match clash(detached(s, it), it) {
        Some(c) => subtree(detached(s, it).kids, c),
        None => Set::empty(),
    }
}

/// The index after an item left its old place and what it displaces is gone.
spec fn cleared(s: IndexView, it: DeltaView) -> IndexView {
    match clash(detached(s, it), it) {
        Some(c) => removed(detached(s, it), c),
        None => detached(s, it),
    }
}

/// In a list without duplicate names, the named child is the one listed.
pub proof fn lemma_child_named_is(
    set: Set<(Seq<char>, Seq<char>)>,
    name: Seq<char>,
    c: Seq<char>,
)
    requires
        forall|c: Seq<char>, d: Seq<char>|
            #![trigger set.contains((name, c)), set.contains((name, d))]
            set.contains((name, c)) && set.contains((name, d)) ==> c == d,
    ensures
        child_named(set, name) == Some(c) <==> set.contains((name, c)),
        child_named(set, name) is None <==> forall|d: Seq<char>| !set.contains((name, d)),
{
    if exists|d: Seq<char>| set.contains((name, d)) {
        let d = choose|d: Seq<char>| set.contains((name, d));
        assert(set.contains((name, d)));
        assert forall|e: Seq<char>| #[trigger] set.contains((name, e)) implies !text_lt(
            e,
            d,
        ) by {
            lemma_text_lt_total(e, d);
        }
        lemma_child_named(set, name, d);
    }
}

/// Whether the item is one that goes into a folder.
pub open spec fn filed(it: DeltaView) -> bool {
    it.id.len() > 0 && !it.deleted && !it.is_root && it.parent_id is Some
}

/// An item clashes with whatever else has its name in its folder.
pub proof fn lemma_clash(s: IndexView, it: DeltaView, d: Seq<char>)
    requires
        consistent(s),
        filed(it),
    ensures
        clash(detached(s, it), it) == Some(d) <==> d != it.id && kids_of(
            detached(s, it),
            it.parent_id->0,
        ).contains((it.name, d)),
{
    lemma_detached(s, it);
    let t = detached(s, it);
    let set = kids_of(t, it.parent_id->0).remove((it.name, it.id));
    assert forall|c: Seq<char>, d: Seq<char>|
        #![trigger set.contains((it.name, c)), set.contains((it.name, d))]
        set.contains((it.name, c)) && set.contains((it.name, d)) implies c == d by {
        let p = it.parent_id->0;
        assert(kids_of(t, p).contains((it.name, c)));
        assert(kids_of(t, p).contains((it.name, d)));
        assert(kids_of(s, p).contains((it.name, c)));
        assert(kids_of(s, p).contains((it.name, d)));
    }
    lemma_child_named_is(set, it.name, d);
}

proof fn lemma_displaced_closed(
    s: IndexView,
    it: DeltaView,
    p: Seq<char>,
    e: (Seq<char>, Seq<char>),
)
    requires
        displaced(s, it).contains(p),
        kids_of(detached(s, it), p).contains(e),
    ensures
        displaced(s, it).contains(e.1),
{
    let t = detached(s, it);
    lemma_subtree_closed(t, clash(t, it)->0, p, e);
}

/// The lists after an item left its old place and what it displaces is gone.
proof fn lemma_cleared(s: IndexView, it: DeltaView)
    requires
        consistent(s),
        filed(it),
    ensures
        cleared(s, it).nodes == s.nodes.remove_keys(displaced(s, it)),
        forall|p: Seq<char>, e: (Seq<char>, Seq<char>)| #[trigger]
            kids_of(cleared(s, it), p).contains(e) <==> kids_of(detached(s, it), p).contains(e)
                && !displaced(s, it).contains(p) && !displaced(s, it).contains(e.1),
        cleared(s, it).root == (if s.root is Some && displaced(s, it).contains(s.root->0)
            && s.nodes.dom().contains(s.root->0) {
            None
        } else {
            s.root
        }),
{
    lemma_detached(s, it);
    let t = detached(s, it);
    let g = displaced(s, it);
    assert(s.nodes.remove_keys(Set::empty()) =~= s.nodes);
    assert forall|p: Seq<char>, e: (Seq<char>, Seq<char>)| #[trigger]
        kids_of(cleared(s, it), p).contains(e) <==> kids_of(t, p).contains(e) && !g.contains(p)
            && !g.contains(e.1) by {
        if clash(t, it) is Some {
            lemma_without_kids(t, g, p, e);
            if kids_of(t, p).contains(e) {
                assert(kids_of(s, p).contains(e));
                assert(own_entry(s.nodes, p, e));
            }
        }
    }
}

/// The lists after an item was applied: its own entry, and the entries of
/// others that are not displaced.
pub proof fn lemma_applied_kids(s: IndexView, it: DeltaView)
    requires
        consistent(s),
        filed(it),
    ensures
        forall|p: Seq<char>, e: (Seq<char>, Seq<char>)| #[trigger]
            kids_of(applied(s, it), p).contains(e) <==> (Some(p) == it.parent_id && e == (
                it.name,
                it.id,
            )) || (e.1 != it.id && kids_of(s, p).contains(e) && !displaced(s, it).contains(p)
                && !displaced(s, it).contains(e.1)),
        applied(s, it).nodes == s.nodes.remove_keys(displaced(s, it)).insert(
            it.id,
            NodeView { parent: it.parent_id, name: it.name, meta: it.meta },
        ),
        applied(s, it).root == (if s.root is Some && displaced(s, it).contains(s.root->0)
            && s.nodes.dom().contains(s.root->0) {
            None
        } else {
            s.root
        }),
{
    lemma_detached(s, it);
    lemma_cleared(s, it);
    let u = cleared(s, it);
    assert(applied(s, it) == placed(u, it));
    assert forall|p: Seq<char>, e: (Seq<char>, Seq<char>)| #[trigger]
        kids_of(applied(s, it), p).contains(e) <==> (Some(p) == it.parent_id && e == (
            it.name,
            it.id,
        )) || (e.1 != it.id && kids_of(s, p).contains(e) && !displaced(s, it).contains(p)
            && !displaced(s, it).contains(e.1)) by {
        assert(kids_of(placed(u, it), p).contains(e) <==> (Some(p) == it.parent_id && e == (
            it.name,
            it.id,
        )) || kids_of(u, p).contains(e));
    }
}

/// Applying an item keeps an index consistent. The one exception is a root
/// item for an id that is filed in a folder: it stays listed there.
pub proof fn law_apply_keeps_consistent(s: IndexView, it: DeltaView)
    requires
        consistent(s),
        it.id.len() > 0 && it.is_root && !it.deleted && s.nodes.dom().contains(it.id)
            ==> s.nodes[it.id].parent is None,
    ensures
        consistent(applied(s, it)),
{
    let a = applied(s, it);
    if it.id.len() == 0 {
    } else if it.deleted {
        law_remove_keeps_consistent(s, it.id);
    } else if it.is_root {
        assert forall|p: Seq<char>, e: (Seq<char>, Seq<char>)| #[trigger]
            kids_of(a, p).contains(e) implies own_entry(a.nodes, p, e) by {
            assert(kids_of(s, p).contains(e));
        }
        assert forall|x: Seq<char>| #[trigger]
            a.nodes.dom().contains(x) && a.nodes[x].parent is Some implies kids_of(
            a,
            a.nodes[x].parent->0,
        ).contains((a.nodes[x].name, x)) by {
            assert(s.nodes.dom().contains(x));
        }
        assert forall|p: Seq<char>, n: Seq<char>, c: Seq<char>, d: Seq<char>|
            #![trigger kids_of(a, p).contains((n, c)), kids_of(a, p).contains((n, d))]
            kids_of(a, p).contains((n, c)) && kids_of(a, p).contains((n, d)) implies c == d by {
            assert(kids_of(s, p).contains((n, c)) && kids_of(s, p).contains((n, d)));
        }
    } else if it.parent_id is Some {
        lemma_applied_consistent(s, it);
    }
}

proof fn lemma_applied_consistent(s: IndexView, it: DeltaView)
    requires
        consistent(s),
        filed(it),
    ensures
        consistent(applied(s, it)),
{
    let a = applied(s, it);
    let g = displaced(s, it);
    let top = it.parent_id->0;
    lemma_applied_kids(s, it);
    lemma_detached(s, it);
    assert forall|x: Seq<char>| #[trigger]
        a.nodes.dom().contains(x) && a.nodes[x].parent is Some implies kids_of(
        a,
        a.nodes[x].parent->0,
    ).contains((a.nodes[x].name, x)) by {
        if x != it.id {
            assert(s.nodes.dom().contains(x));
            let q = s.nodes[x].parent->0;
            assert(kids_of(s, q).contains((s.nodes[x].name, x)));
            assert(kids_of(detached(s, it), q).contains((s.nodes[x].name, x)));
            if g.contains(q) {
                lemma_displaced_closed(s, it, q, (s.nodes[x].name, x));
            }
        }
    }
    assert forall|p: Seq<char>, e: (Seq<char>, Seq<char>)| #[trigger]
        kids_of(a, p).contains(e) implies own_entry(a.nodes, p, e) by {
        if e.1 != it.id {
            assert(kids_of(s, p).contains(e));
            assert(own_entry(s.nodes, p, e));
        }
    }
    assert forall|p: Seq<char>, n: Seq<char>, c: Seq<char>, d: Seq<char>|
        #![trigger kids_of(a, p).contains((n, c)), kids_of(a, p).contains((n, d))]
        kids_of(a, p).contains((n, c)) && kids_of(a, p).contains((n, d)) implies c == d by {
        if c != it.id && d != it.id {
            assert(kids_of(s, p).contains((n, c)) && kids_of(s, p).contains((n, d)));
        } else if c != d {
            let o = if c == it.id {
                d
            } else {
                c
            };
            assert(kids_of(a, p).contains((n, o)));
            assert(kids_of(a, p).contains((n, it.id)));
            assert(p == top && n == it.name);
            assert(kids_of(s, p).contains((n, o)));
            assert(kids_of(detached(s, it), top).contains((it.name, o)));
            lemma_clash(s, it, o);
            lemma_below_self(detached(s, it).kids, o);
            assert(g.contains(o));
        }
    }
}

/// Applying an item keeps the root on top. The one exception is an item that
/// files the recorded root's own id in a folder.
pub proof fn law_apply_keeps_root(s: IndexView, it: DeltaView)
    requires
        consistent(s),
        root_on_top(s),
        filed(it) ==> s.root != Some(it.id),
    ensures
        root_on_top(applied(s, it)),
{
    if it.id.len() > 0 && it.deleted {
        law_remove_keeps_consistent(s, it.id);
    } else if filed(it) {
        lemma_applied_kids(s, it);
    }
}

/// After an item was filed, its name in its folder stands for it, and what
/// had that name before is gone with everything below it.
pub proof fn law_apply_takes_name(s: IndexView, it: DeltaView)
    requires
        consistent(s),
        filed(it),
    ensures
        child_named(kids_of(applied(s, it), it.parent_id->0), it.name) == Some(it.id),
        forall|x: Seq<char>|
            x != it.id && displaced(s, it).contains(x) ==> !#[trigger] applied(
                s,
                it,
            ).nodes.dom().contains(x),
{
    let a = applied(s, it);
    let p = it.parent_id->0;
    lemma_applied_consistent(s, it);
    lemma_applied_kids(s, it);
    assert(kids_of(a, p).contains((it.name, it.id)));
    assert forall|c: Seq<char>, d: Seq<char>|
        #![trigger kids_of(a, p).contains((it.name, c)), kids_of(a, p).contains((it.name, d))]
        kids_of(a, p).contains((it.name, c)) && kids_of(a, p).contains((it.name, d)) implies c
        == d by {}
    lemma_child_named_is(kids_of(a, p), it.name, it.id);
}

/// Filing an item is a change of its own node alone: every other node that is
/// not displaced stays as it is, and so do the entries below it. A move does
/// not touch the descendants.
pub proof fn law_move_leaves_descendants(s: IndexView, it: DeltaView, x: Seq<char>)
    requires
        consistent(s),
        filed(it),
        x != it.id,
        s.nodes.dom().contains(x),
        !displaced(s, it).contains(x),
    ensures
        applied(s, it).nodes.dom().contains(x),
        applied(s, it).nodes[x] == s.nodes[x],
{
    lemma_applied_kids(s, it);
}

/// An item that moves is no longer listed at its old place.
pub proof fn law_move_leaves_old_place(s: IndexView, it: DeltaView)
    requires
        consistent(s),
        filed(it),
        s.nodes.dom().contains(it.id),
        s.nodes[it.id].parent is Some,
        s.nodes[it.id].parent != it.parent_id || s.nodes[it.id].name != it.name,
    ensures
        !kids_of(applied(s, it), s.nodes[it.id].parent->0).contains(
            (s.nodes[it.id].name, it.id),
        ),
{
    lemma_applied_kids(s, it);
}

} // verus!
