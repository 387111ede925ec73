//! Laws of delta pages: what a page keeps, and that the order in which new items
//! arrive does not matter.
use vstd::prelude::*;
use crate::index::{
    applied, applied_all, clash, detached, kids_of, placed, DeltaView, IndexView, NodeView,
};
use crate::index_laws::{
    consistent, filed, law_apply_keeps_consistent, law_apply_keeps_root, lemma_applied_kids,
    lemma_child_named_is, root_on_top,
};

verus! {

/// Whether the item brings a new root or a new entry of a folder.
pub open spec fn arrives(it: DeltaView) -> bool {
    it.id.len() > 0 && !it.deleted && (it.is_root || it.parent_id is Some)
}

/// Whether the two items can arrive in either order: different ids, not the
/// same name in the same folder, not two roots.
pub open spec fn independent(a: DeltaView, b: DeltaView) -> bool {
    &&& a.id != b.id
    &&& !(a.is_root && b.is_root)
    &&& filed(a) && filed(b) && a.parent_id == b.parent_id ==> a.name != b.name
}

/// Whether the page holds only items that are new to the index, take no name
/// that is in use, and do not compete with each other.
pub open spec fn fresh_page(s: IndexView, items: Seq<DeltaView>) -> bool {
    &&& forall|i: int|
        0 <= i < items.len() ==> arrives(#[trigger] items[i]) && !s.nodes.dom().contains(
            items[i].id,
        )
    &&& forall|i: int, d: Seq<char>|
        #![trigger kids_of(s, items[i].parent_id->0).contains((items[i].name, d))]
        0 <= i < items.len() && filed(items[i]) ==> !kids_of(
            s,
            items[i].parent_id->0,
        ).contains((items[i].name, d))
    &&& forall|i: int, j: int|
        0 <= i < j < items.len() ==> independent(#[trigger] items[i], #[trigger] items[j])
}

/// The node that an item becomes.
pub open spec fn node_of(it: DeltaView) -> NodeView {
    NodeView {
        parent: if it.is_root {
            None
        } else {
            it.parent_id
        },
        name: it.name,
        meta: it.meta,
    }
}

/// Whether an item of the page files the entry `e` below `p`.
pub open spec fn files(
    items: Seq<DeltaView>,
    p: Seq<char>,
    e: (Seq<char>, Seq<char>),
) -> bool {
    exists|i: int|
        0 <= i < items.len() && filed(#[trigger] items[i]) && items[i].parent_id == Some(p) && e
            == (items[i].name, items[i].id)
}

/// Whether an item of the page has the id.
pub open spec fn brings(items: Seq<DeltaView>, x: Seq<char>) -> bool {
    exists|i: int| 0 <= i < items.len() && (#[trigger] items[i]).id == x
}

/// Whether an item of the page is a root with the id.
pub open spec fn crowns(items: Seq<DeltaView>, x: Seq<char>) -> bool {
    exists|i: int| 0 <= i < items.len() && (#[trigger] items[i]).is_root && items[i].id == x
}

/// The index with the page's nodes, entries and root added, whatever their
/// order.
spec fn arrived(s: IndexView, items: Seq<DeltaView>, t: IndexView) -> bool {
    &&& consistent(t)
    &&& forall|x: Seq<char>| #[trigger]
        t.nodes.dom().contains(x) <==> s.nodes.dom().contains(x) || brings(items, x)
    &&& forall|i: int|
        0 <= i < items.len() ==> t.nodes[(#[trigger] items[i]).id] == node_of(items[i])
    &&& forall|x: Seq<char>| #[trigger] s.nodes.dom().contains(x) ==> t.nodes[x] == s.nodes[x]
    &&& forall|p: Seq<char>, e: (Seq<char>, Seq<char>)| #[trigger]
        kids_of(t, p).contains(e) <==> kids_of(s, p).contains(e) || files(items, p, e)
    &&& forall|p: Seq<char>| #[trigger]
        t.kids.dom().contains(p) <==> s.kids.dom().contains(p) || exists|i: int|
            0 <= i < items.len() && filed(#[trigger] items[i]) && items[i].parent_id == Some(p)
    &&& forall|x: Seq<char>| #[trigger] crowns(items, x) ==> t.root == Some(x)
    &&& (forall|x: Seq<char>| !#[trigger] crowns(items, x)) ==> t.root == s.root
    &&& t.delta_token == s.delta_token
    &&& t.pending_next_link == s.pending_next_link
    &&& t.crawl_complete == s.crawl_complete
    &&& t.generation == s.generation
}

proof fn lemma_arrived(s: IndexView, items: Seq<DeltaView>)
    requires
        consistent(s),
        fresh_page(s, items),
    ensures
        arrived(s, items, applied_all(s, items)),
    decreases items.len(),
{
    if items.len() > 0 {
        let before = items.drop_last();
        let it = items.last();
        let n = items.len() - 1;
        assert(it == items[n]);
        assert forall|i: int| 0 <= i < before.len() implies arrives(#[trigger] before[i])
            && !s.nodes.dom().contains(before[i].id) by {
            assert(before[i] == items[i]);
        }
        assert forall|i: int, d: Seq<char>|
            #![trigger kids_of(s, before[i].parent_id->0).contains((before[i].name, d))]
            0 <= i < before.len() && filed(before[i]) implies !kids_of(
            s,
            before[i].parent_id->0,
        ).contains((before[i].name, d)) by {
            assert(before[i] == items[i]);
            assert(!kids_of(s, items[i].parent_id->0).contains((items[i].name, d)));
        }
        assert forall|i: int, j: int| 0 <= i < j < before.len() implies independent(
            #[trigger] before[i],
            #[trigger] before[j],
        ) by {
            assert(before[i] == items[i] && before[j] == items[j]);
        }
        lemma_arrived(s, before);
        let t = applied_all(s, before);
        let u = applied(t, it);
        assert(!brings(before, it.id)) by {
            if brings(before, it.id) {
                let i = choose|i: int| 0 <= i < before.len() && (#[trigger] before[i]).id == it.id;
                assert(independent(items[i], items[n]));
            }
        }
        assert(!t.nodes.dom().contains(it.id));
        law_apply_keeps_consistent(t, it);
        if !it.is_root {
            let p = it.parent_id->0;
            assert forall|d: Seq<char>| !kids_of(t, p).contains((it.name, d)) by {
                if kids_of(t, p).contains((it.name, d)) {
                    assert(!kids_of(s, items[n].parent_id->0).contains((items[n].name, d)));
                    let i = choose|i: int|
                        0 <= i < before.len() && filed(#[trigger] before[i]) && before[i].parent_id
                            == Some(p) && (it.name, d) == (before[i].name, before[i].id);
                    assert(independent(items[i], items[n]));
                }
            }
            let set = kids_of(t, p).remove((it.name, it.id));
            lemma_child_named_is(set, it.name, it.id);
            assert(detached(t, it) == t);
            assert(clash(t, it) is None);
            assert(u == placed(t, it));
        }
        lemma_arrived_step(s, items, t, u);
    } else {
        assert forall|x: Seq<char>| !#[trigger] crowns(items, x) by {}
    }
}

proof fn lemma_arrived_step(s: IndexView, items: Seq<DeltaView>, t: IndexView, u: IndexView)
    requires
        items.len() > 0,
        arrives(items.last()),
        arrived(s, items.drop_last(), t),
        !brings(items.drop_last(), items.last().id),
        !s.nodes.dom().contains(items.last().id),
        forall|i: int, j: int|
            0 <= i < j < items.len() ==> independent(#[trigger] items[i], #[trigger] items[j]),
        consistent(u),
        u == applied(t, items.last()),
        filed(items.last()) ==> u == placed(t, items.last()),
    ensures
        arrived(s, items, u),
{
    let before = items.drop_last();
    let it = items.last();
    let n = items.len() - 1;
    assert(it == items[n]);
    assert(forall|i: int| 0 <= i < n ==> before[i] == items[i]);
    assert forall|x: Seq<char>| #[trigger] brings(items, x) <==> brings(before, x) || x == it.id by {
        if brings(before, x) {
            let i = choose|i: int| 0 <= i < before.len() && (#[trigger] before[i]).id == x;
            assert(items[i].id == x);
        }
        if brings(items, x) && x != it.id {
            let i = choose|i: int| 0 <= i < items.len() && (#[trigger] items[i]).id == x;
            assert(before[i].id == x);
        }
    }
    assert forall|x: Seq<char>| #[trigger] crowns(items, x) <==> crowns(before, x) || (it.is_root
        && x == it.id) by {
        if crowns(before, x) {
            let i = choose|i: int|
                0 <= i < before.len() && (#[trigger] before[i]).is_root && before[i].id == x;
            assert(items[i].is_root && items[i].id == x);
        }
        if crowns(items, x) && !(it.is_root && x == it.id) {
            let i = choose|i: int|
                0 <= i < items.len() && (#[trigger] items[i]).is_root && items[i].id == x;
            assert(before[i].is_root && before[i].id == x);
        }
    }
    assert forall|p: Seq<char>, e: (Seq<char>, Seq<char>)| #[trigger]
        files(items, p, e) <==> files(before, p, e) || (filed(it) && it.parent_id == Some(p) && e
            == (it.name, it.id)) by {
        if files(before, p, e) {
            let i = choose|i: int|
                0 <= i < before.len() && filed(#[trigger] before[i]) && before[i].parent_id
                    == Some(p) && e == (before[i].name, before[i].id);
            assert(filed(items[i]));
        }
        if files(items, p, e) && !(filed(it) && it.parent_id == Some(p) && e == (
            it.name,
            it.id,
        )) {
            let i = choose|i: int|
                0 <= i < items.len() && filed(#[trigger] items[i]) && items[i].parent_id == Some(p)
                    && e == (items[i].name, items[i].id);
            assert(filed(before[i]));
        }
    }
    assert forall|x: Seq<char>| #[trigger] crowns(items, x) implies u.root == Some(x) by {
        if it.is_root && crowns(before, x) {
            let i = choose|i: int|
                0 <= i < before.len() && (#[trigger] before[i]).is_root && before[i].id == x;
            assert(independent(items[i], items[n]));
        }
    }
    if forall|x: Seq<char>| !#[trigger] crowns(items, x) {
        assert(!crowns(items, it.id));
        assert forall|x: Seq<char>| !#[trigger] crowns(before, x) by {
            assert(!crowns(items, x));
        }
        assert(u.root == s.root);
    }
    assert forall|i: int| 0 <= i < items.len() implies u.nodes[(#[trigger] items[i]).id] == node_of(
        items[i],
    ) by {
        if i < n {
            assert(before[i].id == items[i].id);
            assert(independent(items[i], items[n]));
        }
    }
    assert forall|p: Seq<char>| #[trigger]
        u.kids.dom().contains(p) <==> s.kids.dom().contains(p) || exists|i: int|
            0 <= i < items.len() && filed(#[trigger] items[i]) && items[i].parent_id == Some(
                p,
            ) by {
        if t.kids.dom().contains(p) && !s.kids.dom().contains(p) {
            let i = choose|i: int|
                0 <= i < before.len() && filed(#[trigger] before[i]) && before[i].parent_id
                    == Some(p);
            assert(filed(items[i]) && items[i].parent_id == Some(p));
        }
        if u.kids.dom().contains(p) && !t.kids.dom().contains(p) {
            assert(filed(items[n]) && items[n].parent_id == Some(p));
        }
        if exists|i: int|
            0 <= i < items.len() && filed(#[trigger] items[i]) && items[i].parent_id == Some(p) {
            let i = choose|i: int|
                0 <= i < items.len() && filed(#[trigger] items[i]) && items[i].parent_id == Some(
                    p,
                );
            if i < n {
                assert(filed(before[i]) && before[i].parent_id == Some(p));
            }
        }
    }
    assert forall|p: Seq<char>, e: (Seq<char>, Seq<char>)| #[trigger]
        kids_of(u, p).contains(e) <==> kids_of(s, p).contains(e) || files(items, p, e) by {
        assert(kids_of(u, p).contains(e) <==> kids_of(t, p).contains(e) || (filed(it)
            && it.parent_id == Some(p) && e == (it.name, it.id)));
    }
    assert forall|x: Seq<char>| #[trigger]
        u.nodes.dom().contains(x) <==> s.nodes.dom().contains(x) || brings(items, x) by {
        assert(u.nodes.dom().contains(x) <==> t.nodes.dom().contains(x) || x == it.id);
    }
}

/// Pages with the same new items, in whatever order, lead to the same index.
pub proof fn law_page_order_is_free(s: IndexView, a: Seq<DeltaView>, b: Seq<DeltaView>)
    requires
        consistent(s),
        fresh_page(s, a),
        fresh_page(s, b),
        a.to_set() == b.to_set(),
    ensures
        applied_all(s, a) == applied_all(s, b),
{
    let t = applied_all(s, a);
    let u = applied_all(s, b);
    lemma_arrived(s, a);
    lemma_arrived(s, b);
    lemma_same_items(a, b);
    lemma_same_items(b, a);
    assert forall|x: Seq<char>| #[trigger] t.nodes.dom().contains(x) implies u.nodes.dom().contains(
        x,
    ) && t.nodes[x] == u.nodes[x] by {
        if !s.nodes.dom().contains(x) {
            let i = choose|i: int| 0 <= i < a.len() && (#[trigger] a[i]).id == x;
            let j = lemma_same_item(a, b, i);
            assert(b[j].id == x);
        }
    }
    assert forall|x: Seq<char>| #[trigger] u.nodes.dom().contains(x) implies t.nodes.dom().contains(
        x,
    ) by {}
    assert(t.nodes =~= u.nodes);
    assert forall|p: Seq<char>| t.kids.dom().contains(p) <==> #[trigger] u.kids.dom().contains(p) by {
        if t.kids.dom().contains(p) && !s.kids.dom().contains(p) {
            let i = choose|i: int|
                0 <= i < a.len() && filed(#[trigger] a[i]) && a[i].parent_id == Some(p);
            let j = lemma_same_item(a, b, i);
            assert(filed(b[j]) && b[j].parent_id == Some(p));
        }
        if u.kids.dom().contains(p) && !s.kids.dom().contains(p) {
            let i = choose|i: int|
                0 <= i < b.len() && filed(#[trigger] b[i]) && b[i].parent_id == Some(p);
            let j = lemma_same_item(b, a, i);
            assert(filed(a[j]) && a[j].parent_id == Some(p));
        }
    }
    assert(t.kids.dom() =~= u.kids.dom());
    assert forall|p: Seq<char>| #[trigger] t.kids.dom().contains(p) implies t.kids[p]
        == u.kids[p] by {
        assert forall|e: (Seq<char>, Seq<char>)| t.kids[p].contains(e) <==> #[trigger] u.kids[p].contains(
            e,
        ) by {
            assert(kids_of(t, p).contains(e) <==> kids_of(u, p).contains(e));
        }
        assert(t.kids[p] =~= u.kids[p]);
    }
    assert(t.kids =~= u.kids);
    if exists|x: Seq<char>| #[trigger] crowns(a, x) {
        let x = choose|x: Seq<char>| #[trigger] crowns(a, x);
        assert(crowns(b, x));
    } else {
        assert forall|x: Seq<char>| !#[trigger] crowns(b, x) by {
            if crowns(b, x) {
                assert(crowns(a, x));
            }
        }
    }
    assert(t =~= u);
}

proof fn lemma_same_item(a: Seq<DeltaView>, b: Seq<DeltaView>, i: int) -> (j: int)
    requires
        a.to_set() == b.to_set(),
        0 <= i < a.len(),
    ensures
        0 <= j < b.len(),
        b[j] == a[i],
{
    assert(a.to_set().contains(a[i]));
    assert(b.to_set().contains(a[i]));
    choose|j: int| 0 <= j < b.len() && b[j] == a[i]
}

proof fn lemma_same_items(a: Seq<DeltaView>, b: Seq<DeltaView>)
    requires
        a.to_set() == b.to_set(),
    ensures
        forall|x: Seq<char>| #[trigger] brings(a, x) ==> brings(b, x),
        forall|x: Seq<char>| #[trigger] crowns(a, x) ==> crowns(b, x),
        forall|p: Seq<char>, e: (Seq<char>, Seq<char>)| #[trigger]
            files(a, p, e) ==> files(b, p, e),
{
    assert forall|x: Seq<char>| #[trigger] brings(a, x) implies brings(b, x) by {
        let i = choose|i: int| 0 <= i < a.len() && (#[trigger] a[i]).id == x;
        let j = lemma_same_item(a, b, i);
        assert(b[j].id == x);
    }
    assert forall|x: Seq<char>| #[trigger] crowns(a, x) implies crowns(b, x) by {
        let i = choose|i: int| 0 <= i < a.len() && (#[trigger] a[i]).is_root && a[i].id == x;
        let j = lemma_same_item(a, b, i);
        assert(b[j].is_root && b[j].id == x);
    }
    assert forall|p: Seq<char>, e: (Seq<char>, Seq<char>)| #[trigger] files(a, p, e) implies files(
        b,
        p,
        e,
    ) by {
        let i = choose|i: int|
            0 <= i < a.len() && filed(#[trigger] a[i]) && a[i].parent_id == Some(p) && e == (
                a[i].name,
                a[i].id,
            );
        let j = lemma_same_item(a, b, i);
        assert(filed(b[j]));
    }
}

/// Whether the item brings a root.
pub open spec fn crowned(it: DeltaView) -> bool {
    it.id.len() > 0 && !it.deleted && it.is_root
}

/// Whether roots and entries of folders stay apart: no item of the page files
/// the recorded root or an id that the page makes the root, and no id that the
/// page makes the root is an entry of a folder already.
pub open spec fn roots_apart(s: IndexView, items: Seq<DeltaView>) -> bool {
    &&& forall|j: int|
        0 <= j < items.len() && filed(#[trigger] items[j]) ==> s.root != Some(items[j].id)
    &&& forall|i: int, j: int|
        0 <= i < items.len() && 0 <= j < items.len() && crowned(#[trigger] items[i]) && filed(
            #[trigger] items[j],
        ) ==> items[i].id != items[j].id
    &&& forall|i: int|
        0 <= i < items.len() && crowned(#[trigger] items[i]) && s.nodes.dom().contains(
            items[i].id,
        ) ==> s.nodes[items[i].id].parent is None
}

/// Applying a page keeps an index consistent and its root on top, as long as
/// roots and entries of folders stay apart.
pub proof fn law_page_keeps_consistent(s: IndexView, items: Seq<DeltaView>)
    requires
        consistent(s),
        root_on_top(s),
        roots_apart(s, items),
    ensures
        consistent(applied_all(s, items)),
        root_on_top(applied_all(s, items)),
{
    lemma_page(s, items, items.len() as int);
    assert(items.take(items.len() as int) =~= items);
}

/// Where the root and the entries of folders come from after the first `k`
/// items of a page.
proof fn lemma_page(s: IndexView, items: Seq<DeltaView>, k: int)
    requires
        consistent(s),
        root_on_top(s),
        roots_apart(s, items),
        0 <= k <= items.len(),
    ensures
        consistent(applied_all(s, items.take(k))),
        root_on_top(applied_all(s, items.take(k))),
        applied_all(s, items.take(k)).root matches Some(r) ==> s.root == Some(r) || exists|i: int|
            0 <= i < k && crowned(#[trigger] items[i]) && items[i].id == r,
        forall|x: Seq<char>| #[trigger]
            applied_all(s, items.take(k)).nodes.dom().contains(x) && applied_all(
                s,
                items.take(k),
            ).nodes[x].parent is Some ==> (s.nodes.dom().contains(x) && s.nodes[x].parent is Some)
                || exists|j: int| 0 <= j < k && filed(#[trigger] items[j]) && items[j].id == x,
    decreases k,
{
    if k == 0 {
        assert(items.take(0) =~= Seq::<DeltaView>::empty());
    } else {
        lemma_page(s, items, k - 1);
        assert(items.take(k).drop_last() =~= items.take(k - 1));
        let t = applied_all(s, items.take(k - 1));
        let it = items[k - 1];
        let u = applied(t, it);
        assert(items.take(k).last() == it);
        assert(applied_all(s, items.take(k)) == u);
        if it.is_root && !it.deleted && it.id.len() > 0 && t.nodes.dom().contains(it.id) {
            assert(crowned(items[k - 1]));
            assert(t.nodes[it.id].parent is None);
        }
        law_apply_keeps_consistent(t, it);
        if filed(it) {
            assert(filed(items[k - 1]));
            lemma_applied_kids(t, it);
        }
        law_apply_keeps_root(t, it);
        assert forall|x: Seq<char>| #[trigger]
            u.nodes.dom().contains(x) && u.nodes[x].parent is Some implies (s.nodes.dom().contains(
            x,
        ) && s.nodes[x].parent is Some) || exists|j: int|
            0 <= j < k && filed(#[trigger] items[j]) && items[j].id == x by {
            if filed(it) && x == it.id {
                assert(filed(items[k - 1]));
            } else {
                assert(t.nodes.dom().contains(x));
            }
        }
    }
}

} // verus!
