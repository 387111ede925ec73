//! Laws of single changes to the index: what an item of the feed, a write, a
//! move or a removal records of the thing it is about, and what it leaves alone.
use vstd::prelude::*;
use crate::index::{
    applied, below, kids_of, last_of_path, parent_of_path, relocated, resolved, subtree,
    upserted, DeltaView, IndexView, MetaView, NodeView,
};
use crate::index_laws::{consistent, displaced, filed, law_remove_is_recursive, lemma_applied_kids};

verus! {

/// Whether two indexes are at the same place of the feed.
pub open spec fn same_place(s: IndexView, t: IndexView) -> bool {
    s.delta_token == t.delta_token && s.pending_next_link == t.pending_next_link && s.crawl_complete
        == t.crawl_complete && s.generation == t.generation
}

/// An item of the feed leaves behind what it says: its parent, its name, its
/// kind, its size, its time and its tag, and an entry in its folder. A root item
/// becomes the root. A deleted item is gone with everything below it, and
/// everything else stays. An item without id, or without parent and no root,
/// changes nothing.
pub proof fn law_item_is_recorded(s: IndexView, it: DeltaView)
    requires
        consistent(s),
    ensures
        ({
            let t = applied(s, it);
            &&& same_place(s, t)
            &&& it.id.len() == 0 ==> t == s
            &&& it.id.len() > 0 && it.deleted ==> {
                &&& !t.nodes.dom().contains(it.id)
                &&& forall|x: Seq<char>| #[trigger]
                    t.nodes.dom().contains(x) <==> s.nodes.dom().contains(x) && !below(
                        s.kids,
                        it.id,
                        x,
                    )
                &&& forall|x: Seq<char>| #[trigger]
                    t.nodes.dom().contains(x) ==> t.nodes[x] == s.nodes[x]
            }
            &&& it.id.len() > 0 && !it.deleted && it.is_root ==> {
                &&& t.root == Some(it.id)
                &&& t.nodes.dom() == s.nodes.dom().insert(it.id)
                &&& t.nodes[it.id].parent is None
                &&& t.nodes[it.id].name == it.name
                &&& t.nodes[it.id].meta.is_dir == it.meta.is_dir
                &&& t.nodes[it.id].meta.size == it.meta.size
                &&& t.nodes[it.id].meta.mtime == it.meta.mtime
                &&& t.nodes[it.id].meta.etag == it.meta.etag
                &&& forall|x: Seq<char>| x != it.id ==> #[trigger] t.nodes[x] == s.nodes[x]
                &&& t.kids == s.kids
            }
            &&& it.id.len() > 0 && !it.deleted && !it.is_root && it.parent_id is None ==> t == s
            &&& filed(it) ==> {
                &&& t.nodes.dom().contains(it.id)
                &&& t.nodes[it.id].parent == it.parent_id
                &&& t.nodes[it.id].name == it.name
                &&& t.nodes[it.id].meta.is_dir == it.meta.is_dir
                &&& t.nodes[it.id].meta.size == it.meta.size
                &&& t.nodes[it.id].meta.mtime == it.meta.mtime
                &&& t.nodes[it.id].meta.etag == it.meta.etag
                &&& kids_of(t, it.parent_id->0).contains((it.name, it.id))
                &&& forall|x: Seq<char>| #[trigger]
                    t.nodes.dom().contains(x) ==> x == it.id || s.nodes.dom().contains(x)
                        && t.nodes[x] == s.nodes[x]
            }
        }),
{
    let t = applied(s, it);
    if it.id.len() > 0 && it.deleted {
        law_remove_is_recursive(s, it.id);
        assert forall|x: Seq<char>| #[trigger]
            t.nodes.dom().contains(x) <==> s.nodes.dom().contains(x) && !below(
                s.kids,
                it.id,
                x,
            ) by {
            assert(subtree(s.kids, it.id).contains(x) <==> below(s.kids, it.id, x));
        }
    }
    if it.id.len() > 0 && !it.deleted && it.is_root {
        assert(t.nodes.dom() =~= s.nodes.dom().insert(it.id));
        assert forall|x: Seq<char>| x != it.id implies #[trigger] t.nodes[x] == s.nodes[x] by {}
    }
    if filed(it) {
        lemma_applied_kids(s, it);
    }
}

/// An item whose name is free in its folder displaces nothing.
pub proof fn law_free_name_displaces_nothing(s: IndexView, it: DeltaView, x: Seq<char>)
    requires
        consistent(s),
        filed(it),
        s.nodes.dom().contains(x),
        x != it.id,
        forall|c: Seq<char>| !(#[trigger] kids_of(s, it.parent_id->0).contains((it.name, c))) || c
            == it.id,
    ensures
        applied(s, it).nodes.dom().contains(x),
        applied(s, it).nodes[x] == s.nodes[x],
{
    lemma_applied_kids(s, it);
    assert(displaced(s, it) =~= Set::empty()) by {
        let t = crate::index::detached(s, it);
        let left = kids_of(t, it.parent_id->0).remove((it.name, it.id));
        assert forall|c: Seq<char>| !left.contains((it.name, c)) by {
            assert(kids_of(s, it.parent_id->0).contains((it.name, c)) || !kids_of(
                t,
                it.parent_id->0,
            ).contains((it.name, c)));
        }
        assert(crate::index::clash(t, it) is None);
    }
}

/// A write by path is possible if there is something at the path or its folder
/// is there. What is there keeps its place and its name and gets the new
/// metadata; else a new node with the last name of the path is put in the folder.
pub proof fn law_write_by_path(s: IndexView, path: Seq<char>, meta: MetaView)
    requires
        consistent(s),
    ensures
        ({
            let (t, done) = upserted(s, path, meta);
            let hit = resolved(s, path);
            let known = hit is Some && s.nodes.dom().contains(hit->0);
            let folder = resolved(s, parent_of_path(path));
            &&& done <==> known || last_of_path(path).len() > 0 && folder is Some
            &&& !done ==> t == s
            &&& same_place(s, t)
            &&& known ==> {
                &&& t.nodes[hit->0].meta == meta
                &&& t.nodes[hit->0].parent == s.nodes[hit->0].parent
                &&& t.nodes[hit->0].name == s.nodes[hit->0].name
                &&& t.kids == s.kids && t.root == s.root
                &&& forall|x: Seq<char>| x != hit->0 ==> #[trigger] t.nodes[x] == s.nodes[x]
                &&& t.nodes.dom() == s.nodes.dom()
            }
            &&& done && !known ==> exists|id: Seq<char>| #[trigger]
                t.nodes.dom().contains(id) && t.nodes[id] == (NodeView {
                    parent: folder,
                    name: last_of_path(path),
                    meta,
                }) && kids_of(t, folder->0).contains((last_of_path(path), id))
        }),
{
    let (t, done) = upserted(s, path, meta);
    let hit = resolved(s, path);
    if hit is Some && s.nodes.dom().contains(hit->0) {
        assert(t.nodes.dom() =~= s.nodes.dom());
        assert forall|x: Seq<char>| x != hit->0 implies #[trigger] t.nodes[x] == s.nodes[x] by {}
    } else if done {
        reveal_strlit("local:");
        let it = crate::index::local_item(
            "local:"@ + path,
            resolved(s, parent_of_path(path))->0,
            last_of_path(path),
            meta,
        );
        assert(it.id.len() > 0);
        law_item_is_recorded(s, it);
        assert(t.nodes.dom().contains(it.id));
    }
}

/// A move by path is possible if there is something at the old path and the new
/// folder is there. It keeps the metadata; what cannot be done changes nothing.
pub proof fn law_move_by_path(s: IndexView, from: Seq<char>, to: Seq<char>)
    requires
        consistent(s),
    ensures
        ({
            let (t, done) = relocated(s, from, to);
            let hit = resolved(s, from);
            let folder = resolved(s, parent_of_path(to));
            &&& done <==> hit is Some && s.nodes.dom().contains(hit->0) && last_of_path(to).len()
                > 0 && folder is Some
            &&& !done ==> t == s
            &&& same_place(s, t)
            &&& done && hit->0.len() > 0 ==> t.nodes.dom().contains(hit->0) && t.nodes[hit->0] == (
            NodeView { parent: folder, name: last_of_path(to), meta: s.nodes[hit->0].meta })
        }),
{
    let hit = resolved(s, from);
    if relocated(s, from, to).1 {
        let it = crate::index::local_item(
            hit->0,
            resolved(s, parent_of_path(to))->0,
            last_of_path(to),
            s.nodes[hit->0].meta,
        );
        law_item_is_recorded(s, it);
    }
}

} // verus!
