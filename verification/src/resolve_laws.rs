//! Laws of paths and ids: resolving a path and deriving the path of an id are
//! inverse, and the operations by path do what they say to later lookups.
use vstd::prelude::*;
use crate::index::{
    applied, below, clash, descends, detached, kids_of, last_of_path, lemma_below_self, lineage,
    lists, local_item, located, own_entry, parent_of_path, reaches, relocated, removed, resolved,
    rooted, subtree, swept, target_folder, upserted, walk, walks_to, DeltaView, IndexView, MetaView,
    NodeView, MAX_DEPTH,
};
use crate::index_laws::{
    consistent, displaced, filed, law_apply_keeps_consistent, law_remove_is_recursive,
    law_remove_keeps_consistent, lemma_applied_kids, lemma_child_named_is, lemma_clash,
    lemma_detached, recorded, root_on_top,
};
use crate::path_laws::{all_clean, clean, law_segments_of_path, law_segments_parts};
use crate::text::{path_text, segments};

verus! {

/// Whether every name below a parent can be a segment of a path.
pub open spec fn clean_names(s: IndexView) -> bool {
    forall|x: Seq<char>| #[trigger]
        s.nodes.dom().contains(x) && s.nodes[x].parent is Some ==> clean(s.nodes[x].name)
}

/// One step of a walk goes along a listed entry.
pub proof fn lemma_walk_step(
    s: IndexView,
    r: Seq<char>,
    names: Seq<Seq<char>>,
    p: Seq<char>,
    c: Seq<char>,
)
    requires
        consistent(s),
        names.len() > 0,
        walk(s.kids, r, names.drop_last()) == Some(p),
    ensures
        walk(s.kids, r, names) == Some(c) <==> kids_of(s, p).contains((names.last(), c)),
{
    let set = kids_of(s, p);
    let n = names.last();
    assert forall|c: Seq<char>, d: Seq<char>|
        #![trigger set.contains((n, c)), set.contains((n, d))]
        set.contains((n, c)) && set.contains((n, d)) implies c == d by {
        assert(kids_of(s, p).contains((n, c)) && kids_of(s, p).contains((n, d)));
    }
    lemma_child_named_is(set, n, c);
}

/// What a walk reaches in its last step is filed where the walk came from.
pub proof fn lemma_walk_last(s: IndexView, r: Seq<char>, names: Seq<Seq<char>>) -> (p: Seq<char>)
    requires
        consistent(s),
        names.len() > 0,
        walk(s.kids, r, names) is Some,
    ensures
        walk(s.kids, r, names.drop_last()) == Some(p),
        own_entry(s.nodes, p, (names.last(), walk(s.kids, r, names)->0)),
        kids_of(s, p).contains((names.last(), walk(s.kids, r, names)->0)),
{
    let c = walk(s.kids, r, names)->0;
    let p = walk(s.kids, r, names.drop_last())->0;
    lemma_walk_step(s, r, names, p, c);
    assert(kids_of(s, p).contains((names.last(), c)));
    p
}

/// More fuel does not change a found chain.
pub proof fn lemma_lineage_more(
    nodes: Map<Seq<char>, NodeView>,
    x: Seq<char>,
    few: nat,
    many: nat,
)
    requires
        lineage(nodes, x, few) is Some,
        few <= many,
    ensures
        lineage(nodes, x, many) == lineage(nodes, x, few),
    decreases few,
{
    if nodes[x].parent is Some {
        lemma_lineage_more(nodes, nodes[x].parent->0, (few - 1) as nat, (many - 1) as nat);
    }
}

/// The names of a walk are the names up the parent chain.
pub proof fn lemma_walk_lineage(s: IndexView, names: Seq<Seq<char>>)
    requires
        consistent(s),
        root_on_top(s),
        s.root is Some,
        walk(s.kids, s.root->0, names) is Some,
    ensures
        lineage(s.nodes, walk(s.kids, s.root->0, names)->0, names.len() + 1) == Some(names),
    decreases names.len(),
{
    let r = s.root->0;
    if names.len() == 0 {
        assert(names =~= Seq::empty());
    } else {
        let p = lemma_walk_last(s, r, names);
        lemma_walk_lineage(s, names.drop_last());
        assert(names.drop_last().push(names.last()) =~= names);
    }
}

/// The path of the id that a path resolves to is that path, normalised, as
/// long as the parent chain is followed far enough.
pub proof fn law_path_of_resolved(s: IndexView, path: Seq<char>)
    requires
        consistent(s),
        root_on_top(s),
        resolved(s, path) is Some,
        segments(path).len() < MAX_DEPTH,
    ensures
        located(s, resolved(s, path)->0) == Some(path_text(segments(path))),
{
    let names = segments(path);
    let x = resolved(s, path)->0;
    lemma_walk_lineage(s, names);
    lemma_lineage_more(s.nodes, x, names.len() + 1, MAX_DEPTH as nat);
}

proof fn lemma_lineage_short(nodes: Map<Seq<char>, NodeView>, x: Seq<char>, fuel: nat)
    ensures
        lineage(nodes, x, fuel) matches Some(names) ==> names.len() < fuel,
    decreases fuel,
{
    if fuel > 0 && nodes.dom().contains(x) && nodes[x].parent is Some {
        lemma_lineage_short(nodes, nodes[x].parent->0, (fuel - 1) as nat);
    }
}

/// What a path of fewer than 64 segments resolves to has that path, and what
/// lies deeper has none.
pub proof fn law_path_depth(s: IndexView, path: Seq<char>)
    requires
        consistent(s),
        root_on_top(s),
        resolved(s, path) is Some,
    ensures
        segments(path).len() < 64 ==> located(s, resolved(s, path)->0) == Some(
            path_text(segments(path)),
        ),
        segments(path).len() >= 64 ==> located(s, resolved(s, path)->0) is None,
{
    let names = segments(path);
    let x = resolved(s, path)->0;
    if names.len() < 64 {
        law_path_of_resolved(s, path);
    } else {
        lemma_walk_lineage(s, names);
        if lineage(s.nodes, x, 64) is Some {
            lemma_lineage_more(s.nodes, x, 64, names.len() + 1);
            lemma_lineage_short(s.nodes, x, 64);
        }
    }
}

/// A parent chain that ends in the root is a walk from the root.
pub proof fn lemma_lineage_walk(s: IndexView, x: Seq<char>, fuel: nat)
    requires
        consistent(s),
        root_on_top(s),
        s.root is Some,
        reaches(s.nodes, s.root->0, x, fuel),
    ensures
        lineage(s.nodes, x, fuel) is Some,
        walk(s.kids, s.root->0, lineage(s.nodes, x, fuel)->0) == Some(x),
    decreases fuel,
{
    let r = s.root->0;
    if x != r {
        let p = s.nodes[x].parent->0;
        lemma_lineage_walk(s, p, (fuel - 1) as nat);
        let up = lineage(s.nodes, p, (fuel - 1) as nat)->0;
        let names = up.push(s.nodes[x].name);
        assert(names.drop_last() =~= up);
        assert(s.nodes.dom().contains(x));
        assert(kids_of(s, p).contains((s.nodes[x].name, x)));
        lemma_walk_step(s, r, names, p, x);
    }
}

proof fn lemma_lineage_clean(s: IndexView, x: Seq<char>, fuel: nat)
    requires
        clean_names(s),
        lineage(s.nodes, x, fuel) is Some,
    ensures
        all_clean(lineage(s.nodes, x, fuel)->0),
    decreases fuel,
{
    if s.nodes[x].parent is Some {
        assert(s.nodes.dom().contains(x));
        lemma_lineage_clean(s, s.nodes[x].parent->0, (fuel - 1) as nat);
    }
}

/// Every id whose parent chain ends in the root has a path, and that path
/// resolves to the id.
pub proof fn law_resolve_path_of(s: IndexView, x: Seq<char>)
    requires
        consistent(s),
        root_on_top(s),
        clean_names(s),
        s.root is Some,
        reaches(s.nodes, s.root->0, x, MAX_DEPTH as nat),
    ensures
        located(s, x) is Some,
        resolved(s, located(s, x)->0) == Some(x),
{
    lemma_lineage_walk(s, x, MAX_DEPTH as nat);
    lemma_lineage_clean(s, x, MAX_DEPTH as nat);
    law_segments_of_path(lineage(s.nodes, x, MAX_DEPTH as nat)->0);
}

/// Two ids whose parent chains end in the root have different paths.
pub proof fn law_paths_unique(s: IndexView, x: Seq<char>, y: Seq<char>)
    requires
        consistent(s),
        root_on_top(s),
        clean_names(s),
        s.root is Some,
        reaches(s.nodes, s.root->0, x, MAX_DEPTH as nat),
        reaches(s.nodes, s.root->0, y, MAX_DEPTH as nat),
        located(s, x) == located(s, y),
    ensures
        x == y,
{
    law_resolve_path_of(s, x);
    law_resolve_path_of(s, y);
}

/// The path of a child is the path of its parent and its own name.
pub proof fn law_path_of_child(s: IndexView, c: Seq<char>, p: Seq<char>)
    requires
        s.nodes.dom().contains(c),
        s.nodes[c].parent == Some(p),
        located(s, c) is Some,
    ensures
        exists|up: Seq<Seq<char>>|
            located(s, p) == Some(#[trigger] path_text(up)) && located(s, c) == Some(
                path_text(up.push(s.nodes[c].name)),
            ),
{
    let f = MAX_DEPTH as nat;
    let up = lineage(s.nodes, p, (f - 1) as nat)->0;
    lemma_lineage_more(s.nodes, p, (f - 1) as nat, f);
    assert(located(s, p) == Some(path_text(up)));
}

/// The parent of a node that can walk to the root can do so too.
proof fn lemma_live_parent(s: IndexView, x: Seq<char>)
    requires
        root_on_top(s),
        s.root is Some,
        rooted(s.nodes, s.root->0).contains(x),
        s.nodes[x].parent is Some,
    ensures
        rooted(s.nodes, s.root->0).contains(s.nodes[x].parent->0),
{
    let r = s.root->0;
    let fuel = choose|fuel: nat| #[trigger] reaches(s.nodes, r, x, fuel);
    assert(reaches(s.nodes, r, s.nodes[x].parent->0, (fuel - 1) as nat));
}

proof fn lemma_swept_kids(s: IndexView, p: Seq<char>, e: (Seq<char>, Seq<char>))
    requires
        s.root is Some,
    ensures
        kids_of(swept(s), p).contains(e) <==> rooted(s.nodes, s.root->0).contains(p) && kids_of(
            s,
            p,
        ).contains(e) && rooted(s.nodes, s.root->0).contains(e.1),
{
}

/// The sweep keeps exactly the nodes from which some number of parent steps
/// leads to the recorded root, as they are, and the entries between kept nodes.
/// It keeps a consistent index consistent.
pub proof fn law_sweep(s: IndexView)
    ensures
        s.root is None ==> swept(s) == s,
        s.root matches Some(r) ==> {
            &&& forall|x: Seq<char>| #[trigger]
                swept(s).nodes.dom().contains(x) <==> s.nodes.dom().contains(x) && walks_to(
                    s.nodes,
                    r,
                    x,
                )
            &&& forall|p: Seq<char>| #[trigger]
                swept(s).kids.dom().contains(p) ==> swept(s).nodes.dom().contains(p)
            &&& forall|p: Seq<char>, e: (Seq<char>, Seq<char>)| #[trigger]
                kids_of(swept(s), p).contains(e) <==> kids_of(s, p).contains(e) && swept(
                    s,
                ).nodes.dom().contains(p) && swept(s).nodes.dom().contains(e.1)
        },
        forall|x: Seq<char>| #[trigger]
            swept(s).nodes.dom().contains(x) ==> swept(s).nodes[x] == s.nodes[x],
        swept(s).root == s.root,
        swept(s).delta_token == s.delta_token,
        swept(s).pending_next_link == s.pending_next_link,
        swept(s).crawl_complete == s.crawl_complete,
        swept(s).generation == s.generation,
        consistent(s) && root_on_top(s) ==> consistent(swept(s)) && root_on_top(swept(s)),
{
    if s.root is Some {
        let t = swept(s);
        assert(t.nodes.dom() =~= rooted(s.nodes, s.root->0));
        assert forall|p: Seq<char>, e: (Seq<char>, Seq<char>)| #[trigger]
            kids_of(t, p).contains(e) <==> kids_of(s, p).contains(e) && t.nodes.dom().contains(p)
                && t.nodes.dom().contains(e.1) by {
            lemma_swept_kids(s, p, e);
        }
        if consistent(s) && root_on_top(s) {
            lemma_sweep_consistent(s);
        }
    }
}

proof fn lemma_sweep_consistent(s: IndexView)
    requires
        consistent(s),
        root_on_top(s),
        s.root is Some,
    ensures
        consistent(swept(s)),
        root_on_top(swept(s)),
{
    let t = swept(s);
    let live = rooted(s.nodes, s.root->0);
    assert(t.nodes.dom() =~= live);
    assert(reaches(s.nodes, s.root->0, s.root->0, 1));
    assert forall|x: Seq<char>| #[trigger]
        t.nodes.dom().contains(x) && t.nodes[x].parent is Some implies kids_of(
        t,
        t.nodes[x].parent->0,
    ).contains((t.nodes[x].name, x)) by {
        let p = s.nodes[x].parent->0;
        assert(s.nodes.dom().contains(x));
        assert(kids_of(s, p).contains((s.nodes[x].name, x)));
        lemma_live_parent(s, x);
        lemma_swept_kids(s, p, (s.nodes[x].name, x));
    }
    assert forall|p: Seq<char>, e: (Seq<char>, Seq<char>)| #[trigger]
        kids_of(t, p).contains(e) implies own_entry(t.nodes, p, e) by {
        lemma_swept_kids(s, p, e);
    }
    assert forall|p: Seq<char>, n: Seq<char>, c: Seq<char>, d: Seq<char>|
        #![trigger kids_of(t, p).contains((n, c)), kids_of(t, p).contains((n, d))]
        kids_of(t, p).contains((n, c)) && kids_of(t, p).contains((n, d)) implies c == d by {
        lemma_swept_kids(s, p, (n, c));
        lemma_swept_kids(s, p, (n, d));
        assert(kids_of(s, p).contains((n, c)) && kids_of(s, p).contains((n, d)));
    }
}

/// A chain to the root survives the sweep.
proof fn lemma_reaches_swept(s: IndexView, x: Seq<char>, fuel: nat)
    requires
        s.root is Some,
        reaches(s.nodes, s.root->0, x, fuel),
    ensures
        reaches(swept(s).nodes, s.root->0, x, fuel),
    decreases fuel,
{
    if x != s.root->0 {
        lemma_reaches_swept(s, s.nodes[x].parent->0, (fuel - 1) as nat);
        assert(walks_to(s.nodes, s.root->0, x));
        assert(swept(s).nodes.dom().contains(x));
    }
}

/// A second sweep finds nothing to drop.
pub proof fn law_sweep_idempotent(s: IndexView)
    ensures
        swept(swept(s)) == swept(s),
{
    if s.root is Some {
        let t = swept(s);
        let r = s.root->0;
        let live = rooted(s.nodes, r);
        assert forall|x: Seq<char>| live.contains(x) implies #[trigger] rooted(
            t.nodes,
            r,
        ).contains(x) by {
            let fuel = choose|fuel: nat| #[trigger] reaches(s.nodes, r, x, fuel);
            lemma_reaches_swept(s, x, fuel);
            assert(t.nodes.dom().contains(x));
        }
        assert(t.nodes.dom() =~= live);
        assert(rooted(t.nodes, r) =~= live);
        assert(swept(t).nodes =~= t.nodes);
        assert(swept(t).kids.dom() =~= t.kids.dom());
        assert forall|p: Seq<char>| #[trigger] t.kids.dom().contains(p) implies swept(t).kids[p]
            == t.kids[p] by {
            assert(swept(t).kids[p] =~= t.kids[p]);
        }
        assert(swept(t).kids =~= t.kids);
    }
}

/// A walk in the index without a subtree is a walk in the index, and stays
/// outside the subtree.
proof fn lemma_walk_shrunk(s: IndexView, id: Seq<char>, r: Seq<char>, names: Seq<Seq<char>>)
    requires
        consistent(s),
        !below(s.kids, id, r),
        walk(removed(s, id).kids, r, names) is Some,
    ensures
        walk(s.kids, r, names) == walk(removed(s, id).kids, r, names),
        !below(s.kids, id, walk(s.kids, r, names)->0),
    decreases names.len(),
{
    if names.len() > 0 {
        let t = removed(s, id);
        law_remove_keeps_consistent(s, id);
        law_remove_is_recursive(s, id);
        let p = lemma_walk_last(t, r, names);
        let c = walk(t.kids, r, names)->0;
        lemma_walk_shrunk(s, id, r, names.drop_last());
        assert(kids_of(t, p).contains((names.last(), c)));
        assert(kids_of(s, p).contains((names.last(), c)));
        lemma_walk_step(s, r, names, p, c);
    }
}

/// What was removed by its path is no longer found there.
pub proof fn law_remove_then_resolve(s: IndexView, path: Seq<char>)
    requires
        consistent(s),
        root_on_top(s),
        resolved(s, path) is Some,
    ensures
        resolved(removed(s, resolved(s, path)->0), path) is None,
{
    let id = resolved(s, path)->0;
    let r = s.root->0;
    let t = removed(s, id);
    if t.root is Some {
        assert(!below(s.kids, id, r)) by {
            assert(subtree(s.kids, id).contains(r) <==> below(s.kids, id, r));
        }
        if resolved(t, path) is Some {
            lemma_walk_shrunk(s, id, r, segments(path));
            lemma_below_self(s.kids, id);
        }
    }
}

/// Whether the walk along `names` passes through `x`.
pub open spec fn passes(s: IndexView, names: Seq<Seq<char>>, x: Seq<char>) -> bool {
    exists|k: int|
        0 <= k <= names.len() && #[trigger] walk(s.kids, s.root->0, names.take(k)) == Some(x)
}

/// The walk along `names` does not pass the same id at two depths.
proof fn lemma_walk_once(s: IndexView, names: Seq<Seq<char>>, a: int, b: int)
    requires
        consistent(s),
        root_on_top(s),
        s.root is Some,
        0 <= a < b <= names.len(),
        walk(s.kids, s.root->0, names.take(b)) is Some,
    ensures
        walk(s.kids, s.root->0, names.take(a)) != walk(s.kids, s.root->0, names.take(b)),
    decreases a,
{
    let r = s.root->0;
    let p = lemma_walk_last(s, r, names.take(b));
    assert(names.take(b).drop_last() =~= names.take(b - 1));
    if a == 0 {
        assert(names.take(0) =~= Seq::empty());
    } else if walk(s.kids, r, names.take(a)) == walk(s.kids, r, names.take(b)) {
        let q = lemma_walk_last(s, r, names.take(a));
        assert(names.take(a).drop_last() =~= names.take(a - 1));
        lemma_walk_once(s, names, a - 1, b - 1);
    }
}

/// Whatever a passed id is below of is passed too.
pub proof fn lemma_passes_up(
    s: IndexView,
    names: Seq<Seq<char>>,
    k: int,
    chain: Seq<Seq<char>>,
) -> (j: int)
    requires
        consistent(s),
        root_on_top(s),
        s.root is Some,
        0 <= k <= names.len(),
        chain.len() > 0,
        descends(s.kids, chain),
        walk(s.kids, s.root->0, names.take(k)) == Some(chain.last()),
    ensures
        0 <= j <= k,
        walk(s.kids, s.root->0, names.take(j)) == Some(chain[0]),
    decreases chain.len(),
{
    if chain.len() == 1 {
        k
    } else {
        let up = chain.drop_last();
        let x = chain.last();
        let y = up.last();
        let m = chain.len() - 2;
        assert(lists(s.kids, chain[m], chain[m + 1]));
        let n = choose|n: Seq<char>| #[trigger] s.kids[y].contains((n, x));
        assert(kids_of(s, y).contains((n, x)));
        assert(own_entry(s.nodes, y, (n, x)));
        if k == 0 {
            assert(names.take(0) =~= Seq::empty());
            assert(false);
        }
        let p = lemma_walk_last(s, s.root->0, names.take(k));
        assert(names.take(k).drop_last() =~= names.take(k - 1));
        assert forall|i: int| 0 <= i < up.len() - 1 implies lists(
            s.kids,
            #[trigger] up[i],
            up[i + 1],
        ) by {
            assert(lists(s.kids, chain[i], chain[i + 1]));
        }
        lemma_passes_up(s, names, k - 1, up)
    }
}

/// An item that is filed below what the walk reaches displaces nothing that
/// the walk passes.
proof fn lemma_walk_not_displaced(s: IndexView, it: DeltaView, names: Seq<Seq<char>>, k: int)
    requires
        consistent(s),
        root_on_top(s),
        s.root is Some,
        filed(it),
        walk(s.kids, s.root->0, names) == it.parent_id,
        0 <= k <= names.len(),
        walk(s.kids, s.root->0, names.take(k)) is Some,
    ensures
        !displaced(s, it).contains(walk(s.kids, s.root->0, names.take(k))->0),
{
    let r = s.root->0;
    let t = detached(s, it);
    let w = walk(s.kids, r, names.take(k))->0;
    lemma_detached(s, it);
    if displaced(s, it).contains(w) {
        let c = clash(t, it)->0;
        let p = it.parent_id->0;
        lemma_clash(s, it, c);
        assert(kids_of(s, p).contains((it.name, c)));
        assert(own_entry(s.nodes, p, (it.name, c)));
        let chain = choose|chain: Seq<Seq<char>>|
            chain.len() > 0 && chain[0] == c && chain.last() == w && #[trigger] descends(
                t.kids,
                chain,
            );
        assert forall|i: int| 0 <= i < chain.len() - 1 implies lists(
            s.kids,
            #[trigger] chain[i],
            chain[i + 1],
        ) by {
            assert(lists(t.kids, chain[i], chain[i + 1]));
            let n = choose|n: Seq<char>| #[trigger] t.kids[chain[i]].contains((n, chain[i + 1]));
            assert(kids_of(t, chain[i]).contains((n, chain[i + 1])));
            assert(kids_of(s, chain[i]).contains((n, chain[i + 1])));
            assert(s.kids[chain[i]].contains((n, chain[i + 1])));
        }
        let j = lemma_passes_up(s, names, k, chain);
        assert(names.take(names.len() as int) =~= names);
        if j == 0 {
            assert(names.take(0) =~= Seq::empty());
        } else {
            let q = lemma_walk_last(s, r, names.take(j));
            assert(names.take(j).drop_last() =~= names.take(j - 1));
            assert(q == p);
            lemma_walk_once(s, names, j - 1, names.len() as int);
        }
    }
}

proof fn lemma_walk_kept(s: IndexView, it: DeltaView, names: Seq<Seq<char>>, k: int)
    requires
        consistent(s),
        root_on_top(s),
        s.root is Some,
        filed(it),
        walk(s.kids, s.root->0, names) == it.parent_id,
        !passes(s, names, it.id),
        0 <= k <= names.len(),
        walk(s.kids, s.root->0, names.take(k)) is Some,
    ensures
        walk(applied(s, it).kids, s.root->0, names.take(k)) == walk(
            s.kids,
            s.root->0,
            names.take(k),
        ),
    decreases k,
{
    let r = s.root->0;
    let a = applied(s, it);
    if k == 0 {
        assert(names.take(0) =~= Seq::empty());
    } else {
        let c = walk(s.kids, r, names.take(k))->0;
        let p = lemma_walk_last(s, r, names.take(k));
        assert(names.take(k).drop_last() =~= names.take(k - 1));
        lemma_walk_kept(s, it, names, k - 1);
        lemma_walk_not_displaced(s, it, names, k);
        lemma_walk_not_displaced(s, it, names, k - 1);
        lemma_applied_kids(s, it);
        law_apply_keeps_consistent(s, it);
        assert(c != it.id);
        assert(kids_of(a, p).contains((names.take(k).last(), c)));
        lemma_walk_step(a, r, names.take(k), p, c);
    }
}

/// An item that is filed below what a walk from the root reaches is found one
/// step further, unless the walk passes through the item itself.
pub proof fn law_apply_then_walk(s: IndexView, it: DeltaView, names: Seq<Seq<char>>)
    requires
        consistent(s),
        root_on_top(s),
        s.root is Some,
        filed(it),
        walk(s.kids, s.root->0, names) == it.parent_id,
        !passes(s, names, it.id),
    ensures
        applied(s, it).root == s.root,
        walk(applied(s, it).kids, s.root->0, names.push(it.name)) == Some(it.id),
{
    let r = s.root->0;
    let a = applied(s, it);
    let n = names.len() as int;
    assert(names.take(n) =~= names);
    lemma_walk_kept(s, it, names, n);
    lemma_applied_kids(s, it);
    law_apply_keeps_consistent(s, it);
    assert(names.push(it.name).drop_last() =~= names);
    assert(kids_of(a, it.parent_id->0).contains((it.name, it.id)));
    lemma_walk_step(a, r, names.push(it.name), it.parent_id->0, it.id);
    assert(names.take(0) =~= Seq::empty());
    assert(walk(s.kids, r, names.take(0)) == Some(r));
    lemma_walk_not_displaced(s, it, names, 0);
}

/// A path that was written is found afterwards, with the metadata that was
/// written, unless the walk to its folder passes through the node that stands
/// for an earlier write at the same path.
pub proof fn law_upsert_then_resolve(s: IndexView, path: Seq<char>, meta: MetaView)
    requires
        consistent(s),
        root_on_top(s),
        upserted(s, path, meta).1,
        resolved(s, path) is Some || !passes(
            s,
            segments(parent_of_path(path)),
            "local:"@ + path,
        ),
    ensures
        resolved(upserted(s, path, meta).0, path) is Some,
        upserted(s, path, meta).0.nodes.dom().contains(
            resolved(upserted(s, path, meta).0, path)->0,
        ),
        upserted(s, path, meta).0.nodes[resolved(upserted(s, path, meta).0, path)->0].meta == meta,
{
    let hit = resolved(s, path);
    let u = upserted(s, path, meta).0;
    if hit is Some {
        if segments(path).len() > 0 {
            let p = lemma_walk_last(s, s.root->0, segments(path));
        }
        assert(s.nodes.dom().contains(hit->0));
        assert(u.kids == s.kids && u.root == s.root);
    } else {
        let p = target_folder(s, path)->0;
        reveal_strlit("local:");
        let it = local_item("local:"@ + path, p, last_of_path(path), meta);
        law_segments_parts(path);
        law_apply_then_walk(s, it, segments(parent_of_path(path)));
        lemma_applied_kids(s, it);
    }
}

/// What was moved is found under its new path, unless the new folder lies
/// within what is moved.
pub proof fn law_move_then_resolve(s: IndexView, from: Seq<char>, to: Seq<char>)
    requires
        consistent(s),
        root_on_top(s),
        relocated(s, from, to).1,
        resolved(s, from)->0.len() > 0,
        !passes(s, segments(parent_of_path(to)), resolved(s, from)->0),
    ensures
        resolved(relocated(s, from, to).0, to) == resolved(s, from),
{
    let id = resolved(s, from)->0;
    let p = target_folder(s, to)->0;
    let it = local_item(id, p, last_of_path(to), s.nodes[id].meta);
    law_segments_parts(to);
    law_apply_then_walk(s, it, segments(parent_of_path(to)));
}

/// The operations by path keep an index consistent.
pub proof fn law_path_operations_keep_consistent(
    s: IndexView,
    path: Seq<char>,
    to: Seq<char>,
    meta: MetaView,
)
    requires
        consistent(s),
    ensures
        consistent(upserted(s, path, meta).0),
        consistent(relocated(s, path, to).0),
        resolved(s, path) is Some ==> consistent(removed(s, resolved(s, path)->0)),
{
    let hit = resolved(s, path);
    if hit is Some {
        law_remove_keeps_consistent(s, hit->0);
    }
    if hit is Some && s.nodes.dom().contains(hit->0) {
        let u = upserted(s, path, meta).0;
        assert forall|x: Seq<char>| #[trigger]
            u.nodes.dom().contains(x) && u.nodes[x].parent is Some implies kids_of(
            u,
            u.nodes[x].parent->0,
        ).contains((u.nodes[x].name, x)) by {
            assert(s.nodes.dom().contains(x));
        }
        assert forall|p: Seq<char>, e: (Seq<char>, Seq<char>)| #[trigger]
            kids_of(u, p).contains(e) implies own_entry(u.nodes, p, e) by {
            assert(kids_of(s, p).contains(e));
        }
        assert forall|p: Seq<char>, n: Seq<char>, c: Seq<char>, d: Seq<char>|
            #![trigger kids_of(u, p).contains((n, c)), kids_of(u, p).contains((n, d))]
            kids_of(u, p).contains((n, c)) && kids_of(u, p).contains((n, d)) implies c == d by {
            assert(kids_of(s, p).contains((n, c)) && kids_of(s, p).contains((n, d)));
        }
        if target_folder(s, to) is Some {
            law_apply_keeps_consistent(
                s,
                local_item(
                    hit->0,
                    target_folder(s, to)->0,
                    last_of_path(to),
                    s.nodes[hit->0].meta,
                ),
            );
        }
    } else if target_folder(s, path) is Some {
        law_apply_keeps_consistent(
            s,
            local_item("local:"@ + path, target_folder(s, path)->0, last_of_path(path), meta),
        );
    }
}

} // verus!
