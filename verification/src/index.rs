//! Id-keyed OneDrive namespace index.
//!
//! Graph delta items are keyed by item id. A move is a reparent; descendant
//! paths are derived by walking parents, never stored.
use vstd::prelude::*;
use vstd::string::*;
use crate::text::{
    clone_opt, find_last, chars_of, last_pos, lemma_text_lt_total, make_path, opt_eq, opt_is,
    opt_text, path_segments, path_text, segments, text_eq, text_lt, text_of, texts, trim_end,
    trim_end_of,
};
use crate::textmap::{
    in_order, lemma_in_order, pair_lt, pairs_ascending, Duplicate, NameSet, TextMap,
};

verus! {

/// Identifier of a drive item.
pub type Id = String;

/// Longest parent chain that is followed before giving up.
pub const MAX_DEPTH: usize = 64;

/// Metadata of a drive item.
#[derive(Debug, PartialEq, Eq)]
pub struct ItemMeta {
    pub is_dir: bool,
    pub size: u64,
    pub mtime: u64,
    pub etag: String,
}

/// A node of the namespace.
#[derive(Debug, PartialEq, Eq)]
pub struct Node {
    pub parent: Option<Id>,
    pub name: String,
    pub meta: ItemMeta,
}

/// The namespace: nodes by id, and for each id the name/id pairs listed
/// below it.
#[derive(Debug)]
pub struct Index {
    pub nodes: TextMap<Node>,
    pub kids: TextMap<NameSet>,
    pub root: Option<Id>,
    pub delta_token: Option<String>,
    pub pending_next_link: Option<String>,
    pub crawl_complete: bool,
    pub generation: u64,
}

/// One change reported by the Graph delta feed.
#[derive(Debug)]
pub struct DeltaItem {
    pub id: Id,
    pub parent_id: Option<Id>,
    pub name: String,
    pub deleted: bool,
    pub is_root: bool,
    pub meta: ItemMeta,
}

/// What an [`ItemMeta`] stands for.
pub struct MetaView {
    pub is_dir: bool,
    pub size: u64,
    pub mtime: u64,
    pub etag: Seq<char>,
}

/// What a [`Node`] stands for.
pub struct NodeView {
    pub parent: Option<Seq<char>>,
    pub name: Seq<char>,
    pub meta: MetaView,
}

/// What an [`Index`] stands for.
#[verifier::ext_equal]
pub struct IndexView {
    pub nodes: Map<Seq<char>, NodeView>,
    pub kids: Map<Seq<char>, Set<(Seq<char>, Seq<char>)>>,
    pub root: Option<Seq<char>>,
    pub delta_token: Option<Seq<char>>,
    pub pending_next_link: Option<Seq<char>>,
    pub crawl_complete: bool,
    pub generation: u64,
}

/// What a [`DeltaItem`] stands for.
pub struct DeltaView {
    pub id: Seq<char>,
    pub parent_id: Option<Seq<char>>,
    pub name: Seq<char>,
    pub deleted: bool,
    pub is_root: bool,
    pub meta: MetaView,
}

impl View for ItemMeta {
    type V = MetaView;

    open spec fn view(&self) -> MetaView {
        MetaView { is_dir: self.is_dir, size: self.size, mtime: self.mtime, etag: self.etag@ }
    }
}

impl View for Node {
    type V = NodeView;

    open spec fn view(&self) -> NodeView {
        NodeView { parent: opt_text(self.parent), name: self.name@, meta: self.meta@ }
    }
}

impl View for Index {
    type V = IndexView;

    open spec fn view(&self) -> IndexView {
        IndexView {
            nodes: self.nodes@,
            kids: self.kids@,
            root: opt_text(self.root),
            delta_token: opt_text(self.delta_token),
            pending_next_link: opt_text(self.pending_next_link),
            crawl_complete: self.crawl_complete,
            generation: self.generation,
        }
    }
}

impl View for DeltaItem {
    type V = DeltaView;

    open spec fn view(&self) -> DeltaView {
        DeltaView {
            id: self.id@,
            parent_id: opt_text(self.parent_id),
            name: self.name@,
            deleted: self.deleted,
            is_root: self.is_root,
            meta: self.meta@,
        }
    }
}

impl Duplicate for ItemMeta {
    fn duplicate(&self) -> (r: Self) {
        ItemMeta {
            is_dir: self.is_dir,
            size: self.size,
            mtime: self.mtime,
            etag: self.etag.clone(),
        }
    }
}

impl Duplicate for Node {
    fn duplicate(&self) -> (r: Self) {
        Node {
            parent: clone_opt(&self.parent),
            name: self.name.clone(),
            meta: self.meta.duplicate(),
        }
    }
}

impl Clone for ItemMeta {
    fn clone(&self) -> (r: Self)
        ensures
            r@ == self@,
    {
        self.duplicate()
    }
}

impl Clone for Node {
    fn clone(&self) -> (r: Self)
        ensures
            r@ == self@,
    {
        self.duplicate()
    }
}

impl Clone for DeltaItem {
    fn clone(&self) -> (r: Self)
        ensures
            r@ == self@,
    {
        DeltaItem {
            id: self.id.clone(),
            parent_id: clone_opt(&self.parent_id),
            name: self.name.clone(),
            deleted: self.deleted,
            is_root: self.is_root,
            meta: self.meta.duplicate(),
        }
    }
}

/// The index with nothing in it.
pub open spec fn empty_index() -> IndexView {
    IndexView {
        nodes: Map::empty(),
        kids: Map::empty(),
        root: None,
        delta_token: None,
        pending_next_link: None,
        crawl_complete: false,
        generation: 0,
    }
}

impl Default for Index {
    fn default() -> (r: Self)
        ensures
            r@ == empty_index(),
    {
        Index {
            nodes: TextMap::new(),
            kids: TextMap::new(),
            root: None,
            delta_token: None,
            pending_next_link: None,
            crawl_complete: false,
            generation: 0,
        }
    }
}

impl Clone for Index {
    fn clone(&self) -> (r: Self)
        ensures
            r@ == self@,
    {
        Index {
            nodes: self.nodes.clone(),
            kids: self.kids.clone(),
            root: clone_opt(&self.root),
            delta_token: clone_opt(&self.delta_token),
            pending_next_link: clone_opt(&self.pending_next_link),
            crawl_complete: self.crawl_complete,
            generation: self.generation,
        }
    }
}

/// The pairs listed below `p`.
pub open spec fn kids_of(s: IndexView, p: Seq<char>) -> Set<(Seq<char>, Seq<char>)> {
    if s.kids.dom().contains(p) {
        s.kids[p]
    } else {
        Set::empty()
    }
}

/// Whether `c` is listed below `p` under some name.
pub open spec fn lists(
    kids: Map<Seq<char>, Set<(Seq<char>, Seq<char>)>>,
    p: Seq<char>,
    c: Seq<char>,
) -> bool {
    kids.dom().contains(p) && exists|n: Seq<char>| #[trigger] kids[p].contains((n, c))
}

/// Whether each id of the chain is listed below the one before it.
pub open spec fn descends(
    kids: Map<Seq<char>, Set<(Seq<char>, Seq<char>)>>,
    chain: Seq<Seq<char>>,
) -> bool {
    forall|i: int|
        0 <= i < chain.len() - 1 ==> lists(kids, #[trigger] chain[i], chain[i + 1])
}

/// Whether a descending chain leads from `top` to `x`.
pub open spec fn below(
    kids: Map<Seq<char>, Set<(Seq<char>, Seq<char>)>>,
    top: Seq<char>,
    x: Seq<char>,
) -> bool {
    exists|chain: Seq<Seq<char>>|
        chain.len() > 0 && chain[0] == top && chain.last() == x && #[trigger] descends(kids, chain)
}

/// `top` and all ids below it.
pub open spec fn subtree(
    kids: Map<Seq<char>, Set<(Seq<char>, Seq<char>)>>,
    top: Seq<char>,
) -> Set<Seq<char>> {
    Set::new(|x: Seq<char>| below(kids, top, x))
}

/// Whether the pair is the entry of a known node below its own parent `p`.
pub open spec fn own_entry(
    nodes: Map<Seq<char>, NodeView>,
    p: Seq<char>,
    e: (Seq<char>, Seq<char>),
) -> bool {
    nodes.dom().contains(e.1) && nodes[e.1].parent == Some(p) && nodes[e.1].name == e.0
}

/// The index without the ids in `gone`: their nodes and lists disappear, each
/// is taken off its parent's list, and the root is forgotten if it is one.
pub open spec fn without(s: IndexView, gone: Set<Seq<char>>) -> IndexView {
    IndexView {
        nodes: s.nodes.remove_keys(gone),
        kids: Map::new(
            |p: Seq<char>| s.kids.dom().contains(p) && !gone.contains(p),
            |p: Seq<char>|
                s.kids[p].difference(
                    Set::new(
                        |e: (Seq<char>, Seq<char>)| gone.contains(e.1) && own_entry(s.nodes, p, e),
                    ),
                ),
        ),
        root: match s.root {
            Some(r) => if gone.contains(r) && s.nodes.dom().contains(r) {
                None
            } else {
                Some(r)
            },
            None => None,
        },
        ..s
    }
}

/// The index after removing `id` with everything below it.
pub open spec fn removed(s: IndexView, id: Seq<char>) -> IndexView {
    without(s, subtree(s.kids, id))
}

/// The id listed under `name`; the least one if there are several.
pub open spec fn child_named(
    set: Set<(Seq<char>, Seq<char>)>,
    name: Seq<char>,
) -> Option<Seq<char>> {
    if exists|c: Seq<char>| set.contains((name, c)) {
        Some(
            choose|c: Seq<char>|
                set.contains((name, c)) && forall|d: Seq<char>| #[trigger]
                    set.contains((name, d)) ==> !text_lt(d, c),
        )
    } else {
        None
    }
}

/// The index with the item taken off its current parent's list, if it is
/// known under another parent or another name.
pub open spec fn detached(s: IndexView, it: DeltaView) -> IndexView {
    if s.nodes.dom().contains(it.id) && (s.nodes[it.id].parent != it.parent_id
        || s.nodes[it.id].name != it.name) {
        match s.nodes[it.id].parent {
            Some(p) => if s.kids.dom().contains(p) {
                IndexView {
                    kids: s.kids.insert(p, s.kids[p].remove((s.nodes[it.id].name, it.id))),
                    ..s
                }
            } else {
                s
            },
            None => s,
        }
    } else {
        s
    }
}

/// Another id that is listed under the item's name in the item's folder.
pub open spec fn clash(s: IndexView, it: DeltaView) -> Option<Seq<char>> {
    child_named(kids_of(s, it.parent_id->0).remove((it.name, it.id)), it.name)
}

/// The index with the item's node stored and listed below its parent.
pub open spec fn placed(s: IndexView, it: DeltaView) -> IndexView {
    let p = it.parent_id->0;
    IndexView {
        nodes: s.nodes.insert(
            it.id,
            NodeView { parent: it.parent_id, name: it.name, meta: it.meta },
        ),
        kids: s.kids.insert(p, kids_of(s, p).insert((it.name, it.id))),
        ..s
    }
}

/// The index after a delta item: an item without id changes nothing, a
/// deletion removes the subtree, a root item becomes the root, an item
/// without parent changes nothing, and any other item leaves its old place,
/// replaces whatever else has its name in its folder, and is put there.
pub open spec fn applied(s: IndexView, it: DeltaView) -> IndexView {
    if it.id.len() == 0 {
        s
    } else if it.deleted {
        removed(s, it.id)
    } else if it.is_root {
        IndexView {
            root: Some(it.id),
            nodes: s.nodes.insert(
                it.id,
                NodeView { parent: None, name: it.name, meta: it.meta },
            ),
            ..s
        }
    } else if it.parent_id is None {
        s
    } else {
        let t = detached(s, it);
        match clash(t, it) {
            Some(c) => placed(removed(t, c), it),
            None => placed(t, it),
        }
    }
}

/// The index after the items were applied one after the other.
pub open spec fn applied_all(s: IndexView, items: Seq<DeltaView>) -> IndexView
    decreases items.len(),
{
    if items.len() == 0 {
        s
    } else {
        applied(applied_all(s, items.drop_last()), items.last())
    }
}

/// The id reached from `top` by following the names down.
pub open spec fn walk(
    kids: Map<Seq<char>, Set<(Seq<char>, Seq<char>)>>,
    top: Seq<char>,
    names: Seq<Seq<char>>,
) -> Option<Seq<char>>
    decreases names.len(),
{
    if names.len() == 0 {
        Some(top)
    } else {
        match walk(kids, top, names.drop_last()) {
            Some(p) => if kids.dom().contains(p) {
                child_named(kids[p], names.last())
            } else {
                None
            },
            None => None,
        }
    }
}

/// The id at `path`, walked down from the root.
pub open spec fn resolved(s: IndexView, path: Seq<char>) -> Option<Seq<char>> {
    match s.root {
        Some(r) => walk(s.kids, r, segments(path)),
        None => None,
    }
}

/// The names from a parentless node down to `id`, if one is among the first
/// `fuel` nodes of the parent chain.
pub open spec fn lineage(
    nodes: Map<Seq<char>, NodeView>,
    id: Seq<char>,
    fuel: nat,
) -> Option<Seq<Seq<char>>>
    decreases fuel,
{
    if fuel == 0 || !nodes.dom().contains(id) {
        None
    } else {
        match nodes[id].parent {
            None => Some(Seq::empty()),
            Some(p) => match lineage(nodes, p, (fuel - 1) as nat) {
                Some(up) => Some(up.push(nodes[id].name)),
                None => None,
            },
        }
    }
}

/// The path of `id`.
pub open spec fn located(s: IndexView, id: Seq<char>) -> Option<Seq<char>> {
    match lineage(s.nodes, id, MAX_DEPTH as nat) {
        Some(names) => Some(path_text(names)),
        None => None,
    }
}

/// Whether `root` is among the first `fuel` ids of the parent chain of `id`.
pub open spec fn reaches(
    nodes: Map<Seq<char>, NodeView>,
    root: Seq<char>,
    id: Seq<char>,
    fuel: nat,
) -> bool
    decreases fuel,
{
    if fuel == 0 {
        false
    } else if id == root {
        true
    } else if !nodes.dom().contains(id) {
        false
    } else {
        match nodes[id].parent {
            Some(p) => reaches(nodes, root, p, (fuel - 1) as nat),
            None => false,
        }
    }
}

/// Whether some number of parent steps leads from `id` to `root`.
pub open spec fn walks_to(
    nodes: Map<Seq<char>, NodeView>,
    root: Seq<char>,
    id: Seq<char>,
) -> bool {
    exists|fuel: nat| #[trigger] reaches(nodes, root, id, fuel)
}

/// The known ids whose parent chain leads to `root`.
pub open spec fn rooted(nodes: Map<Seq<char>, NodeView>, root: Seq<char>) -> Set<Seq<char>> {
    Set::new(|id: Seq<char>| nodes.dom().contains(id) && walks_to(nodes, root, id))
}

/// More fuel does not hurt.
pub proof fn lemma_reaches_more(
    nodes: Map<Seq<char>, NodeView>,
    r: Seq<char>,
    x: Seq<char>,
    few: nat,
    many: nat,
)
    requires
        reaches(nodes, r, x, few),
        few <= many,
    ensures
        reaches(nodes, r, x, many),
    decreases few,
{
    if x != r {
        lemma_reaches_more(nodes, r, nodes[x].parent->0, (few - 1) as nat, (many - 1) as nat);
    }
}

/// A chain to the root passes `x`, or it is there without `x` as well.
proof fn lemma_reaches_around(
    nodes: Map<Seq<char>, NodeView>,
    r: Seq<char>,
    x: Seq<char>,
    y: Seq<char>,
    fuel: nat,
)
    requires
        reaches(nodes, r, y, fuel),
    ensures
        reaches(nodes.remove(x), r, y, fuel) || reaches(nodes, r, x, fuel),
    decreases fuel,
{
    if y != r && y != x {
        let p = nodes[y].parent->0;
        let less = (fuel - 1) as nat;
        lemma_reaches_around(nodes, r, x, p, less);
        if reaches(nodes, r, x, less) {
            lemma_reaches_more(nodes, r, x, less, fuel);
        }
    }
}

/// A chain that is there without `x` is there with it.
proof fn lemma_reaches_back(
    nodes: Map<Seq<char>, NodeView>,
    r: Seq<char>,
    x: Seq<char>,
    y: Seq<char>,
    fuel: nat,
)
    requires
        reaches(nodes.remove(x), r, y, fuel),
    ensures
        reaches(nodes, r, y, fuel),
    decreases fuel,
{
    if y != r {
        lemma_reaches_back(nodes, r, x, nodes[y].parent->0, (fuel - 1) as nat);
    }
}

/// A chain to the root needs no more steps than there are nodes.
pub proof fn lemma_short_chain(
    nodes: Map<Seq<char>, NodeView>,
    r: Seq<char>,
    x: Seq<char>,
    fuel: nat,
)
    requires
        nodes.dom().finite(),
        reaches(nodes, r, x, fuel),
    ensures
        reaches(nodes, r, x, nodes.dom().len() + 1),
    decreases nodes.dom().len(), fuel,
{
    if x != r {
        let p = nodes[x].parent->0;
        let less = (fuel - 1) as nat;
        let rest = nodes.remove(x);
        lemma_reaches_around(nodes, r, x, p, less);
        assert(rest.dom() =~= nodes.dom().remove(x));
        if reaches(rest, r, p, less) {
            lemma_short_chain(rest, r, p, less);
            lemma_reaches_back(nodes, r, x, p, nodes.dom().len());
        } else {
            lemma_short_chain(nodes, r, x, less);
        }
    }
}

/// The index restricted to the ids that can walk to the recorded root.
pub open spec fn swept(s: IndexView) -> IndexView {
    match s.root {
        None => s,
        Some(r) => {
            let live = rooted(s.nodes, r);
            IndexView {
                nodes: s.nodes.restrict(live),
                kids: Map::new(
                    |p: Seq<char>| s.kids.dom().contains(p) && live.contains(p),
                    |p: Seq<char>| s.kids[p].filter(|e: (Seq<char>, Seq<char>)| live.contains(e.1)),
                ),
                ..s
            }
        },
    }
}

/// The folder part of a path; `/` when there is none.
pub open spec fn parent_of_path(path: Seq<char>) -> Seq<char> {
    let t = trim_end(path, '/');
    match last_pos(t, '/') {
        None => seq!['/'],
        Some(i) => if i == 0 {
            seq!['/']
        } else {
            t.take(i)
        },
    }
}

/// The part of a path after its last separator.
pub open spec fn last_of_path(path: Seq<char>) -> Seq<char> {
    let t = trim_end(path, '/');
    match last_pos(t, '/') {
        None => t,
        Some(i) => t.skip(i + 1),
    }
}

/// The delta item that stands for a local change at `path`.
pub open spec fn local_item(
    id: Seq<char>,
    parent: Seq<char>,
    name: Seq<char>,
    meta: MetaView,
) -> DeltaView {
    DeltaView { id, parent_id: Some(parent), name, deleted: false, is_root: false, meta }
}

/// The id at the folder part of `path`, if the path has a last segment.
pub open spec fn target_folder(s: IndexView, path: Seq<char>) -> Option<Seq<char>> {
    if last_of_path(path).len() == 0 {
        None
    } else {
        resolved(s, parent_of_path(path))
    }
}

/// The index after writing `meta` at `path`, and whether that was possible.
pub open spec fn upserted(s: IndexView, path: Seq<char>, meta: MetaView) -> (IndexView, bool) {
    let hit = resolved(s, path);
    if hit is Some && s.nodes.dom().contains(hit->0) {
        let id = hit->0;
        (IndexView { nodes: s.nodes.insert(id, NodeView { meta, ..s.nodes[id] }), ..s }, true)
    } else {
        match target_folder(s, path) {
            Some(p) => (
                applied(s, local_item("local:"@ + path, p, last_of_path(path), meta)),
                true,
            ),
            None => (s, false),
        }
    }
}

/// The index after removing what is at `path`, and whether there was anything.
pub open spec fn removed_at(s: IndexView, path: Seq<char>) -> (IndexView, bool) {
    match resolved(s, path) {
        Some(id) => (removed(s, id), true),
        None => (s, false),
    }
}

/// The index after moving what is at `from` to `to`, and whether that was
/// possible.
pub open spec fn relocated(s: IndexView, from: Seq<char>, to: Seq<char>) -> (IndexView, bool) {
    let hit = resolved(s, from);
    if hit is Some && s.nodes.dom().contains(hit->0) {
        match target_folder(s, to) {
            Some(p) => (
                applied(s, local_item(hit->0, p, last_of_path(to), s.nodes[hit->0].meta)),
                true,
            ),
            None => (s, false),
        }
    } else {
        (s, false)
    }
}

/// What `child_named` yields is the one id such that no smaller one is listed.
pub proof fn lemma_child_named(
    set: Set<(Seq<char>, Seq<char>)>,
    name: Seq<char>,
    c: Seq<char>,
)
    requires
        set.contains((name, c)),
        forall|d: Seq<char>| #[trigger] set.contains((name, d)) ==> !text_lt(d, c),
    ensures
        child_named(set, name) == Some(c),
{
    let e = child_named(set, name)->0;
    assert(set.contains((name, e)) && forall|d: Seq<char>| #[trigger]
        set.contains((name, d)) ==> !text_lt(d, e));
    lemma_text_lt_total(c, e);
}

/// The first listed id with the given name that is not `other`.
fn first_named<'a>(set: &'a NameSet, name: &str, other: Option<&str>) -> (r: Option<&'a String>)
    ensures
        match r {
            Some(c) => child_named(
                match other {
                    Some(o) => set@.remove((name@, o@)),
                    None => set@,
                },
                name@,
            ) == Some(c@),
            None => child_named(
                match other {
                    Some(o) => set@.remove((name@, o@)),
                    None => set@,
                },
                name@,
            ) is None,
        },
{
    let n = set.len();
    let ghost q = set.listed();
    let ghost sub = match other {
        Some(o) => set@.remove((name@, o@)),
        None => set@,
    };
    let mut i: usize = 0;
    while i < n
        invariant
            i <= n,
            n == q.len(),
            q == set.listed(),
            pairs_ascending(q),
            q.to_set() == set@,
            sub == (match other {
                Some(o) => set@.remove((name@, o@)),
                None => set@,
            }),
            forall|j: int| 0 <= j < i ==> !((#[trigger] q[j]).0 == name@ && sub.contains(q[j])),
        decreases n - i,
    {
        let same = text_eq(set.name_at(i).as_str(), name);
        let skip = match other {
            Some(o) => text_eq(set.id_at(i).as_str(), o),
            None => false,
        };
        assert(q.to_set().contains(q[i as int]));
        if same && !skip {
            proof {
                let c = q[i as int].1;
                assert(q[i as int] == (name@, c));
                assert(sub.contains((name@, c)));
                assert forall|d: Seq<char>| #[trigger] sub.contains((name@, d)) implies !text_lt(
                    d,
                    c,
                ) by {
                    assert(q.to_set().contains((name@, d)));
                    let k = choose|k: int| 0 <= k < q.len() && q[k] == (name@, d);
                    lemma_text_lt_total(d, c);
                    lemma_text_lt_total(name@, name@);
                    if i < k {
                        assert(pair_lt(q[i as int], q[k]));
                    }
                }
                lemma_child_named(sub, name@, c);
            }
            return Some(set.id_at(i));
        }
        i = i + 1;
    }
    proof {
        if exists|c: Seq<char>| sub.contains((name@, c)) {
            let c = choose|c: Seq<char>| sub.contains((name@, c));
            assert(q.to_set().contains((name@, c)));
            let k = choose|k: int| 0 <= k < q.len() && q[k] == (name@, c);
            assert(q[k].0 == name@ && sub.contains(q[k]));
        }
    }
    None
}

proof fn lemma_closed_covers(
    kids: Map<Seq<char>, Set<(Seq<char>, Seq<char>)>>,
    top: Seq<char>,
    set: Set<Seq<char>>,
    chain: Seq<Seq<char>>,
)
    requires
        set.contains(top),
        forall|p: Seq<char>, c: Seq<char>|
            set.contains(p) && #[trigger] lists(kids, p, c) ==> set.contains(c),
        chain.len() > 0,
        chain[0] == top,
        descends(kids, chain),
    ensures
        set.contains(chain.last()),
    decreases chain.len(),
{
    if chain.len() > 1 {
        let c = chain.drop_last();
        assert forall|i: int| 0 <= i < c.len() - 1 implies lists(
            kids,
            #[trigger] c[i],
            c[i + 1],
        ) by {
            assert(lists(kids, chain[i], chain[i + 1]));
        }
        lemma_closed_covers(kids, top, set, c);
        assert(lists(kids, chain[chain.len() - 2], chain[chain.len() - 2 + 1]));
    }
}

/// A set that holds `top`, is closed under the lists and holds only ids below
/// `top` is the subtree of `top`.
pub proof fn lemma_subtree_is(
    kids: Map<Seq<char>, Set<(Seq<char>, Seq<char>)>>,
    top: Seq<char>,
    set: Set<Seq<char>>,
)
    requires
        set.contains(top),
        forall|p: Seq<char>, c: Seq<char>|
            set.contains(p) && #[trigger] lists(kids, p, c) ==> set.contains(c),
        forall|x: Seq<char>| set.contains(x) ==> #[trigger] below(kids, top, x),
    ensures
        subtree(kids, top) == set,
{
    assert forall|x: Seq<char>| #[trigger] below(kids, top, x) implies set.contains(x) by {
        let chain = choose|chain: Seq<Seq<char>>|
            chain.len() > 0 && chain[0] == top && chain.last() == x && #[trigger] descends(
                kids,
                chain,
            );
        lemma_closed_covers(kids, top, set, chain);
    }
    assert(subtree(kids, top) =~= set);
}

/// Every id is below itself.
pub proof fn lemma_below_self(kids: Map<Seq<char>, Set<(Seq<char>, Seq<char>)>>, top: Seq<char>)
    ensures
        below(kids, top, top),
{
    let one = seq![top];
    assert(descends(kids, one) && one[0] == top && one.last() == top);
}

/// What is listed below an id that is below `top` is below `top`.
pub proof fn lemma_below_child(
    kids: Map<Seq<char>, Set<(Seq<char>, Seq<char>)>>,
    top: Seq<char>,
    p: Seq<char>,
    c: Seq<char>,
)
    requires
        below(kids, top, p),
        lists(kids, p, c),
    ensures
        below(kids, top, c),
{
    let chain = choose|chain: Seq<Seq<char>>|
        chain.len() > 0 && chain[0] == top && chain.last() == p && #[trigger] descends(
            kids,
            chain,
        );
    let more = chain.push(c);
    assert forall|i: int| 0 <= i < more.len() - 1 implies lists(
        kids,
        #[trigger] more[i],
        more[i + 1],
    ) by {
        if i < chain.len() - 1 {
            assert(lists(kids, chain[i], chain[i + 1]));
        }
    }
    assert(descends(kids, more) && more[0] == top && more.last() == c);
}

/// The ids of the listed pairs.
pub open spec fn ids_of(q: Seq<(Seq<char>, Seq<char>)>) -> Seq<Seq<char>> {
    q.map_values(|e: (Seq<char>, Seq<char>)| e.1)
}

/// Appends the ids of the set, in order.
fn push_ids(set: &NameSet, todo: &mut Vec<String>)
    ensures
        texts(final(todo)@) == texts(old(todo)@) + ids_of(in_order(set@)),
        pairs_ascending(in_order(set@)),
        in_order(set@).to_set() == set@,
{
    let ghost start = texts(todo@);
    let n = set.len();
    let ghost q = in_order(set@);
    assert(texts(todo@) =~= start + ids_of(q.take(0)));
    for i in 0..n
        invariant
            n == q.len(),
            q == set.listed(),
            texts(todo@) == start + ids_of(q.take(i as int)),
    {
        let ghost prev = todo@;
        todo.push(set.id_at(i).clone());
        assert(texts(todo@) =~= texts(prev).push(q[i as int].1));
        assert(ids_of(q.take(i + 1)) =~= ids_of(q.take(i as int)).push(q[i as int].1));
        assert(texts(todo@) =~= start + ids_of(q.take(i + 1)));
    }
    assert(q.take(q.len() as int) =~= q);
}

/// State of a removal: `gone` is done, `todo` is still to be taken out, and
/// everything below `top` is in one of them or below what is in `todo`.
spec fn pending(
    kids: Map<Seq<char>, Set<(Seq<char>, Seq<char>)>>,
    top: Seq<char>,
    gone: Set<Seq<char>>,
    todo: Seq<Seq<char>>,
) -> bool {
    &&& forall|i: int| 0 <= i < todo.len() ==> below(kids, top, #[trigger] todo[i])
    &&& forall|x: Seq<char>| gone.contains(x) ==> #[trigger] below(kids, top, x)
    &&& forall|p: Seq<char>, c: Seq<char>|
        gone.contains(p) && #[trigger] lists(kids, p, c) ==> gone.contains(c) || todo.contains(c)
    &&& gone.contains(top) || todo.contains(top)
}

proof fn lemma_pending_start(
    kids: Map<Seq<char>, Set<(Seq<char>, Seq<char>)>>,
    top: Seq<char>,
)
    ensures
        pending(kids, top, Set::empty(), seq![top]),
{
    lemma_below_self(kids, top);
    assert(seq![top][0] == top);
}

proof fn lemma_pending_end(
    kids: Map<Seq<char>, Set<(Seq<char>, Seq<char>)>>,
    top: Seq<char>,
    gone: Set<Seq<char>>,
)
    requires
        pending(kids, top, gone, Seq::empty()),
    ensures
        subtree(kids, top) == gone,
{
    lemma_subtree_is(kids, top, gone);
}

proof fn lemma_pending_step(
    s: IndexView,
    top: Seq<char>,
    gone: Set<Seq<char>>,
    todo: Seq<Seq<char>>,
    q: Seq<(Seq<char>, Seq<char>)>,
)
    requires
        pending(s.kids, top, gone, todo),
        todo.len() > 0,
        without(s, gone).kids.dom().contains(todo.last()) ==> q.to_set() == without(
            s,
            gone,
        ).kids[todo.last()],
        !without(s, gone).kids.dom().contains(todo.last()) ==> q.len() == 0,
    ensures
        pending(s.kids, top, gone.insert(todo.last()), todo.drop_last() + ids_of(q)),
{
    let x = todo.last();
    let g = gone.insert(x);
    let rest = todo.drop_last() + ids_of(q);
    let m = todo.len() - 1;
    assert(below(s.kids, top, todo[m]));
    assert forall|c: Seq<char>| todo.contains(c) implies c == x || rest.contains(c) by {
        let i = choose|i: int| 0 <= i < todo.len() && todo[i] == c;
        if i < m {
            assert(rest[i] == c);
        }
    }
    assert forall|i: int| 0 <= i < rest.len() implies below(s.kids, top, #[trigger] rest[i]) by {
        if i < m {
            assert(rest[i] == todo[i]);
        } else {
            let e = q[i - m];
            assert(rest[i] == e.1);
            assert(q.to_set().contains(e));
            assert(s.kids[x].contains((e.0, e.1)));
            assert(lists(s.kids, x, e.1));
            lemma_below_child(s.kids, top, x, e.1);
        }
    }
    assert forall|p: Seq<char>, c: Seq<char>|
        g.contains(p) && #[trigger] lists(s.kids, p, c) implies g.contains(c) || rest.contains(
        c,
    ) by {
        if !gone.contains(p) && !gone.contains(c) {
            assert(p == x);
            lemma_listed_kept(s, gone, x, c, q);
            let j = choose|j: int| 0 <= j < q.len() && (#[trigger] q[j]).1 == c;
            assert(ids_of(q)[j] == c);
            assert(rest[m + j] == c);
        }
    }
}

proof fn lemma_listed_kept(
    s: IndexView,
    gone: Set<Seq<char>>,
    x: Seq<char>,
    c: Seq<char>,
    q: Seq<(Seq<char>, Seq<char>)>,
)
    requires
        lists(s.kids, x, c),
        !gone.contains(x),
        !gone.contains(c),
        q.to_set() == without(s, gone).kids[x],
    ensures
        exists|j: int| 0 <= j < q.len() && (#[trigger] q[j]).1 == c,
{
    let nm = choose|nm: Seq<char>| #[trigger] s.kids[x].contains((nm, c));
    assert(without(s, gone).kids[x].contains((nm, c)));
    assert(q.to_set().contains((nm, c)));
    let j = choose|j: int| 0 <= j < q.len() && q[j] == (nm, c);
    assert(q[j].1 == c);
}

/// Taking nothing out leaves the index as it is.
proof fn lemma_without_nothing(s: IndexView)
    ensures
        without(s, Set::empty()) == s,
{
    let t = without(s, Set::empty());
    assert(t.nodes =~= s.nodes);
    assert(t.kids.dom() =~= s.kids.dom());
    assert forall|p: Seq<char>| #[trigger] s.kids.dom().contains(p) implies t.kids[p]
        == s.kids[p] by {
        assert(t.kids[p] =~= s.kids[p]);
    }
    assert(t.kids =~= s.kids);
    assert(t =~= s);
}

impl Index {
    /// Takes the single id `x` out, given that the ids in `gone` already are.
    fn take_out(&mut self, x: &str, Ghost(s): Ghost<IndexView>, Ghost(gone): Ghost<Set<Seq<char>>>)
        -> (r: Option<NameSet>)
        requires
            old(self)@ == without(s, gone),
        ensures
            final(self)@ == without(s, gone.insert(x@)),
            match r {
                Some(set) => old(self)@.kids.dom().contains(x@) && set@ == old(self)@.kids[x@],
                None => !old(self)@.kids.dom().contains(x@),
            },
    {
        let node = self.nodes.remove(x);
        let ghost g2 = gone.insert(x@);
        assert(s.nodes.remove_keys(gone).remove(x@) =~= s.nodes.remove_keys(g2));
        let mut out: Option<NameSet> = None;
        match node {
            Some(node) => {
                if opt_is(&self.root, x) {
                    self.root = None;
                }
                out = self.kids.remove(x);
                match &node.parent {
                    Some(p) => {
                        if let Some(mut set) = self.kids.remove(p.as_str()) {
                            set.remove(node.name.as_str(), x);
                            self.kids.insert(p.clone(), set);
                        }
                    },
                    None => {},
                }
                proof {
                    let t = without(s, g2);
                    assert(self@.kids.dom() =~= t.kids.dom());
                    assert forall|p: Seq<char>| #[trigger] t.kids.dom().contains(p) implies
                        self@.kids[p] == t.kids[p] by {
                        assert(self@.kids[p] =~= t.kids[p]);
                    }
                    assert(self@.kids =~= t.kids);
                }
            },
            None => {
                out = self.kids.remove(x);
                proof {
                    let t = without(s, g2);
                    assert(self@.kids.dom() =~= t.kids.dom());
                    assert forall|p: Seq<char>| #[trigger] t.kids.dom().contains(p) implies
                        self@.kids[p] == t.kids[p] by {
                        assert(self@.kids[p] =~= t.kids[p]);
                    }
                    assert(self@.kids =~= t.kids);
                }
            },
        }
        out
    }

    /// Removes `id` with everything below it.
    pub fn remove(&mut self, id: &str)
        ensures
            final(self)@ == removed(old(self)@, id@),
    {
        let ghost s = self@;
        let ghost mut gone: Set<Seq<char>> = Set::empty();
        let mut todo: Vec<String> = Vec::new();
        todo.push(id.to_owned());
        proof {
            assert(texts(todo@) =~= seq![id@]);
            lemma_pending_start(s.kids, id@);
            lemma_without_nothing(s);
        }
        self.kids.len();
        while todo.len() > 0
            invariant
                self@ == without(s, gone),
                self@.kids.dom().finite(),
                pending(s.kids, id@, gone, texts(todo@)),
            decreases self@.kids.dom().len(), todo.len(),
        {
            let ghost before = texts(todo@);
            let ghost was = self@;
            let x = todo.pop().unwrap();
            assert(texts(todo@) =~= before.drop_last());
            assert(before.last() == x@);
            let listed = self.take_out(x.as_str(), Ghost(s), Ghost(gone));
            assert(self@.kids.dom() =~= was.kids.dom().remove(x@));
            match listed {
                Some(set) => {
                    push_ids(&set, &mut todo);
                    proof {
                        lemma_pending_step(s, id@, gone, before, in_order(set@));
                    }
                },
                None => {
                    proof {
                        lemma_pending_step(s, id@, gone, before, Seq::empty());
                        assert(ids_of(Seq::empty()) =~= Seq::<Seq<char>>::empty());
                        assert(texts(todo@) =~= before.drop_last() + ids_of(Seq::empty()));
                    }
                },
            }
            proof {
                gone = gone.insert(x@);
            }
            self.kids.len();
        }
        proof {
            assert(texts(todo@) =~= Seq::<Seq<char>>::empty());
            lemma_pending_end(s.kids, id@, gone);
        }
    }

    /// Takes the item off its current parent's list if it moves or is renamed.
    fn detach(&mut self, it: &DeltaItem)
        ensures
            final(self)@ == detached(old(self)@, it@),
    {
        let (parent, name) = match self.nodes.get(it.id.as_str()) {
            Some(old) => {
                if opt_eq(&old.parent, &it.parent_id) && text_eq(
                    old.name.as_str(),
                    it.name.as_str(),
                ) {
                    return ;
                }
                (clone_opt(&old.parent), old.name.clone())
            },
            None => {
                return ;
            },
        };
        if let Some(p) = parent {
            if let Some(mut set) = self.kids.remove(p.as_str()) {
                set.remove(name.as_str(), it.id.as_str());
                self.kids.insert(p, set);
                assert(self@.kids =~= detached(old(self)@, it@).kids);
            } else {
                assert(self@.kids =~= old(self)@.kids);
            }
        }
    }

    /// Stores the item's node and lists it below its parent.
    fn place(&mut self, it: DeltaItem)
        requires
            it.parent_id is Some,
        ensures
            final(self)@ == placed(old(self)@, it@),
    {
        let parent = it.parent_id.unwrap();
        let mut set = match self.kids.remove(parent.as_str()) {
            Some(set) => set,
            None => NameSet::new(),
        };
        set.insert(it.name.clone(), it.id.clone());
        self.kids.insert(parent.clone(), set);
        self.nodes.insert(
            it.id,
            Node { parent: Some(parent), name: it.name, meta: it.meta },
        );
        assert(self@.kids =~= placed(old(self)@, it@).kids);
    }

    /// Applies one delta item.
    pub fn apply(&mut self, it: DeltaItem)
        ensures
            final(self)@ == applied(old(self)@, it@),
    {
        if it.id.as_str().is_empty() {
            return ;
        }
        if it.deleted {
            self.remove(it.id.as_str());
            return ;
        }
        if it.is_root {
            self.root = Some(it.id.clone());
            self.nodes.insert(it.id, Node { parent: None, name: it.name, meta: it.meta });
            return ;
        }
        let parent = match &it.parent_id {
            Some(p) => p.clone(),
            None => {
                return ;
            },
        };
        self.detach(&it);
        let other = match self.kids.get(parent.as_str()) {
            Some(set) => match first_named(set, it.name.as_str(), Some(it.id.as_str())) {
                Some(c) => Some(c.clone()),
                None => None,
            },
            None => None,
        };
        proof {
            let t = detached(old(self)@, it@);
            if !t.kids.dom().contains(parent@) {
                assert forall|c: Seq<char>| !#[trigger]
                    kids_of(t, parent@).remove((it.name@, it.id@)).contains((it.name@, c)) by {}
            }
        }
        if let Some(c) = other {
            self.remove(c.as_str());
        }
        self.place(it);
    }

    /// The id at `path`.
    pub fn resolve(&self, path: &str) -> (r: Option<Id>)
        ensures
            opt_text(r) == resolved(self@, path@),
    {
        let mut cur = match &self.root {
            Some(r) => r.clone(),
            None => {
                return None;
            },
        };
        let ghost top = cur@;
        let names = path_segments(path);
        let ghost all = texts(names@);
        assert(all.take(0) =~= Seq::empty());
        for i in 0..names.len()
            invariant
                all == texts(names@),
                all == segments(path@),
                self@.root == Some(top),
                walk(self@.kids, top, all.take(i as int)) == Some(cur@),
        {
            assert(all.take(i + 1).drop_last() =~= all.take(i as int));
            assert(all.take(i + 1).last() == names@[i as int]@);
            let next = match self.kids.get(cur.as_str()) {
                Some(set) => match first_named(set, names[i].as_str(), None) {
                    Some(c) => Some(c.clone()),
                    None => None,
                },
                None => None,
            };
            match next {
                Some(c) => {
                    cur = c;
                },
                None => {
                    proof {
                        lemma_walk_stuck(self@.kids, top, all, i + 1);
                    }
                    return None;
                },
            }
        }
        assert(all.take(all.len() as int) =~= all);
        Some(cur)
    }

    /// The name/id pairs listed at `path`, in ascending order.
    pub fn children_of(&self, path: &str) -> (r: Option<Vec<(String, Id)>>)
        ensures
            match r {
                Some(v) => resolved(self@, path@) is Some && pairs_of(v@) == in_order(
                    kids_of(self@, resolved(self@, path@)->0),
                ) && pairs_ascending(pairs_of(v@)) && pairs_of(v@).to_set() == kids_of(
                    self@,
                    resolved(self@, path@)->0,
                ),
                None => resolved(self@, path@) is None,
            },
    {
        let id = match self.resolve(path) {
            Some(id) => id,
            None => {
                return None;
            },
        };
        let mut out: Vec<(String, Id)> = Vec::new();
        match self.kids.get(id.as_str()) {
            Some(set) => {
                let n = set.len();
                let ghost q = set.listed();
                for i in 0..n
                    invariant
                        n == q.len(),
                        q == set.listed(),
                        pairs_of(out@) == q.take(i as int),
                {
                    let ghost prev = out@;
                    out.push((set.name_at(i).clone(), set.id_at(i).clone()));
                    assert(pairs_of(out@) =~= pairs_of(prev).push(q[i as int]));
                    assert(q.take(i + 1) =~= q.take(i as int).push(q[i as int]));
                }
                assert(q.take(q.len() as int) =~= q);
            },
            None => {
                assert(pairs_of(out@) =~= Seq::empty());
                assert(pairs_of(out@).to_set() =~= Set::empty());
                proof {
                    lemma_in_order(pairs_of(out@));
                }
            },
        }
        Some(out)
    }

    /// The path of `id`, derived by walking its parents.
    pub fn path_of(&self, id: &str) -> (r: Option<String>)
        ensures
            opt_text(r) == located(self@, id@),
    {
        let mut names: Vec<String> = Vec::new();
        let mut cur = id.to_owned();
        let ghost goal = lineage(self@.nodes, id@, MAX_DEPTH as nat);
        assert(texts(names@).reverse() =~= Seq::empty());
        assert(forall|up: Seq<Seq<char>>| #[trigger] up.add(Seq::empty()) =~= up);
        let mut k: usize = 0;
        while k < MAX_DEPTH
            invariant
                k <= MAX_DEPTH,
                goal == lineage(self@.nodes, id@, MAX_DEPTH as nat),
                goal == (match lineage(self@.nodes, cur@, (MAX_DEPTH - k) as nat) {
                    Some(up) => Some(up + texts(names@).reverse()),
                    None => None,
                }),
            decreases MAX_DEPTH - k,
        {
            let node = match self.nodes.get(cur.as_str()) {
                Some(node) => node,
                None => {
                    return None;
                },
            };
            match &node.parent {
                None => {
                    let ghost rev = texts(names@).reverse();
                    let mut segs: Vec<String> = Vec::new();
                    let n = names.len();
                    for j in 0..n
                        invariant
                            n == names@.len(),
                            rev == texts(names@).reverse(),
                            texts(segs@) == rev.take(j as int),
                    {
                        let ghost prev = segs@;
                        segs.push(names[n - 1 - j].clone());
                        assert(texts(segs@) =~= texts(prev).push(rev[j as int]));
                        assert(rev.take(j + 1) =~= rev.take(j as int).push(rev[j as int]));
                    }
                    assert(rev.take(n as int) =~= rev);
                    assert(Seq::<Seq<char>>::empty() + rev =~= rev);
                    return Some(make_path(&segs));
                },
                Some(p) => {
                    let ghost prev = names@;
                    names.push(node.name.clone());
                    proof {
                        assert(texts(names@).reverse() =~= seq![node.name@] + texts(
                            prev,
                        ).reverse());
                        let up = lineage(self@.nodes, p@, (MAX_DEPTH - k - 1) as nat);
                        if up is Some {
                            assert(up->0.push(node.name@) + texts(prev).reverse() =~= up->0 + texts(
                                names@,
                            ).reverse());
                        }
                    }
                    cur = p.clone();
                },
            }
            k = k + 1;
        }
        None
    }

    /// Whether the parent chain of `id` leads to `root`. A chain with more steps
    /// than there are nodes goes in circles.
    fn leads_to(&self, root: &str, id: &str) -> (r: bool)
        ensures
            r == walks_to(self@.nodes, root@, id@),
    {
        let mut cur = id.to_owned();
        let n = self.nodes.len();
        let ghost nodes = self@.nodes;
        let ghost goal = reaches(nodes, root@, id@, (n + 1) as nat);
        proof {
            if walks_to(nodes, root@, id@) {
                let fuel = choose|fuel: nat| #[trigger] reaches(nodes, root@, id@, fuel);
                lemma_short_chain(nodes, root@, id@, fuel);
            }
        }
        assert(goal == walks_to(nodes, root@, id@));
        let mut k: usize = 0;
        loop
            invariant
                k <= n,
                nodes == self@.nodes,
                goal == walks_to(nodes, root@, id@),
                goal == reaches(nodes, root@, cur@, (n + 1 - k) as nat),
            decreases n - k,
        {
            if text_eq(cur.as_str(), root) {
                return true;
            }
            let next = match self.nodes.get(cur.as_str()) {
                Some(node) => clone_opt(&node.parent),
                None => None,
            };
            match next {
                Some(p) => {
                    if k == n {
                        assert(!reaches(nodes, root@, p@, 0));
                        return false;
                    }
                    cur = p;
                },
                None => {
                    return false;
                },
            }
            k = k + 1;
        }
    }

    /// Drops nodes that cannot walk to the recorded root.
    pub fn sweep_orphans(&mut self)
        ensures
            final(self)@ == swept(old(self)@),
    {
        let root = match &self.root {
            Some(r) => r.clone(),
            None => {
                return ;
            },
        };
        let ghost s = self@;
        let ghost live = rooted(s.nodes, root@);
        let mut dead: Vec<String> = Vec::new();
        let n = self.nodes.len();
        let ghost ks = self.nodes.keys();
        for i in 0..n
            invariant
                self@ == s,
                n == ks.len(),
                ks == self.nodes.keys(),
                live == rooted(s.nodes, root@),
                forall|j: int|
                    0 <= j < i ==> texts(dead@).contains(#[trigger] ks[j]) || live.contains(ks[j]),
                forall|j: int| 0 <= j < dead@.len() ==> !live.contains(#[trigger] dead@[j]@),
        {
            let id = self.nodes.key_at(i);
            if !self.leads_to(root.as_str(), id.as_str()) {
                let ghost prev = dead@;
                dead.push(id.clone());
                proof {
                    assert(texts(dead@) =~= texts(prev).push(ks[i as int]));
                    assert(texts(dead@)[prev.len() as int] == ks[i as int]);
                    assert forall|x: Seq<char>| texts(prev).contains(x) implies texts(
                        dead@,
                    ).contains(x) by {
                        let j = choose|j: int| 0 <= j < prev.len() && texts(prev)[j] == x;
                        assert(texts(dead@)[j] == x);
                    }
                }
            }
        }
        let m = dead.len();
        for i in 0..m
            invariant
                m == dead@.len(),
                self.kids@ == s.kids,
                opt_text(self.root) == s.root,
                opt_text(self.delta_token) == s.delta_token,
                opt_text(self.pending_next_link) == s.pending_next_link,
                self.crawl_complete == s.crawl_complete,
                self.generation == s.generation,
                forall|j: int| 0 <= j < dead@.len() ==> !live.contains(#[trigger] dead@[j]@),
                self.nodes@ == s.nodes.remove_keys(texts(dead@).take(i as int).to_set()),
        {
            let ghost d = texts(dead@);
            self.nodes.remove(dead[i].as_str());
            proof {
                assert(d.take(i + 1) =~= d.take(i as int).push(d[i as int]));
                d.take(i as int).lemma_push_to_set_commute(d[i as int]);
                assert(self.nodes@ =~= s.nodes.remove_keys(d.take(i + 1).to_set()));
            }
        }
        proof {
            let d = texts(dead@);
            assert(d.take(d.len() as int) =~= d);
            assert forall|x: Seq<char>| #[trigger]
                s.nodes.dom().contains(x) implies d.to_set().contains(x) == !live.contains(x) by {
                assert(ks.contains(x));
                let j = choose|j: int| 0 <= j < ks.len() && ks[j] == x;
                if d.contains(x) {
                    let k = choose|k: int| 0 <= k < d.len() && d[k] == x;
                    assert(dead@[k]@ == x);
                }
            }
            assert(self.nodes@ =~= s.nodes.restrict(live));
        }
        self.prune_kids();
        proof {
            assert forall|x: Seq<char>| self.nodes@.dom().contains(x) == live.contains(x) by {}
            let t = swept(s);
            assert(self@.kids.dom() =~= t.kids.dom());
            assert forall|p: Seq<char>| #[trigger] t.kids.dom().contains(p) implies self@.kids[p]
                == t.kids[p] by {
                assert(self@.kids[p] =~= t.kids[p]);
            }
            assert(self@.kids =~= t.kids);
        }
    }

    /// Drops lists of unknown ids, and unknown ids from the other lists.
    fn prune_kids(&mut self)
        ensures
            final(self).nodes@ == old(self).nodes@,
            final(self).root == old(self).root,
            final(self).delta_token == old(self).delta_token,
            final(self).pending_next_link == old(self).pending_next_link,
            final(self).crawl_complete == old(self).crawl_complete,
            final(self).generation == old(self).generation,
            final(self).kids@ == pruned(old(self).kids@, old(self).nodes@.dom()),
    {
        let ghost kids = self.kids@;
        let ghost live = self.nodes@.dom();
        let mut fresh: TextMap<NameSet> = TextMap::new();
        let n = self.kids.len();
        let ghost ks = self.kids.keys();
        for i in 0..n
            invariant
                *self == *old(self),
                kids == self.kids@,
                live == self.nodes@.dom(),
                n == ks.len(),
                ks == self.kids.keys(),
                ks.to_set() == kids.dom(),
                fresh@ == pruned(kids.restrict(ks.take(i as int).to_set()), live),
        {
            let p = self.kids.key_at(i);
            let ghost now = ks.take(i as int).to_set();
            let ghost then = ks.take(i + 1).to_set();
            assert(ks.take(i + 1) =~= ks.take(i as int).push(ks[i as int]));
            proof {
                ks.take(i as int).lemma_push_to_set_commute(p@);
            }
            if self.nodes.contains_key(p.as_str()) {
                let set = self.kids.value_at(i);
                let kept = self.keep_known(set);
                fresh.insert(p.clone(), kept);
                assert(fresh@ =~= pruned(kids.restrict(then), live));
            } else {
                assert(fresh@ =~= pruned(kids.restrict(then), live));
            }
        }
        assert(ks.take(n as int) =~= ks);
        assert(kids.restrict(ks.to_set()) =~= kids);
        self.kids = fresh;
    }

    /// The pairs of the set whose id is known.
    fn keep_known(&self, set: &NameSet) -> (r: NameSet)
        ensures
            r@ == set@.filter(|e: (Seq<char>, Seq<char>)| self.nodes@.dom().contains(e.1)),
    {
        let mut r = NameSet::new();
        let n = set.len();
        let ghost q = set.listed();
        let ghost known = |e: (Seq<char>, Seq<char>)| self.nodes@.dom().contains(e.1);
        for i in 0..n
            invariant
                n == q.len(),
                q == set.listed(),
                known == (|e: (Seq<char>, Seq<char>)| self.nodes@.dom().contains(e.1)),
                r@ == q.take(i as int).to_set().filter(known),
        {
            assert(q.take(i + 1) =~= q.take(i as int).push(q[i as int]));
            proof {
                q.take(i as int).lemma_push_to_set_commute(q[i as int]);
            }
            if self.nodes.contains_key(set.id_at(i).as_str()) {
                r.insert(set.name_at(i).clone(), set.id_at(i).clone());
            }
            assert(r@ =~= q.take(i + 1).to_set().filter(known));
        }
        assert(q.take(n as int) =~= q);
        r
    }

    /// Insert or update a node at `path` without a Graph id (write-through
    /// fallback when the mutation response could not be parsed).
    pub fn upsert_at_path(&mut self, path: &str, meta: ItemMeta) -> (r: bool)
        ensures
            (final(self)@, r) == upserted(old(self)@, path@, meta@),
    {
        if let Some(id) = self.resolve(path) {
            if let Some(node) = self.nodes.remove(id.as_str()) {
                let ghost was = node@;
                self.nodes.insert(id, Node { parent: node.parent, name: node.name, meta });
                assert(self@.nodes =~= upserted(old(self)@, path@, meta@).0.nodes);
                return true;
            } else {
                assert(self@.nodes =~= old(self)@.nodes);
            }
        }
        let name = last_segment(path);
        if name.as_str().is_empty() {
            return false;
        }
        let parent = match self.resolve(parent_path(path).as_str()) {
            Some(p) => p,
            None => {
                return false;
            },
        };
        let id = "local:".to_owned().concat(path);
        self.apply(
            DeltaItem {
                id,
                parent_id: Some(parent),
                name,
                deleted: false,
                is_root: false,
                meta,
            },
        );
        true
    }

    /// Removes what is at `path`, with everything below it.
    pub fn remove_at_path(&mut self, path: &str) -> (r: bool)
        ensures
            (final(self)@, r) == removed_at(old(self)@, path@),
    {
        match self.resolve(path) {
            Some(id) => {
                self.remove(id.as_str());
                true
            },
            None => false,
        }
    }

    /// Moves what is at `from` to `to`.
    pub fn move_at_path(&mut self, from: &str, to: &str) -> (r: bool)
        ensures
            (final(self)@, r) == relocated(old(self)@, from@, to@),
    {
        let id = match self.resolve(from) {
            Some(id) => id,
            None => {
                return false;
            },
        };
        let meta = match self.nodes.get(id.as_str()) {
            Some(node) => node.meta.duplicate(),
            None => {
                return false;
            },
        };
        let name = last_segment(to);
        if name.as_str().is_empty() {
            return false;
        }
        let parent = match self.resolve(parent_path(to).as_str()) {
            Some(p) => p,
            None => {
                return false;
            },
        };
        self.apply(
            DeltaItem {
                id,
                parent_id: Some(parent),
                name,
                deleted: false,
                is_root: false,
                meta,
            },
        );
        true
    }
}

/// The lists of the ids in `live`, restricted to the ids in `live`.
pub open spec fn pruned(
    kids: Map<Seq<char>, Set<(Seq<char>, Seq<char>)>>,
    live: Set<Seq<char>>,
) -> Map<Seq<char>, Set<(Seq<char>, Seq<char>)>> {
    Map::new(
        |p: Seq<char>| kids.dom().contains(p) && live.contains(p),
        |p: Seq<char>| kids[p].filter(|e: (Seq<char>, Seq<char>)| live.contains(e.1)),
    )
}

/// The name/id pairs of a list.
pub open spec fn pairs_of(v: Seq<(String, Id)>) -> Seq<(Seq<char>, Seq<char>)> {
    v.map_values(|e: (String, Id)| (e.0@, e.1@))
}

/// A walk that fails on a prefix of the names fails.
proof fn lemma_walk_stuck(
    kids: Map<Seq<char>, Set<(Seq<char>, Seq<char>)>>,
    top: Seq<char>,
    names: Seq<Seq<char>>,
    k: int,
)
    requires
        0 <= k <= names.len(),
        walk(kids, top, names.take(k)) is None,
    ensures
        walk(kids, top, names) is None,
    decreases names.len() - k,
{
    if k < names.len() {
        assert(names.take(k + 1).drop_last() =~= names.take(k));
        lemma_walk_stuck(kids, top, names, k + 1);
    } else {
        assert(names.take(k) =~= names);
    }
}

/// The folder part of a path.
pub fn parent_path(path: &str) -> (r: String)
    ensures
        r@ == parent_of_path(path@),
{
    let t = trim_end_of(path, '/');
    let cs = chars_of(t.as_str());
    match find_last(&cs, '/') {
        Some(i) => {
            if i == 0 {
                let mut r = String::new();
                r.push('/');
                r
            } else {
                assert(cs@.subrange(0, i as int) =~= cs@.take(i as int));
                text_of(&cs, 0, i)
            }
        },
        None => {
            let mut r = String::new();
            r.push('/');
            r
        },
    }
}

/// The part of a path after its last separator.
pub fn last_segment(path: &str) -> (r: String)
    ensures
        r@ == last_of_path(path@),
{
    let t = trim_end_of(path, '/');
    let cs = chars_of(t.as_str());
    match find_last(&cs, '/') {
        Some(i) => text_of(&cs, i + 1, cs.len()),
        None => t,
    }
}

/// The path with empty segments and trailing separators dropped.
pub fn normalize_path(path: &str) -> (r: String)
    ensures
        r@ == path_text(segments(path@)),
{
    let segs = path_segments(path);
    make_path(&segs)
}

} // verus!
