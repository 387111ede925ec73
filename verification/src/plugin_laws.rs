//! Laws of the answers to the desktop plugin: what a search finds, what the
//! status says, and what a tree shows.
use vstd::prelude::*;
use vstd::utf8::*;
use crate::api::{
    folders_of, found, graph_folders_of, hits_json, is_hit, lookup_json, param, param_in,
    search_json, searched, shown, status_json, tree_next, TreeActionView, TreeStep,
};
use crate::api_laws::{law_search_is_bounded, law_search_order, may_precede};
use crate::dav::child_href;
use crate::format::ChildView;
use crate::graph::{item_views, GraphItem, ItemView};
use crate::index::{located, Index, IndexView};
use crate::json::{json_text, json_view, JsonView};
use crate::path_laws::{lemma_split_joined, lemma_split_one};
use crate::snapshot::{Lookup, LookupView};
use crate::sync::{json_response, SnapshotStats};
use crate::sync_stats::SyncStats;
use crate::text::{
    decimal, first_pos, lemma_first_pos, lowercase, path_text, segments, split_on, text_lt,
    trim_both,
};
use crate::text_laws::{law_contains, law_trim_both, only};
use crate::xml::decoded_or_raw;

verus! {

/// Whether a search for `q` should find the node: it stands below a parent, it
/// has a path, and its name has `q` in it, whatever the case of the letters.
pub open spec fn should_be_found(s: IndexView, q: Seq<char>, id: Seq<char>) -> bool {
    &&& s.nodes.dom().contains(id)
    &&& s.nodes[id].parent is Some
    &&& located(s, id) is Some
    &&& exists|a: Seq<char>, b: Seq<char>|
        lowercase(s.nodes[id].name) == #[trigger] (a + lowercase(q) + b)
}

/// What a search says of a node.
pub open spec fn result_for(s: IndexView, id: Seq<char>) -> JsonView {
    JsonView::Object(
        map![
            "path"@ => JsonView::Text(located(s, id)->0),
            "name"@ => JsonView::Text(s.nodes[id].name),
            "isDir"@ => JsonView::Bool(s.nodes[id].meta.is_dir),
            "size"@ => JsonView::Number(decimal(s.nodes[id].meta.size as nat)),
            "mtime"@ => JsonView::Number(decimal(s.nodes[id].meta.mtime as nat)),
        ],
    )
}

/// Whether these are the nodes that a search for `q` should find, each once:
/// folders before files, and each kind by path.
pub open spec fn all_found(s: IndexView, q: Seq<char>, ids: Seq<Seq<char>>) -> bool {
    &&& ids.no_duplicates()
    &&& forall|id: Seq<char>| #[trigger] ids.contains(id) <==> should_be_found(s, q, id)
    &&& forall|i: int, j: int|
        0 <= i < j < ids.len() ==> {
            let a = #[trigger] ids[i];
            let b = #[trigger] ids[j];
            &&& s.nodes[b].meta.is_dir ==> s.nodes[a].meta.is_dir
            &&& s.nodes[a].meta.is_dir == s.nodes[b].meta.is_dir ==> !text_lt(
                located(s, b)->0,
                located(s, a)->0,
            )
        }
}

/// The answer of a search that found the nodes: at most a hundred of them, and
/// whether there are more.
pub open spec fn search_answer(s: IndexView, q: Seq<char>, ids: Seq<Seq<char>>) -> JsonView {
    JsonView::Object(
        map![
            "ok"@ => JsonView::Bool(true),
            "ready"@ => JsonView::Bool(true),
            "query"@ => JsonView::Text(q),
            "truncated"@ => JsonView::Bool(ids.len() > 100),
            "results"@ => JsonView::List(
                Seq::new(
                    if ids.len() > 100 {
                        100
                    } else {
                        ids.len()
                    },
                    |i: int| result_for(s, ids[i]),
                ),
            ),
        ],
    )
}

proof fn lemma_hit(s: IndexView, q: Seq<char>, id: Seq<char>)
    ensures
        is_hit(s, lowercase(q), id) <==> should_be_found(s, q, id),
{
    law_contains(lowercase(s.nodes[id].name), lowercase(q));
}

/// A search for at least two characters answers with the nodes whose name has
/// them in it, and with no others; a shorter one answers with nothing.
pub proof fn law_search_finds_by_name(s: IndexView, q: Seq<char>)
    requires
        s.nodes.dom().finite(),
    ensures
        q.len() >= 2 ==> exists|ids: Seq<Seq<char>>|
            all_found(s, q, ids) && search_json(s, q) == #[trigger] search_answer(s, q, ids),
        q.len() < 2 ==> search_json(s, q) == search_answer(s, q, Seq::empty()),
{
    let none = Seq::<Seq<char>>::empty();
    if q.len() < 2 {
        let rs = Seq::new(
            if none.len() > 100 {
                100
            } else {
                none.len()
            },
            |i: int| result_for(s, none[i]),
        );
        assert(rs =~= Seq::<JsonView>::empty());
    } else {
        let needle = lowercase(q);
        let es = found(s, needle);
        let ids = es.map_values(|e: (Seq<char>, Seq<char>)| e.1);
        law_search_order(s, needle);
        law_search_is_bounded(es);
        assert forall|i: int| 0 <= i < es.len() implies #[trigger] ids[i] == es[i].1
            && should_be_found(s, q, ids[i]) && located(s, ids[i]) == Some(es[i].0) by {
            lemma_hit(s, q, es[i].1);
        }
        assert forall|id: Seq<char>| #[trigger] ids.contains(id) <==> should_be_found(s, q, id) by {
            lemma_hit(s, q, id);
            if ids.contains(id) {
                let i = choose|i: int| 0 <= i < ids.len() && ids[i] == id;
                assert(should_be_found(s, q, ids[i]));
            }
            if should_be_found(s, q, id) {
                let e = (located(s, id)->0, id);
                assert(es.contains(e));
                let i = choose|i: int| 0 <= i < es.len() && es[i] == e;
                assert(ids[i] == id);
            }
        }
        assert forall|i: int, j: int| 0 <= i < j < ids.len() implies ({
            let a = #[trigger] ids[i];
            let b = #[trigger] ids[j];
            &&& a != b
            &&& s.nodes[b].meta.is_dir ==> s.nodes[a].meta.is_dir
            &&& s.nodes[a].meta.is_dir == s.nodes[b].meta.is_dir ==> !text_lt(
                located(s, b)->0,
                located(s, a)->0,
            )
        }) by {
            assert(may_precede(s, es[i], es[j]));
            assert(ids[i] == es[i].1 && ids[j] == es[j].1);
            if ids[i] == ids[j] {
                assert(es[i] == es[j]);
            }
        }
        assert(ids.no_duplicates()) by {
            assert forall|i: int, j: int|
                0 <= i < ids.len() && 0 <= j < ids.len() && i != j implies ids[i] != ids[j] by {
                if i < j {
                    assert(ids[i] != ids[j]);
                } else {
                    assert(ids[j] != ids[i]);
                }
            }
        }
        assert(all_found(s, q, ids));
        let rs = Seq::new(
            if ids.len() > 100 {
                100
            } else {
                ids.len()
            },
            |i: int| result_for(s, ids[i]),
        );
        assert(hits_json(s, shown(es)) =~= rs) by {
            assert forall|i: int| 0 <= i < rs.len() implies hits_json(s, shown(es))[i] == rs[i] by {
                assert(shown(es)[i] == es[i]);
                assert(ids[i] == es[i].1);
            }
        }
        assert(search_json(s, q) == search_answer(s, q, ids));
    }
}

/// A search request searches the index for its query, if the index is enabled
/// and there is one; else it says that there is nothing to search.
pub proof fn law_search_request(index: Index, query: Option<Seq<char>>, error: String)
    ensures
        param(query, "q"@) matches Some(q) ==> searched(true, query, Ok(Some(index)))
            == search_json(index@, q),
        param(query, "q"@) is None ==> searched(true, query, Ok(Some(index))) == search_json(
            index@,
            Seq::empty(),
        ),
        ({
            let none = JsonView::Object(
                map!["ok"@ => JsonView::Bool(true), "ready"@ => JsonView::Bool(false)],
            );
            &&& searched(false, query, Ok(Some(index))) == none
            &&& searched(true, query, Ok(None)) == none
            &&& searched(true, query, Err(error)) == none
        }),
{
}

/// A JSON answer is a success with the text of its value.
pub proof fn law_json_answer(v: JsonView)
    ensures
        json_response(v).status == 200,
        json_response(v).content_type == "application/json"@,
        json_response(v).body == encode_utf8(json_text(v)),
        json_response(v).content_length is None,
{
}

proof fn lemma_params_joined(x: Seq<Seq<char>>, y: Seq<Seq<char>>, key: Seq<char>)
    ensures
        param_in(x + y, key) == (if param_in(x, key) is Some {
            param_in(x, key)
        } else {
            param_in(y, key)
        }),
    decreases y.len(),
{
    if y.len() == 0 {
        assert(x + y =~= x);
    } else {
        lemma_params_joined(x, y.drop_last(), key);
        assert((x + y).drop_last() =~= x + y.drop_last());
        assert((x + y).last() == y.last());
    }
}

/// A parameter is the value of the first pair with its key, decoded if it can
/// be: a pair gives its value for its own key alone, a text that is no pair
/// gives nothing, and of two queries the first that has the key counts.
pub proof fn law_query_parameter(
    key: Seq<char>,
    k: Seq<char>,
    v: Seq<char>,
    a: Seq<char>,
    b: Seq<char>,
)
    requires
        !k.contains('=') && !k.contains('&') && !v.contains('&'),
    ensures
        param(Some(k + "="@ + v), key) == (if k == key {
            Some(decoded_or_raw(v))
        } else {
            None
        }),
        param(Some(k), key) is None,
        param(Some(a + "&"@ + b), key) == (if param(Some(a), key) is Some {
            param(Some(a), key)
        } else {
            param(Some(b), key)
        }),
        param(None, key) is None,
{
    reveal_strlit("=");
    reveal_strlit("&");
    let pair = k + "="@ + v;
    let i = k.len() as int;
    assert(!pair.contains('&')) by {
        assert forall|j: int| 0 <= j < pair.len() implies pair[j] != '&' by {
            if j < i {
                assert(pair[j] == k[j]);
                assert(k.contains(k[j]));
            } else if j > i {
                assert(pair[j] == v[j - i - 1]);
                assert(v.contains(v[j - i - 1]));
            }
        }
    }
    lemma_split_one(pair, '&');
    lemma_split_one(k, '&');
    lemma_first_pos(pair, '=');
    lemma_first_pos(k, '=');
    assert(pair[i] == '=');
    assert forall|j: int| 0 <= j < i implies pair[j] != '=' by {
        assert(pair[j] == k[j]);
        assert(k.contains(k[j]));
    }
    assert(first_pos(pair, '=') == Some(i));
    assert(pair.take(i) =~= k);
    assert(pair.skip(i + 1) =~= v);
    if let Some(j) = first_pos(k, '=') {
        assert(k.contains(k[j]));
    }
    reveal_with_fuel(param_in, 2);
    assert(seq![pair].drop_last() =~= Seq::<Seq<char>>::empty());
    assert(seq![k].drop_last() =~= Seq::<Seq<char>>::empty());
    assert(a + "&"@ + b =~= a.push('&') + b);
    lemma_split_joined(a, '&', b);
    lemma_params_joined(split_on(a, '&'), split_on(b, '&'), key);
}

/// The status says whether there is an index and a snapshot of it, what the
/// snapshot holds, and what the last tick did.
pub proof fn law_status(
    st: SnapshotStats,
    tick: SyncStats,
    error: String,
    stats: Result<Option<SnapshotStats>, String>,
    last_tick: Result<Option<SyncStats>, String>,
)
    ensures
        status_json(false, stats, last_tick) == JsonView::Object(
            map!["ok"@ => JsonView::Bool(true), "indexEnabled"@ => JsonView::Bool(false)],
        ),
        status_json(true, Err(error), last_tick) == JsonView::Object(
            map![
                "ok"@ => JsonView::Bool(true),
                "indexEnabled"@ => JsonView::Bool(true),
                "error"@ => JsonView::Text(error@),
            ],
        ),
        ({
            let absent = map![
                "ok"@ => JsonView::Bool(true),
                "indexEnabled"@ => JsonView::Bool(true),
                "present"@ => JsonView::Bool(false),
            ];
            let present = map![
                "ok"@ => JsonView::Bool(true),
                "indexEnabled"@ => JsonView::Bool(true),
                "present"@ => JsonView::Bool(true),
                "crawlComplete"@ => JsonView::Bool(st.meta.crawl_complete),
                "hasToken"@ => JsonView::Bool(st.meta.delta_token is Some),
                "generation"@ => JsonView::Number(decimal(st.meta.generation as nat)),
                "builtAt"@ => JsonView::Number(decimal(st.meta.built_at as nat)),
                "totalDirs"@ => JsonView::Number(decimal(st.total_dirs as nat)),
                "totalFiles"@ => JsonView::Number(decimal(st.total_files as nat)),
                "pendingNextLink"@ => JsonView::Bool(st.meta.pending_next_link is Some),
            ];
            let done = JsonView::Object(
                map![
                    "applied"@ => JsonView::Number(decimal(tick.applied as nat)),
                    "pages"@ => JsonView::Number(decimal(tick.pages as nat)),
                    "complete"@ => JsonView::Bool(tick.complete),
                    "durationMs"@ => JsonView::Number(decimal(tick.duration_ms as nat)),
                    "resync"@ => JsonView::Bool(tick.resync),
                    "itemsPerSec"@ => json_view(tick.items_per_sec),
                    "at"@ => JsonView::Number(decimal(tick.at as nat)),
                ],
            );
            &&& status_json(true, Ok(None), Ok(None)) == JsonView::Object(absent)
            &&& status_json(true, Ok(None), Err(error)) == JsonView::Object(absent)
            &&& status_json(true, Ok(None), Ok(Some(tick))) == JsonView::Object(
                absent.insert("lastTick"@, done),
            )
            &&& status_json(true, Ok(Some(st)), Ok(None)) == JsonView::Object(present)
            &&& status_json(true, Ok(Some(st)), Err(error)) == JsonView::Object(present)
            &&& status_json(true, Ok(Some(st)), Ok(Some(tick))) == JsonView::Object(
                present.insert("lastTick"@, done),
            )
        }),
{
}

/// The path of a child of a folder, whatever separators stand around the path of
/// the folder.
pub proof fn law_child_path(a: Seq<char>, t: Seq<char>, b: Seq<char>, name: Seq<char>)
    requires
        only(a, '/'),
        only(b, '/'),
        t.len() > 0 ==> t[0] != '/' && t.last() != '/',
    ensures
        child_href(a + t + b, name) == (if t.len() == 0 {
            "/"@ + name
        } else {
            a + t + "/"@ + name
        }),
{
    law_trim_both(a, t, b, '/');
}

/// What a tree shows of a folder in it.
pub open spec fn branch(
    folder: Seq<char>,
    name: Seq<char>,
    size: u64,
    mtime: u64,
    etag: Seq<char>,
) -> JsonView {
    JsonView::Object(
        map![
            "name"@ => JsonView::Text(name),
            "path"@ => JsonView::Text(child_href(folder, name)),
            "isDir"@ => JsonView::Bool(true),
            "size"@ => JsonView::Number(decimal(size as nat)),
            "mtime"@ => JsonView::Number(decimal(mtime as nat)),
            "etag"@ => JsonView::Text(etag),
        ],
    )
}

proof fn lemma_folders(path: Seq<char>, cs: Seq<ChildView>)
    ensures
        folders_of(path, cs) == cs.filter(|c: ChildView| c.is_dir).map_values(
            |c: ChildView| branch(path, c.name, c.size, c.mtime, c.etag),
        ),
    decreases cs.len(),
{
    reveal(Seq::filter);
    let keep = |c: ChildView| c.is_dir;
    let f = |c: ChildView| branch(path, c.name, c.size, c.mtime, c.etag);
    if cs.len() > 0 {
        lemma_folders(path, cs.drop_last());
    }
    assert(folders_of(path, cs) =~= cs.filter(keep).map_values(f));
}

proof fn lemma_graph_folders(path: Seq<char>, cs: Seq<ItemView>)
    ensures
        graph_folders_of(path, cs) == cs.filter(|c: ItemView| c.is_dir).map_values(
            |c: ItemView| branch(path, c.name, c.size, c.last_modified, c.etag),
        ),
    decreases cs.len(),
{
    reveal(Seq::filter);
    let keep = |c: ItemView| c.is_dir;
    let f = |c: ItemView| branch(path, c.name, c.size, c.last_modified, c.etag);
    if cs.len() > 0 {
        lemma_graph_folders(path, cs.drop_last());
    }
    assert(graph_folders_of(path, cs) =~= cs.filter(keep).map_values(f));
}

/// What a tree shows at a path: the path without needless separators, and what
/// is known of the item there, under no name if it is the root.
pub open spec fn tree_at(
    path: Seq<char>,
    name: Seq<char>,
    is_dir: bool,
    size: u64,
    mtime: u64,
    etag: Seq<char>,
    source: Seq<char>,
    children: Seq<JsonView>,
) -> JsonView {
    JsonView::Object(
        map![
            "ok"@ => JsonView::Bool(true),
            "path"@ => JsonView::Text(path_text(segments(path))),
            "name"@ => JsonView::Text(
                if is_dir && trim_both(path, '/').len() == 0 {
                    Seq::empty()
                } else {
                    name
                },
            ),
            "isDir"@ => JsonView::Bool(is_dir),
            "size"@ => JsonView::Number(decimal(size as nat)),
            "mtime"@ => JsonView::Number(decimal(mtime as nat)),
            "etag"@ => JsonView::Text(etag),
            "source"@ => JsonView::Text(source),
            "children"@ => JsonView::List(children),
        ],
    )
}

/// A tree shows what the snapshot has at the path, with the folders among the
/// children and with no files.
pub proof fn law_tree_from_snapshot(path: Seq<char>, info: ChildView, children: Seq<ChildView>)
    ensures
        lookup_json(path, LookupView::Dir { info, children }, "index"@) == tree_at(
            path,
            info.name,
            true,
            info.size,
            info.mtime,
            info.etag,
            "index"@,
            children.filter(|c: ChildView| c.is_dir).map_values(
                |c: ChildView| branch(path, c.name, c.size, c.mtime, c.etag),
            ),
        ),
        lookup_json(path, LookupView::File(info), "index"@) == tree_at(
            path,
            info.name,
            false,
            info.size,
            info.mtime,
            info.etag,
            "index"@,
            Seq::empty(),
        ),
{
    lemma_folders(path, children);
}

/// A tree shows what Graph says of the path, with the folders among the children
/// and with no files.
pub proof fn law_tree_from_graph(
    enabled: bool,
    query: Option<Seq<char>>,
    path: String,
    item: GraphItem,
    children: Vec<GraphItem>,
)
    ensures
        item@.is_dir ==> tree_next(
            enabled,
            query,
            TreeStep::Children { path, folder: item, children: Ok(children) },
        ) == TreeActionView::Respond(
            json_response(
                tree_at(
                    path@,
                    item@.name,
                    true,
                    item@.size,
                    item@.last_modified,
                    item@.etag,
                    "graph"@,
                    item_views(children@).filter(|c: ItemView| c.is_dir).map_values(
                        |c: ItemView| branch(path@, c.name, c.size, c.last_modified, c.etag),
                    ),
                ),
            ),
        ),
        !item@.is_dir && trim_both(path@, '/').len() > 0 ==> tree_next(
            enabled,
            query,
            TreeStep::Item { path, item: Ok(item) },
        ) == TreeActionView::Respond(
            json_response(
                tree_at(
                    path@,
                    item@.name,
                    false,
                    item@.size,
                    item@.last_modified,
                    item@.etag,
                    "graph"@,
                    Seq::empty(),
                ),
            ),
        ),
        item@.is_dir ==> (tree_next(enabled, query, TreeStep::Item { path, item: Ok(item) }) matches
            TreeActionView::List { path: p, folder } && p == path@ && folder == item@),
{
    lemma_graph_folders(path@, item_views(children@));
}

/// A tree request is for its `path` parameter, or for the root. It is answered
/// from the snapshot if there is one that knows the path, else from Graph, and
/// failures are told as what they are.
pub proof fn law_tree_steps(
    enabled: bool,
    query: Option<Seq<char>>,
    path: String,
    hit: Lookup,
    folder: GraphItem,
    error: String,
)
    ensures
        param(query, "path"@) matches Some(p) ==> tree_next(enabled, query, TreeStep::Start)
            == TreeActionView::Check(p),
        param(query, "path"@) is None ==> tree_next(enabled, query, TreeStep::Start)
            == TreeActionView::Check("/"@),
        tree_next(enabled, query, TreeStep::Checked(Err(error))) matches TreeActionView::Respond(r)
            && crate::answer_laws::says(r, 400, error@),
        tree_next(true, query, TreeStep::Checked(Ok(path))) matches TreeActionView::LookUp {
            path: p,
        } && p == path@,
        tree_next(false, query, TreeStep::Checked(Ok(path))) matches TreeActionView::Stat { path: p }
            && p == path@,
        tree_next(enabled, query, TreeStep::LookedUp { path, hit: Ok(Some(hit)) })
            == TreeActionView::Respond(json_response(lookup_json(path@, hit@, "index"@))),
        tree_next(enabled, query, TreeStep::LookedUp { path, hit: Ok(None) }) matches
            TreeActionView::Stat { path: p } && p == path@,
        tree_next(enabled, query, TreeStep::LookedUp { path, hit: Err(error) }) matches
            TreeActionView::Stat { path: p } && p == path@,
        error@ == "not found"@ ==> (tree_next(
            enabled,
            query,
            TreeStep::Item { path, item: Err(error) },
        ) matches TreeActionView::Respond(r) && crate::answer_laws::says(r, 404, "not found"@)),
        error@ != "not found"@ ==> (tree_next(
            enabled,
            query,
            TreeStep::Item { path, item: Err(error) },
        ) matches TreeActionView::Respond(r) && crate::answer_laws::says(r, 502, error@)),
        error@ == "not found"@ ==> (tree_next(
            enabled,
            query,
            TreeStep::Children { path, folder, children: Err(error) },
        ) matches TreeActionView::Respond(r) && crate::answer_laws::says(r, 404, "not found"@)),
        error@ != "not found"@ ==> (tree_next(
            enabled,
            query,
            TreeStep::Children { path, folder, children: Err(error) },
        ) matches TreeActionView::Respond(r) && crate::answer_laws::says(r, 502, error@)),
{
}

} // verus!
