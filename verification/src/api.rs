//! Authenticated JSON endpoints for the desktop plugin: the answers, given
//! what was read from disk or from Graph.
use serde_json::Value;
use vstd::prelude::*;
use vstd::string::*;
use vstd::utf8::*;
use crate::dav::{child_href, make_child_href, text_response, DavResponse, DavView};
use crate::format::{child_views, ChildView};
use crate::graph::{item_views, GraphItem, ItemView};
use crate::index::{located, normalize_path, Index, IndexView};
use crate::json::{
    json_array, json_bool, json_copy, json_object, json_set, json_string, json_uint, json_view,
    json_views, JsonView,
};
use crate::snapshot::{Lookup, LookupView};
use crate::sync::{json_ok, json_response, SnapshotStats};
use crate::sync_stats::SyncStats;
use crate::text::{
    chars_of, contains, contains_text, decimal, find_first, first_pos, lowercase, opt_str, opt_text,
    path_text, segments, split_on, split_text, text_eq, text_of, texts, to_lower, trim_both,
    trim_both_of,
};
use crate::textmap::{in_order, NameSet};
use crate::xml::{decode_or_keep, decoded_or_raw};

verus! {

/// Most results of a search.
pub const SEARCH_MAX_RESULTS: usize = 100;

/// Fewest characters of a search query.
pub const SEARCH_MIN_QUERY_LEN: usize = 2;

/// The value of a `key=value` pair, if it has the key.
pub open spec fn pair_value(pair: Seq<char>, key: Seq<char>) -> Option<Seq<char>> {
    match first_pos(pair, '=') {
        Some(i) => if pair.take(i) == key {
            Some(decoded_or_raw(pair.skip(i + 1)))
        } else {
            None
        },
        None => None,
    }
}

/// The value of the first pair with the key.
pub open spec fn param_in(pairs: Seq<Seq<char>>, key: Seq<char>) -> Option<Seq<char>>
    decreases pairs.len(),
{
    if pairs.len() == 0 {
        None
    } else if param_in(pairs.drop_last(), key) is Some {
        param_in(pairs.drop_last(), key)
    } else {
        pair_value(pairs.last(), key)
    }
}

/// The value of a query parameter.
pub open spec fn param(query: Option<Seq<char>>, key: Seq<char>) -> Option<Seq<char>> {
    match query {
        Some(q) => param_in(split_on(q, '&'), key),
        None => None,
    }
}

proof fn lemma_param_stays(pairs: Seq<Seq<char>>, key: Seq<char>, k: int)
    requires
        0 <= k <= pairs.len(),
        param_in(pairs.take(k), key) is Some,
    ensures
        param_in(pairs, key) == param_in(pairs.take(k), key),
    decreases pairs.len() - k,
{
    if k < pairs.len() {
        assert(pairs.take(k + 1).drop_last() =~= pairs.take(k));
        lemma_param_stays(pairs, key, k + 1);
    } else {
        assert(pairs.take(k) =~= pairs);
    }
}

fn value_of_pair(pair: &str, key: &str) -> (r: Option<String>)
    ensures
        opt_text(r) == pair_value(pair@, key@),
{
    let cs = chars_of(pair);
    match find_first(&cs, '=') {
        None => None,
        Some(i) => {
            let k = text_of(&cs, 0, i);
            let v = text_of(&cs, i + 1, cs.len());
            assert(k@ =~= pair@.take(i as int));
            assert(v@ =~= pair@.skip(i + 1));
            if !text_eq(k.as_str(), key) {
                return None;
            }
            Some(decode_or_keep(v))
        },
    }
}

/// Reads a query parameter: the first one with the key, percent-decoded.
pub fn query_param(query: Option<&str>, key: &str) -> (r: Option<String>)
    ensures
        opt_text(r) == param(opt_str(query), key@),
{
    let q = match query {
        Some(q) => q,
        None => {
            return None;
        },
    };
    let pairs = split_text(q, '&');
    let ghost all = texts(pairs@);
    for i in 0..pairs.len()
        invariant
            all == texts(pairs@),
            all == split_on(q@, '&'),
            opt_str(query) == Some(q@),
            param_in(all.take(i as int), key@) is None,
    {
        assert(all.take(i + 1).drop_last() =~= all.take(i as int));
        assert(all.take(i + 1).last() == pairs@[i as int]@);
        if let Some(v) = value_of_pair(pairs[i].as_str(), key) {
            proof {
                lemma_param_stays(all, key@, i + 1);
            }
            return Some(v);
        }
    }
    assert(all.take(pairs@.len() as int) =~= all);
    None
}

/// The path of a child of the folder at `parent`.
pub fn join_child_path(parent: &str, name: &str) -> (r: String)
    ensures
        r@ == child_href(parent@, name@),
{
    make_child_href(parent, name)
}

/// The JSON number for `n`.
pub open spec fn number(n: u64) -> JsonView {
    JsonView::Number(decimal(n as nat))
}

/// The last tick as the status shows it.
pub open spec fn tick_json(tick: SyncStats) -> JsonView {
    JsonView::Object(
        Map::empty().insert("applied"@, number(tick.applied)).insert(
            "pages"@,
            number(tick.pages),
        ).insert("complete"@, JsonView::Bool(tick.complete)).insert(
            "durationMs"@,
            number(tick.duration_ms),
        ).insert("resync"@, JsonView::Bool(tick.resync)).insert(
            "itemsPerSec"@,
            json_view(tick.items_per_sec),
        ).insert("at"@, number(tick.at)),
    )
}

/// The members that the status has in any case.
pub open spec fn status_base(present: bool) -> Map<Seq<char>, JsonView> {
    Map::empty().insert("ok"@, JsonView::Bool(true)).insert(
        "indexEnabled"@,
        JsonView::Bool(true),
    ).insert("present"@, JsonView::Bool(present))
}

/// The members of the status that describe the snapshot.
pub open spec fn status_meta(base: Map<Seq<char>, JsonView>, stats: SnapshotStats) -> Map<
    Seq<char>,
    JsonView,
> {
    base.insert("crawlComplete"@, JsonView::Bool(stats.meta.crawl_complete)).insert(
        "hasToken"@,
        JsonView::Bool(stats.meta.delta_token is Some),
    ).insert("generation"@, number(stats.meta.generation)).insert(
        "builtAt"@,
        number(stats.meta.built_at),
    ).insert("totalDirs"@, number(stats.total_dirs)).insert(
        "totalFiles"@,
        number(stats.total_files),
    ).insert("pendingNextLink"@, JsonView::Bool(stats.meta.pending_next_link is Some))
}

/// The status of the index.
pub open spec fn status_json(
    index_enabled: bool,
    stats: Result<Option<SnapshotStats>, String>,
    last_tick: Result<Option<SyncStats>, String>,
) -> JsonView {
    if !index_enabled {
        JsonView::Object(
            Map::empty().insert("ok"@, JsonView::Bool(true)).insert(
                "indexEnabled"@,
                JsonView::Bool(false),
            ),
        )
    } else {
        match stats {
            Err(e) => JsonView::Object(
                Map::empty().insert("ok"@, JsonView::Bool(true)).insert(
                    "indexEnabled"@,
                    JsonView::Bool(true),
                ).insert("error"@, JsonView::Text(e@)),
            ),
            Ok(stats) => {
                let base = status_base(stats is Some);
                let with_meta = match stats {
                    Some(st) => status_meta(base, st),
                    None => base,
                };
                match last_tick {
                    Ok(Some(tick)) => JsonView::Object(
                        with_meta.insert("lastTick"@, tick_json(tick)),
                    ),
                    _ => JsonView::Object(with_meta),
                }
            },
        }
    }
}

fn make_tick_json(tick: &SyncStats) -> (r: Value)
    ensures
        json_view(r) == tick_json(*tick),
{
    let o = json_object();
    let o = json_set(o, "applied", json_uint(tick.applied));
    let o = json_set(o, "pages", json_uint(tick.pages));
    let o = json_set(o, "complete", json_bool(tick.complete));
    let o = json_set(o, "durationMs", json_uint(tick.duration_ms));
    let o = json_set(o, "resync", json_bool(tick.resync));
    let o = json_set(o, "itemsPerSec", json_copy(&tick.items_per_sec));
    json_set(o, "at", json_uint(tick.at))
}

fn add_meta(o: Value, st: &SnapshotStats) -> (r: Value)
    requires
        json_view(o) is Object,
    ensures
        json_view(r) == JsonView::Object(status_meta(json_view(o)->Object_0, *st)),
{
    let o = json_set(o, "crawlComplete", json_bool(st.meta.crawl_complete));
    let o = json_set(o, "hasToken", json_bool(st.meta.delta_token.is_some()));
    let o = json_set(o, "generation", json_uint(st.meta.generation));
    let o = json_set(o, "builtAt", json_uint(st.meta.built_at));
    let o = json_set(o, "totalDirs", json_uint(st.total_dirs));
    let o = json_set(o, "totalFiles", json_uint(st.total_files));
    json_set(o, "pendingNextLink", json_bool(st.meta.pending_next_link.is_some()))
}

/// Answers with the status of the index. What is read from disk matters only
/// if the index is enabled; a last tick that cannot be read is left out.
pub fn status(
    index_enabled: bool,
    stats: Result<Option<SnapshotStats>, String>,
    last_tick: Result<Option<SyncStats>, String>,
) -> (r: DavResponse)
    ensures
        r@ == json_response(status_json(index_enabled, stats, last_tick)),
{
    let o = json_set(json_object(), "ok", json_bool(true));
    let o = json_set(o, "indexEnabled", json_bool(index_enabled));
    if !index_enabled {
        return json_ok(&o);
    }
    let stats = match stats {
        Ok(stats) => stats,
        Err(e) => {
            let o = json_set(o, "error", json_string(e.as_str()));
            return json_ok(&o);
        },
    };
    let o = json_set(o, "present", json_bool(stats.is_some()));
    let o = match &stats {
        Some(st) => add_meta(o, st),
        None => o,
    };
    match last_tick {
        Ok(Some(tick)) => {
            let o = json_set(o, "lastTick", make_tick_json(&tick));
            json_ok(&o)
        },
        _ => json_ok(&o),
    }
}

/// Whether the node is one that a search finds: below a parent, with a path,
/// and with the text in its name, whatever the case.
pub open spec fn is_hit(s: IndexView, needle: Seq<char>, id: Seq<char>) -> bool {
    s.nodes.dom().contains(id) && s.nodes[id].parent is Some && contains_text(
        lowercase(s.nodes[id].name),
        needle,
    ) && located(s, id) is Some
}

/// The paths and ids of the folders, or of the files, that a search finds.
pub open spec fn hits(s: IndexView, needle: Seq<char>, dirs: bool) -> Set<(Seq<char>, Seq<char>)> {
    Set::new(
        |e: (Seq<char>, Seq<char>)|
            is_hit(s, needle, e.1) && located(s, e.1) == Some(e.0) && s.nodes[e.1].meta.is_dir
                == dirs,
    )
}

/// Everything that a search finds: folders first, then files, each by path.
pub open spec fn found(s: IndexView, needle: Seq<char>) -> Seq<(Seq<char>, Seq<char>)> {
    in_order(hits(s, needle, true)) + in_order(hits(s, needle, false))
}

/// One result of a search.
pub open spec fn hit_json(s: IndexView, e: (Seq<char>, Seq<char>)) -> JsonView {
    JsonView::Object(
        Map::empty().insert("path"@, JsonView::Text(e.0)).insert(
            "name"@,
            JsonView::Text(s.nodes[e.1].name),
        ).insert("isDir"@, JsonView::Bool(s.nodes[e.1].meta.is_dir)).insert(
            "size"@,
            number(s.nodes[e.1].meta.size),
        ).insert("mtime"@, number(s.nodes[e.1].meta.mtime)),
    )
}

/// The results of a search.
pub open spec fn hits_json(s: IndexView, es: Seq<(Seq<char>, Seq<char>)>) -> Seq<JsonView> {
    es.map_values(|e: (Seq<char>, Seq<char>)| hit_json(s, e))
}

/// The first results, as many as are given out.
pub open spec fn shown(es: Seq<(Seq<char>, Seq<char>)>) -> Seq<(Seq<char>, Seq<char>)> {
    if es.len() > SEARCH_MAX_RESULTS {
        es.take(SEARCH_MAX_RESULTS as int)
    } else {
        es
    }
}

/// The answer to a search.
pub open spec fn answer_json(q: Seq<char>, truncated: bool, results: Seq<JsonView>) -> JsonView {
    JsonView::Object(
        Map::empty().insert("ok"@, JsonView::Bool(true)).insert(
            "ready"@,
            JsonView::Bool(true),
        ).insert("query"@, JsonView::Text(q)).insert(
            "truncated"@,
            JsonView::Bool(truncated),
        ).insert("results"@, JsonView::List(results)),
    )
}

/// The answer to a search in the index: nothing for a query that is too
/// short.
pub open spec fn search_json(s: IndexView, q: Seq<char>) -> JsonView {
    if q.len() < SEARCH_MIN_QUERY_LEN {
        answer_json(q, false, Seq::empty())
    } else {
        let es = found(s, lowercase(q));
        answer_json(q, es.len() > SEARCH_MAX_RESULTS, hits_json(s, shown(es)))
    }
}

/// Collects the folders and the files that a search finds.
fn collect_hits(index: &Index, needle: &str) -> (r: (NameSet, NameSet))
    ensures
        r.0@ == hits(index@, needle@, true),
        r.1@ == hits(index@, needle@, false),
{
    let mut dirs = NameSet::new();
    let mut files = NameSet::new();
    let n = index.nodes.len();
    let ghost ks = index.nodes.keys();
    let ghost s = index@;
    let ghost want_dirs = hits(s, needle@, true);
    let ghost want_files = hits(s, needle@, false);
    for i in 0..n
        invariant
            n == ks.len(),
            ks == index.nodes.keys(),
            s == index@,
            want_dirs == hits(s, needle@, true),
            want_files == hits(s, needle@, false),
            forall|e: (Seq<char>, Seq<char>)| #[trigger]
                dirs@.contains(e) <==> want_dirs.contains(e) && ks.take(i as int).contains(e.1),
            forall|e: (Seq<char>, Seq<char>)| #[trigger]
                files@.contains(e) <==> want_files.contains(e) && ks.take(i as int).contains(e.1),
    {
        let id = index.nodes.key_at(i);
        let node = index.nodes.value_at(i);
        let ghost old_dirs = dirs@;
        let ghost old_files = files@;
        let ghost now = ks.take(i as int);
        let ghost next = ks.take(i + 1);
        assert(next =~= now.push(id@));
        if node.parent.is_some() && contains(to_lower(node.name.as_str()).as_str(), needle) {
            if let Some(path) = index.path_of(id.as_str()) {
                if node.meta.is_dir {
                    dirs.insert(path, id.clone());
                } else {
                    files.insert(path, id.clone());
                }
            }
        }
        assert forall|e: (Seq<char>, Seq<char>)| #[trigger]
            dirs@.contains(e) <==> want_dirs.contains(e) && next.contains(e.1) by {
            lemma_taken(now, id@, e.1);
            assert(old_dirs.contains(e) <==> want_dirs.contains(e) && now.contains(e.1));
        }
        assert forall|e: (Seq<char>, Seq<char>)| #[trigger]
            files@.contains(e) <==> want_files.contains(e) && next.contains(e.1) by {
            lemma_taken(now, id@, e.1);
            assert(old_files.contains(e) <==> want_files.contains(e) && now.contains(e.1));
        }
    }
    assert(ks.take(n as int) =~= ks);
    assert(dirs@ =~= want_dirs);
    assert(files@ =~= want_files);
    (dirs, files)
}

proof fn lemma_taken(now: Seq<Seq<char>>, x: Seq<char>, y: Seq<char>)
    ensures
        now.push(x).contains(y) <==> now.contains(y) || x == y,
{
    if now.contains(y) {
        let k = choose|k: int| 0 <= k < now.len() && now[k] == y;
        assert(now.push(x)[k] == y);
    }
    assert(now.push(x)[now.len() as int] == x);
}

fn make_hit_json(index: &Index, path: &str, id: &str) -> (r: Value)
    requires
        index@.nodes.dom().contains(id@),
    ensures
        json_view(r) == hit_json(index@, (path@, id@)),
{
    let node = index.nodes.get(id).unwrap();
    let o = json_set(json_object(), "path", json_string(path));
    let o = json_set(o, "name", json_string(node.name.as_str()));
    let o = json_set(o, "isDir", json_bool(node.meta.is_dir));
    let o = json_set(o, "size", json_uint(node.meta.size));
    json_set(o, "mtime", json_uint(node.meta.mtime))
}

/// Adds results from the set, in ascending order, up to the most that are
/// given out.
fn add_hits(index: &Index, set: &NameSet, results: &mut Vec<Value>)
    requires
        forall|e: (Seq<char>, Seq<char>)| #[trigger]
            set@.contains(e) ==> index@.nodes.dom().contains(e.1),
        old(results)@.len() <= SEARCH_MAX_RESULTS,
    ensures
        final(results)@.len() <= SEARCH_MAX_RESULTS,
        json_views(final(results)@) == json_views(old(results)@) + hits_json(
            index@,
            in_order(set@).take(
                if in_order(set@).len() < SEARCH_MAX_RESULTS - old(results)@.len() {
                    in_order(set@).len() as int
                } else {
                    SEARCH_MAX_RESULTS - old(results)@.len()
                },
            ),
        ),
{
    let n = set.len();
    let ghost q = in_order(set@);
    let ghost s = index@;
    let ghost start = json_views(results@);
    let room = SEARCH_MAX_RESULTS - results.len();
    let m = if n < room {
        n
    } else {
        room
    };
    assert(start + hits_json(s, q.take(0)) =~= start);
    for i in 0..m
        invariant
            m <= n,
            n == q.len(),
            q == set.listed(),
            q.to_set() == set@,
            s == index@,
            forall|e: (Seq<char>, Seq<char>)| #[trigger]
                set@.contains(e) ==> s.nodes.dom().contains(e.1),
            results@.len() + (m - i) <= SEARCH_MAX_RESULTS,
            json_views(results@) == start + hits_json(s, q.take(i as int)),
    {
        let ghost before = results@;
        assert(q.to_set().contains(q[i as int]));
        let v = make_hit_json(index, set.name_at(i).as_str(), set.id_at(i).as_str());
        results.push(v);
        assert(json_view(v) == hit_json(s, q[i as int]));
        assert(json_views(results@) =~= json_views(before).push(json_view(v)));
        assert(hits_json(s, q.take(i + 1)) =~= hits_json(s, q.take(i as int)).push(
            hit_json(s, q[i as int]),
        ));
        assert(start + hits_json(s, q.take(i + 1)) =~= (start + hits_json(
            s,
            q.take(i as int),
        )).push(hit_json(s, q[i as int])));
    }
}

fn make_answer(q: &str, truncated: bool, results: Vec<Value>) -> (r: Value)
    ensures
        json_view(r) == answer_json(q@, truncated, json_views(results@)),
{
    let o = json_set(json_object(), "ok", json_bool(true));
    let o = json_set(o, "ready", json_bool(true));
    let o = json_set(o, "query", json_string(q));
    let o = json_set(o, "truncated", json_bool(truncated));
    json_set(o, "results", json_array(results))
}

/// Searches the names in an index.
pub fn search_index(index: &Index, q: &str) -> (r: Value)
    ensures
        json_view(r) == search_json(index@, q@),
{
    let mut results: Vec<Value> = Vec::new();
    assert(json_views(results@) =~= Seq::empty());
    if chars_of(q).len() < SEARCH_MIN_QUERY_LEN {
        return make_answer(q, false, results);
    }
    let needle = to_lower(q);
    let (dirs, files) = collect_hits(index, needle.as_str());
    let ghost s = index@;
    let ghost a = in_order(dirs@);
    let ghost b = in_order(files@);
    let ghost empty = Seq::<JsonView>::empty();
    let n = dirs.len();
    let m = files.len();
    add_hits(index, &dirs, &mut results);
    let ghost first = json_views(results@);
    add_hits(index, &files, &mut results);
    let truncated = n > SEARCH_MAX_RESULTS || m > SEARCH_MAX_RESULTS - n;
    proof {
        let k = if a.len() < SEARCH_MAX_RESULTS {
            a.len() as int
        } else {
            SEARCH_MAX_RESULTS as int
        };
        let j = if b.len() < SEARCH_MAX_RESULTS - k {
            b.len() as int
        } else {
            SEARCH_MAX_RESULTS - k
        };
        assert(first =~= hits_json(s, a.take(k)));
        assert(json_views(results@) =~= hits_json(s, a.take(k)) + hits_json(s, b.take(j)));
        assert(shown(a + b) =~= a.take(k) + b.take(j));
        assert(hits_json(s, a.take(k) + b.take(j)) =~= hits_json(s, a.take(k)) + hits_json(
            s,
            b.take(j),
        ));
    }
    make_answer(q, truncated, results)
}

/// What is said when there is no index to search.
pub open spec fn not_ready() -> JsonView {
    JsonView::Object(
        Map::empty().insert("ok"@, JsonView::Bool(true)).insert("ready"@, JsonView::Bool(false)),
    )
}

/// The answer to a search request: that of the index, if there is one to search.
pub open spec fn searched(
    index_enabled: bool,
    query: Option<Seq<char>>,
    loaded: Result<Option<Index>, String>,
) -> JsonView {
    match loaded {
        Ok(Some(index)) => if index_enabled {
            search_json(
                index@,
                match param(query, "q"@) {
                    Some(q) => q,
                    None => Seq::empty(),
                },
            )
        } else {
            not_ready()
        },
        _ => not_ready(),
    }
}

/// Answers a search. What is loaded from disk matters only if the index is
/// enabled; an index that is missing or unreadable is not ready.
pub fn search(
    index_enabled: bool,
    query: Option<&str>,
    loaded: Result<Option<Index>, String>,
) -> (r: DavResponse)
    ensures
        r@ == json_response(searched(index_enabled, opt_str(query), loaded)),
{
    let q = match query_param(query, "q") {
        Some(q) => q,
        None => String::new(),
    };
    match loaded {
        Ok(Some(index)) if index_enabled => json_ok(&search_index(&index, q.as_str())),
        _ => {
            let o = json_set(json_object(), "ok", json_bool(true));
            let o = json_set(o, "ready", json_bool(false));
            json_ok(&o)
        },
    }
}

/// One folder in the list of a tree node's children.
pub open spec fn child_json(
    parent: Seq<char>,
    name: Seq<char>,
    size: u64,
    mtime: u64,
    etag: Seq<char>,
) -> JsonView {
    JsonView::Object(
        Map::empty().insert("name"@, JsonView::Text(name)).insert(
            "path"@,
            JsonView::Text(child_href(parent, name)),
        ).insert("isDir"@, JsonView::Bool(true)).insert("size"@, number(size)).insert(
            "mtime"@,
            number(mtime),
        ).insert("etag"@, JsonView::Text(etag)),
    )
}

/// A tree node.
pub open spec fn node_json(
    path: Seq<char>,
    name: Seq<char>,
    is_dir: bool,
    size: u64,
    mtime: u64,
    etag: Seq<char>,
    source: Seq<char>,
    children: Seq<JsonView>,
) -> JsonView {
    JsonView::Object(
        Map::empty().insert("ok"@, JsonView::Bool(true)).insert(
            "path"@,
            JsonView::Text(path_text(segments(path))),
        ).insert("name"@, JsonView::Text(name)).insert("isDir"@, JsonView::Bool(is_dir)).insert(
            "size"@,
            number(size),
        ).insert("mtime"@, number(mtime)).insert("etag"@, JsonView::Text(etag)).insert(
            "source"@,
            JsonView::Text(source),
        ).insert("children"@, JsonView::List(children)),
    )
}

/// The name that a tree node shows: none for the root.
pub open spec fn shown_name(path: Seq<char>, name: Seq<char>) -> Seq<char> {
    if trim_both(path, '/').len() == 0 {
        Seq::empty()
    } else {
        name
    }
}

/// The folders among the children of a looked-up folder.
pub open spec fn folders_of(path: Seq<char>, cs: Seq<ChildView>) -> Seq<JsonView>
    decreases cs.len(),
{
    if cs.len() == 0 {
        Seq::empty()
    } else if cs.last().is_dir {
        folders_of(path, cs.drop_last()).push(
            child_json(path, cs.last().name, cs.last().size, cs.last().mtime, cs.last().etag),
        )
    } else {
        folders_of(path, cs.drop_last())
    }
}

/// The folders among the children that Graph lists.
pub open spec fn graph_folders_of(path: Seq<char>, items: Seq<ItemView>) -> Seq<JsonView>
    decreases items.len(),
{
    if items.len() == 0 {
        Seq::empty()
    } else if items.last().is_dir {
        graph_folders_of(path, items.drop_last()).push(
            child_json(
                path,
                items.last().name,
                items.last().size,
                items.last().last_modified,
                items.last().etag,
            ),
        )
    } else {
        graph_folders_of(path, items.drop_last())
    }
}

/// The tree node of what was looked up.
pub open spec fn lookup_json(path: Seq<char>, hit: LookupView, source: Seq<char>) -> JsonView {
    match hit {
        LookupView::Dir { info, children } => node_json(
            path,
            shown_name(path, info.name),
            true,
            info.size,
            info.mtime,
            info.etag,
            source,
            folders_of(path, children),
        ),
        LookupView::File(info) => node_json(
            path,
            info.name,
            false,
            info.size,
            info.mtime,
            info.etag,
            source,
            Seq::empty(),
        ),
    }
}

/// The tree node of an item that Graph described.
pub open spec fn graph_json(path: Seq<char>, item: ItemView, children: Seq<JsonView>) -> JsonView {
    node_json(
        path,
        shown_name(path, item.name),
        item.is_dir,
        item.size,
        item.last_modified,
        item.etag,
        "graph"@,
        children,
    )
}

fn make_child_json(parent: &str, name: &str, size: u64, mtime: u64, etag: &str) -> (r: Value)
    ensures
        json_view(r) == child_json(parent@, name@, size, mtime, etag@),
{
    let path = join_child_path(parent, name);
    let o = json_set(json_object(), "name", json_string(name));
    let o = json_set(o, "path", json_string(path.as_str()));
    let o = json_set(o, "isDir", json_bool(true));
    let o = json_set(o, "size", json_uint(size));
    let o = json_set(o, "mtime", json_uint(mtime));
    json_set(o, "etag", json_string(etag))
}

fn make_node_json(
    path: &str,
    name: &str,
    is_dir: bool,
    size: u64,
    mtime: u64,
    etag: &str,
    source: &str,
    children: Vec<Value>,
) -> (r: Value)
    ensures
        json_view(r) == node_json(
            path@,
            name@,
            is_dir,
            size,
            mtime,
            etag@,
            source@,
            json_views(children@),
        ),
{
    let norm = normalize_path(path);
    let o = json_set(json_object(), "ok", json_bool(true));
    let o = json_set(o, "path", json_string(norm.as_str()));
    let o = json_set(o, "name", json_string(name));
    let o = json_set(o, "isDir", json_bool(is_dir));
    let o = json_set(o, "size", json_uint(size));
    let o = json_set(o, "mtime", json_uint(mtime));
    let o = json_set(o, "etag", json_string(etag));
    let o = json_set(o, "source", json_string(source));
    json_set(o, "children", json_array(children))
}

fn name_shown<'a>(path: &str, name: &'a str) -> (r: &'a str)
    ensures
        r@ == shown_name(path@, name@),
{
    let trimmed = trim_both_of(path, '/');
    if trimmed.as_str().is_empty() {
        proof {
            reveal_strlit("");
            assert(""@ =~= Seq::empty());
        }
        ""
    } else {
        name
    }
}

/// The tree node of what was looked up in a snapshot.
pub fn lookup_to_tree(path: &str, hit: &Lookup, source: &str) -> (r: Value)
    ensures
        json_view(r) == lookup_json(path@, hit@, source@),
{
    match hit {
        Lookup::File(info) => {
            let none: Vec<Value> = Vec::new();
            assert(json_views(none@) =~= Seq::empty());
            make_node_json(
                path,
                info.name.as_str(),
                false,
                info.size,
                info.mtime,
                info.etag.as_str(),
                source,
                none,
            )
        },
        Lookup::Dir { info, children } => {
            let ghost all = child_views(children@);
            let mut kids: Vec<Value> = Vec::new();
            assert(json_views(kids@) =~= Seq::empty());
            for i in 0..children.len()
                invariant
                    all == child_views(children@),
                    json_views(kids@) == folders_of(path@, all.take(i as int)),
            {
                let c = &children[i];
                let ghost before = kids@;
                assert(all.take(i + 1).drop_last() =~= all.take(i as int));
                assert(all.take(i + 1).last() == c@);
                if c.is_dir {
                    let v = make_child_json(
                        path,
                        c.name.as_str(),
                        c.size,
                        c.mtime,
                        c.etag.as_str(),
                    );
                    kids.push(v);
                    assert(json_views(kids@) =~= json_views(before).push(json_view(v)));
                }
            }
            assert(all.take(children@.len() as int) =~= all);
            make_node_json(
                path,
                name_shown(path, info.name.as_str()),
                true,
                info.size,
                info.mtime,
                info.etag.as_str(),
                source,
                kids,
            )
        },
    }
}

/// The tree node of an item that Graph described, with the folders among its
/// children.
pub fn graph_tree(path: &str, item: &GraphItem, children: &Vec<GraphItem>) -> (r: Value)
    ensures
        json_view(r) == graph_json(
            path@,
            item@,
            graph_folders_of(path@, item_views(children@)),
        ),
{
    let ghost all = item_views(children@);
    let mut kids: Vec<Value> = Vec::new();
    assert(json_views(kids@) =~= Seq::empty());
    for i in 0..children.len()
        invariant
            all == item_views(children@),
            json_views(kids@) == graph_folders_of(path@, all.take(i as int)),
    {
        let c = &children[i];
        let ghost before = kids@;
        assert(all.take(i + 1).drop_last() =~= all.take(i as int));
        assert(all.take(i + 1).last() == c@);
        if c.is_dir {
            let v = make_child_json(
                path,
                c.name.as_str(),
                c.size,
                c.last_modified,
                c.etag.as_str(),
            );
            kids.push(v);
            assert(json_views(kids@) =~= json_views(before).push(json_view(v)));
        }
    }
    assert(all.take(children@.len() as int) =~= all);
    make_node_json(
        path,
        name_shown(path, item.name.as_str()),
        item.is_dir,
        item.size,
        item.last_modified,
        item.etag.as_str(),
        "graph",
        kids,
    )
}

/// How far a tree request is.
#[derive(Debug)]
pub enum TreeStep {
    Start,
    /// The requested path was checked.
    Checked(Result<String, String>),
    /// The path was looked up in the snapshot.
    LookedUp { path: String, hit: Result<Option<Lookup>, String> },
    /// The path was looked up by Graph.
    Item { path: String, item: Result<GraphItem, String> },
    /// The children were listed by Graph.
    Children { path: String, folder: GraphItem, children: Result<Vec<GraphItem>, String> },
}

/// What to do next in a tree request.
#[derive(Debug)]
pub enum TreeAction {
    /// Check the requested path.
    Check(String),
    /// Look the path up in the snapshot.
    LookUp { path: String },
    /// Ask Graph for the item.
    Stat { path: String },
    /// Ask Graph for the children.
    List { path: String, folder: GraphItem },
    Respond(DavResponse),
}

/// What a [`TreeAction`] stands for.
pub enum TreeActionView {
    Check(Seq<char>),
    LookUp { path: Seq<char> },
    Stat { path: Seq<char> },
    List { path: Seq<char>, folder: ItemView },
    Respond(DavView),
}

impl View for TreeAction {
    type V = TreeActionView;

    open spec fn view(&self) -> TreeActionView {
        match *self {
            TreeAction::Check(path) => TreeActionView::Check(path@),
            TreeAction::LookUp { path } => TreeActionView::LookUp { path: path@ },
            TreeAction::Stat { path } => TreeActionView::Stat { path: path@ },
            TreeAction::List { path, folder } => TreeActionView::List {
                path: path@,
                folder: folder@,
            },
            TreeAction::Respond(r) => TreeActionView::Respond(r@),
        }
    }
}

/// The answer to a tree request that Graph could not serve.
pub open spec fn tree_failure(e: Seq<char>) -> TreeActionView {
    if e == "not found"@ {
        TreeActionView::Respond(text_response(404, "not found"@))
    } else {
        TreeActionView::Respond(text_response(502, e))
    }
}

/// What a tree request does next: the snapshot answers if it can, else Graph.
pub open spec fn tree_next(
    index_enabled: bool,
    query: Option<Seq<char>>,
    step: TreeStep,
) -> TreeActionView {
    match step {
        TreeStep::Start => TreeActionView::Check(
            match param(query, "path"@) {
                Some(p) => p,
                None => "/"@,
            },
        ),
        TreeStep::Checked(Err(e)) => TreeActionView::Respond(text_response(400, e@)),
        TreeStep::Checked(Ok(path)) => if index_enabled {
            TreeActionView::LookUp { path: path@ }
        } else {
            TreeActionView::Stat { path: path@ }
        },
        TreeStep::LookedUp { path, hit: Ok(Some(hit)) } => TreeActionView::Respond(
            json_response(lookup_json(path@, hit@, "index"@)),
        ),
        TreeStep::LookedUp { path, hit: _ } => TreeActionView::Stat { path: path@ },
        TreeStep::Item { path, item: Err(e) } => tree_failure(e@),
        TreeStep::Item { path, item: Ok(item) } => if item@.is_dir {
            TreeActionView::List { path: path@, folder: item@ }
        } else {
            TreeActionView::Respond(json_response(graph_json(path@, item@, Seq::empty())))
        },
        TreeStep::Children { path, folder, children: Err(e) } => tree_failure(e@),
        TreeStep::Children { path, folder, children: Ok(children) } => TreeActionView::Respond(
            json_response(
                graph_json(path@, folder@, graph_folders_of(path@, item_views(children@))),
            ),
        ),
    }
}

fn fail_tree(e: String) -> (r: TreeAction)
    ensures
        r@ == tree_failure(e@),
{
    if text_eq(e.as_str(), "not found") {
        TreeAction::Respond(DavResponse::error(404, "not found".to_owned()))
    } else {
        TreeAction::Respond(DavResponse::error(502, e))
    }
}

/// Answers a tree request.
pub fn tree(index_enabled: bool, query: Option<&str>, step: TreeStep) -> (r: TreeAction)
    ensures
        r@ == tree_next(index_enabled, opt_str(query), step),
{
    match step {
        TreeStep::Start => match query_param(query, "path") {
            Some(p) => TreeAction::Check(p),
            None => TreeAction::Check("/".to_owned()),
        },
        TreeStep::Checked(Err(e)) => TreeAction::Respond(DavResponse::error(400, e)),
        TreeStep::Checked(Ok(path)) => {
            if index_enabled {
                TreeAction::LookUp { path }
            } else {
                TreeAction::Stat { path }
            }
        },
        TreeStep::LookedUp { path, hit } => match hit {
            Ok(Some(hit)) => TreeAction::Respond(
                json_ok(&lookup_to_tree(path.as_str(), &hit, "index")),
            ),
            _ => TreeAction::Stat { path },
        },
        TreeStep::Item { path: _, item: Err(e) } => fail_tree(e),
        TreeStep::Item { path, item: Ok(item) } => {
            if item.is_dir {
                TreeAction::List { path, folder: item }
            } else {
                let none: Vec<GraphItem> = Vec::new();
                assert(item_views(none@) =~= Seq::empty());
                TreeAction::Respond(json_ok(&graph_tree(path.as_str(), &item, &none)))
            }
        },
        TreeStep::Children { path: _, folder: _, children: Err(e) } => fail_tree(e),
        TreeStep::Children { path, folder, children: Ok(children) } => TreeAction::Respond(
            json_ok(&graph_tree(path.as_str(), &folder, &children)),
        ),
    }
}

} // verus!
