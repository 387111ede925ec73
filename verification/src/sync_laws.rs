//! Laws of the sync tick: what is fetched, what is saved where, and what a tick
//! keeps of the index.
use vstd::prelude::*;
use crate::graph::delta_url;
use crate::index::{applied_all, kids_of, own_entry, DeltaView, IndexView, NodeView};
use crate::index_laws::{consistent, root_on_top};
use crate::page_laws::{law_page_keeps_consistent, roots_apart};
use crate::resolve_laws::law_sweep;
use crate::snapshot::{INDEX_FILE, REBUILD_FILE};
use crate::sync::{
    is_served, paged, resynced, started_with, sync_next, PageView, SyncActionView, SyncEvent,
    SyncLimits, SyncView,
};

verus! {

/// A new crawl begins with an empty index in the next generation, from the
/// beginning of the feed.
pub proof fn law_resync_starts_over(s: SyncView, drive_base: Seq<char>)
    ensures
        resynced(s, drive_base).index.nodes == Map::<Seq<char>, NodeView>::empty(),
        resynced(s, drive_base).index.root is None,
        resynced(s, drive_base).index.delta_token is None,
        s.index.generation < u64::MAX ==> resynced(s, drive_base).index.generation
            == s.index.generation + 1,
        resynced(s, drive_base).url == delta_url(drive_base),
{
}

/// Whether the rebuilt snapshot took the place of the live one.
pub open spec fn has_renamed(event: SyncEvent) -> bool {
    event matches SyncEvent::Renamed(Ok(_))
}

/// Whether the index was saved.
pub open spec fn has_saved(event: SyncEvent) -> bool {
    event matches SyncEvent::Saved(Ok(_))
}

/// After Graph asked for a new crawl, the index goes to a file of its own if
/// there is a live snapshot to be served meanwhile, and to that of the live
/// snapshot if not. The file stays the same until the rebuilt snapshot takes
/// the place of the live one, which it does only when its crawl is complete.
pub proof fn law_live_snapshot_survives(
    s: SyncView,
    limits: SyncLimits,
    drive_base: Seq<char>,
    event: SyncEvent,
)
    ensures
        ({
            let (t, action) = sync_next(s, limits, drive_base, event);
            &&& event matches SyncEvent::Reloaded { live, now } ==> t.rebuild == is_served(live)
            &&& !(event is Reloaded) && !has_renamed(event) ==> t.rebuild == s.rebuild
            &&& action matches SyncActionView::Save { file } ==> file == (if t.rebuild {
                REBUILD_FILE@
            } else {
                INDEX_FILE@
            })
            &&& action is Rename ==> t.complete && t.rebuild
        }),
{
}

/// Whether the event is what follows from the action.
pub open spec fn answers(action: SyncActionView, event: SyncEvent) -> bool {
    match action {
        SyncActionView::Fetch(_) => event is Page,
        SyncActionView::Reload => event is Reloaded,
        SyncActionView::Save { file } => event is Saved,
        SyncActionView::Rename => event is Renamed,
        SyncActionView::Measure => event is Measured,
        SyncActionView::Done(_) => false,
    }
}

/// The tick after a series of events, and what follows.
pub open spec fn tick_run(
    first: SyncView,
    limits: SyncLimits,
    drive_base: Seq<char>,
    events: Seq<SyncEvent>,
) -> (SyncView, SyncActionView)
    decreases events.len(),
{
    if events.len() == 0 {
        (first, SyncActionView::Reload)
    } else {
        sync_next(
            tick_run(first, limits, drive_base, events.drop_last()).0,
            limits,
            drive_base,
            events.last(),
        )
    }
}

/// Whether the events are those of a tick: its beginning, and then what follows
/// from each action.
pub open spec fn is_tick(
    first: SyncView,
    limits: SyncLimits,
    drive_base: Seq<char>,
    events: Seq<SyncEvent>,
) -> bool
    decreases events.len(),
{
    if events.len() == 0 {
        false
    } else if events.len() == 1 {
        events[0] is Begun
    } else {
        is_tick(first, limits, drive_base, events.drop_last()) && answers(
            tick_run(first, limits, drive_base, events.drop_last()).1,
            events.last(),
        )
    }
}

/// The number of pages asked for in a tick.
pub open spec fn fetches(events: Seq<SyncEvent>) -> nat
    decreases events.len(),
{
    if events.len() == 0 {
        0
    } else {
        fetches(events.drop_last()) + if events.last() is Page {
            1nat
        } else {
            0
        }
    }
}

/// A tick asks for at most as many pages as its limit says.
pub proof fn law_pages_are_bounded(
    index: IndexView,
    rebuild: bool,
    dirty: bool,
    started: u64,
    limits: SyncLimits,
    drive_base: Seq<char>,
    events: Seq<SyncEvent>,
)
    requires
        is_tick(
            started_with(index, rebuild, dirty, drive_base, started),
            limits,
            drive_base,
            events,
        ),
    ensures
        fetches(events) <= limits.max_pages,
        tick_run(
            started_with(index, rebuild, dirty, drive_base, started),
            limits,
            drive_base,
            events,
        ).1 is Fetch ==> fetches(events) < limits.max_pages,
{
    lemma_pages(started_with(index, rebuild, dirty, drive_base, started), limits, drive_base, events);
}

pub proof fn lemma_pages(
    first: SyncView,
    limits: SyncLimits,
    drive_base: Seq<char>,
    events: Seq<SyncEvent>,
)
    requires
        first.pages == 0,
        is_tick(first, limits, drive_base, events),
    ensures
        fetches(events) <= limits.max_pages,
        ({
            let (t, action) = tick_run(first, limits, drive_base, events);
            (action matches SyncActionView::Done(Err(_)) || t.pages == fetches(events)) && (
            action is Fetch ==> t.pages < limits.max_pages)
        }),
    decreases events.len(),
{
    if events.len() == 1 {
        reveal_with_fuel(tick_run, 2);
        reveal_with_fuel(fetches, 2);
        assert(events.drop_last() =~= Seq::<SyncEvent>::empty());
    } else {
        lemma_pages(first, limits, drive_base, events.drop_last());
    }
}

/// Whether nothing that a later tick needs has changed since the beginning.
pub open spec fn unchanged(first: SyncView, s: SyncView) -> bool {
    &&& s.applied == first.applied
    &&& !s.resync
    &&& s.index.delta_token == first.index.delta_token
    &&& s.index.pending_next_link == first.index.pending_next_link
}

/// Whether the index was saved in a tick.
pub open spec fn was_saved(events: Seq<SyncEvent>) -> bool {
    exists|i: int| 0 <= i < events.len() && has_saved(#[trigger] events[i])
}

/// A tick persists its progress: when it comes to be measured, the index was
/// saved, or no item was applied, no new crawl was begun, and the place from
/// which the next tick goes on is the one from which this tick began.
pub proof fn law_progress_is_saved(
    index: IndexView,
    rebuild: bool,
    dirty: bool,
    started: u64,
    limits: SyncLimits,
    drive_base: Seq<char>,
    events: Seq<SyncEvent>,
)
    requires
        is_tick(
            started_with(index, rebuild, dirty, drive_base, started),
            limits,
            drive_base,
            events,
        ),
        tick_run(
            started_with(index, rebuild, dirty, drive_base, started),
            limits,
            drive_base,
            events,
        ).1 is Measure,
    ensures
        was_saved(events) || unchanged(
            started_with(index, rebuild, dirty, drive_base, started),
            tick_run(
                started_with(index, rebuild, dirty, drive_base, started),
                limits,
                drive_base,
                events,
            ).0,
        ),
{
    lemma_progress(
        started_with(index, rebuild, dirty, drive_base, started),
        limits,
        drive_base,
        events,
    );
}

proof fn lemma_progress(
    first: SyncView,
    limits: SyncLimits,
    drive_base: Seq<char>,
    events: Seq<SyncEvent>,
)
    requires
        !first.resync,
        is_tick(first, limits, drive_base, events),
    ensures
        ({
            let (t, action) = tick_run(first, limits, drive_base, events);
            &&& t.dirty || unchanged(first, t)
            &&& action is Rename || action is Measure ==> was_saved(events) || !t.dirty
        }),
    decreases events.len(),
{
    if events.len() == 1 {
        reveal_with_fuel(tick_run, 2);
        assert(events.drop_last() =~= Seq::<SyncEvent>::empty());
    } else {
        let front = events.drop_last();
        lemma_progress(first, limits, drive_base, front);
        if was_saved(front) {
            let i = choose|i: int| 0 <= i < front.len() && has_saved(#[trigger] front[i]);
            assert(events[i] == front[i]);
        }
        if has_saved(events.last()) {
            assert(has_saved(events[events.len() - 1]));
        }
        if let SyncEvent::Page { page: Ok(page), now } = events.last() {
            let s = tick_run(first, limits, drive_base, front).0;
            lemma_items_keep_place(s.index, page@.items);
            if page@.items.len() == 0 {
                assert(applied_all(s.index, page@.items) == s.index);
            }
        }
    }
}

/// Items do not touch the place in the feed.
proof fn lemma_items_keep_place(s: IndexView, items: Seq<DeltaView>)
    ensures
        applied_all(s, items).delta_token == s.delta_token,
        applied_all(s, items).pending_next_link == s.pending_next_link,
    decreases items.len(),
{
    if items.len() > 0 {
        lemma_items_keep_place(s, items.drop_last());
    }
}

/// Consistency only speaks of nodes, lists and the root.
proof fn lemma_same_lists(s: IndexView, t: IndexView)
    requires
        consistent(s),
        root_on_top(s),
        t.nodes == s.nodes,
        t.kids == s.kids,
        t.root == s.root,
    ensures
        consistent(t),
        root_on_top(t),
{
    assert forall|x: Seq<char>| #[trigger]
        t.nodes.dom().contains(x) && t.nodes[x].parent is Some implies kids_of(
        t,
        t.nodes[x].parent->0,
    ).contains((t.nodes[x].name, x)) by {
        assert(s.nodes.dom().contains(x));
        assert(kids_of(s, s.nodes[x].parent->0) == kids_of(t, s.nodes[x].parent->0));
    }
    assert forall|p: Seq<char>, e: (Seq<char>, Seq<char>)| #[trigger]
        kids_of(t, p).contains(e) implies own_entry(t.nodes, p, e) by {
        assert(kids_of(s, p).contains(e));
    }
    assert forall|p: Seq<char>, n: Seq<char>, c: Seq<char>, d: Seq<char>|
        #![trigger kids_of(t, p).contains((n, c)), kids_of(t, p).contains((n, d))]
        kids_of(t, p).contains((n, c)) && kids_of(t, p).contains((n, d)) implies c == d by {
        assert(kids_of(s, p).contains((n, c)) && kids_of(s, p).contains((n, d)));
    }
}

/// A page keeps the index of a tick consistent and its root on top, as long as
/// roots and entries of folders stay apart.
pub proof fn law_tick_keeps_consistent(s: SyncView, page: PageView)
    requires
        consistent(s.index),
        root_on_top(s.index),
        roots_apart(s.index, page.items),
    ensures
        consistent(paged(s, page).index),
        root_on_top(paged(s, page).index),
{
    law_page_keeps_consistent(s.index, page.items);
    let index = applied_all(s.index, page.items);
    match page.next_link {
        Some(next) => {
            let t = IndexView { pending_next_link: Some(next), crawl_complete: false, ..index };
            lemma_same_lists(index, t);
        },
        None => {
            let t = IndexView {
                pending_next_link: None,
                delta_token: match page.delta_token {
                    Some(token) => Some(token),
                    None => index.delta_token,
                },
                crawl_complete: true,
                ..index
            };
            lemma_same_lists(index, t);
            law_sweep(t);
        },
    }
}

} // verus!
