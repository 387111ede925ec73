//! Laws of sync ticks: where a tick goes on, when it fetches, saves and ends,
//! and what it reports.
use vstd::prelude::*;
use vstd::utf8::*;
use crate::graph::delta_url;
use crate::index::{applied_all, empty_index, swept, Index, IndexView, NodeView};
use crate::json::{json_text, json_view, JsonView};
use crate::sync::{
    first_index, is_outdated, paged, resynced, run_next, started_with, sync_next,
    DeltaError, PageView, RunActionView, RunStep, SnapshotStats, SyncActionView, SyncEvent,
    SyncLimits, SyncView,
};
use crate::sync_laws::{fetches, has_saved, is_tick, lemma_pages, tick_run, was_saved};
use crate::text::decimal;

verus! {

/// The first action of a tick that begins with the index.
pub open spec fn first_action(
    index: IndexView,
    rebuild: bool,
    dirty: bool,
    drive_base: Seq<char>,
    started: u64,
    limits: SyncLimits,
    now: u64,
) -> SyncActionView {
    sync_next(
        started_with(index, rebuild, dirty, drive_base, started),
        limits,
        drive_base,
        SyncEvent::Begun { now },
    ).1
}

/// A tick first fetches the page that is pending in its index. Without one it
/// asks for what has changed since the last crawl, and without a crawl it begins
/// at the beginning. It does so however late it is.
pub proof fn law_tick_goes_on(
    index: IndexView,
    rebuild: bool,
    dirty: bool,
    drive_base: Seq<char>,
    started: u64,
    limits: SyncLimits,
    now: u64,
)
    requires
        limits.max_pages > 0,
    ensures
        ({
            let url = started_with(index, rebuild, dirty, drive_base, started).url;
            let action = first_action(index, rebuild, dirty, drive_base, started, limits, now);
            &&& action == SyncActionView::Fetch(url)
            &&& index.pending_next_link matches Some(link) ==> url == link
            &&& index.pending_next_link is None ==> (index.delta_token matches Some(token) ==> url
                == token)
            &&& index.pending_next_link is None && index.delta_token is None ==> url == delta_url(
                drive_base,
            )
        }),
{
}

/// A tick begins with the index as it was loaded, and with nothing done: the
/// crawl counts as complete only if it was and no page is pending.
pub proof fn law_tick_begins_with_nothing_done(
    index: IndexView,
    rebuild: bool,
    dirty: bool,
    drive_base: Seq<char>,
    started: u64,
)
    ensures
        ({
            let s = started_with(index, rebuild, dirty, drive_base, started);
            &&& s.index == index && s.rebuild == rebuild && s.dirty == dirty && s.started == started
            &&& s.pages == 0 && s.applied == 0 && !s.resync && !s.ended
            &&& s.complete <==> index.crawl_complete && index.pending_next_link is None
        }),
{
}

/// A snapshot that is being rebuilt goes on before the live one; without either
/// a tick begins with nothing. A snapshot without the time at which it was
/// built, or complete but without folders, is written again.
pub proof fn law_first_index(live: Index, rebuild: Index, other: Option<Index>, st: SnapshotStats)
    ensures
        first_index(other, Some(rebuild)) == rebuild@,
        first_index(Some(live), None) == live@,
        first_index(None, None) == empty_index(),
        empty_index().nodes == Map::<Seq<char>, NodeView>::empty(),
        empty_index().delta_token is None && empty_index().pending_next_link is None,
        is_outdated(st) <==> st.meta.built_at == 0 || st.meta.crawl_complete && st.total_dirs == 0,
{
}

/// Events other than pages leave the index alone.
proof fn lemma_index_stays(
    first: SyncView,
    limits: SyncLimits,
    drive_base: Seq<char>,
    events: Seq<SyncEvent>,
    i: int,
)
    requires
        0 <= i < events.len(),
        forall|j: int| i < j < events.len() ==> !(#[trigger] events[j] is Page),
    ensures
        tick_run(first, limits, drive_base, events).0.index == tick_run(
            first,
            limits,
            drive_base,
            events.take(i + 1),
        ).0.index,
        tick_run(first, limits, drive_base, events).0.complete == tick_run(
            first,
            limits,
            drive_base,
            events.take(i + 1),
        ).0.complete,
    decreases events.len() - i,
{
    if i + 1 == events.len() {
        assert(events.take(i + 1) =~= events);
    } else {
        let front = events.drop_last();
        assert forall|j: int| i < j < front.len() implies !(#[trigger] front[j] is Page) by {
            assert(front[j] == events[j]);
        }
        lemma_index_stays(first, limits, drive_base, front, i);
        assert(front.take(i + 1) =~= events.take(i + 1));
        assert(!(events[events.len() - 1] is Page));
    }
}

/// The next tick goes on where this one left off. If the last page that came
/// had a link to the next one, that link is what the next tick fetches first;
/// if it was the last page of the feed, the next tick asks for what has changed
/// since.
pub proof fn law_next_tick_goes_on(
    first: SyncView,
    limits: SyncLimits,
    drive_base: Seq<char>,
    events: Seq<SyncEvent>,
    i: int,
    rebuild: bool,
    dirty: bool,
    started: u64,
    now: u64,
)
    requires
        0 <= i < events.len(),
        forall|j: int| i < j < events.len() ==> !(#[trigger] events[j] is Page),
        limits.max_pages > 0,
    ensures
        ({
            let t = tick_run(first, limits, drive_base, events).0;
            let action = first_action(t.index, rebuild, dirty, drive_base, started, limits, now);
            events[i] matches SyncEvent::Page { page: Ok(page), now: _ } ==> {
                &&& page@.next_link matches Some(next) ==> action == SyncActionView::Fetch(next)
                    && !t.complete && !t.index.crawl_complete
                &&& page@.next_link is None ==> t.complete && t.index.crawl_complete && (
                page@.delta_token matches Some(token) ==> action == SyncActionView::Fetch(token))
            }
        }),
{
    let upto = events.take(i + 1);
    lemma_index_stays(first, limits, drive_base, events, i);
    assert(upto.last() == events[i]);
    if let SyncEvent::Page { page: Ok(page), now } = events[i] {
        let s = tick_run(first, limits, drive_base, upto.drop_last()).0;
        assert(tick_run(first, limits, drive_base, upto).0 == paged(s, page@));
    }
}

/// After Graph asked for a new crawl, and until a page of it has come, the next
/// tick begins the crawl at the beginning, with nothing in the index.
pub proof fn law_next_tick_starts_over(
    first: SyncView,
    limits: SyncLimits,
    drive_base: Seq<char>,
    events: Seq<SyncEvent>,
    i: int,
    rebuild: bool,
    dirty: bool,
    started: u64,
    now: u64,
)
    requires
        0 <= i < events.len(),
        events[i] matches SyncEvent::Page { page: Err(DeltaError::Resync), now: _ },
        forall|j: int| i < j < events.len() ==> !(#[trigger] events[j] is Page),
        limits.max_pages > 0,
    ensures
        ({
            let t = tick_run(first, limits, drive_base, events).0;
            &&& first_action(t.index, rebuild, dirty, drive_base, started, limits, now)
                == SyncActionView::Fetch(delta_url(drive_base))
            &&& t.index.nodes == Map::<Seq<char>, NodeView>::empty()
            &&& t.index.kids == Map::<Seq<char>, Set<(Seq<char>, Seq<char>)>>::empty()
            &&& t.index.root is None
            &&& !t.complete && !t.index.crawl_complete
        }),
{
    let upto = events.take(i + 1);
    lemma_index_stays(first, limits, drive_base, events, i);
    assert(upto.last() == events[i]);
    let s = tick_run(first, limits, drive_base, upto.drop_last()).0;
    assert(tick_run(first, limits, drive_base, upto).0 == resynced(s, drive_base));
}

/// A page does to the index what its items do, one after the other; at the end
/// of the feed, what cannot be reached from the root goes too. Nothing else of
/// the index changes but the place in the feed.
pub proof fn law_page_is_applied(s: SyncView, page: PageView)
    ensures
        ({
            let t = paged(s, page).index;
            let all = applied_all(s.index, page.items);
            &&& t.root == all.root && t.generation == all.generation
            &&& page.next_link is Some ==> t.nodes == all.nodes && t.kids == all.kids
                && t.delta_token == all.delta_token
            &&& page.next_link is None ==> t.nodes == swept(all).nodes && t.kids == swept(all).kids
            &&& page.next_link is None && page.delta_token is None ==> t.delta_token
                == all.delta_token
        }),
        paged(s, page).pages == s.pages + 1,
        paged(s, page).applied == s.applied + page.items.len(),
        paged(s, page).ended <==> s.ended || page.next_link is None,
        paged(s, page).started == s.started && paged(s, page).rebuild == s.rebuild,
{
    let all = applied_all(s.index, page.items);
    let t = paged(s, page).index;
    if page.next_link is None {
        assert(t.nodes =~= swept(all).nodes);
        assert(t.kids =~= swept(all).kids);
    }
}

/// Pages whose items come one after the other do what one page with all of them
/// does.
pub proof fn law_items_in_turn(s: IndexView, a: Seq<crate::index::DeltaView>, b: Seq<
    crate::index::DeltaView,
>)
    ensures
        applied_all(s, a + b) == applied_all(applied_all(s, a), b),
        a.len() == 0 ==> applied_all(s, a) == s,
        a.len() == 1 ==> applied_all(s, a) == crate::index::applied(s, a[0]),
    decreases b.len(),
{
    if a.len() == 1 {
        assert(a.drop_last() =~= Seq::empty());
        reveal_with_fuel(applied_all, 2);
    }
    if b.len() == 0 {
        assert(a + b =~= a);
    } else {
        law_items_in_turn(s, a, b.drop_last());
        assert((a + b).drop_last() =~= a + b.drop_last());
        assert((a + b).last() == b.last());
    }
}

/// Another page is fetched if and only if the feed has not ended, the limit of
/// pages is not reached, and either none was fetched yet or the time is not up.
pub proof fn law_when_to_fetch(
    s: SyncView,
    limits: SyncLimits,
    drive_base: Seq<char>,
    event: SyncEvent,
    now: u64,
)
    requires
        s.pages >= 0,
        match event {
            SyncEvent::Begun { now: n } => n == now,
            SyncEvent::Page { page: Ok(_), now: n } => n == now,
            SyncEvent::Reloaded { live: _, now: n } => n == now,
            _ => false,
        },
    ensures
        ({
            let (t, action) = sync_next(s, limits, drive_base, event);
            let more = !t.ended && t.pages < limits.max_pages && (t.pages == 0 || now - t.started
                < limits.budget_ms && limits.budget_ms > 0);
            &&& more ==> action == SyncActionView::Fetch(t.url)
            &&& !more ==> !(action is Fetch) && !(action is Done) && !(action is Reload)
            &&& !more && t.dirty ==> action is Save
            &&& !more && !t.dirty && t.complete && t.rebuild ==> action is Rename
            &&& !more && !t.dirty && !(t.complete && t.rebuild) ==> action is Measure
        }),
{
}

/// While a feed goes on, the page after a page is the one that it links to.
pub proof fn law_feed_is_followed(
    s: SyncView,
    limits: SyncLimits,
    drive_base: Seq<char>,
    page: crate::sync::DeltaPage,
    now: u64,
)
    ensures
        ({
            let (t, action) = sync_next(
                s,
                limits,
                drive_base,
                SyncEvent::Page { page: Ok(page), now },
            );
            &&& action matches SyncActionView::Fetch(url) ==> page@.next_link == Some(url) && t.url
                == url
            &&& page@.next_link is None ==> !(action is Fetch)
        }),
{
}

/// A failure ends the tick with its error; a request for a new crawl leads to a
/// look at the live snapshot, which is served meanwhile if its crawl is complete
/// or it has a root.
pub proof fn law_failures_end_a_tick(
    s: SyncView,
    limits: SyncLimits,
    drive_base: Seq<char>,
    event: SyncEvent,
)
    ensures
        ({
            let (t, action) = sync_next(s, limits, drive_base, event);
            &&& event matches SyncEvent::Page { page: Err(DeltaError::Other(e)), now: _ } ==> action
                == SyncActionView::Done(Err(e@))
            &&& event matches SyncEvent::Saved(Err(e)) ==> action == SyncActionView::Done(Err(e@))
            &&& event matches SyncEvent::Renamed(Err(e)) ==> action == SyncActionView::Done(Err(e@))
            &&& event matches SyncEvent::Page { page: Err(DeltaError::Resync), now: _ } ==> action
                is Reload && t.pages == s.pages + 1 && t.applied == s.applied && t.dirty && t.resync
            &&& event matches SyncEvent::Reloaded { live, now: _ } ==> (t.rebuild <==> match live {
                Ok(Some(ix)) => ix@.crawl_complete || ix@.root is Some,
                _ => false,
            })
            &&& action matches SyncActionView::Done(Err(e)) ==> !(event is Begun) && !(event
                is Measured) && !(event is Reloaded)
        }),
{
}

/// Files by name: the index goes to the live snapshot, or to the one that is
/// being rebuilt; when the latter took the place of the former, to the former.
pub proof fn law_target_files(
    s: SyncView,
    limits: SyncLimits,
    drive_base: Seq<char>,
    event: SyncEvent,
)
    ensures
        ({
            let (t, action) = sync_next(s, limits, drive_base, event);
            &&& action matches SyncActionView::Save { file } ==> file == (if t.rebuild {
                "index.rebuild.bin"@
            } else {
                "index.bin"@
            })
            &&& action matches SyncActionView::Done(Ok((stats, report))) ==> stats.target == (
            if t.rebuild {
                "index.rebuild.bin"@
            } else {
                "index.bin"@
            })
            &&& event matches SyncEvent::Renamed(Ok(_)) ==> !t.rebuild && action is Measure
            &&& event matches SyncEvent::Saved(Ok(_)) ==> t == s && (action is Rename <==> s.complete
                && s.rebuild) && (action is Measure <==> !(s.complete && s.rebuild))
        }),
{
}

/// A page that brings nothing new needs no saving; one that brings an item or
/// another place in the feed does.
pub proof fn law_what_needs_saving(s: SyncView, page: PageView)
    ensures
        paged(s, page).dirty <==> {
            ||| s.dirty
            ||| page.items.len() > 0
            ||| page.next_link is Some && s.index.pending_next_link != page.next_link
            ||| page.next_link is None && s.index.pending_next_link is Some
            ||| page.next_link is None && s.index.delta_token != page.delta_token
        },
{
    if page.items.len() == 0 {
        assert(applied_all(s.index, page.items) == s.index);
    }
}

/// What needs saving is saved before the tick is measured, also if it needed
/// saving from the beginning, and nothing else is saved.
pub proof fn law_saved_before_measured(
    first: SyncView,
    limits: SyncLimits,
    drive_base: Seq<char>,
    events: Seq<SyncEvent>,
)
    requires
        is_tick(first, limits, drive_base, events),
    ensures
        ({
            let (t, action) = tick_run(first, limits, drive_base, events);
            &&& action is Measure || action is Rename ==> was_saved(events) || !t.dirty
            &&& first.dirty ==> t.dirty
            &&& action is Save ==> t.dirty
        }),
    decreases events.len(),
{
    if events.len() == 1 {
        reveal_with_fuel(tick_run, 2);
        assert(events.drop_last() =~= Seq::<SyncEvent>::empty());
    } else {
        let front = events.drop_last();
        law_saved_before_measured(first, limits, drive_base, front);
        if was_saved(front) {
            let i = choose|i: int| 0 <= i < front.len() && has_saved(#[trigger] front[i]);
            assert(events[i] == front[i]);
        }
        if has_saved(events.last()) {
            assert(has_saved(events[events.len() - 1]));
        }
    }
}

/// The number of items that the pages of a tick brought.
pub open spec fn items_in(events: Seq<SyncEvent>) -> nat
    decreases events.len(),
{
    if events.len() == 0 {
        0
    } else {
        items_in(events.drop_last()) + match events.last() {
            SyncEvent::Page { page: Ok(page), now: _ } => page@.items.len(),
            _ => 0,
        }
    }
}

/// Whether Graph asked for a new crawl.
pub open spec fn was_restarted(events: Seq<SyncEvent>) -> bool
    decreases events.len(),
{
    events.len() > 0 && (was_restarted(events.drop_last()) || (events.last() matches
        SyncEvent::Page { page: Err(DeltaError::Resync), now: _ }))
}

proof fn lemma_counts(
    first: SyncView,
    limits: SyncLimits,
    drive_base: Seq<char>,
    events: Seq<SyncEvent>,
)
    ensures
        ({
            let t = tick_run(first, limits, drive_base, events).0;
            &&& t.applied == first.applied + items_in(events)
            &&& t.resync == (first.resync || was_restarted(events))
            &&& t.started == first.started
        }),
    decreases events.len(),
{
    if events.len() > 0 {
        lemma_counts(first, limits, drive_base, events.drop_last());
    }
}

/// What a tick reports is what happened in it: the items that came, the pages
/// that were asked for, whether a new crawl was begun, how long it took, and
/// where the crawl stands.
pub proof fn law_report_is_true(
    index: IndexView,
    rebuild: bool,
    dirty: bool,
    started: u64,
    limits: SyncLimits,
    drive_base: Seq<char>,
    events: Seq<SyncEvent>,
    measured: u64,
    rate: JsonView,
    time: u64,
)
    requires
        is_tick(
            started_with(index, rebuild, dirty, drive_base, started),
            limits,
            drive_base,
            events,
        ),
        events.last() matches SyncEvent::Measured { now, items_per_sec, at } && now == measured
            && json_view(items_per_sec) == rate && at == time,
        items_in(events) <= u64::MAX,
    ensures
        ({
            let (t, action) = tick_run(
                started_with(index, rebuild, dirty, drive_base, started),
                limits,
                drive_base,
                events,
            );
            &&& action matches SyncActionView::Done(Ok((stats, report))) && {
                &&& stats.applied == items_in(events)
                &&& stats.pages == fetches(events)
                &&& stats.resync == was_restarted(events)
                &&& stats.duration_ms == (if measured > started {
                    measured - started
                } else {
                    0
                })
                &&& stats.items_per_sec == rate
                &&& stats.at == time
                &&& stats.complete == t.complete
                &&& stats.has_token == (t.index.delta_token is Some)
                &&& report matches JsonView::Object(m) && {
                    &&& m["applied"@] == JsonView::Number(decimal(stats.applied as nat))
                    &&& m["pages"@] == JsonView::Number(decimal(stats.pages as nat))
                    &&& m["complete"@] == JsonView::Bool(stats.complete)
                    &&& m["has_token"@] == JsonView::Bool(stats.has_token)
                    &&& m["duration_ms"@] == JsonView::Number(decimal(stats.duration_ms as nat))
                    &&& m["resync"@] == JsonView::Bool(stats.resync)
                    &&& m["target"@] == JsonView::Text(stats.target)
                    &&& m["items_per_sec"@] == rate
                }
            }
        }),
{
    let first = started_with(index, rebuild, dirty, drive_base, started);
    lemma_pages(first, limits, drive_base, events);
    lemma_counts(first, limits, drive_base, events);
    reveal_strlit("applied");
    reveal_strlit("pages");
    reveal_strlit("complete");
    reveal_strlit("has_token");
    reveal_strlit("duration_ms");
    reveal_strlit("resync");
    reveal_strlit("target");
    reveal_strlit("items_per_sec");
    assert("applied"@[0] == 'a');
    assert("pages"@[0] == 'p');
    assert("complete"@[0] == 'c');
    assert("has_token"@[0] == 'h');
    assert("duration_ms"@[0] == 'd');
    assert("resync"@[0] == 'r');
    assert("target"@[0] == 't');
    assert("items_per_sec"@[0] == 'i');
}

/// A sync request without an index is skipped with success; else it is answered
/// with the report of the tick, or with its error.
pub proof fn law_sync_request(report: serde_json::Value, error: String, enabled: bool)
    ensures
        run_next(true, RunStep::Start) is Sync,
        run_next(false, RunStep::Start) matches RunActionView::Respond(r) && r.status == 200
            && r.content_type == "application/json"@ && r.body == encode_utf8(
            json_text(
                JsonView::Object(
                    map![
                        "skipped"@ => JsonView::Bool(true),
                        "reason"@ => JsonView::Text("index disabled"@),
                    ],
                ),
            ),
        ),
        run_next(enabled, RunStep::Finished(Ok(report))) matches RunActionView::Respond(r)
            && r.status == 200 && r.content_type == "application/json"@ && r.body == encode_utf8(
            json_text(json_view(report)),
        ) && r.content_length is None,
        run_next(enabled, RunStep::Finished(Err(error))) matches RunActionView::Respond(r)
            && r.status == 502 && r.content_type == "text/plain"@ && r.body == encode_utf8(error@)
            && r.content_length is None,
{
}

} // verus!
