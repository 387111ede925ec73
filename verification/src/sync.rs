//! Authenticated `POST /_sync` handler. Driven by a timer: each invocation
//! fetches a bounded number of Graph delta pages and persists progress.
use serde_json::Value;
use vstd::prelude::*;
use vstd::string::*;
use vstd::utf8::*;
use crate::dav::{body_response, text_response, DavResponse, DavView};
use crate::graph::{delta_url, initial_delta_url};
use crate::index::{applied_all, empty_index, swept, DeltaItem, DeltaView, Index, IndexView};
use crate::json::{
    json_bool, json_copy, json_object, json_set, json_string, json_text, json_to_string, json_uint,
    json_view, JsonView,
};
use crate::snapshot::{SnapshotMeta, INDEX_FILE, REBUILD_FILE};
use crate::sync_stats::{SyncStats, SyncStatsView};
use crate::text::{bytes_of, decimal, opt_eq, opt_is, opt_text};

verus! {

/// One page of the delta feed.
#[derive(Debug)]
pub struct DeltaPage {
    pub items: Vec<DeltaItem>,
    pub next_link: Option<String>,
    pub delta_token: Option<String>,
}

/// What a [`DeltaPage`] stands for.
pub struct PageView {
    pub items: Seq<DeltaView>,
    pub next_link: Option<Seq<char>>,
    pub delta_token: Option<Seq<char>>,
}

/// What a list of [`DeltaItem`] stands for.
pub open spec fn delta_views(v: Seq<DeltaItem>) -> Seq<DeltaView> {
    v.map_values(|i: DeltaItem| i@)
}

impl View for DeltaPage {
    type V = PageView;

    open spec fn view(&self) -> PageView {
        PageView {
            items: delta_views(self.items@),
            next_link: opt_text(self.next_link),
            delta_token: opt_text(self.delta_token),
        }
    }
}

/// Why there is no delta page: Graph asks for a new crawl, or something else
/// went wrong.
#[derive(Debug)]
pub enum DeltaError {
    Resync,
    Other(String),
}

/// The meta section of the live snapshot with its totals.
#[derive(Debug)]
pub struct SnapshotStats {
    pub meta: SnapshotMeta,
    pub total_dirs: u64,
    pub total_files: u64,
}

/// Limits of one sync tick.
#[derive(Clone, Copy, Debug)]
pub struct SyncLimits {
    pub max_pages: usize,
    pub budget_ms: u64,
}

/// A sync tick under way.
#[derive(Debug)]
pub struct Sync {
    pub index: Index,
    /// Whether the index goes to the file of the snapshot that is being
    /// rebuilt, rather than to that of the live one.
    pub rebuild: bool,
    pub url: String,
    pub pages: usize,
    pub applied: usize,
    pub dirty: bool,
    pub resync: bool,
    pub complete: bool,
    /// Whether the last page of the feed has come.
    pub ended: bool,
    pub started: u64,
}

/// What a [`Sync`] stands for.
pub struct SyncView {
    pub index: IndexView,
    pub rebuild: bool,
    pub url: Seq<char>,
    pub pages: int,
    pub applied: int,
    pub dirty: bool,
    pub resync: bool,
    pub complete: bool,
    pub ended: bool,
    pub started: u64,
}

impl View for Sync {
    type V = SyncView;

    open spec fn view(&self) -> SyncView {
        SyncView {
            index: self.index@,
            rebuild: self.rebuild,
            url: self.url@,
            pages: self.pages as int,
            applied: self.applied as int,
            dirty: self.dirty,
            resync: self.resync,
            complete: self.complete,
            ended: self.ended,
            started: self.started,
        }
    }
}

/// The URL with which a crawl of the index goes on: the pending page, else the
/// last delta position, else the beginning.
pub open spec fn resume_url(s: IndexView, drive_base: Seq<char>) -> Seq<char> {
    match s.pending_next_link {
        Some(link) => link,
        None => match s.delta_token {
            Some(token) => token,
            None => delta_url(drive_base),
        },
    }
}

/// Whether a snapshot was written before its totals were kept, so that it has
/// to be written again.
pub open spec fn is_outdated(stats: SnapshotStats) -> bool {
    stats.meta.built_at == 0 || (stats.total_dirs == 0 && stats.meta.crawl_complete)
}

/// The index that a sync tick begins with: that of the snapshot that is being
/// rebuilt, else that of the live one, else an empty one.
pub open spec fn first_index(live: Option<Index>, rebuild: Option<Index>) -> IndexView {
    match (rebuild, live) {
        (Some(ix), _) => ix@,
        (None, Some(ix)) => ix@,
        (None, None) => empty_index(),
    }
}

/// A sync tick that begins with `index`.
pub open spec fn started_with(
    index: IndexView,
    rebuild: bool,
    dirty: bool,
    drive_base: Seq<char>,
    started: u64,
) -> SyncView {
    SyncView {
        index,
        rebuild,
        url: resume_url(index, drive_base),
        pages: 0,
        applied: 0,
        dirty,
        resync: false,
        complete: index.crawl_complete && index.pending_next_link is None,
        ended: false,
        started,
    }
}

/// Whether `r` is how a sync tick begins, given what was read of the snapshots.
pub open spec fn begins(
    live: Result<Option<Index>, String>,
    rebuild: Result<Option<Index>, String>,
    stats: Result<Option<SnapshotStats>, String>,
    drive_base: Seq<char>,
    started: u64,
    r: Result<Sync, String>,
) -> bool {
    match (live, rebuild) {
        (Err(e), _) => r matches Err(f) && f == e,
        (Ok(_), Err(e)) => r matches Err(f) && f == e,
        (Ok(l), Ok(b)) => r matches Ok(s) && s@ == started_with(
            first_index(l, b),
            b is Some,
            stats matches Ok(Some(st)) && is_outdated(st),
            drive_base,
            started,
        ),
    }
}

/// Begins a sync tick: with the snapshot that is being rebuilt if there is
/// one, else with the live one, else with nothing.
pub fn begin(
    live: Result<Option<Index>, String>,
    rebuild: Result<Option<Index>, String>,
    stats: Result<Option<SnapshotStats>, String>,
    drive_base: &str,
    started: u64,
) -> (r: Result<Sync, String>)
    ensures
        begins(live, rebuild, stats, drive_base@, started, r),
{
    let live = match live {
        Ok(ix) => ix,
        Err(e) => {
            return Err(e);
        },
    };
    let rebuild = match rebuild {
        Ok(ix) => ix,
        Err(e) => {
            return Err(e);
        },
    };
    let (index, is_rebuild) = match (rebuild, live) {
        (Some(ix), _) => (ix, true),
        (None, Some(ix)) => (ix, false),
        (None, None) => (Index::default(), false),
    };
    let url = match (&index.pending_next_link, &index.delta_token) {
        (Some(link), _) => link.clone(),
        (None, Some(token)) => token.clone(),
        (None, None) => initial_delta_url(drive_base),
    };
    let dirty = match stats {
        Ok(Some(st)) => st.meta.built_at == 0 || (st.total_dirs == 0 && st.meta.crawl_complete),
        _ => false,
    };
    let complete = index.crawl_complete && index.pending_next_link.is_none();
    Ok(
        Sync {
            index,
            rebuild: is_rebuild,
            url,
            pages: 0,
            applied: 0,
            dirty,
            resync: false,
            complete,
            ended: false,
            started,
        },
    )
}

/// Time that has passed, in milliseconds.
pub open spec fn elapsed(started: u64, now: u64) -> int {
    if now > started {
        now - started
    } else {
        0
    }
}

/// Whether another page is fetched: not after the last one, not beyond the
/// page limit, and after the first one only while there is time.
pub open spec fn wants_page(s: SyncView, limits: SyncLimits, now: u64) -> bool {
    !s.ended && s.pages < limits.max_pages && !(elapsed(s.started, now) >= limits.budget_ms
        && s.pages > 0)
}

/// The sync tick after a page with a link to the next one.
pub open spec fn with_next(s: SyncView, page: PageView, next: Seq<char>) -> SyncView {
    let index = applied_all(s.index, page.items);
    SyncView {
        index: IndexView {
            pending_next_link: Some(next),
            crawl_complete: false,
            ..index
        },
        url: next,
        pages: s.pages + 1,
        applied: s.applied + page.items.len(),
        dirty: s.dirty || page.items.len() > 0 || index.pending_next_link != Some(next),
        complete: false,
        ..s
    }
}

/// The sync tick after the last page of the feed: the crawl is complete, and
/// what cannot be reached is dropped.
pub open spec fn with_last(s: SyncView, page: PageView) -> SyncView {
    let index = applied_all(s.index, page.items);
    SyncView {
        index: swept(
            IndexView {
                pending_next_link: None,
                delta_token: match page.delta_token {
                    Some(token) => Some(token),
                    None => index.delta_token,
                },
                crawl_complete: true,
                ..index
            },
        ),
        pages: s.pages + 1,
        applied: s.applied + page.items.len(),
        dirty: s.dirty || page.items.len() > 0 || index.delta_token != page.delta_token
            || index.pending_next_link is Some,
        complete: true,
        ended: true,
        ..s
    }
}

/// The sync tick after a page.
pub open spec fn paged(s: SyncView, page: PageView) -> SyncView {
    match page.next_link {
        Some(next) => with_next(s, page, next),
        None => with_last(s, page),
    }
}

/// The index with which a new crawl begins: empty, in the next generation.
pub open spec fn fresh_index(generation: u64) -> IndexView {
    IndexView {
        generation: if generation < u64::MAX {
            (generation + 1) as u64
        } else {
            generation
        },
        ..empty_index()
    }
}

/// The sync tick after Graph asked for a new crawl.
pub open spec fn resynced(s: SyncView, drive_base: Seq<char>) -> SyncView {
    SyncView {
        index: fresh_index(s.index.generation),
        url: delta_url(drive_base),
        pages: s.pages + 1,
        dirty: true,
        resync: true,
        complete: false,
        ..s
    }
}

/// Whether there is a live snapshot worth serving during a new crawl.
pub open spec fn is_served(live: Result<Option<Index>, String>) -> bool {
    live matches Ok(Some(ix)) && (ix@.crawl_complete || ix@.root is Some)
}

/// What happened in a sync tick.
#[derive(Debug)]
pub enum SyncEvent {
    /// The tick begins.
    Begun { now: u64 },
    /// A page was fetched, or not.
    Page { page: Result<DeltaPage, DeltaError>, now: u64 },
    /// The live snapshot was loaded again.
    Reloaded { live: Result<Option<Index>, String>, now: u64 },
    /// The index was saved, or not.
    Saved(Result<(), String>),
    /// The rebuilt snapshot took the place of the live one, or not.
    Renamed(Result<(), String>),
    /// The tick was measured.
    Measured { now: u64, items_per_sec: Value, at: u64 },
}

/// What to do next in a sync tick.
#[derive(Debug)]
pub enum SyncAction {
    /// Fetch the page at this URL.
    Fetch(String),
    /// Load the live snapshot again.
    Reload,
    /// Save the index to this file.
    Save { file: &'static str },
    /// Let the rebuilt snapshot take the place of the live one.
    Rename,
    /// Measure the tick.
    Measure,
    Done(Result<SyncReport, String>),
}

/// What a sync tick reports, and what it keeps.
#[derive(Debug)]
pub struct SyncReport {
    pub stats: SyncStats,
    pub report: Value,
}

/// What a [`SyncAction`] stands for.
pub enum SyncActionView {
    Fetch(Seq<char>),
    Reload,
    Save { file: Seq<char> },
    Rename,
    Measure,
    Done(Result<(SyncStatsView, JsonView), Seq<char>>),
}

impl View for SyncAction {
    type V = SyncActionView;

    open spec fn view(&self) -> SyncActionView {
        match *self {
            SyncAction::Fetch(url) => SyncActionView::Fetch(url@),
            SyncAction::Reload => SyncActionView::Reload,
            SyncAction::Save { file } => SyncActionView::Save { file: file@ },
            SyncAction::Rename => SyncActionView::Rename,
            SyncAction::Measure => SyncActionView::Measure,
            SyncAction::Done(Ok(r)) => SyncActionView::Done(Ok((r.stats@, json_view(r.report)))),
            SyncAction::Done(Err(e)) => SyncActionView::Done(Err(e@)),
        }
    }
}

/// The file that the index goes to.
pub open spec fn target_file(s: SyncView) -> Seq<char> {
    if s.rebuild {
        REBUILD_FILE@
    } else {
        INDEX_FILE@
    }
}

/// What follows once the index is saved or needs no saving: a rebuilt
/// snapshot takes the place of the live one only when its crawl is complete.
pub open spec fn after_save(s: SyncView) -> SyncActionView {
    if s.complete && s.rebuild {
        SyncActionView::Rename
    } else {
        SyncActionView::Measure
    }
}

/// What follows between two pages.
pub open spec fn go_on(s: SyncView, limits: SyncLimits, now: u64) -> SyncActionView {
    if wants_page(s, limits, now) {
        SyncActionView::Fetch(s.url)
    } else if s.dirty {
        SyncActionView::Save { file: target_file(s) }
    } else {
        after_save(s)
    }
}

/// What is kept of a tick.
pub open spec fn stats_of(
    s: SyncView,
    now: u64,
    items_per_sec: JsonView,
    at: u64,
) -> SyncStatsView {
    SyncStatsView {
        applied: s.applied as u64,
        pages: s.pages as u64,
        complete: s.complete,
        duration_ms: elapsed(s.started, now) as u64,
        resync: s.resync,
        items_per_sec,
        at,
        has_token: s.index.delta_token is Some,
        target: target_file(s),
    }
}

/// What is reported of a tick.
pub open spec fn report_of(s: SyncView, now: u64, items_per_sec: JsonView) -> JsonView {
    JsonView::Object(
        Map::empty().insert("applied"@, JsonView::Number(decimal(s.applied as nat))).insert(
            "pages"@,
            JsonView::Number(decimal(s.pages as nat)),
        ).insert("complete"@, JsonView::Bool(s.complete)).insert(
            "has_token"@,
            JsonView::Bool(s.index.delta_token is Some),
        ).insert("duration_ms"@, JsonView::Number(decimal(elapsed(s.started, now) as nat))).insert(
            "resync"@,
            JsonView::Bool(s.resync),
        ).insert("target"@, JsonView::Text(target_file(s))).insert(
            "items_per_sec"@,
            items_per_sec,
        ),
    )
}

/// The tick after an event, and what follows.
pub open spec fn sync_next(
    s: SyncView,
    limits: SyncLimits,
    drive_base: Seq<char>,
    event: SyncEvent,
) -> (SyncView, SyncActionView) {
    match event {
        SyncEvent::Begun { now } => (s, go_on(s, limits, now)),
        SyncEvent::Page { page: Ok(page), now } => {
            let t = paged(s, page@);
            (t, go_on(t, limits, now))
        },
        SyncEvent::Page { page: Err(DeltaError::Resync), now } => (
            resynced(s, drive_base),
            SyncActionView::Reload,
        ),
        SyncEvent::Page { page: Err(DeltaError::Other(e)), now } => (
            s,
            SyncActionView::Done(Err(e@)),
        ),
        SyncEvent::Reloaded { live, now } => {
            let t = SyncView { rebuild: is_served(live), ..s };
            (t, go_on(t, limits, now))
        },
        SyncEvent::Saved(Err(e)) => (s, SyncActionView::Done(Err(e@))),
        SyncEvent::Saved(Ok(_)) => (s, after_save(s)),
        SyncEvent::Renamed(Err(e)) => (s, SyncActionView::Done(Err(e@))),
        SyncEvent::Renamed(Ok(_)) => (SyncView { rebuild: false, ..s }, SyncActionView::Measure),
        SyncEvent::Measured { now, items_per_sec, at } => (
            s,
            SyncActionView::Done(
                Ok(
                    (
                        stats_of(s, now, json_view(items_per_sec), at),
                        report_of(s, now, json_view(items_per_sec)),
                    ),
                ),
            ),
        ),
    }
}

impl Sync {
    fn file(&self) -> (r: &'static str)
        ensures
            r@ == target_file(self@),
    {
        if self.rebuild {
            REBUILD_FILE
        } else {
            INDEX_FILE
        }
    }

    fn saved(&self) -> (r: SyncAction)
        ensures
            r@ == after_save(self@),
    {
        if self.complete && self.rebuild {
            SyncAction::Rename
        } else {
            SyncAction::Measure
        }
    }

    fn go_on(&self, limits: SyncLimits, now: u64) -> (r: SyncAction)
        ensures
            r@ == go_on(self@, limits, now),
    {
        let late = self.duration_ms(now) >= limits.budget_ms && self.pages > 0;
        if !self.ended && self.pages < limits.max_pages && !late {
            SyncAction::Fetch(self.url.clone())
        } else if self.dirty {
            SyncAction::Save { file: self.file() }
        } else {
            self.saved()
        }
    }

    fn apply_items(&mut self, items: &Vec<DeltaItem>)
        requires
            old(self).applied + items@.len() <= usize::MAX,
        ensures
            final(self)@ == (SyncView {
                index: applied_all(old(self)@.index, delta_views(items@)),
                applied: old(self)@.applied + items@.len(),
                ..old(self)@
            }),
    {
        let ghost start = self@;
        let ghost all = delta_views(items@);
        let n = items.len();
        for i in 0..n
            invariant
                n == items@.len(),
                all == delta_views(items@),
                start.applied + items@.len() <= usize::MAX,
                self@ == (SyncView {
                    index: applied_all(start.index, all.take(i as int)),
                    applied: start.applied + i,
                    ..start
                }),
        {
            assert(all.take(i + 1).drop_last() =~= all.take(i as int));
            assert(all.take(i + 1).last() == items@[i as int]@);
            self.index.apply(items[i].clone());
            self.applied = self.applied + 1;
        }
        assert(all.take(n as int) =~= all);
    }

    fn apply_page(&mut self, page: DeltaPage)
        requires
            old(self).applied + page.items@.len() <= usize::MAX,
            old(self).pages < usize::MAX,
        ensures
            final(self)@ == paged(old(self)@, page@),
    {
        let ghost start = self@;
        let ghost view = page@;
        self.pages = self.pages + 1;
        if page.items.len() > 0 {
            self.dirty = true;
        }
        self.apply_items(&page.items);
        let ghost index = self.index@;
        match page.next_link {
            Some(next) => {
                if !opt_is(&self.index.pending_next_link, next.as_str()) {
                    self.dirty = true;
                }
                self.index.pending_next_link = Some(next.clone());
                self.index.crawl_complete = false;
                self.complete = false;
                self.url = next;
                assert(self.index@ =~= IndexView {
                    pending_next_link: view.next_link,
                    crawl_complete: false,
                    ..index
                });
            },
            None => {
                if !opt_eq(&self.index.delta_token, &page.delta_token)
                    || self.index.pending_next_link.is_some() {
                    self.dirty = true;
                }
                self.index.pending_next_link = None;
                if page.delta_token.is_some() {
                    self.index.delta_token = page.delta_token;
                }
                self.index.crawl_complete = true;
                assert(self.index@ =~= IndexView {
                    pending_next_link: None,
                    delta_token: match view.delta_token {
                        Some(token) => Some(token),
                        None => index.delta_token,
                    },
                    crawl_complete: true,
                    ..index
                });
                self.index.sweep_orphans();
                self.complete = true;
                self.ended = true;
            },
        }
    }

    fn start_over(&mut self, drive_base: &str)
        requires
            old(self).pages < usize::MAX,
        ensures
            final(self)@ == resynced(old(self)@, drive_base@),
    {
        let generation = self.index.generation.saturating_add(1);
        let mut fresh = Index::default();
        fresh.generation = generation;
        self.index = fresh;
        self.url = initial_delta_url(drive_base);
        self.pages = self.pages + 1;
        self.dirty = true;
        self.resync = true;
        self.complete = false;
    }

    /// How long the tick has run, in milliseconds.
    pub fn duration_ms(&self, now: u64) -> (r: u64)
        ensures
            r == elapsed(self@.started, now),
    {
        now.saturating_sub(self.started)
    }

    fn report(&self, now: u64, items_per_sec: Value, at: u64) -> (r: SyncAction)
        ensures
            r@ == SyncActionView::Done(
                Ok(
                    (
                        stats_of(self@, now, json_view(items_per_sec), at),
                        report_of(self@, now, json_view(items_per_sec)),
                    ),
                ),
            ),
    {
        let has_token = self.index.delta_token.is_some();
        let duration_ms = self.duration_ms(now);
        let o = json_object();
        let o = json_set(o, "applied", json_uint(self.applied as u64));
        let o = json_set(o, "pages", json_uint(self.pages as u64));
        let o = json_set(o, "complete", json_bool(self.complete));
        let o = json_set(o, "has_token", json_bool(has_token));
        let o = json_set(o, "duration_ms", json_uint(duration_ms));
        let o = json_set(o, "resync", json_bool(self.resync));
        let o = json_set(o, "target", json_string(self.file()));
        let report = json_set(o, "items_per_sec", json_copy(&items_per_sec));
        let stats = SyncStats {
            applied: self.applied as u64,
            pages: self.pages as u64,
            complete: self.complete,
            duration_ms,
            resync: self.resync,
            items_per_sec,
            at,
            has_token,
            target: self.file().to_owned(),
        };
        SyncAction::Done(Ok(SyncReport { stats, report }))
    }
}

/// Goes on with a sync tick after an event.
pub fn run_inner(state: &mut Sync, limits: SyncLimits, drive_base: &str, event: SyncEvent) -> (r:
    SyncAction)
    requires
        event is Page ==> old(state).pages < usize::MAX,
        event matches SyncEvent::Page { page: Ok(page), now } ==> old(state).applied
            + page.items@.len() <= usize::MAX,
    ensures
        final(state)@ == sync_next(old(state)@, limits, drive_base@, event).0,
        r@ == sync_next(old(state)@, limits, drive_base@, event).1,
{
    match event {
        SyncEvent::Begun { now } => state.go_on(limits, now),
        SyncEvent::Page { page: Ok(page), now } => {
            state.apply_page(page);
            state.go_on(limits, now)
        },
        SyncEvent::Page { page: Err(DeltaError::Resync), now: _ } => {
            state.start_over(drive_base);
            SyncAction::Reload
        },
        SyncEvent::Page { page: Err(DeltaError::Other(e)), now: _ } => SyncAction::Done(Err(e)),
        SyncEvent::Reloaded { live, now } => {
            state.rebuild = match live {
                Ok(Some(ix)) => ix.crawl_complete || ix.root.is_some(),
                _ => false,
            };
            state.go_on(limits, now)
        },
        SyncEvent::Saved(Err(e)) => SyncAction::Done(Err(e)),
        SyncEvent::Saved(Ok(_)) => state.saved(),
        SyncEvent::Renamed(Err(e)) => SyncAction::Done(Err(e)),
        SyncEvent::Renamed(Ok(_)) => {
            state.rebuild = false;
            SyncAction::Measure
        },
        SyncEvent::Measured { now, items_per_sec, at } => state.report(now, items_per_sec, at),
    }
}

/// A response with a JSON body.
pub open spec fn json_response(value: JsonView) -> DavView {
    body_response(200, "application/json"@, encode_utf8(json_text(value)))
}

/// A response with a JSON body.
pub(crate) fn json_ok(value: &Value) -> (r: DavResponse)
    ensures
        r@ == json_response(json_view(*value)),
{
    let text = json_to_string(value);
    DavResponse::plain(200, "application/json", bytes_of(text.as_str()))
}

/// How far a sync request is.
#[derive(Debug)]
pub enum RunStep {
    Start,
    Finished(Result<Value, String>),
}

/// What to do next in a sync request.
#[derive(Debug)]
pub enum RunAction {
    Sync,
    Respond(DavResponse),
}

/// What a [`RunAction`] stands for.
pub enum RunActionView {
    Sync,
    Respond(DavView),
}

impl View for RunAction {
    type V = RunActionView;

    open spec fn view(&self) -> RunActionView {
        match *self {
            RunAction::Sync => RunActionView::Sync,
            RunAction::Respond(r) => RunActionView::Respond(r@),
        }
    }
}

/// What is said when there is no index.
pub open spec fn skipped() -> JsonView {
    JsonView::Object(
        Map::empty().insert("skipped"@, JsonView::Bool(true)).insert(
            "reason"@,
            JsonView::Text("index disabled"@),
        ),
    )
}

/// What a sync request does next.
pub open spec fn run_next(index_enabled: bool, step: RunStep) -> RunActionView {
    match step {
        RunStep::Start => if index_enabled {
            RunActionView::Sync
        } else {
            RunActionView::Respond(json_response(skipped()))
        },
        RunStep::Finished(Ok(report)) => RunActionView::Respond(json_response(json_view(report))),
        RunStep::Finished(Err(e)) => RunActionView::Respond(text_response(502, e@)),
    }
}

/// Handles a sync request.
pub fn run(index_enabled: bool, step: RunStep) -> (r: RunAction)
    ensures
        r@ == run_next(index_enabled, step),
{
    match step {
        RunStep::Start => {
            if index_enabled {
                RunAction::Sync
            } else {
                let o = json_set(json_object(), "skipped", json_bool(true));
                let o = json_set(o, "reason", json_string("index disabled"));
                RunAction::Respond(json_ok(&o))
            }
        },
        RunStep::Finished(Ok(report)) => RunAction::Respond(json_ok(&report)),
        RunStep::Finished(Err(e)) => RunAction::Respond(DavResponse::error(502, e)),
    }
}

} // verus!
