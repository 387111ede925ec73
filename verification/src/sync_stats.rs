//! The last sync tick, persisted because each request is a fresh instance with
//! no surviving in-memory state.
use serde_json::Value;
use vstd::prelude::*;
use vstd::string::*;
use crate::json::{json_copy, json_view, JsonView};
use crate::state_file::{atomic_next, write_atomic, AtomicAction, AtomicStep, AtomicStepView};

verus! {

/// File name of the persisted tick.
pub const STATS_FILE: &'static str = "sync_stats.json";

/// What the last sync tick did.
#[derive(Debug)]
pub struct SyncStats {
    pub applied: u64,
    pub pages: u64,
    pub complete: bool,
    pub duration_ms: u64,
    pub resync: bool,
    /// Items applied per second, as a JSON number.
    pub items_per_sec: Value,
    pub at: u64,
    pub has_token: bool,
    pub target: String,
}

/// What a [`SyncStats`] stands for.
pub struct SyncStatsView {
    pub applied: u64,
    pub pages: u64,
    pub complete: bool,
    pub duration_ms: u64,
    pub resync: bool,
    pub items_per_sec: JsonView,
    pub at: u64,
    pub has_token: bool,
    pub target: Seq<char>,
}

impl View for SyncStats {
    type V = SyncStatsView;

    open spec fn view(&self) -> SyncStatsView {
        SyncStatsView {
            applied: self.applied,
            pages: self.pages,
            complete: self.complete,
            duration_ms: self.duration_ms,
            resync: self.resync,
            items_per_sec: json_view(self.items_per_sec),
            at: self.at,
            has_token: self.has_token,
            target: self.target@,
        }
    }
}

impl Clone for SyncStats {
    fn clone(&self) -> (r: Self)
        ensures
            r@ == self@,
    {
        SyncStats {
            applied: self.applied,
            pages: self.pages,
            complete: self.complete,
            duration_ms: self.duration_ms,
            resync: self.resync,
            items_per_sec: json_copy(&self.items_per_sec),
            at: self.at,
            has_token: self.has_token,
            target: self.target.clone(),
        }
    }
}

/// Whether `r` is how the tick with these contents begins to be saved.
pub open spec fn is_saved_tick(
    json: Result<Vec<u8>, String>,
    r: Result<(Vec<u8>, AtomicAction), String>,
) -> bool {
    match (r, json) {
        (Ok((bytes, action)), Ok(data)) => bytes == data && action@ == atomic_next(
            STATS_FILE@,
            AtomicStepView::Start,
        ),
        (Err(a), Err(b)) => a == b,
        _ => false,
    }
}

/// Begins to save a tick, given the outcome of serialising it: the contents of
/// the file, and the first action of writing it atomically.
pub fn save(json: Result<Vec<u8>, String>) -> (r: Result<(Vec<u8>, AtomicAction), String>)
    ensures
        is_saved_tick(json, r),
{
    match json {
        Ok(bytes) => Ok((bytes, write_atomic(STATS_FILE, AtomicStep::Start))),
        Err(e) => Err(e),
    }
}

/// Whether `r` is what the outcomes of reading and of parsing the file amount
/// to.
pub open spec fn is_last_tick(
    read: Result<Option<Vec<u8>>, String>,
    parsed: Result<SyncStats, String>,
    r: Result<Option<SyncStats>, String>,
) -> bool {
    match read {
        Err(e) => r matches Err(f) && f == e,
        Ok(None) => r matches Ok(None),
        Ok(Some(_)) => match parsed {
            Ok(stats) => r matches Ok(Some(s)) && s == stats,
            Err(e) => r matches Err(f) && f@ == "sync_stats.json: "@ + e@,
        },
    }
}

/// Turns the outcome of reading the file, and of parsing what was read, into
/// the last tick; a file that is not there is no tick.
pub fn load(read: Result<Option<Vec<u8>>, String>, parsed: Result<SyncStats, String>) -> (r: Result<
    Option<SyncStats>,
    String,
>)
    ensures
        is_last_tick(read, parsed, r),
{
    match read {
        Err(e) => Err(e),
        Ok(None) => Ok(None),
        Ok(Some(_)) => match parsed {
            Ok(stats) => Ok(Some(stats)),
            Err(e) => Err("sync_stats.json: ".to_owned().concat(e.as_str())),
        },
    }
}

} // verus!
