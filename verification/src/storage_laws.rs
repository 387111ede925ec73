//! Laws of what is kept on disk: a file is read and written completely, and what
//! was saved is what is loaded.
use vstd::prelude::*;
use crate::auth::TOKEN_FILE;
use crate::http_client::{leads_to, Pending, PendingAction};
use crate::index::{removed_at, resolved, Index, IndexView};
use crate::index_laws::{consistent, law_remove_is_recursive, root_on_top};
use crate::resolve_laws::law_remove_then_resolve;
use crate::snapshot::{
    first_read, is_loaded, is_saved, meta_values, worth_saving, LookupActionView, LookupStateView,
    SnapshotMeta, INDEX_FILE, REBUILD_FILE,
};
use crate::snapshot_laws::{fits, is_tree, law_snapshot_round_trip, same_tree};
use crate::state_file::{
    file_part, file_range, honest_chunk, law_read_is_exact, next_read, read_next, read_so_far,
    read_state, temp_name, whole_file, write_next, AtomicAction, AtomicActionView, FileReadView,
    ReadActionView, ReadEvent, WriteActionView, WriteEvent,
};
use crate::sync::{begins, SnapshotStats, Sync};
use crate::sync_stats::{is_last_tick, is_saved_tick, SyncStats, STATS_FILE};

verus! {

/// A read after a series of events, and what it does next.
pub open spec fn read_run(name: Seq<char>, first: FileReadView, events: Seq<ReadEvent>) -> (
    FileReadView,
    ReadActionView,
)
    decreases events.len(),
{
    if events.len() == 0 {
        (first, ReadActionView::Done(Ok(None)))
    } else {
        let st = read_run(name, first, events.drop_last()).0;
        (read_state(st, events.last()), read_next(name, st, events.last()))
    }
}

/// Whether the events are those of a read from a file with these bytes: it is
/// opened, and then gives what is asked for.
pub open spec fn is_read(
    file: Seq<u8>,
    name: Seq<char>,
    first: FileReadView,
    events: Seq<ReadEvent>,
) -> bool
    decreases events.len(),
{
    if events.len() == 0 {
        false
    } else if events.len() == 1 {
        events[0] is Opened
    } else {
        is_read(file, name, first, events.drop_last()) && match (
            read_run(name, first, events.drop_last()).1,
            events.last(),
        ) {
            (
                ReadActionView::Read { len, offset },
                ReadEvent::Chunk { bytes, eof },
            ) => honest_chunk(file, offset, len, bytes@, eof),
            _ => false,
        }
    }
}

proof fn lemma_read_run(
    file: Seq<u8>,
    name: Seq<char>,
    start: u64,
    first: FileReadView,
    events: Seq<ReadEvent>,
)
    requires
        file.len() <= u64::MAX,
        first.contents.len() == 0,
        first.pos == start,
        first.end matches Some(e) ==> start <= e,
        is_read(file, name, first, events),
    ensures
        ({
            let (st, action) = read_run(name, first, events);
            &&& st.end == first.end
            &&& action is Read ==> action == next_read(st) && read_so_far(file, start, st) && (
            st.end matches Some(e) ==> st.pos <= e)
            &&& action matches ReadActionView::Done(r) ==> r == Ok::<Option<Seq<u8>>, Seq<char>>(
                Some(file_part(file, start, first.end)),
            )
        }),
    decreases events.len(),
{
    let front = events.drop_last();
    if events.len() == 1 {
        reveal_with_fuel(read_run, 2);
        assert(front =~= Seq::<ReadEvent>::empty());
        if next_read(first) is Done {
            law_read_is_exact(file, start, first, Seq::empty(), true);
        }
    } else {
        lemma_read_run(file, name, start, first, front);
        let st = read_run(name, first, front).0;
        if let ReadEvent::Chunk { bytes, eof } = events.last() {
            law_read_is_exact(file, start, st, bytes@, eof);
            if !eof && bytes@.len() > 0 {
                let more = crate::state_file::with_chunk(st, bytes@);
                if next_read(more) is Done {
                    law_read_is_exact(file, start, more, Seq::empty(), true);
                }
            }
        }
    }
}

/// Reading a file gives all of it, and reading a range gives what the file has
/// in that range, in whatever chunks it comes.
pub proof fn law_read_gives_the_file(
    file: Seq<u8>,
    name: Seq<char>,
    offset: u64,
    len: u64,
    whole: Seq<ReadEvent>,
    part: Seq<ReadEvent>,
)
    requires
        file.len() <= u64::MAX,
        is_read(file, name, whole_file(), whole),
        is_read(file, name, file_range(offset, len), part),
    ensures
        read_run(name, whole_file(), whole).1 matches ReadActionView::Done(r) ==> r == Ok::<
            Option<Seq<u8>>,
            Seq<char>,
        >(Some(file)),
        offset + len <= file.len() ==> (read_run(name, file_range(offset, len), part).1 matches
            ReadActionView::Done(r) ==> r == Ok::<Option<Seq<u8>>, Seq<char>>(
            Some(file.subrange(offset as int, offset + len)),
        )),
        offset <= file.len() < offset + len ==> (read_run(
            name,
            file_range(offset, len),
            part,
        ).1 matches ReadActionView::Done(r) ==> r == Ok::<Option<Seq<u8>>, Seq<char>>(
            Some(file.subrange(offset as int, file.len() as int)),
        )),
{
    lemma_read_run(file, name, 0, whole_file(), whole);
    lemma_read_run(file, name, offset, file_range(offset, len), part);
    assert(file_part(file, 0, None) =~= file);
    if offset + len <= file.len() {
        assert(file_part(file, offset, file_range(offset, len).end) =~= file.subrange(
            offset as int,
            offset + len,
        ));
    } else if offset <= file.len() {
        assert(file_part(file, offset, file_range(offset, len).end) =~= file.subrange(
            offset as int,
            file.len() as int,
        ));
    }
}

/// A file that cannot be opened is not there; a read that fails says so. A read
/// asks for at most 64 KiB from where it stands, and not beyond its end.
pub proof fn law_read_steps(name: Seq<char>, st: FileReadView, detail: String, offset: u64, len: u64)
    ensures
        read_next(name, st, ReadEvent::NotOpened) matches ReadActionView::Done(Ok(None)),
        read_next(name, st, ReadEvent::Failed(detail)) matches ReadActionView::Done(Err(_)),
        st.end is None ==> read_next(name, st, ReadEvent::Failed(detail)) == ReadActionView::Done(
            Err::<Option<Seq<u8>>, Seq<char>>("failed reading "@ + name + ": "@ + detail@),
        ),
        read_next(name, whole_file(), ReadEvent::Opened) == (ReadActionView::Read {
            len: 65536,
            offset: 0,
        }),
        len > 0 && offset + len <= u64::MAX ==> read_next(
            name,
            file_range(offset, len),
            ReadEvent::Opened,
        ) == (ReadActionView::Read {
            len: if len < 65536 {
                len
            } else {
                65536
            },
            offset,
        }),
{
}

/// Writing goes on from where the last write ended until all is written; a write
/// of nothing and any failure end it with an error.
pub proof fn law_write_steps(name: Seq<char>, len: nat, done: u64, n: u64, detail: String)
    requires
        done + n <= u64::MAX,
    ensures
        done < len ==> write_next(name, len, done, WriteEvent::Opened) == (WriteActionView::Write {
            from: done,
        }),
        done >= len ==> (write_next(name, len, done, WriteEvent::Opened) matches
            WriteActionView::Done(Ok(_))),
        n > 0 && done + n < len ==> (write_next(name, len, done, WriteEvent::Written(n)) matches
            WriteActionView::Write { from } && from == done + n),
        n > 0 && done + n >= len ==> (write_next(name, len, done, WriteEvent::Written(n)) matches
            WriteActionView::Done(Ok(_))),
        n == 0 ==> (write_next(name, len, done, WriteEvent::Written(n)) matches
            WriteActionView::Done(Err(e)) && e == "short write to "@ + name),
        write_next(name, len, done, WriteEvent::Failed(detail)) matches WriteActionView::Done(Err(e))
            && e == "failed writing "@ + name + ": "@ + detail@,
        write_next(name, len, done, WriteEvent::NotOpened(detail)) matches
            WriteActionView::Done(Err(e)) && e == "failed opening "@ + name + " for write: "@
            + detail@,
{
}

/// An index that is saved is loaded again from the bytes that were saved: the
/// same tree, at the same place of the feed. It is first written to a temporary
/// file.
pub proof fn law_saved_is_loaded(
    name: Seq<char>,
    s: IndexView,
    json: Vec<u8>,
    meta: SnapshotMeta,
    bytes: Vec<u8>,
    action: AtomicAction,
    r: Result<Option<Index>, String>,
)
    requires
        is_tree(s),
        fits(s, json@),
        meta@ == meta_values(s),
        is_saved(name, s, Ok(json), Ok((bytes, action))),
        is_loaded(Ok(Some(bytes)), Ok(meta), r),
    ensures
        r matches Ok(Some(ix)) && same_tree(s, ix@),
        action@ == (AtomicActionView::Write { file: name + ".tmp"@ }),
{
    law_snapshot_round_trip(s, json@);
}

/// A snapshot that is not there is no index, one that cannot be read is an
/// error, and nothing is saved of an index whose meta section cannot be written.
pub proof fn law_load_and_save_failures(
    name: Seq<char>,
    s: IndexView,
    error: String,
    meta: Result<SnapshotMeta, String>,
    r: Result<Option<Index>, String>,
    w: Result<(Vec<u8>, AtomicAction), String>,
)
    ensures
        is_loaded(Ok(None), meta, r) ==> (r matches Ok(None)),
        is_loaded(Err(error), meta, r) ==> (r matches Err(e) && e == error),
        is_saved(name, s, Err(error), w) ==> (w matches Err(e) && e == error),
{
}

/// Only a patch that reports a change is saved.
pub proof fn law_patch(index: Index)
    ensures
        worth_saving((index, true)) == Some(index),
        worth_saving((index, false)) is None,
{
}

/// The last tick is what its file says; without a file there is none. It is
/// saved as it was serialised, by way of a temporary file.
pub proof fn law_last_tick(
    bytes: Vec<u8>,
    stats: SyncStats,
    error: String,
    parsed: Result<SyncStats, String>,
    action: AtomicAction,
    data: Vec<u8>,
    r: Result<Option<SyncStats>, String>,
)
    ensures
        is_last_tick(Ok(Some(bytes)), Ok(stats), r) ==> (r matches Ok(Some(s)) && s == stats),
        is_last_tick(Ok(Some(bytes)), Err(error), r) ==> (r matches Err(e) && e@
            == "sync_stats.json: "@ + error@),
        is_last_tick(Ok(None), parsed, r) ==> (r matches Ok(None)),
        is_last_tick(Err(error), parsed, r) ==> (r matches Err(e) && e == error),
        is_saved_tick(Ok(data), Ok((bytes, action))) ==> bytes == data && action@ == (
        AtomicActionView::Write { file: "sync_stats.json.tmp"@ }),
        !is_saved_tick(Err(error), Ok((bytes, action))),
        !is_saved_tick(Ok(data), Err(error)),
{
    reveal_strlit("sync_stats.json.tmp");
    reveal_strlit("sync_stats.json");
    reveal_strlit(".tmp");
    assert("sync_stats.json"@ + ".tmp"@ =~= "sync_stats.json.tmp"@);
}

/// A lookup in the file begins with its header.
pub proof fn law_lookup_begins_with_header()
    ensures
        first_read() == (LookupActionView::Read {
            offset: 0,
            len: 32,
            next: LookupStateView::Header,
        }),
{
}

/// A removal by path takes away what is there, and says whether there was
/// anything.
pub proof fn law_removal_by_path(s: IndexView, path: Seq<char>)
    requires
        consistent(s),
        root_on_top(s),
    ensures
        removed_at(s, path).1 <==> resolved(s, path) is Some,
        resolved(s, path) is None ==> removed_at(s, path).0 == s,
        resolved(removed_at(s, path).0, path) is None,
        resolved(s, path) matches Some(id) ==> !removed_at(s, path).0.nodes.dom().contains(id),
{
    if resolved(s, path) is Some {
        law_remove_then_resolve(s, path);
        law_remove_is_recursive(s, resolved(s, path)->0);
    }
}

/// A response that is not there yet is waited for, one that is there is read,
/// and one that cannot be had is a failure.
pub proof fn law_pending_response(detail: String, r: PendingAction)
    ensures
        leads_to(Pending::NotReady, r) <==> r is Poll,
        leads_to(Pending::Ready, r) <==> r is ReadBody,
        leads_to(Pending::Consumed, r) ==> r is Fail,
        leads_to(Pending::Failed(detail), r) ==> (r matches PendingAction::Fail(e) && e@
            == "transport error: "@ + detail@),
{
}

/// A tick begins if both snapshots could be looked at, and fails with what went
/// wrong if not. It goes on with the snapshot that is being rebuilt if there is
/// one, and it needs saving from the beginning if the live one is outdated.
pub proof fn law_tick_begins(
    live: Result<Option<Index>, String>,
    rebuild: Result<Option<Index>, String>,
    stats: Result<Option<SnapshotStats>, String>,
    drive_base: Seq<char>,
    started: u64,
    r: Result<Sync, String>,
)
    requires
        begins(live, rebuild, stats, drive_base, started, r),
    ensures
        r is Ok <==> live is Ok && rebuild is Ok,
        live matches Err(e) ==> (r matches Err(f) && f == e),
        live is Ok ==> (rebuild matches Err(e) ==> (r matches Err(f) && f == e)),
        r matches Ok(t) ==> {
            let index = match (rebuild->Ok_0, live->Ok_0) {
                (Some(ix), _) => ix@,
                (None, Some(ix)) => ix@,
                (None, None) => crate::index::empty_index(),
            };
            &&& t@.index == index
            &&& t@.rebuild == (rebuild->Ok_0 is Some)
            &&& t@.started == started
            &&& t@.dirty <==> (stats matches Ok(Some(st)) && (st.meta.built_at == 0
                || st.meta.crawl_complete && st.total_dirs == 0))
            &&& index.pending_next_link matches Some(link) ==> t@.url == link
        },
{
}

/// Each thing that is kept has a file of its own, whose temporary file is none of
/// the others.
pub proof fn law_files_are_distinct()
    ensures
        TOKEN_FILE@ == "token.json"@,
        INDEX_FILE@ == "index.bin"@,
        REBUILD_FILE@ == "index.rebuild.bin"@,
        STATS_FILE@ == "sync_stats.json"@,
        ({
            let files = seq![TOKEN_FILE@, INDEX_FILE@, REBUILD_FILE@, STATS_FILE@];
            forall|i: int, j: int|
                0 <= i < files.len() && 0 <= j < files.len() ==> temp_name(#[trigger] files[i])
                    != #[trigger] files[j] && (i != j ==> files[i] != files[j])
        }),
{
    reveal_strlit("token.json");
    reveal_strlit("index.bin");
    reveal_strlit("index.rebuild.bin");
    reveal_strlit("sync_stats.json");
    reveal_strlit(".tmp");
    let files = seq![TOKEN_FILE@, INDEX_FILE@, REBUILD_FILE@, STATS_FILE@];
    assert forall|i: int, j: int|
        0 <= i < files.len() && 0 <= j < files.len() implies temp_name(#[trigger] files[i])
        != #[trigger] files[j] && (i != j ==> files[i] != files[j]) by {
        assert(temp_name(files[i]).last() == 'p');
        assert(files[j].last() != 'p');
        assert(files[0].len() == 10 && files[1].len() == 9 && files[2].len() == 17
            && files[3].len() == 15);
    }
}

} // verus!
