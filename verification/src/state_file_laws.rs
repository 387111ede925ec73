//! What writing a file leaves in its directory, whatever fails on the way.
use vstd::prelude::*;
use crate::state_file::{
    atomic_next, next_write, temp_name, AtomicActionView, AtomicStepView, WriteActionView,
};

verus! {

/// A file that takes at least one and at most all of the bytes offered by each
/// write holds, after each write, just what counts as written, and holds the
/// whole contents when the writing ends.
pub proof fn law_write_is_complete(contents: Seq<u8>, file: Seq<u8>, done: u64, n: u64)
    requires
        done <= contents.len() <= u64::MAX,
        file == contents.take(done as int),
        next_write(contents.len(), done) is Write ==> 0 < n <= contents.len() - done,
    ensures
        match next_write(contents.len(), done) {
            WriteActionView::Write { from } => {
                &&& from == file.len()
                &&& file + contents.subrange(from as int, from + n) == contents.take(
                    done + n,
                )
            },
            WriteActionView::Done(r) => r is Ok && file == contents,
        },
{
    match next_write(contents.len(), done) {
        WriteActionView::Write { from } => {
            assert(file + contents.subrange(from as int, from + n) =~= contents.take(done + n));
        },
        WriteActionView::Done(r) => {
            assert(file =~= contents);
        },
    }
}

/// How an action of an atomic write went: whether it succeeded, what a failed
/// write or unlink left of the temporary file, and the host's error.
pub struct Fate {
    pub ok: bool,
    pub left: Option<Seq<u8>>,
    pub detail: Seq<char>,
}

/// The files of a directory in which a failed action left this of a file.
pub open spec fn left_over(
    files: Map<Seq<char>, Seq<u8>>,
    file: Seq<char>,
    left: Option<Seq<u8>>,
) -> Map<Seq<char>, Seq<u8>> {
    match left {
        Some(bytes) => files.insert(file, bytes),
        None => files.remove(file),
    }
}

/// The files of a directory after an action of an atomic write of `contents`.
pub open spec fn after_action(
    files: Map<Seq<char>, Seq<u8>>,
    action: AtomicActionView,
    contents: Seq<u8>,
    fate: Fate,
) -> Map<Seq<char>, Seq<u8>> {
    match action {
        AtomicActionView::Write { file } => if fate.ok {
            files.insert(file, contents)
        } else {
            left_over(files, file, fate.left)
        },
        AtomicActionView::Rename { from, to } => if fate.ok {
            files.insert(to, files[from]).remove(from)
        } else {
            files
        },
        AtomicActionView::Unlink { file, error } => if fate.ok {
            files.remove(file)
        } else {
            left_over(files, file, fate.left)
        },
        AtomicActionView::Done(_) => files,
    }
}

/// The step that an action leads to; none from the end.
pub open spec fn step_after(action: AtomicActionView, fate: Fate) -> Option<AtomicStepView> {
    let outcome: Result<(), Seq<char>> = if fate.ok {
        Ok(())
    } else {
        Err(fate.detail)
    };
    match action {
        AtomicActionView::Write { file } => Some(AtomicStepView::Written(outcome)),
        AtomicActionView::Rename { from, to } => Some(AtomicStepView::Renamed(outcome)),
        AtomicActionView::Unlink { file, error } => Some(AtomicStepView::Unlinked { error }),
        AtomicActionView::Done(_) => None,
    }
}

/// The files of a directory, and what is to be done next, after some actions
/// of an atomic write.
pub open spec fn atomic_run(
    files: Map<Seq<char>, Seq<u8>>,
    name: Seq<char>,
    contents: Seq<u8>,
    fates: Seq<Fate>,
) -> (Map<Seq<char>, Seq<u8>>, AtomicActionView)
    decreases fates.len(),
{
    if fates.len() == 0 {
        (files, atomic_next(name, AtomicStepView::Start))
    } else {
        let (now, action) = atomic_run(files, name, contents, fates.drop_last());
        (
            after_action(now, action, contents, fates.last()),
            match step_after(action, fates.last()) {
                Some(step) => atomic_next(name, step),
                None => action,
            },
        )
    }
}

/// What a reader of a file gets.
pub open spec fn seen(files: Map<Seq<char>, Seq<u8>>, name: Seq<char>) -> Option<Seq<u8>> {
    if files.dom().contains(name) {
        Some(files[name])
    } else {
        None
    }
}

/// At every moment of an atomic write, whatever fails, a reader of the file
/// sees either what it held before or the whole of its new contents: the
/// latter if the write ended well, the former if it failed. A write that ended
/// well leaves no temporary file, and no file but this one and its temporary
/// file is touched.
pub proof fn law_readers_see_whole_files(
    files: Map<Seq<char>, Seq<u8>>,
    name: Seq<char>,
    contents: Seq<u8>,
    fates: Seq<Fate>,
)
    ensures
        ({
            let (now, action) = atomic_run(files, name, contents, fates);
            &&& seen(now, name) == seen(files, name) || seen(now, name) == Some(contents)
            &&& action matches AtomicActionView::Done(r) ==> (if r is Ok {
                seen(now, name) == Some(contents) && !now.dom().contains(temp_name(name))
            } else {
                seen(now, name) == seen(files, name)
            })
            &&& forall|other: Seq<char>|
                other != name && other != temp_name(name) ==> #[trigger] seen(now, other) == seen(
                    files,
                    other,
                )
        }),
{
    lemma_atomic_run(files, name, contents, fates);
}

/// What each action of an atomic write finds in the directory.
proof fn lemma_atomic_run(
    files: Map<Seq<char>, Seq<u8>>,
    name: Seq<char>,
    contents: Seq<u8>,
    fates: Seq<Fate>,
)
    ensures
        ({
            let (now, action) = atomic_run(files, name, contents, fates);
            &&& match action {
                AtomicActionView::Write { file } => file == temp_name(name) && seen(now, name)
                    == seen(files, name),
                AtomicActionView::Rename { from, to } => from == temp_name(name) && to == name
                    && seen(now, from) == Some(contents) && seen(now, name) == seen(files, name),
                AtomicActionView::Unlink { file, error } => file == temp_name(name) && seen(
                    now,
                    name,
                ) == seen(files, name),
                AtomicActionView::Done(Ok(_)) => seen(now, name) == Some(contents)
                    && !now.dom().contains(temp_name(name)),
                AtomicActionView::Done(Err(_)) => seen(now, name) == seen(files, name),
            }
            &&& forall|other: Seq<char>|
                other != name && other != temp_name(name) ==> #[trigger] seen(now, other) == seen(
                    files,
                    other,
                )
        }),
    decreases fates.len(),
{
    reveal_strlit(".tmp");
    assert(temp_name(name).len() == name.len() + 4);
    if fates.len() > 0 {
        lemma_atomic_run(files, name, contents, fates.drop_last());
        let (before, action) = atomic_run(files, name, contents, fates.drop_last());
        let now = after_action(before, action, contents, fates.last());
        assert forall|other: Seq<char>| other != name && other != temp_name(name) implies
            #[trigger] seen(now, other) == seen(files, other) by {
            assert(seen(before, other) == seen(files, other));
        }
    }
}

} // verus!
