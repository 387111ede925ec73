//! Reading and writing single files inside the preopened `/state` directory:
//! the decisions between the host's file operations.
use vstd::prelude::*;
use vstd::string::*;
use crate::text::{decimal, decimal_text};

verus! {

/// Number of bytes asked for in one read of a file.
pub const FILE_CHUNK: u64 = 65536;

/// A file read under way: what was read so far, where the next read starts,
/// and where reading ends (`None` for the end of the file).
#[derive(Debug)]
pub struct FileRead {
    pub contents: Vec<u8>,
    pub pos: u64,
    pub end: Option<u64>,
}

/// What a [`FileRead`] stands for.
pub struct FileReadView {
    pub contents: Seq<u8>,
    pub pos: u64,
    pub end: Option<u64>,
}

impl View for FileRead {
    type V = FileReadView;

    open spec fn view(&self) -> FileReadView {
        FileReadView { contents: self.contents@, pos: self.pos, end: self.end }
    }
}

/// What a file operation for reading gave.
#[derive(Debug)]
pub enum ReadEvent {
    /// The file could not be opened.
    NotOpened,
    Opened,
    Chunk { bytes: Vec<u8>, eof: bool },
    Failed(String),
}

/// What to do next when reading: read a range, or end. `None` means that
/// there is no file.
#[derive(Debug)]
pub enum ReadAction {
    Read { len: u64, offset: u64 },
    Done(Result<Option<Vec<u8>>, String>),
}

/// What a [`ReadAction`] stands for.
pub enum ReadActionView {
    Read { len: u64, offset: u64 },
    Done(Result<Option<Seq<u8>>, Seq<char>>),
}

impl View for ReadAction {
    type V = ReadActionView;

    open spec fn view(&self) -> ReadActionView {
        match *self {
            ReadAction::Read { len, offset } => ReadActionView::Read { len, offset },
            ReadAction::Done(Ok(Some(data))) => ReadActionView::Done(Ok(Some(data@))),
            ReadAction::Done(Ok(None)) => ReadActionView::Done(Ok(None)),
            ReadAction::Done(Err(e)) => ReadActionView::Done(Err(e@)),
        }
    }
}

/// The read of a whole file, before it begins.
pub open spec fn whole_file() -> FileReadView {
    FileReadView { contents: Seq::empty(), pos: 0, end: None }
}

/// The read of up to `len` bytes from `offset` on, before it begins.
pub open spec fn file_range(offset: u64, len: u64) -> FileReadView {
    FileReadView {
        contents: Seq::empty(),
        pos: offset,
        end: Some(
            if offset + len > u64::MAX {
                u64::MAX
            } else {
                (offset + len) as u64
            },
        ),
    }
}

/// The next read: up to a chunk, but not beyond the end.
pub open spec fn next_read(st: FileReadView) -> ReadActionView {
    match st.end {
        None => ReadActionView::Read { len: FILE_CHUNK, offset: st.pos },
        Some(end) => if st.pos >= end {
            ReadActionView::Done(Ok(Some(st.contents)))
        } else if end - st.pos < FILE_CHUNK {
            ReadActionView::Read { len: (end - st.pos) as u64, offset: st.pos }
        } else {
            ReadActionView::Read { len: FILE_CHUNK, offset: st.pos }
        },
    }
}

/// The read after a chunk has come.
pub open spec fn with_chunk(st: FileReadView, bytes: Seq<u8>) -> FileReadView {
    FileReadView {
        contents: st.contents + bytes,
        pos: (st.pos + bytes.len()) as u64,
        end: st.end,
    }
}

/// What is reported when reading fails.
pub open spec fn read_failure(name: Seq<char>, st: FileReadView, detail: Seq<char>) -> Seq<char> {
    match st.end {
        None => "failed reading "@ + name + ": "@ + detail,
        Some(_) => "failed reading "@ + name + " at "@ + decimal(st.pos as nat) + ": "@ + detail,
    }
}

/// Starts to read a whole file.
pub fn read_file() -> (r: FileRead)
    ensures
        r@ == whole_file(),
{
    FileRead { contents: Vec::new(), pos: 0, end: None }
}

/// Starts to read up to `len` bytes from `offset` on.
pub fn read_at(offset: u64, len: u64) -> (r: FileRead)
    ensures
        r@ == file_range(offset, len),
{
    FileRead { contents: Vec::new(), pos: offset, end: Some(offset.saturating_add(len)) }
}

/// What a read of the file `name` does after an event.
pub open spec fn read_next(name: Seq<char>, st: FileReadView, event: ReadEvent) -> ReadActionView {
    match event {
        ReadEvent::NotOpened => ReadActionView::Done(Ok(None)),
        ReadEvent::Opened => next_read(st),
        ReadEvent::Failed(detail) => ReadActionView::Done(Err(read_failure(name, st, detail@))),
        ReadEvent::Chunk { bytes, eof } => if eof || bytes@.len() == 0 {
            ReadActionView::Done(Ok(Some(st.contents + bytes@)))
        } else {
            next_read(with_chunk(st, bytes@))
        },
    }
}

/// A read under way after an event.
pub open spec fn read_state(st: FileReadView, event: ReadEvent) -> FileReadView {
    match event {
        ReadEvent::Chunk { bytes, eof } => with_chunk(st, bytes@),
        _ => st,
    }
}

impl FileRead {
    fn next(&mut self) -> (r: ReadAction)
        ensures
            r@ == next_read(old(self)@),
            r@ is Read ==> final(self)@ == old(self)@,
    {
        match self.end {
            None => ReadAction::Read { len: FILE_CHUNK, offset: self.pos },
            Some(end) => {
                if self.pos >= end {
                    let mut data: Vec<u8> = Vec::new();
                    std::mem::swap(&mut data, &mut self.contents);
                    ReadAction::Done(Ok(Some(data)))
                } else if end - self.pos < FILE_CHUNK {
                    ReadAction::Read { len: end - self.pos, offset: self.pos }
                } else {
                    ReadAction::Read { len: FILE_CHUNK, offset: self.pos }
                }
            },
        }
    }

    /// Goes on reading the file `name`. A file that cannot be opened counts
    /// as missing; the end of the file or an empty chunk ends the read.
    pub fn step(&mut self, name: &str, event: ReadEvent) -> (r: ReadAction)
        requires
            event matches ReadEvent::Chunk { bytes, eof } ==> old(self).pos + bytes@.len()
                <= u64::MAX,
        ensures
            r@ == read_next(name@, old(self)@, event),
            r@ is Read ==> final(self)@ == read_state(old(self)@, event),
    {
        match event {
            ReadEvent::NotOpened => ReadAction::Done(Ok(None)),
            ReadEvent::Opened => self.next(),
            ReadEvent::Failed(detail) => {
                let mut e = "failed reading ".to_owned();
                e.append(name);
                if self.end.is_some() {
                    e.append(" at ");
                    e.append(decimal_text(self.pos).as_str());
                }
                e.append(": ");
                e.append(detail.as_str());
                ReadAction::Done(Err(e))
            },
            ReadEvent::Chunk { bytes, eof } => {
                let n = bytes.len();
                let mut bytes = bytes;
                let mut data: Vec<u8> = Vec::new();
                std::mem::swap(&mut data, &mut self.contents);
                data.append(&mut bytes);
                if eof || n == 0 {
                    ReadAction::Done(Ok(Some(data)))
                } else {
                    self.contents = data;
                    self.pos = self.pos + n as u64;
                    self.next()
                }
            },
        }
    }
}

/// Whether the chunk is what a file with these bytes gives for a read: bytes
/// from the asked position on, not more than asked for, none only at the end,
/// and the end mark only at the end.
pub open spec fn honest_chunk(
    file: Seq<u8>,
    offset: u64,
    len: u64,
    bytes: Seq<u8>,
    eof: bool,
) -> bool {
    &&& bytes.len() <= len
    &&& bytes.len() > 0 ==> offset + bytes.len() <= file.len() && bytes == file.subrange(
        offset as int,
        offset + bytes.len(),
    )
    &&& bytes.len() == 0 ==> offset >= file.len()
    &&& eof ==> offset + bytes.len() >= file.len()
}

/// Whether a read under way holds the file's bytes from `start` on.
pub open spec fn read_so_far(file: Seq<u8>, start: u64, st: FileReadView) -> bool {
    &&& st.pos == start + st.contents.len()
    &&& st.contents.len() > 0 ==> st.pos <= file.len() && st.contents == file.subrange(
        start as int,
        st.pos as int,
    )
}

/// The bytes that a file has in a range; all from `start` on without an end.
pub open spec fn file_part(file: Seq<u8>, start: u64, end: Option<u64>) -> Seq<u8> {
    let n = file.len() as int;
    let a = if start < n {
        start as int
    } else {
        n
    };
    let b = match end {
        Some(e) => if e < n {
            e as int
        } else {
            n
        },
        None => n,
    };
    if a < b {
        file.subrange(a, b)
    } else {
        Seq::empty()
    }
}

/// Reading from a file in whatever chunks it gives ends with exactly the bytes
/// that the file has in the range.
pub proof fn law_read_is_exact(
    file: Seq<u8>,
    start: u64,
    st: FileReadView,
    bytes: Seq<u8>,
    eof: bool,
)
    requires
        read_so_far(file, start, st),
        st.end matches Some(e) ==> st.pos <= e && start <= e,
        next_read(st) matches ReadActionView::Read { len, offset } ==> honest_chunk(
            file,
            offset,
            len,
            bytes,
            eof,
        ) && st.pos + bytes.len() <= u64::MAX,
    ensures
        match next_read(st) {
            ReadActionView::Done(r) => r == Ok::<Option<Seq<u8>>, Seq<char>>(
                Some(file_part(file, start, st.end)),
            ),
            ReadActionView::Read { len, offset } => if eof || bytes.len() == 0 {
                st.contents + bytes == file_part(file, start, st.end)
            } else {
                read_so_far(file, start, with_chunk(st, bytes)) && (st.end matches Some(e)
                    ==> with_chunk(st, bytes).pos <= e)
            },
        },
{
    let c = st.contents;
    let part = file_part(file, start, st.end);
    match next_read(st) {
        ReadActionView::Done(r) => {
            assert(c =~= part);
        },
        ReadActionView::Read { len, offset } => {
            if eof || bytes.len() == 0 {
                assert(c + bytes =~= part);
            } else {
                assert(c + bytes =~= file.subrange(start as int, st.pos + bytes.len()));
            }
        },
    }
}

/// What a file operation for writing gave.
#[derive(Debug)]
pub enum WriteEvent {
    /// The file could not be opened.
    NotOpened(String),
    Opened,
    Written(u64),
    Failed(String),
}

/// What to do next when writing: write the contents from a position on to the
/// same position of the file, or end.
#[derive(Debug)]
pub enum WriteAction {
    Write { from: u64 },
    Done(Result<(), String>),
}

/// What a [`WriteAction`] stands for.
pub enum WriteActionView {
    Write { from: u64 },
    Done(Result<(), Seq<char>>),
}

impl View for WriteAction {
    type V = WriteActionView;

    open spec fn view(&self) -> WriteActionView {
        match *self {
            WriteAction::Write { from } => WriteActionView::Write { from },
            WriteAction::Done(Ok(_)) => WriteActionView::Done(Ok(())),
            WriteAction::Done(Err(e)) => WriteActionView::Done(Err(e@)),
        }
    }
}

/// The next write once `done` bytes are written.
pub open spec fn next_write(len: nat, done: u64) -> WriteActionView {
    if done < len {
        WriteActionView::Write { from: done }
    } else {
        WriteActionView::Done(Ok(()))
    }
}

/// What a write of `len` bytes to the file `name`, of which `done` are written,
/// does after an event.
pub open spec fn write_next(
    name: Seq<char>,
    len: nat,
    done: u64,
    event: WriteEvent,
) -> WriteActionView {
    match event {
        WriteEvent::NotOpened(detail) => WriteActionView::Done(
            Err("failed opening "@ + name + " for write: "@ + detail@),
        ),
        WriteEvent::Opened => next_write(len, done),
        WriteEvent::Failed(detail) => WriteActionView::Done(
            Err("failed writing "@ + name + ": "@ + detail@),
        ),
        WriteEvent::Written(n) => if n == 0 {
            WriteActionView::Done(Err("short write to "@ + name))
        } else {
            next_write(len, (done + n) as u64)
        },
    }
}

/// Goes on writing `contents` to the file `name`, of which `done` bytes are
/// written. A write of no bytes is an error.
pub fn write_file(name: &str, contents: &[u8], done: u64, event: WriteEvent) -> (r: WriteAction)
    requires
        event matches WriteEvent::Written(n) ==> done + n <= u64::MAX,
    ensures
        r@ == write_next(name@, contents@.len(), done, event),
{
    let done = match event {
        WriteEvent::NotOpened(detail) => {
            let mut e = "failed opening ".to_owned();
            e.append(name);
            e.append(" for write: ");
            e.append(detail.as_str());
            return WriteAction::Done(Err(e));
        },
        WriteEvent::Failed(detail) => {
            let mut e = "failed writing ".to_owned();
            e.append(name);
            e.append(": ");
            e.append(detail.as_str());
            return WriteAction::Done(Err(e));
        },
        WriteEvent::Opened => done,
        WriteEvent::Written(n) => {
            if n == 0 {
                return WriteAction::Done(Err("short write to ".to_owned().concat(name)));
            }
            done + n
        },
    };
    if done < contents.len() as u64 {
        WriteAction::Write { from: done }
    } else {
        WriteAction::Done(Ok(()))
    }
}

/// How far an atomic write is.
#[derive(Debug)]
pub enum AtomicStep {
    Start,
    /// The temporary file was written, or not.
    Written(Result<(), String>),
    /// The temporary file was renamed, or not.
    Renamed(Result<(), String>),
    /// The temporary file was taken away after a failure.
    Unlinked { error: String },
}

/// What an [`AtomicStep`] stands for.
pub enum AtomicStepView {
    Start,
    Written(Result<(), Seq<char>>),
    Renamed(Result<(), Seq<char>>),
    Unlinked { error: Seq<char> },
}

impl View for AtomicStep {
    type V = AtomicStepView;

    open spec fn view(&self) -> AtomicStepView {
        match *self {
            AtomicStep::Start => AtomicStepView::Start,
            AtomicStep::Written(Ok(_)) => AtomicStepView::Written(Ok(())),
            AtomicStep::Written(Err(e)) => AtomicStepView::Written(Err(e@)),
            AtomicStep::Renamed(Ok(_)) => AtomicStepView::Renamed(Ok(())),
            AtomicStep::Renamed(Err(detail)) => AtomicStepView::Renamed(Err(detail@)),
            AtomicStep::Unlinked { error } => AtomicStepView::Unlinked { error: error@ },
        }
    }
}

/// What to do next in an atomic write.
#[derive(Debug)]
pub enum AtomicAction {
    Write { file: String },
    Rename { from: String, to: String },
    Unlink { file: String, error: String },
    Done(Result<(), String>),
}

/// What an [`AtomicAction`] stands for.
pub enum AtomicActionView {
    Write { file: Seq<char> },
    Rename { from: Seq<char>, to: Seq<char> },
    Unlink { file: Seq<char>, error: Seq<char> },
    Done(Result<(), Seq<char>>),
}

impl View for AtomicAction {
    type V = AtomicActionView;

    open spec fn view(&self) -> AtomicActionView {
        match *self {
            AtomicAction::Write { file } => AtomicActionView::Write { file: file@ },
            AtomicAction::Rename { from, to } => AtomicActionView::Rename { from: from@, to: to@ },
            AtomicAction::Unlink { file, error } => AtomicActionView::Unlink {
                file: file@,
                error: error@,
            },
            AtomicAction::Done(Ok(_)) => AtomicActionView::Done(Ok(())),
            AtomicAction::Done(Err(e)) => AtomicActionView::Done(Err(e@)),
        }
    }
}

/// The name of the temporary file.
pub open spec fn temp_name(name: Seq<char>) -> Seq<char> {
    name + ".tmp"@
}

/// What is reported when renaming fails.
pub open spec fn rename_failure(from: Seq<char>, to: Seq<char>, detail: Seq<char>) -> Seq<char> {
    "failed renaming "@ + from + " -> "@ + to + ": "@ + detail
}

/// What an atomic write of `name` does after a step.
pub open spec fn atomic_next(name: Seq<char>, step: AtomicStepView) -> AtomicActionView {
    match step {
        AtomicStepView::Start => AtomicActionView::Write { file: temp_name(name) },
        AtomicStepView::Written(Err(e)) => AtomicActionView::Done(Err(e)),
        AtomicStepView::Written(Ok(_)) => AtomicActionView::Rename {
            from: temp_name(name),
            to: name,
        },
        AtomicStepView::Renamed(Ok(_)) => AtomicActionView::Done(Ok(())),
        AtomicStepView::Renamed(Err(detail)) => AtomicActionView::Unlink {
            file: temp_name(name),
            error: rename_failure(temp_name(name), name, detail),
        },
        AtomicStepView::Unlinked { error } => AtomicActionView::Done(Err(error)),
    }
}

/// Writes `name` by way of a temporary file, so that readers never see a
/// truncated file: `name` itself is only ever touched by a rename of a
/// temporary file that was written completely.
pub fn write_atomic(name: &str, step: AtomicStep) -> (r: AtomicAction)
    ensures
        r@ == atomic_next(name@, step@),
{
    let tmp = name.to_owned().concat(".tmp");
    match step {
        AtomicStep::Start => AtomicAction::Write { file: tmp },
        AtomicStep::Written(Err(e)) => AtomicAction::Done(Err(e)),
        AtomicStep::Written(Ok(_)) => AtomicAction::Rename { from: tmp, to: name.to_owned() },
        AtomicStep::Renamed(Ok(_)) => AtomicAction::Done(Ok(())),
        AtomicStep::Renamed(Err(detail)) => {
            let error = rename_error(tmp.as_str(), name, detail.as_str());
            AtomicAction::Unlink { file: tmp, error }
        },
        AtomicStep::Unlinked { error } => AtomicAction::Done(Err(error)),
    }
}

fn rename_error(from: &str, to: &str, detail: &str) -> (r: String)
    ensures
        r@ == rename_failure(from@, to@, detail@),
{
    let mut e = "failed renaming ".to_owned();
    e.append(from);
    e.append(" -> ");
    e.append(to);
    e.append(": ");
    e.append(detail);
    e
}

/// The outcome of renaming a file, given what the host said.
pub fn rename(from: &str, to: &str, outcome: Result<(), String>) -> (r: Result<(), String>)
    ensures
        match (outcome, r) {
            (Ok(_), Ok(_)) => true,
            (Err(detail), Err(e)) => e@ == rename_failure(from@, to@, detail@),
            _ => false,
        },
{
    match outcome {
        Ok(_) => Ok(()),
        Err(detail) => Err(rename_error(from, to, detail.as_str())),
    }
}

} // verus!
