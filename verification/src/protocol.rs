//! What the library and its host say to each other.
//!
//! The library performs no system call. It hands the host one [`Request`] at a time and is
//! handed back a [`Reply`]. The host reports a failed call by a number of its own choosing, under
//! which it can find the error again.
//!
//! What a computation does is stated as a function of the replies: see [`Io`] and [`Run`].

use vstd::prelude::*;

verus! {

/// A byte string in specifications.
pub type Text = Seq<u8>;

/// What kind of file a directory entry or a path is.
#[derive(Debug, Clone, Copy, PartialEq, Eq, Structural)]
pub enum FileKind {
    File,
    Dir,
    Symlink,
    CharDevice,
    Other,
}

/// What a `stat` call tells of a file.
#[derive(Debug, Clone, Copy, PartialEq, Eq, Structural)]
pub struct Metadata {
    pub kind: FileKind,
    /// The device number, where the file is a device.
    pub rdev: u64,
    /// The `st_mode` field, file type included.
    pub mode: u32,
    pub uid: u32,
    pub gid: u32,
}

/// One entry of a directory. The kind is missing where the host could not tell it; the number
/// then names the host's error.
#[derive(Debug, PartialEq, Eq)]
pub struct Entry<S> {
    pub name: S,
    pub kind: Result<FileKind, u64>,
}

/// One call that the host is to make. `S` is `Vec<u8>` at run time and `Seq<u8>` in
/// specifications.
#[derive(Debug, PartialEq, Eq)]
pub enum Request<S> {
    /// Whether something stands at the path, symbolic links followed.
    Exists(S),
    /// Whether a directory stands at the path, symbolic links followed.
    IsDir(S),
    /// Whether the path itself is a symbolic link.
    IsSymlink(S),
    /// The entries of a directory.
    ListDir(S),
    /// The metadata of the path itself.
    Lstat(S),
    /// The metadata of what the path leads to.
    Stat(S),
    /// The value of an extended attribute of the path itself.
    GetXattr { path: S, name: S },
    /// The contents of a text file.
    ReadText(S),
    /// What a symbolic link points to.
    ReadLink(S),
    /// The security label of the path itself.
    GetLabel(S),
    /// Create an empty file, or empty an existing one.
    CreateFile(S),
    /// Create a directory.
    CreateDir(S),
    /// Create a directory and its missing parents.
    CreateDirAll(S),
    /// Make sure that a directory exists.
    EnsureDir(S),
    /// Create a symbolic link at `link` that points to `target`.
    MakeSymlink { target: S, link: S },
    /// Set the permission bits of a path.
    SetMode { path: S, mode: u32 },
    /// Set the owner of a path.
    SetOwner { path: S, uid: u32, gid: u32 },
    /// Set the security label of the path itself.
    SetLabel { path: S, label: S },
    /// Make `source` visible at `target` too.
    BindMount { source: S, target: S },
    /// Move the mount at `source` to `target`.
    MoveMount { source: S, target: S },
    /// Keep mounts below the path from spreading.
    MakePrivate(S),
    /// Mount an empty memory file system at the path.
    MountTmpfs(S),
    /// Mount an overlay file system with the given options.
    MountOverlay { target: S, options: S },
    /// Detach what is mounted at the path.
    Unmount(S),
    /// Remove a file.
    RemoveFile(S),
    /// Remove an empty directory.
    RemoveDir(S),
    /// Remove a directory with all that it holds.
    RemoveTree(S),
}

/// The host's answer to a request, at run time.
#[derive(Debug, PartialEq, Eq)]
pub enum Reply {
    /// The call was made.
    Done,
    /// The call failed; the number names the host's error.
    Failed(u64),
    /// The answer to a question.
    Flag(bool),
    /// An attribute, a label, a text or the target of a link.
    Data(Vec<u8>),
    /// What a `stat` call told.
    Stat(Metadata),
    /// The entries of a directory in the order in which they were read; `None` stands for one
    /// that could not be read.
    Listing(Vec<Option<Entry<Vec<u8>>>>),
}

/// The host's answer to a request, in specifications.
pub enum ReplyView {
    Done,
    Failed(u64),
    Flag(bool),
    Data(Text),
    Stat(Metadata),
    Listing(Seq<Option<Entry<Text>>>),
}

/// A task that is named where it fails.
#[derive(Debug, PartialEq, Eq)]
pub enum Task<S> {
    /// A node is mounted in the directory `path`.
    MagicMount { path: S, name: S },
    /// An entry of the device's directory `path` is mirrored.
    MountMirror { path: S, name: S },
    /// A directory that is built anew is made a mount of its own.
    BindSelf,
    /// A directory that was built anew is moved over the device's.
    MoveSelf,
    /// A directory that was moved is kept private.
    MakeSelfPrivate,
    /// The memory file system is mounted.
    MountTmp,
    /// The memory file system is kept private.
    MakeTmpPrivate,
    /// The overlay of a partition is mounted.
    MountOverlay { partition: S },
}

/// Why a computation ended without success.
#[derive(Debug, PartialEq, Eq)]
pub enum Error<S> {
    /// A task failed, because of the inner error.
    Within(Task<S>, Box<Error<S>>),
    /// A call of the host failed; the number names the host's error.
    Failed(u64),
    /// The host's reply was of a kind that does not answer the request.
    WrongReply,
    /// A directory is to be built where nothing stands and no module provides it.
    RootDir(S),
    /// A file is to be mounted that no module provides.
    RootFile(S),
    /// A symbolic link is to be created that no module provides.
    RootSymlink(S),
    /// A directory is to be replaced that no module provides.
    ReplacedRoot(S),
    /// The name of a module is not UTF-8.
    ModuleName(S),
    /// The kernel does not know the overlay file system.
    NoOverlay,
    /// The mount options hold a zero byte.
    OptionsWithNul,
}

impl View for Entry<Vec<u8>> {
    type V = Entry<Text>;

    open spec fn view(&self) -> Entry<Text> {
        Entry { name: self.name@, kind: self.kind }
    }
}

impl View for Request<Vec<u8>> {
    type V = Request<Text>;

    open spec fn view(&self) -> Request<Text> {
        match self {
            Request::Exists(p) => Request::Exists(p@),
            Request::IsDir(p) => Request::IsDir(p@),
            Request::IsSymlink(p) => Request::IsSymlink(p@),
            Request::ListDir(p) => Request::ListDir(p@),
            Request::Lstat(p) => Request::Lstat(p@),
            Request::Stat(p) => Request::Stat(p@),
            Request::GetXattr { path, name } => Request::GetXattr { path: path@, name: name@ },
            Request::ReadText(p) => Request::ReadText(p@),
            Request::ReadLink(p) => Request::ReadLink(p@),
            Request::GetLabel(p) => Request::GetLabel(p@),
            Request::CreateFile(p) => Request::CreateFile(p@),
            Request::CreateDir(p) => Request::CreateDir(p@),
            Request::CreateDirAll(p) => Request::CreateDirAll(p@),
            Request::EnsureDir(p) => Request::EnsureDir(p@),
            Request::MakeSymlink { target, link } => Request::MakeSymlink {
                target: target@,
                link: link@,
            },
            Request::SetMode { path, mode } => Request::SetMode { path: path@, mode: *mode },
            Request::SetOwner { path, uid, gid } => Request::SetOwner {
                path: path@,
                uid: *uid,
                gid: *gid,
            },
            Request::SetLabel { path, label } => Request::SetLabel { path: path@, label: label@ },
            Request::BindMount { source, target } => Request::BindMount {
                source: source@,
                target: target@,
            },
            Request::MoveMount { source, target } => Request::MoveMount {
                source: source@,
                target: target@,
            },
            Request::MakePrivate(p) => Request::MakePrivate(p@),
            Request::MountTmpfs(p) => Request::MountTmpfs(p@),
            Request::MountOverlay { target, options } => Request::MountOverlay {
                target: target@,
                options: options@,
            },
            Request::Unmount(p) => Request::Unmount(p@),
            Request::RemoveFile(p) => Request::RemoveFile(p@),
            Request::RemoveDir(p) => Request::RemoveDir(p@),
            Request::RemoveTree(p) => Request::RemoveTree(p@),
        }
    }
}

/// The view of an entry that may be missing.
pub open spec fn entry_view(entry: Option<Entry<Vec<u8>>>) -> Option<Entry<Text>> {
    match entry {
        Some(e) => Some(e@),
        None => None,
    }
}

/// The views of the entries of a list.
pub open spec fn entries_view(entries: Seq<Entry<Vec<u8>>>) -> Seq<Entry<Text>> {
    entries.map_values(|e: Entry<Vec<u8>>| e@)
}

impl View for Reply {
    type V = ReplyView;

    open spec fn view(&self) -> ReplyView {
        match self {
            Reply::Done => ReplyView::Done,
            Reply::Failed(id) => ReplyView::Failed(*id),
            Reply::Flag(b) => ReplyView::Flag(*b),
            Reply::Data(d) => ReplyView::Data(d@),
            Reply::Stat(m) => ReplyView::Stat(*m),
            Reply::Listing(l) => ReplyView::Listing(
                l@.map_values(|e: Option<Entry<Vec<u8>>>| entry_view(e)),
            ),
        }
    }
}

impl View for Task<Vec<u8>> {
    type V = Task<Text>;

    open spec fn view(&self) -> Task<Text> {
        match self {
            Task::MagicMount { path, name } => Task::MagicMount { path: path@, name: name@ },
            Task::MountMirror { path, name } => Task::MountMirror { path: path@, name: name@ },
            Task::BindSelf => Task::BindSelf,
            Task::MoveSelf => Task::MoveSelf,
            Task::MakeSelfPrivate => Task::MakeSelfPrivate,
            Task::MountTmp => Task::MountTmp,
            Task::MakeTmpPrivate => Task::MakeTmpPrivate,
            Task::MountOverlay { partition } => Task::MountOverlay { partition: partition@ },
        }
    }
}

/// The view of an error.
pub open spec fn error_view(error: Error<Vec<u8>>) -> Error<Text>
    decreases error,
{
    match error {
        Error::Within(task, inner) => Error::Within(task@, Box::new(error_view(*inner))),
        Error::Failed(id) => Error::Failed(id),
        Error::WrongReply => Error::WrongReply,
        Error::RootDir(p) => Error::RootDir(p@),
        Error::RootFile(p) => Error::RootFile(p@),
        Error::RootSymlink(p) => Error::RootSymlink(p@),
        Error::ReplacedRoot(p) => Error::ReplacedRoot(p@),
        Error::ModuleName(p) => Error::ModuleName(p@),
        Error::NoOverlay => Error::NoOverlay,
        Error::OptionsWithNul => Error::OptionsWithNul,
    }
}

impl View for Error<Vec<u8>> {
    type V = Error<Text>;

    open spec fn view(&self) -> Error<Text> {
        error_view(*self)
    }
}

/// The entries of a listing that could be read, in order.
pub open spec fn readable(listing: Seq<Option<Entry<Text>>>) -> Seq<Entry<Text>>
    decreases listing.len(),
{
    if listing.len() == 0 {
        Seq::empty()
    } else {
        match listing.last() {
            Some(e) => readable(listing.drop_last()).push(e),
            None => readable(listing.drop_last()),
        }
    }
}

/// The number of entries from `i` on.
pub open spec fn still_to_come(entries: Seq<Entry<Text>>, i: int) -> nat {
    if i <= entries.len() {
        (entries.len() - i) as nat
    } else {
        0
    }
}

/// What a reply says to a yes-or-no question. A host that could not find out says no.
pub open spec fn flag_of(reply: ReplyView) -> bool {
    reply == ReplyView::Flag(true)
}

/// Whether a call succeeded, and why not.
pub open spec fn done_of(reply: ReplyView) -> Result<(), Error<Text>> {
    match reply {
        ReplyView::Done => Ok(()),
        ReplyView::Failed(id) => Err(Error::Failed(id)),
        _ => Err(Error::WrongReply),
    }
}

/// The bytes that a call returned, or why there are none.
pub open spec fn data_of(reply: ReplyView) -> Result<Text, Error<Text>> {
    match reply {
        ReplyView::Data(d) => Ok(d),
        ReplyView::Failed(id) => Err(Error::Failed(id)),
        _ => Err(Error::WrongReply),
    }
}

/// The metadata that a call returned, or why there is none.
pub open spec fn stat_of(reply: ReplyView) -> Result<Metadata, Error<Text>> {
    match reply {
        ReplyView::Stat(m) => Ok(m),
        ReplyView::Failed(id) => Err(Error::Failed(id)),
        _ => Err(Error::WrongReply),
    }
}

/// The entries that a call returned, those left out that could not be read, or why there are
/// none.
pub open spec fn listing_of(reply: ReplyView) -> Result<Seq<Entry<Text>>, Error<Text>> {
    match reply {
        ReplyView::Listing(l) => Ok(readable(l)),
        ReplyView::Failed(id) => Err(Error::Failed(id)),
        _ => Err(Error::WrongReply),
    }
}

impl Reply {
    /// Reads the reply to a yes-or-no question.
    pub fn into_flag(self) -> (yes: bool)
        ensures
            yes == flag_of(self@),
    {
        match self {
            Reply::Flag(b) => b,
            _ => false,
        }
    }

    /// Reads the reply to a call that returns nothing.
    pub fn into_done(self) -> (result: Result<(), Error<Vec<u8>>>)
        ensures
            result is Ok <==> done_of(self@) is Ok,
            result matches Err(e) ==> done_of(self@) == Err::<(), Error<Text>>(e@),
    {
        match self {
            Reply::Done => Ok(()),
            Reply::Failed(id) => Err(Error::Failed(id)),
            _ => Err(Error::WrongReply),
        }
    }

    /// Reads the reply to a call that returns bytes.
    pub fn into_data(self) -> (result: Result<Vec<u8>, Error<Vec<u8>>>)
        ensures
            result matches Ok(d) ==> data_of(self@) == Ok::<Text, Error<Text>>(d@),
            result matches Err(e) ==> data_of(self@) == Err::<Text, Error<Text>>(e@),
    {
        match self {
            Reply::Data(d) => Ok(d),
            Reply::Failed(id) => Err(Error::Failed(id)),
            _ => Err(Error::WrongReply),
        }
    }

    /// Reads the reply to a `stat` call.
    pub fn into_stat(self) -> (result: Result<Metadata, Error<Vec<u8>>>)
        ensures
            result matches Ok(m) ==> stat_of(self@) == Ok::<Metadata, Error<Text>>(m),
            result matches Err(e) ==> stat_of(self@) == Err::<Metadata, Error<Text>>(e@),
    {
        match self {
            Reply::Stat(m) => Ok(m),
            Reply::Failed(id) => Err(Error::Failed(id)),
            _ => Err(Error::WrongReply),
        }
    }

    /// Reads the reply to a call that lists a directory.
    pub fn into_listing(self) -> (result: Result<Vec<Entry<Vec<u8>>>, Error<Vec<u8>>>)
        ensures
            result matches Ok(l) ==> listing_of(self@) == Ok::<Seq<Entry<Text>>, Error<Text>>(
                entries_view(l@),
            ),
            result matches Err(e) ==> listing_of(self@) == Err::<Seq<Entry<Text>>, Error<Text>>(
                e@,
            ),
    {
        match self {
            Reply::Listing(l) => Ok(keep_readable(l)),
            Reply::Failed(id) => Err(Error::Failed(id)),
            _ => Err(Error::WrongReply),
        }
    }
}

/// Leaves out the entries that could not be read.
fn keep_readable(listing: Vec<Option<Entry<Vec<u8>>>>) -> (entries: Vec<Entry<Vec<u8>>>)
    ensures
        entries_view(entries@) == readable(
            listing@.map_values(|e: Option<Entry<Vec<u8>>>| entry_view(e)),
        ),
{
    let ghost all = listing@.map_values(|e: Option<Entry<Vec<u8>>>| entry_view(e));
    let ghost raw = listing@;
    let mut entries: Vec<Entry<Vec<u8>>> = Vec::new();
    let mut listing = listing;
    let mut i: usize = 0;
    let n: usize = listing.len();
    while i < n
        invariant
            i <= n,
            n == listing.len() == raw.len() == all.len(),
            forall|j: int| i <= j < n ==> listing@[j] == raw[j],
            all == raw.map_values(|e: Option<Entry<Vec<u8>>>| entry_view(e)),
            entries_view(entries@) =~= readable(all.take(i as int)),
        decreases n - i,
    {
        let mut slot: Option<Entry<Vec<u8>>> = None;
        std::mem::swap(&mut slot, &mut listing[i]);
        proof {
            assert(all.take(i + 1).drop_last() =~= all.take(i as int));
            assert(all[i as int] == entry_view(raw[i as int]));
        }
        match slot {
            Some(e) => {
                let ghost before = entries@;
                entries.push(e);
                assert(entries_view(entries@) =~= entries_view(before).push(e@));
            },
            None => {},
        }
        i += 1;
    }
    assert(all.take(n as int) =~= all);
    entries
}

/// The state of a conversation with a host: what has been asked so far, and the replies that are
/// still to come.
pub struct Io {
    pub asked: Seq<Request<Text>>,
    pub rest: Seq<ReplyView>,
}

/// How far a computation came with the replies that there were.
pub enum Outcome<T> {
    /// It ended and returned a value.
    Done(T),
    /// It ended with an error.
    Fail(Error<Text>),
    /// It waits for the reply to the request that was asked last.
    Waiting,
}

/// What a computation did: the conversation as it left it, and how far it came.
pub struct Run<T> {
    pub io: Io,
    pub out: Outcome<T>,
}

/// A computation that returns at once.
pub open spec fn done<T>(io: Io, value: T) -> Run<T> {
    Run { io, out: Outcome::Done(value) }
}

/// A computation that fails at once.
pub open spec fn fail<T>(io: Io, error: Error<Text>) -> Run<T> {
    Run { io, out: Outcome::Fail(error) }
}

/// The error of a task that failed.
pub open spec fn in_task(task: Task<Text>, error: Error<Text>) -> Error<Text> {
    Error::Within(task, Box::new(error))
}

/// What made the innermost of nested tasks fail.
pub open spec fn cause(error: Error<Text>) -> Error<Text>
    decreases error,
{
    match error {
        Error::Within(_, inner) => cause(*inner),
        _ => error,
    }
}

/// The same computation as part of a task, which its error names.
pub open spec fn noted<T>(task: Task<Text>, run: Run<T>) -> Run<T> {
    match run.out {
        Outcome::Fail(e) => fail(run.io, in_task(task, e)),
        _ => run,
    }
}

/// A computation that waits for a reply.
pub open spec fn waiting<T>(io: Io) -> Run<T> {
    Run { io, out: Outcome::Waiting }
}

/// Asks the host: the request is noted, and the next reply is taken if there is one.
pub open spec fn ask(io: Io, request: Request<Text>) -> Run<ReplyView> {
    let asked = io.asked.push(request);
    if io.rest.len() == 0 {
        waiting(Io { asked, rest: io.rest })
    } else {
        done(Io { asked, rest: io.rest.drop_first() }, io.rest[0])
    }
}

/// A computation that waits for a reply.
pub trait Machine: Sized {
    /// What it returns in the end.
    type Value: View;

    /// What it does once the reply is there.
    spec fn after(self, reply: ReplyView, io: Io) -> Run<<Self::Value as View>::V>;
}

/// Where a computation stands: it asks for something, or it has ended.
pub enum Turn<M: Machine> {
    /// The host is to answer the request; the machine goes on with the reply.
    Ask(Request<Vec<u8>>, M),
    /// The computation has ended with a value.
    Done(M::Value),
    /// The computation has ended with an error.
    Fail(Error<Vec<u8>>),
}

impl<M: Machine> Turn<M> {
    /// What the computation does from here on, given a conversation to carry on.
    pub open spec fn means(self, io: Io) -> Run<<M::Value as View>::V> {
        match self {
            Turn::Ask(request, machine) => {
                let run = ask(io, request@);
                match run.out {
                    Outcome::Done(reply) => machine.after(reply, run.io),
                    Outcome::Fail(e) => fail(run.io, e),
                    Outcome::Waiting => waiting(run.io),
                }
            },
            Turn::Done(value) => done(io, value@),
            Turn::Fail(error) => fail(io, error@),
        }
    }
}

} // verus!
