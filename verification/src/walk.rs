//! The operations of the store that add what stands at a path, or what comes
//! from standard input.

use vstd::pervasive::unreached;
use vstd::prelude::*;
use vstd::slice::*;

use crate::directory::fresh_frame;
use crate::directory::open_request;
use crate::directory::walk_accepts;
use crate::directory::walk_step;
use crate::directory::DirectoryWalk;
use crate::directory::FrameView;
use crate::error::path_missing;
use crate::error::unsupported_type;
use crate::error::Error;
use crate::error::ErrorView;
use crate::journal::add_record;
use crate::journal::stdin_path;
use crate::journal::JournalEntry;
use crate::journal::JournalEntryView;
use crate::metadata::FileType;
use crate::path::path_display;
use crate::protocol::Reply;
use crate::protocol::ReplyView;
use crate::protocol::Request;
use crate::protocol::RequestView;
use crate::protocol::Step;
use crate::protocol::StepView;
use crate::text::lossy_text;

verus! {

/// A content-addressed store, as far as it decides. Every operation starts
/// with a request; whoever runs it makes the requests and hands back the
/// replies.
pub struct Store {}

impl Store {
    /// Adds the file or directory at `path`.
    ///
    /// A file becomes a blob, a directory a tree, with trees for the
    /// directories below it. A symbolic link at `path` itself is followed;
    /// links below it are kept as links. The operation is recorded in the
    /// journal.
    pub fn add_path(&self, path: Vec<u8>) -> (result: (AddPath, Request))
        ensures
            result.0@ == (AddPathView { path: path@, stage: PathStageView::Exists }),
            result.1@ == (RequestView::Exists { path: path@ }),
    {
        let request = Request::Exists { path: slice_to_vec(path.as_slice()) };
        (AddPath { path, stage: PathStage::Exists }, request)
    }

    /// Adds what comes from standard input as a blob.
    ///
    /// The operation is recorded in the journal with the path `(stdin)`.
    pub fn add_stdin(&self) -> (result: (AddStdin, Request))
        ensures
            result.0@ == StdinStage::Storing,
            result.1@ == RequestView::StoreInput,
    {
        (AddStdin { stage: StdinStage::Storing }, Request::StoreInput)
    }

    /// Adds the directory at `path` as a tree, without a record in the journal.
    pub fn add_directory(&self, path: Vec<u8>) -> (result: (DirectoryWalk, Request))
        ensures
            result.0@ == seq![fresh_frame(path@)],
            result.1@ == open_request(path@),
    {
        DirectoryWalk::start(path)
    }
}

/// What the adding of a path waits for.
enum PathStage {
    /// Whether anything stands at the path.
    Exists,
    /// What stands there.
    Inspecting,
    /// The hash of the file's content.
    StoringFile { size: u64 },
    /// The hash of the directory's tree.
    Walking { walk: DirectoryWalk },
    /// The time. `file_size` is the length of the file, if it is one.
    Clock { hash: crate::hash::Hash, file_size: Option<u64> },
    /// The tree that was stored.
    ReadingTree { hash: crate::hash::Hash, seconds: u64 },
    /// The size of the tree's object.
    Sizing { hash: crate::hash::Hash, seconds: u64, entries: usize },
    /// That the journal has been written.
    Journaling { hash: crate::hash::Hash },
    /// Nothing: the operation is over.
    Finished,
}

/// A stage with its parts as their views.
pub enum PathStageView {
    Exists,
    Inspecting,
    StoringFile { size: u64 },
    Walking { frames: Seq<FrameView> },
    Clock { hash: crate::hash::Hash, file_size: Option<u64> },
    ReadingTree { hash: crate::hash::Hash, seconds: u64 },
    Sizing { hash: crate::hash::Hash, seconds: u64, entries: nat },
    Journaling { hash: crate::hash::Hash },
    Finished,
}

impl View for PathStage {
    type V = PathStageView;

    closed spec fn view(&self) -> PathStageView {
        match self {
            PathStage::Exists => PathStageView::Exists,
            PathStage::Inspecting => PathStageView::Inspecting,
            PathStage::StoringFile { size } => PathStageView::StoringFile { size: *size },
            PathStage::Walking { walk } => PathStageView::Walking { frames: walk@ },
            PathStage::Clock { hash, file_size } => PathStageView::Clock {
                hash: *hash,
                file_size: *file_size,
            },
            PathStage::ReadingTree { hash, seconds } => PathStageView::ReadingTree {
                hash: *hash,
                seconds: *seconds,
            },
            PathStage::Sizing { hash, seconds, entries } => PathStageView::Sizing {
                hash: *hash,
                seconds: *seconds,
                entries: *entries as nat,
            },
            PathStage::Journaling { hash } => PathStageView::Journaling { hash: *hash },
            PathStage::Finished => PathStageView::Finished,
        }
    }
}

/// The adding of what stands at a path.
pub struct AddPath {
    path: Vec<u8>,
    stage: PathStage,
}

/// The adding of what stands at a path, with its parts as their views.
pub struct AddPathView {
    pub path: Seq<u8>,
    pub stage: PathStageView,
}

impl View for AddPath {
    type V = AddPathView;

    closed spec fn view(&self) -> AddPathView {
        AddPathView { path: self.path@, stage: self.stage@ }
    }
}

/// The adding of a path can take `reply` at `stage`.
pub open spec fn path_accepts<E>(stage: PathStageView, reply: ReplyView<E>) -> bool {
    match stage {
        PathStageView::Exists => reply is Exists,
        PathStageView::Inspecting => reply is Metadata || reply is Failed,
        PathStageView::StoringFile { .. } => reply is Stored || reply is Failed,
        PathStageView::Walking { frames } => walk_accepts(frames, reply),
        PathStageView::Clock { .. } => reply is Seconds,
        PathStageView::ReadingTree { .. } => reply is Tree || reply is Failed,
        PathStageView::Sizing { .. } => reply is Size || reply is Failed,
        PathStageView::Journaling { .. } => reply is Appended || reply is Failed,
        PathStageView::Finished => false,
    }
}

/// The operation is over, without a hash.
pub open spec fn path_fails<E>(error: ErrorView<E>) -> (PathStageView, StepView<E>) {
    (PathStageView::Finished, StepView::Done(Err(error)))
}

/// The operation writes its line of the journal.
pub open spec fn path_journals<E>(entry: JournalEntryView) -> (PathStageView, StepView<E>) {
    (
        PathStageView::Journaling { hash: entry.hash },
        StepView::Ask(RequestView::AppendJournal { entry }),
    )
}

/// How the adding of `path` goes on when its walk has gone one step.
pub open spec fn path_walks<E>(walked: (Seq<FrameView>, StepView<E>)) -> (
    PathStageView,
    StepView<E>,
) {
    match walked.1 {
        StepView::Ask(request) => (
            PathStageView::Walking { frames: walked.0 },
            StepView::Ask(request),
        ),
        StepView::Done(Ok(hash)) => (
            PathStageView::Clock { hash, file_size: None },
            StepView::Ask(RequestView::Clock),
        ),
        StepView::Done(Err(error)) => path_fails(error),
    }
}

/// How the adding of `path` goes on after a reply that it can take.
pub open spec fn path_step<E>(path: Seq<u8>, stage: PathStageView, reply: ReplyView<E>) -> (
    PathStageView,
    StepView<E>,
) {
    match (stage, reply) {
        (_, ReplyView::Failed(e)) => path_fails(ErrorView::Outside(e)),
        (PathStageView::Exists, ReplyView::Exists(found)) => if found {
            (PathStageView::Inspecting, StepView::Ask(RequestView::Metadata { path }))
        } else {
            path_fails(path_missing(lossy_text(path)))
        },
        (PathStageView::Inspecting, ReplyView::Metadata(metadata)) => match metadata.file_type {
            FileType::File => (
                PathStageView::StoringFile { size: metadata.len },
                StepView::Ask(RequestView::StoreFile { path }),
            ),
            FileType::Directory => (
                PathStageView::Walking { frames: seq![fresh_frame(path)] },
                StepView::Ask(open_request(path)),
            ),
            _ => path_fails(unsupported_type(lossy_text(path))),
        },
        (PathStageView::StoringFile { size }, ReplyView::Stored(hash)) => (
            PathStageView::Clock { hash, file_size: Some(size) },
            StepView::Ask(RequestView::Clock),
        ),
        (PathStageView::Walking { frames }, _) => path_walks(walk_step(frames, reply)),
        (PathStageView::Clock { hash, file_size: Some(size) }, ReplyView::Seconds(seconds)) =>
            path_journals(add_record(seconds, hash, lossy_text(path), 1, size as nat)),
        (PathStageView::Clock { hash, file_size: None }, ReplyView::Seconds(seconds)) => (
            PathStageView::ReadingTree { hash, seconds },
            StepView::Ask(RequestView::ReadTree { hash }),
        ),
        (PathStageView::ReadingTree { hash, seconds }, ReplyView::Tree(entries)) => (
            PathStageView::Sizing { hash, seconds, entries: entries.len() },
            StepView::Ask(RequestView::ObjectSize { hash }),
        ),
        (PathStageView::Sizing { hash, seconds, entries }, ReplyView::Size(size)) => path_journals(
            add_record(seconds, hash, lossy_text(path), entries, size as nat),
        ),
        (PathStageView::Journaling { hash }, ReplyView::Appended) => (
            PathStageView::Finished,
            StepView::Done(Ok(hash)),
        ),
        _ => (stage, StepView::Ask(RequestView::Clock)),
    }
}

impl AddPath {
    /// Whether the operation can take the reply.
    pub fn accepts<E>(&self, reply: &Reply<E>) -> (accepted: bool)
        ensures
            accepted == path_accepts(self@.stage, reply@),
    {
        match (&self.stage, reply) {
            (PathStage::Exists, Reply::Exists(_)) => true,
            (PathStage::Exists, _) => false,
            (PathStage::Walking { walk }, _) => walk.accepts(reply),
            (PathStage::Clock { .. }, Reply::Seconds(_)) => true,
            (PathStage::Clock { .. }, _) => false,
            (PathStage::Finished, _) => false,
            (_, Reply::Failed(_)) => true,
            (PathStage::Inspecting, Reply::Metadata(_)) => true,
            (PathStage::StoringFile { .. }, Reply::Stored(_)) => true,
            (PathStage::ReadingTree { .. }, Reply::Tree(_)) => true,
            (PathStage::Sizing { .. }, Reply::Size(_)) => true,
            (PathStage::Journaling { .. }, Reply::Appended) => true,
            _ => false,
        }
    }

    /// Takes the reply to the last request and goes on.
    pub fn step<E>(&mut self, reply: Reply<E>) -> (step: Step<E>)
        requires
            path_accepts(old(self)@.stage, reply@),
        ensures
            final(self)@.path == old(self)@.path,
            (final(self)@.stage, step@) == path_step(
                old(self)@.path,
                old(self)@.stage,
                reply@,
            ),
    {
        let mut stage = PathStage::Finished;
        std::mem::swap(&mut stage, &mut self.stage);
        let (stage, step) = path_advance(self.path.as_slice(), stage, reply);
        self.stage = stage;
        step
    }
}

fn path_advance<E>(path: &[u8], stage: PathStage, reply: Reply<E>) -> (result: (
    PathStage,
    Step<E>,
))
    requires
        path_accepts(stage@, reply@),
    ensures
        (result.0@, result.1@) == path_step(path@, stage@, reply@),
{
    match (stage, reply) {
        (PathStage::Walking { walk }, reply) => {
            let mut walk = walk;
            match walk.step(reply) {
                Step::Ask(request) => (PathStage::Walking { walk }, Step::Ask(request)),
                Step::Done(Ok(hash)) => (
                    PathStage::Clock { hash, file_size: None },
                    Step::Ask(Request::Clock),
                ),
                Step::Done(Err(error)) => (PathStage::Finished, Step::Done(Err(error))),
            }
        },
        (_, Reply::Failed(e)) => (PathStage::Finished, Step::Done(Err(Error::Outside(e)))),
        (PathStage::Exists, Reply::Exists(found)) => {
            if found {
                (PathStage::Inspecting, Step::Ask(Request::Metadata { path: slice_to_vec(path) }))
            } else {
                let shown = path_display(path);
                (PathStage::Finished, Step::Done(Err(Error::path_missing(shown.as_str()))))
            }
        },
        (PathStage::Inspecting, Reply::Metadata(metadata)) => match metadata.file_type {
            FileType::File => (
                PathStage::StoringFile { size: metadata.len },
                Step::Ask(Request::StoreFile { path: slice_to_vec(path) }),
            ),
            FileType::Directory => {
                let (walk, request) = DirectoryWalk::start(slice_to_vec(path));
                (PathStage::Walking { walk }, Step::Ask(request))
            },
            _ => {
                let shown = path_display(path);
                (PathStage::Finished, Step::Done(Err(Error::unsupported_type(shown.as_str()))))
            },
        },
        (PathStage::StoringFile { size }, Reply::Stored(hash)) => (
            PathStage::Clock { hash, file_size: Some(size) },
            Step::Ask(Request::Clock),
        ),
        (PathStage::Clock { hash, file_size: Some(size) }, Reply::Seconds(seconds)) => {
            let entry = JournalEntry::added(seconds, hash, path_display(path), 1, size);
            (PathStage::Journaling { hash }, Step::Ask(Request::AppendJournal { entry }))
        },
        (PathStage::Clock { hash, file_size: None }, Reply::Seconds(seconds)) => (
            PathStage::ReadingTree { hash, seconds },
            Step::Ask(Request::ReadTree { hash }),
        ),
        (PathStage::ReadingTree { hash, seconds }, Reply::Tree(entries)) => (
            PathStage::Sizing { hash, seconds, entries: entries.len() },
            Step::Ask(Request::ObjectSize { hash }),
        ),
        (PathStage::Sizing { hash, seconds, entries }, Reply::Size(size)) => {
            let entry = JournalEntry::added(seconds, hash, path_display(path), entries, size);
            (PathStage::Journaling { hash }, Step::Ask(Request::AppendJournal { entry }))
        },
        (PathStage::Journaling { hash }, Reply::Appended) => (
            PathStage::Finished,
            Step::Done(Ok(hash)),
        ),
        _ => unreached(),
    }
}

/// What the adding of standard input waits for.
pub enum StdinStage {
    /// The hash of what was read.
    Storing,
    /// The size of the blob's object.
    Sizing { hash: crate::hash::Hash },
    /// The time.
    Clock { hash: crate::hash::Hash, size: u64 },
    /// That the journal has been written.
    Journaling { hash: crate::hash::Hash },
    /// Nothing: the operation is over.
    Finished,
}

/// The adding of standard input.
pub struct AddStdin {
    stage: StdinStage,
}

impl View for AddStdin {
    type V = StdinStage;

    closed spec fn view(&self) -> StdinStage {
        self.stage
    }
}

/// The adding of standard input can take `reply` at `stage`.
pub open spec fn stdin_accepts<E>(stage: StdinStage, reply: ReplyView<E>) -> bool {
    match stage {
        StdinStage::Storing => reply is Stored || reply is Failed,
        StdinStage::Sizing { .. } => reply is Size || reply is Failed,
        StdinStage::Clock { .. } => reply is Seconds,
        StdinStage::Journaling { .. } => reply is Appended || reply is Failed,
        StdinStage::Finished => false,
    }
}

/// How the adding of standard input goes on after a reply that it can take.
pub open spec fn stdin_step<E>(stage: StdinStage, reply: ReplyView<E>) -> (StdinStage, StepView<E>) {
    match (stage, reply) {
        (_, ReplyView::Failed(e)) => (
            StdinStage::Finished,
            StepView::Done(Err(ErrorView::Outside(e))),
        ),
        (StdinStage::Storing, ReplyView::Stored(hash)) => (
            StdinStage::Sizing { hash },
            StepView::Ask(RequestView::ObjectSize { hash }),
        ),
        (StdinStage::Sizing { hash }, ReplyView::Size(size)) => (
            StdinStage::Clock { hash, size },
            StepView::Ask(RequestView::Clock),
        ),
        (StdinStage::Clock { hash, size }, ReplyView::Seconds(seconds)) => (
            StdinStage::Journaling { hash },
            StepView::Ask(
                RequestView::AppendJournal {
                    entry: add_record(seconds, hash, stdin_path(), 1, size as nat),
                },
            ),
        ),
        (StdinStage::Journaling { hash }, ReplyView::Appended) => (
            StdinStage::Finished,
            StepView::Done(Ok(hash)),
        ),
        _ => (stage, StepView::Ask(RequestView::StoreInput)),
    }
}

impl AddStdin {
    /// Whether the operation can take the reply.
    pub fn accepts<E>(&self, reply: &Reply<E>) -> (accepted: bool)
        ensures
            accepted == stdin_accepts(self@, reply@),
    {
        match (&self.stage, reply) {
            (StdinStage::Clock { .. }, Reply::Seconds(_)) => true,
            (StdinStage::Clock { .. }, _) => false,
            (StdinStage::Finished, _) => false,
            (_, Reply::Failed(_)) => true,
            (StdinStage::Storing, Reply::Stored(_)) => true,
            (StdinStage::Sizing { .. }, Reply::Size(_)) => true,
            (StdinStage::Journaling { .. }, Reply::Appended) => true,
            _ => false,
        }
    }

    /// Takes the reply to the last request and goes on.
    pub fn step<E>(&mut self, reply: Reply<E>) -> (step: Step<E>)
        requires
            stdin_accepts(old(self)@, reply@),
        ensures
            (final(self)@, step@) == stdin_step(old(self)@, reply@),
    {
        let mut stage = StdinStage::Finished;
        std::mem::swap(&mut stage, &mut self.stage);
        let (stage, step) = match (stage, reply) {
            (_, Reply::Failed(e)) => (StdinStage::Finished, Step::Done(Err(Error::Outside(e)))),
            (StdinStage::Storing, Reply::Stored(hash)) => (
                StdinStage::Sizing { hash },
                Step::Ask(Request::ObjectSize { hash }),
            ),
            (StdinStage::Sizing { hash }, Reply::Size(size)) => (
                StdinStage::Clock { hash, size },
                Step::Ask(Request::Clock),
            ),
            (StdinStage::Clock { hash, size }, Reply::Seconds(seconds)) => {
                let entry = JournalEntry::added(seconds, hash, "(stdin)".to_owned(), 1, size);
                (StdinStage::Journaling { hash }, Step::Ask(Request::AppendJournal { entry }))
            },
            (StdinStage::Journaling { hash }, Reply::Appended) => (
                StdinStage::Finished,
                Step::Done(Ok(hash)),
            ),
            _ => unreached(),
        };
        self.stage = stage;
        step
    }
}

} // verus!
