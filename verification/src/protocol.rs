//! What an operation asks of the outside, and what it is told.
//!
//! An operation does no input or output itself. It asks for one thing at a
//! time, waits for the reply, and goes on from there.

use vstd::prelude::*;

use crate::error::Error;
use crate::error::ErrorView;
use crate::journal::JournalEntry;
use crate::journal::JournalEntryView;
use crate::metadata::Metadata;
use crate::tree::entries_view;
use crate::tree::TreeEntry;
use crate::tree::TreeEntryView;

verus! {

/// How a directory is listed.
#[derive(Clone, Copy, Debug, PartialEq, Eq)]
pub struct ListOptions {
    /// How many levels below the directory are listed; all of them if `None`.
    pub max_depth: Option<usize>,
    /// Entries whose names start with a dot are left out.
    pub hidden: bool,
    /// Entries that `.gitignore` files exclude are left out.
    pub git_ignore: bool,
}

/// A directory is listed one level deep, with its hidden entries, and without
/// what `.gitignore` files exclude.
pub open spec fn directory_options() -> ListOptions {
    ListOptions { max_depth: Some(1), hidden: false, git_ignore: true }
}

/// What an operation asks for.
#[derive(Debug, PartialEq, Eq)]
pub enum Request {
    /// Does anything stand at the path, links followed?
    Exists { path: Vec<u8> },
    /// What stands at the path, links followed?
    Metadata { path: Vec<u8> },
    /// What stands at the path itself, be it a link?
    SymlinkMetadata { path: Vec<u8> },
    /// Start to list the directory, and give the first path of the list.
    OpenDirectory { path: Vec<u8>, options: ListOptions },
    /// Give the next path of the list that was started last and is not over.
    NextEntry,
    /// Where does the link at the path lead?
    ReadLink { path: Vec<u8> },
    /// Open the file and store its content as a blob.
    StoreFile { path: Vec<u8> },
    /// Store the bytes as a blob.
    StoreBytes { bytes: Vec<u8> },
    /// Store what can be read from the input as a blob.
    StoreInput,
    /// Store the entries as a tree.
    StoreTree { entries: Vec<TreeEntry> },
    /// Read a tree back from the store.
    ReadTree { hash: crate::hash::Hash },
    /// How large is the stored object?
    ObjectSize { hash: crate::hash::Hash },
    /// How many seconds have passed since 1970?
    Clock,
    /// Write a line of the journal.
    AppendJournal { entry: JournalEntry },
}

/// A request with its bytes and texts as sequences.
pub enum RequestView {
    Exists { path: Seq<u8> },
    Metadata { path: Seq<u8> },
    SymlinkMetadata { path: Seq<u8> },
    OpenDirectory { path: Seq<u8>, options: ListOptions },
    NextEntry,
    ReadLink { path: Seq<u8> },
    StoreFile { path: Seq<u8> },
    StoreBytes { bytes: Seq<u8> },
    StoreInput,
    StoreTree { entries: Seq<TreeEntryView> },
    ReadTree { hash: crate::hash::Hash },
    ObjectSize { hash: crate::hash::Hash },
    Clock,
    AppendJournal { entry: JournalEntryView },
}

impl View for Request {
    type V = RequestView;

    open spec fn view(&self) -> RequestView {
        match self {
            Request::Exists { path } => RequestView::Exists { path: path@ },
            Request::Metadata { path } => RequestView::Metadata { path: path@ },
            Request::SymlinkMetadata { path } => RequestView::SymlinkMetadata { path: path@ },
            Request::OpenDirectory { path, options } => RequestView::OpenDirectory {
                path: path@,
                options: *options,
            },
            Request::NextEntry => RequestView::NextEntry,
            Request::ReadLink { path } => RequestView::ReadLink { path: path@ },
            Request::StoreFile { path } => RequestView::StoreFile { path: path@ },
            Request::StoreBytes { bytes } => RequestView::StoreBytes { bytes: bytes@ },
            Request::StoreInput => RequestView::StoreInput,
            Request::StoreTree { entries } => RequestView::StoreTree {
                entries: entries_view(entries@),
            },
            Request::ReadTree { hash } => RequestView::ReadTree { hash: *hash },
            Request::ObjectSize { hash } => RequestView::ObjectSize { hash: *hash },
            Request::Clock => RequestView::Clock,
            Request::AppendJournal { entry } => RequestView::AppendJournal { entry: entry@ },
        }
    }
}

/// What the outside replies.
#[derive(Debug, PartialEq, Eq)]
pub enum Reply<E> {
    Exists(bool),
    Metadata(Metadata),
    /// A path of the list.
    Entry(Vec<u8>),
    /// The list is over.
    NoMoreEntries,
    LinkTarget(Vec<u8>),
    Stored(crate::hash::Hash),
    Tree(Vec<TreeEntry>),
    Size(u64),
    Seconds(u64),
    Appended,
    /// The request failed.
    Failed(E),
}

/// A reply with its bytes and texts as sequences.
pub enum ReplyView<E> {
    Exists(bool),
    Metadata(Metadata),
    Entry(Seq<u8>),
    NoMoreEntries,
    LinkTarget(Seq<u8>),
    Stored(crate::hash::Hash),
    Tree(Seq<TreeEntryView>),
    Size(u64),
    Seconds(u64),
    Appended,
    Failed(E),
}

impl<E> View for Reply<E> {
    type V = ReplyView<E>;

    open spec fn view(&self) -> ReplyView<E> {
        match self {
            Reply::Exists(found) => ReplyView::Exists(*found),
            Reply::Metadata(metadata) => ReplyView::Metadata(*metadata),
            Reply::Entry(path) => ReplyView::Entry(path@),
            Reply::NoMoreEntries => ReplyView::NoMoreEntries,
            Reply::LinkTarget(target) => ReplyView::LinkTarget(target@),
            Reply::Stored(hash) => ReplyView::Stored(*hash),
            Reply::Tree(entries) => ReplyView::Tree(entries_view(entries@)),
            Reply::Size(size) => ReplyView::Size(*size),
            Reply::Seconds(seconds) => ReplyView::Seconds(*seconds),
            Reply::Appended => ReplyView::Appended,
            Reply::Failed(e) => ReplyView::Failed(*e),
        }
    }
}

/// `reply` is a possible reply to `request`. Whether something exists and what
/// time it is are asked in ways that cannot fail.
pub open spec fn answers<E>(request: RequestView, reply: ReplyView<E>) -> bool {
    match request {
        RequestView::Exists { .. } => reply is Exists,
        RequestView::Metadata { .. } => reply is Metadata || reply is Failed,
        RequestView::SymlinkMetadata { .. } => reply is Metadata || reply is Failed,
        RequestView::OpenDirectory { .. } => reply is Entry || reply is NoMoreEntries
            || reply is Failed,
        RequestView::NextEntry => reply is Entry || reply is NoMoreEntries || reply is Failed,
        RequestView::ReadLink { .. } => reply is LinkTarget || reply is Failed,
        RequestView::StoreFile { .. } => reply is Stored || reply is Failed,
        RequestView::StoreBytes { .. } => reply is Stored || reply is Failed,
        RequestView::StoreInput => reply is Stored || reply is Failed,
        RequestView::StoreTree { .. } => reply is Stored || reply is Failed,
        RequestView::ReadTree { .. } => reply is Tree || reply is Failed,
        RequestView::ObjectSize { .. } => reply is Size || reply is Failed,
        RequestView::Clock => reply is Seconds,
        RequestView::AppendJournal { .. } => reply is Appended || reply is Failed,
    }
}

/// How an operation goes on: it asks for something more, or it is over.
#[derive(Debug, PartialEq, Eq)]
pub enum Step<E> {
    Ask(Request),
    Done(Result<crate::hash::Hash, Error<E>>),
}

/// A step with its request or error as its view.
pub enum StepView<E> {
    Ask(RequestView),
    Done(Result<crate::hash::Hash, ErrorView<E>>),
}

impl<E> View for Step<E> {
    type V = StepView<E>;

    open spec fn view(&self) -> StepView<E> {
        match self {
            Step::Ask(request) => StepView::Ask(request@),
            Step::Done(Ok(hash)) => StepView::Done(Ok(*hash)),
            Step::Done(Err(error)) => StepView::Done(Err(error@)),
        }
    }
}

/// Which requests each reply can answer.
pub proof fn replies_answer_their_requests<E>(request: RequestView, reply: ReplyView<E>)
    ensures
        answers(request, reply) <==> match reply {
            ReplyView::Exists(_) => request is Exists,
            ReplyView::Metadata(_) => request is Metadata || request is SymlinkMetadata,
            ReplyView::Entry(_) => request is OpenDirectory || request is NextEntry,
            ReplyView::NoMoreEntries => request is OpenDirectory || request is NextEntry,
            ReplyView::LinkTarget(_) => request is ReadLink,
            ReplyView::Stored(_) => {
                ||| request is StoreFile
                ||| request is StoreBytes
                ||| request is StoreInput
                ||| request is StoreTree
            },
            ReplyView::Tree(_) => request is ReadTree,
            ReplyView::Size(_) => request is ObjectSize,
            ReplyView::Seconds(_) => request is Clock,
            ReplyView::Appended => request is AppendJournal,
            ReplyView::Failed(_) => !(request is Exists) && !(request is Clock),
        },
{
}

/// A directory is listed one level deep, its hidden entries are kept, and what
/// `.gitignore` files exclude is left out.
pub proof fn directories_are_listed_one_level_deep()
    ensures
        directory_options().max_depth == Some(1usize),
        directory_options().hidden == false,
        directory_options().git_ignore == true,
{
}

/// Nothing of a request is lost in its view.
pub proof fn views_show_requests(request: Request)
    ensures
        match request {
            Request::Exists { path } => request@ == (RequestView::Exists { path: path@ }),
            Request::Metadata { path } => request@ == (RequestView::Metadata { path: path@ }),
            Request::SymlinkMetadata { path } => request@ == (RequestView::SymlinkMetadata {
                path: path@,
            }),
            Request::OpenDirectory { path, options } => request@ == (RequestView::OpenDirectory {
                path: path@,
                options,
            }),
            Request::NextEntry => request@ == RequestView::NextEntry,
            Request::ReadLink { path } => request@ == (RequestView::ReadLink { path: path@ }),
            Request::StoreFile { path } => request@ == (RequestView::StoreFile { path: path@ }),
            Request::StoreBytes { bytes } => request@ == (RequestView::StoreBytes {
                bytes: bytes@,
            }),
            Request::StoreInput => request@ == RequestView::StoreInput,
            Request::StoreTree { entries } => request@ == (RequestView::StoreTree {
                entries: entries@.map_values(|entry: TreeEntry| entry@),
            }),
            Request::ReadTree { hash } => request@ == (RequestView::ReadTree { hash }),
            Request::ObjectSize { hash } => request@ == (RequestView::ObjectSize { hash }),
            Request::Clock => request@ == RequestView::Clock,
            Request::AppendJournal { entry } => {
                &&& request@ matches RequestView::AppendJournal { entry: shown }
                &&& shown.timestamp == entry.timestamp
                &&& shown.operation == entry.operation@
                &&& shown.hash == entry.hash
                &&& shown.path == entry.path@
                &&& shown.metadata == entry.metadata@
            },
        },
{
}

/// Nothing of a reply is lost in its view.
pub proof fn views_show_replies<E>(reply: Reply<E>)
    ensures
        match reply {
            Reply::Exists(found) => reply@ == ReplyView::<E>::Exists(found),
            Reply::Metadata(metadata) => reply@ == ReplyView::<E>::Metadata(metadata),
            Reply::Entry(path) => reply@ == ReplyView::<E>::Entry(path@),
            Reply::NoMoreEntries => reply@ == ReplyView::<E>::NoMoreEntries,
            Reply::LinkTarget(target) => reply@ == ReplyView::<E>::LinkTarget(target@),
            Reply::Stored(hash) => reply@ == ReplyView::<E>::Stored(hash),
            Reply::Tree(entries) => reply@ == ReplyView::<E>::Tree(
                entries@.map_values(|entry: TreeEntry| entry@),
            ),
            Reply::Size(size) => reply@ == ReplyView::<E>::Size(size),
            Reply::Seconds(seconds) => reply@ == ReplyView::<E>::Seconds(seconds),
            Reply::Appended => reply@ == ReplyView::<E>::Appended,
            Reply::Failed(e) => reply@ == ReplyView::<E>::Failed(e),
        },
{
}

/// Nothing of a step is lost in its view.
pub proof fn views_show_steps<E>(step: Step<E>)
    ensures
        match step {
            Step::Ask(request) => step@ == StepView::<E>::Ask(request@),
            Step::Done(Ok(hash)) => step@ == StepView::<E>::Done(Ok(hash)),
            Step::Done(Err(error)) => step@ == StepView::<E>::Done(Err(error@)),
        },
{
}

} // verus!
