//! Whole operations at a glance: which requests they make, in which order, and
//! how they end, for every way in which the outside can reply.

use vstd::prelude::*;

use crate::directory::open_request;
use crate::error::invalid_file_name;
use crate::error::path_missing;
use crate::error::unsupported_type;
use crate::error::ErrorView;
use crate::file_modes;
use crate::journal::add_record;
use crate::journal::stdin_path;
use crate::journal::JournalEntryView;
use crate::metadata::file_mode;
use crate::metadata::FileType;
use crate::metadata::Metadata;
use crate::order::in_order;
use crate::path::entry_name;
use crate::path::same_path;
use crate::protocol::ReplyView;
use crate::protocol::RequestView;
use crate::text::lossy_text;
use crate::tree::tree_entry;
use crate::tree::EntryType;
use crate::tree::TreeEntryView;

verus! {

/// What the outside replies about one path of a directory's list. Only what is
/// asked counts: `target` for a link, `blob` for a link or a file, `directory`
/// for a directory.
pub struct Child<E> {
    pub path: Seq<u8>,
    pub metadata: Result<Metadata, E>,
    pub target: Result<Seq<u8>, E>,
    pub blob: Result<crate::hash::Hash, E>,
    pub directory: Directory<E>,
}

/// What the outside replies about a directory: its list, in which something can
/// go wrong at any place, and the hash of its tree.
pub struct Directory<E> {
    pub listing: Seq<Result<Child<E>, E>>,
    pub tree: Result<crate::hash::Hash, E>,
}

/// What the outside replies while a path is added. Only what is asked counts.
pub struct PathReplies<E> {
    pub exists: bool,
    pub metadata: Result<Metadata, E>,
    pub blob: Result<crate::hash::Hash, E>,
    pub directory: Directory<E>,
    pub seconds: u64,
    pub tree: Result<Seq<TreeEntryView>, E>,
    pub size: Result<u64, E>,
    pub journal: Result<(), E>,
}

/// What the outside replies while standard input is added. Only what is asked
/// counts.
pub struct StdinReplies<E> {
    pub blob: Result<crate::hash::Hash, E>,
    pub size: Result<u64, E>,
    pub seconds: u64,
    pub journal: Result<(), E>,
}

/// A piece of an operation: the requests, the reply to each, and what comes of
/// it.
pub struct Trace<T, E> {
    pub asked: Seq<RequestView>,
    pub replies: Seq<ReplyView<E>>,
    pub outcome: Result<T, ErrorView<E>>,
}

/// Nothing more is asked.
pub open spec fn ends<T, E>(outcome: Result<T, ErrorView<E>>) -> Trace<T, E> {
    Trace { asked: seq![], replies: seq![], outcome }
}

/// Nothing more is asked, for the outside has failed.
pub open spec fn ends_outside<T, E>(e: E) -> Trace<T, E> {
    ends(Err(ErrorView::Outside(e)))
}

/// One request and its reply, and the rest.
pub open spec fn exchange<T, E>(
    request: RequestView,
    reply: ReplyView<E>,
    rest: Trace<T, E>,
) -> Trace<T, E> {
    Trace {
        asked: seq![request] + rest.asked,
        replies: seq![reply] + rest.replies,
        outcome: rest.outcome,
    }
}

/// The requests and replies of `first`, then `rest`.
pub open spec fn followed<S, T, E>(first: Trace<S, E>, rest: Trace<T, E>) -> Trace<T, E> {
    Trace {
        asked: first.asked + rest.asked,
        replies: first.replies + rest.replies,
        outcome: rest.outcome,
    }
}

pub open spec fn metadata_reply<E>(result: Result<Metadata, E>) -> ReplyView<E> {
    match result {
        Ok(metadata) => ReplyView::Metadata(metadata),
        Err(e) => ReplyView::Failed(e),
    }
}

pub open spec fn target_reply<E>(result: Result<Seq<u8>, E>) -> ReplyView<E> {
    match result {
        Ok(target) => ReplyView::LinkTarget(target),
        Err(e) => ReplyView::Failed(e),
    }
}

pub open spec fn stored_reply<E>(result: Result<crate::hash::Hash, E>) -> ReplyView<E> {
    match result {
        Ok(hash) => ReplyView::Stored(hash),
        Err(e) => ReplyView::Failed(e),
    }
}

pub open spec fn tree_reply<E>(result: Result<Seq<TreeEntryView>, E>) -> ReplyView<E> {
    match result {
        Ok(entries) => ReplyView::Tree(entries),
        Err(e) => ReplyView::Failed(e),
    }
}

pub open spec fn size_reply<E>(result: Result<u64, E>) -> ReplyView<E> {
    match result {
        Ok(size) => ReplyView::Size(size),
        Err(e) => ReplyView::Failed(e),
    }
}

pub open spec fn journal_reply<E>(result: Result<(), E>) -> ReplyView<E> {
    match result {
        Ok(_) => ReplyView::Appended,
        Err(e) => ReplyView::Failed(e),
    }
}

/// What becomes of a child whose content was to be stored: a tree entry, unless
/// the storing failed or the name is too long.
pub open spec fn entry_outcome<E>(
    stored: Result<crate::hash::Hash, ErrorView<E>>,
    entry_type: EntryType,
    mode: u32,
    name: Seq<char>,
) -> Result<Option<TreeEntryView>, ErrorView<E>> {
    match stored {
        Err(error) => Err(error),
        Ok(hash) => match tree_entry::<E>(entry_type, mode, hash, name) {
            Err(error) => Err(error),
            Ok(entry) => Ok(Some(entry)),
        },
    }
}

/// A hash from outside, or the failure there.
pub open spec fn outside<T, E>(result: Result<T, E>) -> Result<T, ErrorView<E>> {
    match result {
        Ok(value) => Ok(value),
        Err(e) => Err(ErrorView::Outside(e)),
    }
}

/// What is asked about one path of the list of the directory `dir`, and which
/// tree entry, if any, it gives.
///
/// The directory itself is passed over. Of anything else it is asked what it
/// is, links not followed. A link's target is read and stored as it is. A file
/// is stored. A directory is walked. Anything else is passed over.
pub open spec fn child_trace<E>(dir: Seq<u8>, child: Child<E>) -> Trace<Option<TreeEntryView>, E>
    decreases child,
{
    if same_path(child.path, dir) {
        ends(Ok(None))
    } else {
        exchange(
            RequestView::SymlinkMetadata { path: child.path },
            metadata_reply(child.metadata),
            match child.metadata {
                Err(e) => ends_outside(e),
                Ok(metadata) => match entry_name(child.path) {
                    None => ends(Err(invalid_file_name(lossy_text(child.path)))),
                    Some(name) => match metadata.file_type {
                        FileType::Symlink => exchange(
                            RequestView::ReadLink { path: child.path },
                            target_reply(child.target),
                            match child.target {
                                Err(e) => ends_outside(e),
                                Ok(target) => exchange(
                                    RequestView::StoreBytes { bytes: target },
                                    stored_reply(child.blob),
                                    ends(
                                        entry_outcome(
                                            outside(child.blob),
                                            EntryType::Symlink,
                                            file_modes::SYMLINK,
                                            name,
                                        ),
                                    ),
                                ),
                            },
                        ),
                        FileType::File => exchange(
                            RequestView::StoreFile { path: child.path },
                            stored_reply(child.blob),
                            ends(
                                entry_outcome(
                                    outside(child.blob),
                                    EntryType::Blob,
                                    file_mode(metadata),
                                    name,
                                ),
                            ),
                        ),
                        FileType::Directory => {
                            let below = listing_trace(
                                child.path,
                                true,
                                seq![],
                                child.directory.listing,
                                child.directory.tree,
                            );
                            followed(
                                below,
                                ends(
                                    entry_outcome(
                                        below.outcome,
                                        EntryType::Tree,
                                        file_modes::DIRECTORY,
                                        name,
                                    ),
                                ),
                            )
                        },
                        FileType::Other => ends(Ok(None)),
                    },
                },
            },
        )
    }
}

/// What is asked about the rest of the list of a directory, when `entries` have
/// been found so far. `opening` tells whether the list is still to be started.
///
/// The paths of the list are gone through one by one. When the list is over,
/// the tree is stored, with its entries in order. The first failure ends it all.
pub open spec fn listing_trace<E>(
    path: Seq<u8>,
    opening: bool,
    entries: Seq<TreeEntryView>,
    listing: Seq<Result<Child<E>, E>>,
    tree: Result<crate::hash::Hash, E>,
) -> Trace<crate::hash::Hash, E>
    decreases listing,
{
    let request = if opening {
        open_request(path)
    } else {
        RequestView::NextEntry
    };
    if listing.len() == 0 {
        exchange(
            request,
            ReplyView::NoMoreEntries,
            exchange(
                RequestView::StoreTree { entries: in_order(entries) },
                stored_reply(tree),
                ends(outside(tree)),
            ),
        )
    } else {
        match listing[0] {
            Err(e) => exchange(request, ReplyView::Failed(e), ends_outside(e)),
            Ok(child) => {
                let first = child_trace(path, child);
                exchange(
                    request,
                    ReplyView::Entry(child.path),
                    match first.outcome {
                        Err(error) => followed(first, ends(Err(error))),
                        Ok(found) => followed(
                            first,
                            listing_trace(
                                path,
                                false,
                                with_found(entries, found),
                                listing.drop_first(),
                                tree,
                            ),
                        ),
                    },
                )
            },
        }
    }
}

/// The entries with one more, if one was found.
pub open spec fn with_found(
    entries: Seq<TreeEntryView>,
    found: Option<TreeEntryView>,
) -> Seq<TreeEntryView> {
    match found {
        Some(entry) => entries.push(entry),
        None => entries,
    }
}

/// The adding of a directory.
pub open spec fn directory_trace<E>(path: Seq<u8>, directory: Directory<E>) -> Trace<
    crate::hash::Hash,
    E,
> {
    listing_trace(path, true, seq![], directory.listing, directory.tree)
}

/// The end of an operation: its line of the journal is written.
pub open spec fn journal_trace<E>(entry: JournalEntryView, journal: Result<(), E>) -> Trace<
    crate::hash::Hash,
    E,
> {
    exchange(
        RequestView::AppendJournal { entry },
        journal_reply(journal),
        match journal {
            Err(e) => ends_outside(e),
            Ok(_) => ends(Ok(entry.hash)),
        },
    )
}

/// What is asked when the file at `path` has been stored as `hash`.
pub open spec fn file_recorded_trace<E>(
    path: Seq<u8>,
    hash: crate::hash::Hash,
    len: u64,
    replies: PathReplies<E>,
) -> Trace<crate::hash::Hash, E> {
    exchange(
        RequestView::Clock,
        ReplyView::Seconds(replies.seconds),
        journal_trace(
            add_record(replies.seconds, hash, lossy_text(path), 1, len as nat),
            replies.journal,
        ),
    )
}

/// What is asked when the directory at `path` has been stored as `hash`.
pub open spec fn directory_recorded_trace<E>(
    path: Seq<u8>,
    hash: crate::hash::Hash,
    replies: PathReplies<E>,
) -> Trace<crate::hash::Hash, E> {
    exchange(
        RequestView::Clock,
        ReplyView::Seconds(replies.seconds),
        exchange(
            RequestView::ReadTree { hash },
            tree_reply(replies.tree),
            match replies.tree {
                Err(e) => ends_outside(e),
                Ok(entries) => exchange(
                    RequestView::ObjectSize { hash },
                    size_reply(replies.size),
                    match replies.size {
                        Err(e) => ends_outside(e),
                        Ok(size) => journal_trace(
                            add_record(
                                replies.seconds,
                                hash,
                                lossy_text(path),
                                entries.len(),
                                size as nat,
                            ),
                            replies.journal,
                        ),
                    },
                ),
            },
        ),
    )
}

/// The adding of a path.
pub open spec fn add_path_trace<E>(path: Seq<u8>, replies: PathReplies<E>) -> Trace<
    crate::hash::Hash,
    E,
> {
    exchange(
        RequestView::Exists { path },
        ReplyView::Exists(replies.exists),
        if !replies.exists {
            ends(Err(path_missing(lossy_text(path))))
        } else {
            exchange(
                RequestView::Metadata { path },
                metadata_reply(replies.metadata),
                match replies.metadata {
                    Err(e) => ends_outside(e),
                    Ok(metadata) => match metadata.file_type {
                        FileType::File => exchange(
                            RequestView::StoreFile { path },
                            stored_reply(replies.blob),
                            match replies.blob {
                                Err(e) => ends_outside(e),
                                Ok(hash) => file_recorded_trace(path, hash, metadata.len, replies),
                            },
                        ),
                        FileType::Directory => {
                            let walk = directory_trace(path, replies.directory);
                            followed(
                                walk,
                                match walk.outcome {
                                    Err(error) => ends(Err(error)),
                                    Ok(hash) => directory_recorded_trace(path, hash, replies),
                                },
                            )
                        },
                        _ => ends(Err(unsupported_type(lossy_text(path)))),
                    },
                },
            )
        },
    )
}

/// The adding of standard input.
pub open spec fn add_stdin_trace<E>(replies: StdinReplies<E>) -> Trace<crate::hash::Hash, E> {
    exchange(
        RequestView::StoreInput,
        stored_reply(replies.blob),
        match replies.blob {
            Err(e) => ends_outside(e),
            Ok(hash) => exchange(
                RequestView::ObjectSize { hash },
                size_reply(replies.size),
                match replies.size {
                    Err(e) => ends_outside(e),
                    Ok(size) => exchange(
                        RequestView::Clock,
                        ReplyView::Seconds(replies.seconds),
                        journal_trace(
                            add_record(replies.seconds, hash, stdin_path(), 1, size as nat),
                            replies.journal,
                        ),
                    ),
                },
            ),
        },
    )
}

} // verus!
