//! What holds of every operation, whatever the outside replies.

use vstd::prelude::*;

use crate::directory::fresh_frame;
use crate::directory::nested;
use crate::directory::open_request;
use crate::directory::walk_accepts;
use crate::directory::walk_step;
use crate::directory::FrameView;
use crate::error::path_missing;
use crate::error::unsupported_type;
use crate::error::ErrorView;
use crate::file_modes;
use crate::journal::add_record;
use crate::journal::stdin_path;
use crate::metadata::file_mode;
use crate::metadata::FileType;
use crate::order::distinct_names;
use crate::order::finding_order_does_not_matter;
use crate::order::in_order;
use crate::order::ordering_keeps_entries;
use crate::path::entry_name;
use crate::path::same_path;
use crate::protocol::answers;
use crate::protocol::ReplyView;
use crate::protocol::RequestView;
use crate::protocol::StepView;
use crate::text::lossy_text;
use crate::trace::add_path_trace;
use crate::trace::add_stdin_trace;
use crate::trace::child_trace;
use crate::trace::directory_trace;
use crate::trace::listing_trace;
use crate::trace::with_found;
use crate::trace::Child;
use crate::trace::Directory;
use crate::trace::PathReplies;
use crate::trace::StdinReplies;
use crate::tree::name_bytes;
use crate::tree::EntryType;
use crate::tree::TreeEntryView;
use crate::tree::MAX_NAME_LEN;
use crate::walk::path_accepts;
use crate::walk::path_step;
use crate::walk::stdin_accepts;
use crate::walk::stdin_step;
use crate::walk::PathStageView;
use crate::walk::StdinStage;

verus! {

/// After every step of a walk, the replies that it can take are those to the
/// request that it has made; once it is over, it takes none.
pub proof fn walk_takes_the_replies_it_asks_for<E>(
    frames: Seq<FrameView>,
    reply: ReplyView<E>,
    later: ReplyView<E>,
)
    requires
        nested(frames),
        walk_accepts(frames, reply),
    ensures
        ({
            let (next, step) = walk_step(frames, reply);
            &&& nested(next)
            &&& walk_accepts(next, later) <==> (step matches StepView::Ask(request) && answers(
                request,
                later,
            ))
        }),
{
    let base = frames.drop_last();
    let (next, step) = walk_step(frames, reply);
    assert forall|i: int| 0 <= i < base.len() implies (#[trigger] base[i]).stage is Below by {
        assert(base[i] == frames[i]);
    }
    if base.len() > 0 {
        assert(base.last().stage is Below);
        assert forall|i: int| 0 <= i < base.drop_last().len() implies (
        #[trigger] base.drop_last()[i]).stage is Below by {
            assert(base.drop_last()[i] == base[i]);
        }
    }
}

/// After every step of the adding of a path, the replies that it can take are
/// those to the request that it has made; once it is over, it takes none.
pub proof fn add_path_takes_the_replies_it_asks_for<E>(
    path: Seq<u8>,
    stage: PathStageView,
    reply: ReplyView<E>,
    later: ReplyView<E>,
)
    requires
        stage matches PathStageView::Walking { frames } ==> nested(frames),
        path_accepts(stage, reply),
    ensures
        ({
            let (next, step) = path_step(path, stage, reply);
            &&& next matches PathStageView::Walking { frames } ==> nested(frames)
            &&& path_accepts(next, later) <==> (step matches StepView::Ask(request) && answers(
                request,
                later,
            ))
        }),
{
    if let PathStageView::Walking { frames } = stage {
        walk_takes_the_replies_it_asks_for(frames, reply, later);
    }
}

/// After every step of the adding of standard input, the replies that it can
/// take are those to the request that it has made; once it is over, it takes
/// none.
pub proof fn add_stdin_takes_the_replies_it_asks_for<E>(
    stage: StdinStage,
    reply: ReplyView<E>,
    later: ReplyView<E>,
)
    requires
        stdin_accepts(stage, reply),
    ensures
        ({
            let (next, step) = stdin_step(stage, reply);
            stdin_accepts(next, later) <==> (step matches StepView::Ask(request) && answers(
                request,
                later,
            ))
        }),
{
}

/// When an operation starts, the replies that it can take are those to its first
/// request.
pub proof fn operations_start_with_their_request<E>(path: Seq<u8>, reply: ReplyView<E>)
    ensures
        nested(seq![fresh_frame(path)]),
        walk_accepts(seq![fresh_frame(path)], reply) <==> answers(open_request(path), reply),
        path_accepts(PathStageView::Exists, reply) <==> answers(
            RequestView::Exists { path },
            reply,
        ),
        stdin_accepts(StdinStage::Storing, reply) <==> answers(RequestView::StoreInput, reply),
{
}

/// The first failure of the outside ends an operation, and is what the
/// operation reports.
pub proof fn failure_ends_the_operation<E>(
    frames: Seq<FrameView>,
    path: Seq<u8>,
    path_stage: PathStageView,
    stdin_stage: StdinStage,
    e: E,
)
    ensures
        walk_step(frames, ReplyView::Failed(e)).1 == StepView::<E>::Done(
            Err(ErrorView::Outside(e)),
        ),
        path_step(path, path_stage, ReplyView::Failed(e)).1 == StepView::<E>::Done(
            Err(ErrorView::Outside(e)),
        ),
        stdin_step(stdin_stage, ReplyView::Failed(e)).1 == StepView::<E>::Done(
            Err(ErrorView::Outside(e)),
        ),
{
}

/// The requests that a walk through a directory can make. None of them asks
/// what a link leads to, and none writes the journal.
pub open spec fn is_walk_request(request: RequestView) -> bool {
    ||| request is SymlinkMetadata
    ||| request is OpenDirectory
    ||| request is NextEntry
    ||| request is ReadLink
    ||| request is StoreFile
    ||| request is StoreBytes
    ||| request is StoreTree
}

proof fn lemma_child_asks<E>(dir: Seq<u8>, child: Child<E>)
    ensures
        forall|i: int|
            0 <= i < child_trace(dir, child).asked.len() ==> is_walk_request(
                #[trigger] child_trace(dir, child).asked[i],
            ),
    decreases child,
{
    if !same_path(child.path, dir) {
        if let Ok(metadata) = child.metadata {
            if metadata.file_type == FileType::Directory {
                lemma_listing_asks(
                    child.path,
                    true,
                    seq![],
                    child.directory.listing,
                    child.directory.tree,
                );
            }
        }
    }
}

proof fn lemma_listing_asks<E>(
    path: Seq<u8>,
    opening: bool,
    entries: Seq<TreeEntryView>,
    listing: Seq<Result<Child<E>, E>>,
    tree: Result<crate::hash::Hash, E>,
)
    ensures
        forall|i: int|
            0 <= i < listing_trace(path, opening, entries, listing, tree).asked.len()
                ==> is_walk_request(
                #[trigger] listing_trace(path, opening, entries, listing, tree).asked[i],
            ),
    decreases listing,
{
    if listing.len() > 0 {
        if let Ok(child) = listing[0] {
            lemma_child_asks(path, child);
            if let Ok(found) = child_trace(path, child).outcome {
                lemma_listing_asks(
                    path,
                    false,
                    with_found(entries, found),
                    listing.drop_first(),
                    tree,
                );
            }
        }
    }
}

/// A walk through a directory never asks what a link leads to, and never writes
/// the journal.
pub proof fn walk_never_follows_links<E>(path: Seq<u8>, directory: Directory<E>)
    ensures
        forall|i: int|
            0 <= i < directory_trace(path, directory).asked.len() ==> is_walk_request(
                #[trigger] directory_trace(path, directory).asked[i],
            ),
{
    lemma_listing_asks(path, true, seq![], directory.listing, directory.tree);
}

/// A path of the list of `dir` at which a link stands, whose name is text and
/// whose target can be read.
pub open spec fn is_readable_link<E>(dir: Seq<u8>, child: Child<E>) -> bool {
    &&& !same_path(child.path, dir)
    &&& entry_name(child.path) is Some
    &&& child.metadata matches Ok(metadata) && metadata.file_type == FileType::Symlink
    &&& child.target is Ok
}

/// Of a link in a directory, its target is read and stored byte for byte,
/// whether or not anything stands there, and nothing else is asked. The tree
/// entry of the link carries the hash that the store gave for the target.
pub proof fn link_targets_are_stored_verbatim<E>(dir: Seq<u8>, child: Child<E>)
    requires
        is_readable_link(dir, child),
    ensures
        ({
            let trace = child_trace(dir, child);
            &&& trace.asked == seq![
                RequestView::SymlinkMetadata { path: child.path },
                RequestView::ReadLink { path: child.path },
                RequestView::StoreBytes { bytes: child.target->Ok_0 },
            ]
            &&& trace.outcome matches Ok(found) ==> {
                &&& trace.replies[2] == ReplyView::<E>::Stored(child.blob->Ok_0)
                &&& found == Some(
                    TreeEntryView {
                        entry_type: EntryType::Symlink,
                        mode: file_modes::SYMLINK,
                        hash: child.blob->Ok_0,
                        name: entry_name(child.path)->Some_0,
                    },
                )
            }
        }),
{
    assert(child_trace(dir, child).asked =~= seq![
        RequestView::SymlinkMetadata { path: child.path },
        RequestView::ReadLink { path: child.path },
        RequestView::StoreBytes { bytes: child.target->Ok_0 },
    ]);
}

/// The directory itself, which its list may name, is passed over without a
/// question. Sockets, pipes and devices are passed over once they are known to
/// be that.
pub proof fn the_rest_is_passed_over<E>(dir: Seq<u8>, child: Child<E>)
    ensures
        same_path(child.path, dir) ==> child_trace(dir, child).asked == Seq::<RequestView>::empty()
            && child_trace(dir, child).outcome == Ok::<Option<TreeEntryView>, ErrorView<E>>(None),
        !same_path(child.path, dir) && entry_name(child.path) is Some && (child.metadata matches Ok(
            metadata,
        ) && metadata.file_type == FileType::Other) ==> child_trace(dir, child).asked == seq![
            RequestView::SymlinkMetadata { path: child.path },
        ] && child_trace(dir, child).outcome == Ok::<Option<TreeEntryView>, ErrorView<E>>(None),
{
    if !same_path(child.path, dir) && entry_name(child.path) is Some && (child.metadata matches Ok(
        metadata,
    ) && metadata.file_type == FileType::Other) {
        assert(child_trace(dir, child).asked =~= seq![
            RequestView::SymlinkMetadata { path: child.path },
        ]);
    }
}

/// The tree entry of an object: what it is, its mode, its hash, its name.
pub open spec fn entry_for<E>(
    entry_type: EntryType,
    mode: u32,
    stored: Result<crate::hash::Hash, E>,
    name: Seq<char>,
) -> Option<TreeEntryView> {
    match stored {
        Ok(hash) => Some(TreeEntryView { entry_type, mode, hash, name }),
        Err(_) => None,
    }
}

/// The tree entry that a path of a directory's list gives, if nothing fails.
pub open spec fn child_entry<E>(dir: Seq<u8>, child: Child<E>) -> Option<TreeEntryView> {
    if same_path(child.path, dir) {
        None
    } else {
        match (child.metadata, entry_name(child.path)) {
            (Ok(metadata), Some(name)) => match metadata.file_type {
                FileType::Symlink => entry_for(
                    EntryType::Symlink,
                    file_modes::SYMLINK,
                    child.blob,
                    name,
                ),
                FileType::File => entry_for(
                    EntryType::Blob,
                    file_mode(metadata),
                    child.blob,
                    name,
                ),
                FileType::Directory => entry_for(
                    EntryType::Tree,
                    file_modes::DIRECTORY,
                    child.directory.tree,
                    name,
                ),
                FileType::Other => None,
            },
            _ => None,
        }
    }
}

/// The tree entries that the paths of a directory's list give, in the order of
/// the list.
pub open spec fn listed_entries<E>(dir: Seq<u8>, listing: Seq<Result<Child<E>, E>>) -> Seq<
    TreeEntryView,
>
    decreases listing.len(),
{
    if listing.len() == 0 {
        seq![]
    } else {
        let front = listed_entries(dir, listing.drop_last());
        match listing.last() {
            Ok(child) => with_found(front, child_entry(dir, child)),
            Err(_) => front,
        }
    }
}

pub(crate) proof fn lemma_listed_entries_front<E>(dir: Seq<u8>, listing: Seq<Result<Child<E>, E>>)
    requires
        listing.len() > 0,
    ensures
        listed_entries(dir, listing) == (match listing[0] {
            Ok(child) => with_found(seq![], child_entry(dir, child)),
            Err(_) => seq![],
        }) + listed_entries(dir, listing.drop_first()),
    decreases listing.len(),
{
    if listing.len() == 1 {
        assert(listing.drop_last() =~= listing.drop_first());
    } else {
        lemma_listed_entries_front(dir, listing.drop_last());
        assert(listing.drop_last().drop_first() =~= listing.drop_first().drop_last());
    }
    assert(listed_entries(dir, listing) =~= (match listing[0] {
        Ok(child) => with_found(seq![], child_entry(dir, child)),
        Err(_) => seq![],
    }) + listed_entries(dir, listing.drop_first()));
}

pub(crate) proof fn lemma_child_outcome<E>(dir: Seq<u8>, child: Child<E>)
    ensures
        ({
            let trace = child_trace(dir, child);
            trace.outcome matches Ok(found) ==> {
                &&& found == child_entry(dir, child)
                &&& found matches Some(entry) ==> trace.replies.contains(
                    ReplyView::Stored(entry.hash),
                )
            }
        }),
    decreases child,
{
    let trace = child_trace(dir, child);
    if !same_path(child.path, dir) {
        if let (Ok(metadata), Some(_)) = (child.metadata, entry_name(child.path)) {
            if metadata.file_type == FileType::Directory {
                lemma_listing_outcome(
                    child.path,
                    true,
                    seq![],
                    child.directory.listing,
                    child.directory.tree,
                );
            }
            if let Ok(Some(entry)) = trace.outcome {
                assert(trace.replies.last() == ReplyView::<E>::Stored(entry.hash));
                assert(trace.replies.contains(trace.replies.last()));
            }
        }
    }
}

proof fn lemma_parts_contain<T>(head: T, first: Seq<T>, rest: Seq<T>, wanted: T)
    ensures
        first.contains(wanted) || rest.contains(wanted) ==> (seq![head] + (first + rest)).contains(
            wanted,
        ),
{
    let all = seq![head] + (first + rest);
    if first.contains(wanted) {
        let k = choose|k: int| 0 <= k < first.len() && first[k] == wanted;
        assert(all[k + 1] == wanted);
    } else if rest.contains(wanted) {
        let k = choose|k: int| 0 <= k < rest.len() && rest[k] == wanted;
        assert(all[1 + first.len() + k] == wanted);
    }
}

#[verifier::spinoff_prover]
proof fn lemma_listing_outcome<E>(
    path: Seq<u8>,
    opening: bool,
    entries: Seq<TreeEntryView>,
    listing: Seq<Result<Child<E>, E>>,
    tree: Result<crate::hash::Hash, E>,
)
    ensures
        ({
            let trace = listing_trace(path, opening, entries, listing, tree);
            let listed = listed_entries(path, listing);
            trace.outcome matches Ok(hash) ==> {
                &&& tree == Ok::<crate::hash::Hash, E>(hash)
                &&& trace.replies.len() > 0
                &&& trace.replies.last() == ReplyView::<E>::Stored(hash)
                &&& trace.asked.len() > 0
                &&& trace.asked.last() == (RequestView::StoreTree {
                    entries: in_order(entries + listed),
                })
                &&& forall|i: int|
                    0 <= i < listed.len() ==> trace.replies.drop_last().contains(
                        ReplyView::Stored((#[trigger] listed[i]).hash),
                    )
            }
        }),
    decreases listing,
{
    let trace = listing_trace(path, opening, entries, listing, tree);
    let listed = listed_entries(path, listing);
    if listing.len() == 0 {
        assert(entries + listed =~= entries);
        assert(listed.len() == 0);
    } else if let Ok(child) = listing[0] {
        let first = child_trace(path, child);
        lemma_child_outcome(path, child);
        lemma_listed_entries_front(path, listing);
        if let Ok(found) = first.outcome {
            let rest_listing = listing.drop_first();
            let rest = listing_trace(
                path,
                false,
                with_found(entries, found),
                rest_listing,
                tree,
            );
            let rest_listed = listed_entries(path, rest_listing);
            lemma_listing_outcome(path, false, with_found(entries, found), rest_listing, tree);
            assert(with_found(entries, found) + rest_listed =~= entries + listed);
            if rest.outcome is Ok {
                let early = trace.replies.drop_last();
                let reply = ReplyView::<E>::Entry(child.path);
                assert(trace.replies =~= seq![reply] + (first.replies + rest.replies));
                assert(early =~= seq![reply] + (first.replies + rest.replies.drop_last()));
                assert forall|i: int| 0 <= i < listed.len() implies early.contains(
                    ReplyView::Stored((#[trigger] listed[i]).hash),
                ) by {
                    let wanted = ReplyView::<E>::Stored(listed[i].hash);
                    let offset = with_found(seq![], found).len() as int;
                    let later = rest.replies.drop_last();
                    lemma_parts_contain(reply, first.replies, later, wanted);
                    if i >= offset {
                        assert(listed[i] == rest_listed[i - offset]);
                        assert(later.contains(wanted));
                    }
                }
            }
        }
    }
}

/// A directory that is stored becomes a tree with one entry for each of its
/// files, links and directories, in order; its hash is what the store gave for
/// that tree; and every hash in the tree was given by the store before the tree
/// was stored.
pub proof fn tree_lists_the_children<E>(path: Seq<u8>, directory: Directory<E>)
    requires
        directory_trace(path, directory).outcome is Ok,
    ensures
        ({
            let trace = directory_trace(path, directory);
            let listed = listed_entries(path, directory.listing);
            &&& directory.tree == Ok::<crate::hash::Hash, E>(trace.outcome->Ok_0)
            &&& trace.asked.len() > 0
            &&& trace.asked.last() == (RequestView::StoreTree { entries: in_order(listed) })
            &&& trace.replies.len() > 0
            &&& trace.replies.last() == ReplyView::<E>::Stored(trace.outcome->Ok_0)
            &&& forall|i: int|
                0 <= i < listed.len() ==> trace.replies.drop_last().contains(
                    ReplyView::Stored((#[trigger] listed[i]).hash),
                )
        }),
{
    lemma_listing_outcome(path, true, seq![], directory.listing, directory.tree);
    let listed = listed_entries(path, directory.listing);
    assert(Seq::<TreeEntryView>::empty() + listed =~= listed);
}

/// A directory becomes the same tree in whatever order its entries are listed.
pub proof fn listing_order_does_not_matter<E>(
    path: Seq<u8>,
    one: Directory<E>,
    other: Directory<E>,
)
    requires
        directory_trace(path, one).outcome is Ok,
        directory_trace(path, other).outcome is Ok,
        listed_entries(path, one.listing).to_multiset() == listed_entries(
            path,
            other.listing,
        ).to_multiset(),
        distinct_names(listed_entries(path, one.listing)),
    ensures
        directory_trace(path, one).asked.last() == directory_trace(path, other).asked.last(),
{
    tree_lists_the_children(path, one);
    tree_lists_the_children(path, other);
    finding_order_does_not_matter(
        listed_entries(path, one.listing),
        listed_entries(path, other.listing),
    );
}

/// The name is short enough for a tree entry.
pub open spec fn name_fits(name: Seq<char>) -> bool {
    name_bytes(name).len() <= MAX_NAME_LEN
}

/// Nothing is wrong with a path of the list of `dir`: the outside does not fail,
/// and its name is text that fits.
pub open spec fn child_is_well<E>(dir: Seq<u8>, child: Child<E>) -> bool
    decreases child,
{
    same_path(child.path, dir) || match (child.metadata, entry_name(child.path)) {
        (Ok(metadata), Some(name)) => match metadata.file_type {
            FileType::Symlink => child.target is Ok && child.blob is Ok && name_fits(name),
            FileType::File => child.blob is Ok && name_fits(name),
            FileType::Directory => listing_is_well(child.path, child.directory.listing)
                && child.directory.tree is Ok && name_fits(name),
            FileType::Other => true,
        },
        _ => false,
    }
}

/// Nothing is wrong with any path of the list of `dir`.
pub open spec fn listing_is_well<E>(dir: Seq<u8>, listing: Seq<Result<Child<E>, E>>) -> bool
    decreases listing,
{
    listing.len() == 0 || match listing[0] {
        Ok(child) => child_is_well(dir, child) && listing_is_well(dir, listing.drop_first()),
        Err(_) => false,
    }
}

proof fn lemma_child_succeeds<E>(dir: Seq<u8>, child: Child<E>)
    ensures
        child_trace(dir, child).outcome is Ok <==> child_is_well(dir, child),
    decreases child,
{
    if !same_path(child.path, dir) {
        if let Ok(metadata) = child.metadata {
            if metadata.file_type == FileType::Directory {
                lemma_listing_succeeds(
                    child.path,
                    true,
                    seq![],
                    child.directory.listing,
                    child.directory.tree,
                );
            }
        }
    }
}

proof fn lemma_listing_succeeds<E>(
    path: Seq<u8>,
    opening: bool,
    entries: Seq<TreeEntryView>,
    listing: Seq<Result<Child<E>, E>>,
    tree: Result<crate::hash::Hash, E>,
)
    ensures
        listing_trace(path, opening, entries, listing, tree).outcome is Ok <==> listing_is_well(
            path,
            listing,
        ) && tree is Ok,
    decreases listing,
{
    if listing.len() > 0 {
        if let Ok(child) = listing[0] {
            lemma_child_succeeds(path, child);
            if let Ok(found) = child_trace(path, child).outcome {
                lemma_listing_succeeds(
                    path,
                    false,
                    with_found(entries, found),
                    listing.drop_first(),
                    tree,
                );
            }
        }
    }
}

/// A directory is stored exactly when the outside does not fail anywhere below
/// it and every name is text that fits in a tree entry.
pub proof fn directory_is_stored_unless_something_fails<E>(path: Seq<u8>, directory: Directory<E>)
    ensures
        directory_trace(path, directory).outcome is Ok <==> listing_is_well(
            path,
            directory.listing,
        ) && directory.tree is Ok,
{
    lemma_listing_succeeds(path, true, seq![], directory.listing, directory.tree);
}

/// Where nothing stands, only that is asked. Where neither a file nor a
/// directory stands, only what it is is asked besides. Either way nothing is
/// stored or recorded.
pub proof fn refusals_leave_no_trace<E>(path: Seq<u8>, replies: PathReplies<E>)
    ensures
        ({
            let trace = add_path_trace(path, replies);
            &&& !replies.exists ==> trace.asked == seq![RequestView::Exists { path }]
                && trace.outcome == Err::<crate::hash::Hash, ErrorView<E>>(
                path_missing(lossy_text(path)),
            )
            &&& replies.exists && (replies.metadata matches Ok(metadata) && metadata.file_type
                != FileType::File && metadata.file_type != FileType::Directory) ==> trace.asked
                == seq![RequestView::Exists { path }, RequestView::Metadata { path }]
                && trace.outcome == Err::<crate::hash::Hash, ErrorView<E>>(
                unsupported_type(lossy_text(path)),
            )
        }),
{
    let trace = add_path_trace(path, replies);
    if !replies.exists {
        assert(trace.asked =~= seq![RequestView::Exists { path }]);
    } else if replies.metadata matches Ok(metadata) && metadata.file_type != FileType::File
        && metadata.file_type != FileType::Directory {
        assert(trace.asked =~= seq![
            RequestView::Exists { path },
            RequestView::Metadata { path },
        ]);
    }
}

/// A path is added exactly when something stands there, it is a file or a
/// directory, and nothing fails on the way.
pub proof fn path_is_added_unless_something_fails<E>(path: Seq<u8>, replies: PathReplies<E>)
    ensures
        add_path_trace(path, replies).outcome is Ok <==> replies.exists && (
        replies.metadata matches Ok(metadata) && match metadata.file_type {
            FileType::File => replies.blob is Ok,
            FileType::Directory => {
                &&& listing_is_well(path, replies.directory.listing)
                &&& replies.directory.tree is Ok
                &&& replies.tree is Ok
                &&& replies.size is Ok
            },
            _ => false,
        }) && replies.journal is Ok,
{
    directory_is_stored_unless_something_fails(path, replies.directory);
}

/// The number of entries and the size that the journal records of an added
/// path: of a file, one entry and its length; of a directory, the entries of
/// its tree and the size of the tree's object.
pub open spec fn recorded_extent<E>(replies: PathReplies<E>) -> (nat, nat) {
    match replies.metadata {
        Ok(metadata) if metadata.file_type == FileType::File => (1, metadata.len as nat),
        _ => (
            match replies.tree {
                Ok(entries) => entries.len(),
                Err(_) => 0,
            },
            match replies.size {
                Ok(size) => size as nat,
                Err(_) => 0,
            },
        ),
    }
}

/// The hash that the store gave for what stands at the added path.
pub open spec fn stored_hash<E>(replies: PathReplies<E>) -> Result<crate::hash::Hash, E> {
    match replies.metadata {
        Ok(metadata) if metadata.file_type == FileType::File => replies.blob,
        _ => replies.directory.tree,
    }
}

/// An added path is recorded: the last thing asked is to write its line of the
/// journal, and the hash there is the one that is returned, which is the one
/// that the store gave.
pub proof fn added_path_is_recorded<E>(path: Seq<u8>, replies: PathReplies<E>)
    requires
        add_path_trace(path, replies).outcome is Ok,
    ensures
        ({
            let trace = add_path_trace(path, replies);
            let hash = trace.outcome->Ok_0;
            let (entries, size) = recorded_extent(replies);
            &&& stored_hash(replies) == Ok::<crate::hash::Hash, E>(hash)
            &&& trace.asked.len() > 0
            &&& trace.asked.last() == (RequestView::AppendJournal {
                entry: add_record(replies.seconds, hash, lossy_text(path), entries, size),
            })
        }),
{
    lemma_listing_outcome(
        path,
        true,
        seq![],
        replies.directory.listing,
        replies.directory.tree,
    );
}

/// The journal is written last or not at all.
pub proof fn nothing_follows_the_record<E>(path: Seq<u8>, replies: PathReplies<E>)
    ensures
        forall|i: int|
            0 <= i < add_path_trace(path, replies).asked.len() - 1 ==> !(
            #[trigger] add_path_trace(path, replies).asked[i] is AppendJournal),
{
    lemma_listing_asks(
        path,
        true,
        seq![],
        replies.directory.listing,
        replies.directory.tree,
    );
}

/// If the store gives back the tree that was stored, the journal counts the
/// files, links and directories that were found in the directory.
pub proof fn record_counts_the_children<E>(path: Seq<u8>, replies: PathReplies<E>)
    requires
        add_path_trace(path, replies).outcome is Ok,
        replies.metadata matches Ok(metadata) && metadata.file_type == FileType::Directory,
        directory_trace(path, replies.directory).asked.last() == (RequestView::StoreTree {
            entries: replies.tree->Ok_0,
        }),
    ensures
        recorded_extent(replies).0 == listed_entries(path, replies.directory.listing).len(),
{
    tree_lists_the_children(path, replies.directory);
    ordering_keeps_entries(listed_entries(path, replies.directory.listing));
}

/// Added standard input is recorded: the last thing asked is to write its line
/// of the journal, with the path `(stdin)`, one entry, the size of the object,
/// and the hash that is returned; the journal is not written before.
pub proof fn added_stdin_is_recorded<E>(replies: StdinReplies<E>)
    ensures
        ({
            let trace = add_stdin_trace(replies);
            &&& trace.outcome is Ok <==> replies.blob is Ok && replies.size is Ok
                && replies.journal is Ok
            &&& trace.outcome matches Ok(hash) ==> {
                &&& replies.blob == Ok::<crate::hash::Hash, E>(hash)
                &&& trace.asked.last() == (RequestView::AppendJournal {
                    entry: add_record(
                        replies.seconds,
                        hash,
                        stdin_path(),
                        1,
                        replies.size->Ok_0 as nat,
                    ),
                })
            }
            &&& forall|i: int|
                0 <= i < trace.asked.len() - 1 ==> !(#[trigger] trace.asked[i] is AppendJournal)
        }),
{
}

} // verus!
