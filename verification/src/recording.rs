//! What the journal records of operations, however the outside replies.

use vstd::prelude::*;

use crate::coverage::every_add_path_has_its_trace;
use crate::coverage::every_add_stdin_has_its_trace;
use crate::directory::fresh_frame;
use crate::directory::open_request;
use crate::directory::walk_step;
use crate::directory::FrameView;
use crate::journal::add_record;
use crate::journal::stdin_path;
use crate::journal::JournalEntryView;
use crate::laws::added_path_is_recorded;
use crate::laws::is_walk_request;
use crate::laws::nothing_follows_the_record;
use crate::laws::tree_lists_the_children;
use crate::metadata::FileType;
use crate::metadata::Metadata;
use crate::protocol::ReplyView;
use crate::protocol::RequestView;
use crate::protocol::StepView;
use crate::run::add_path_follows_its_trace;
use crate::run::add_stdin_follows_its_trace;
use crate::run::path_machine;
use crate::run::run;
use crate::run::stdin_machine;
use crate::run::walk_machine;
use crate::run::Run;
use crate::text::lossy_text;
use crate::trace::add_path_trace;
use crate::trace::add_stdin_trace;
use crate::trace::directory_recorded_trace;
use crate::trace::directory_trace;
use crate::trace::PathReplies;
use crate::trace::StdinReplies;
use crate::tree::TreeEntryView;
use crate::walk::path_step;
use crate::walk::stdin_step;
use crate::walk::PathStageView;
use crate::walk::StdinStage;

verus! {

/// The adding of `path`, run on `replies`.
pub open spec fn path_run<E>(path: Seq<u8>, replies: Seq<ReplyView<E>>) -> Run<PathStageView, E> {
    run(
        path_machine::<E>(path),
        PathStageView::Exists,
        StepView::Ask(RequestView::Exists { path }),
        replies,
    )
}

/// The adding of standard input, run on `replies`.
pub open spec fn stdin_run<E>(replies: Seq<ReplyView<E>>) -> Run<StdinStage, E> {
    run(
        stdin_machine::<E>(),
        StdinStage::Storing,
        StepView::Ask(RequestView::StoreInput),
        replies,
    )
}

/// The walk through the directory at `path`, run on `replies`.
pub open spec fn walk_run<E>(path: Seq<u8>, replies: Seq<ReplyView<E>>) -> Run<Seq<FrameView>, E> {
    run(
        walk_machine::<E>(),
        seq![fresh_frame(path)],
        StepView::Ask(open_request(path)),
        replies,
    )
}

/// The journal was written.
pub open spec fn was_recorded<E>(replies: Seq<ReplyView<E>>) -> bool {
    exists|i: int| 0 <= i < replies.len() && #[trigger] replies[i] is Appended
}

proof fn lemma_recorded_next<E>(replies: Seq<ReplyView<E>>)
    requires
        replies.len() > 0,
    ensures
        was_recorded(replies) <==> replies[0] is Appended || was_recorded(replies.drop_first()),
{
    let rest = replies.drop_first();
    if was_recorded(replies) && !(replies[0] is Appended) {
        let i = choose|i: int| 0 <= i < replies.len() && #[trigger] replies[i] is Appended;
        assert(rest[i - 1] is Appended);
    }
    if was_recorded(rest) {
        let i = choose|i: int| 0 <= i < rest.len() && #[trigger] rest[i] is Appended;
        assert(replies[i + 1] is Appended);
    }
}

proof fn lemma_path_records<E>(
    path: Seq<u8>,
    stage: PathStageView,
    request: RequestView,
    replies: Seq<ReplyView<E>>,
)
    requires
        run(path_machine::<E>(path), stage, StepView::Ask(request), replies).accepted,
    ensures
        was_recorded(replies) <==> (run(
            path_machine::<E>(path),
            stage,
            StepView::Ask(request),
            replies,
        ).step matches StepView::Done(Ok(_))),
    decreases replies.len(),
{
    if replies.len() > 0 {
        lemma_recorded_next(replies);
        let (next, step) = path_step(path, stage, replies[0]);
        if let StepView::Ask(later) = step {
            lemma_path_records(path, next, later, replies.drop_first());
        }
    }
}

/// The adding of a path has written the journal exactly when it has succeeded:
/// one that fails, or is still under way, has not.
pub proof fn add_path_records_its_success_alone<E>(path: Seq<u8>, replies: Seq<ReplyView<E>>)
    requires
        path_run(path, replies).accepted,
    ensures
        was_recorded(replies) <==> (path_run(path, replies).step matches StepView::Done(Ok(_))),
{
    lemma_path_records(path, PathStageView::Exists, RequestView::Exists { path }, replies);
}

proof fn lemma_stdin_records<E>(
    stage: StdinStage,
    request: RequestView,
    replies: Seq<ReplyView<E>>,
)
    requires
        run(stdin_machine::<E>(), stage, StepView::Ask(request), replies).accepted,
    ensures
        was_recorded(replies) <==> (run(
            stdin_machine::<E>(),
            stage,
            StepView::Ask(request),
            replies,
        ).step matches StepView::Done(Ok(_))),
    decreases replies.len(),
{
    if replies.len() > 0 {
        lemma_recorded_next(replies);
        let (next, step) = stdin_step(stage, replies[0]);
        if let StepView::Ask(later) = step {
            lemma_stdin_records(next, later, replies.drop_first());
        }
    }
}

/// The adding of standard input has written the journal exactly when it has
/// succeeded: one that fails, or is still under way, has not.
pub proof fn add_stdin_records_its_success_alone<E>(replies: Seq<ReplyView<E>>)
    requires
        stdin_run(replies).accepted,
    ensures
        was_recorded(replies) <==> (stdin_run(replies).step matches StepView::Done(Ok(_))),
{
    lemma_stdin_records(StdinStage::Storing, RequestView::StoreInput, replies);
}

proof fn lemma_walk_asks<E>(
    frames: Seq<FrameView>,
    request: RequestView,
    replies: Seq<ReplyView<E>>,
)
    requires
        run(walk_machine::<E>(), frames, StepView::Ask(request), replies).accepted,
        is_walk_request(request),
    ensures
        ({
            let result = run(walk_machine::<E>(), frames, StepView::Ask(request), replies);
            &&& forall|i: int|
                0 <= i < result.asked.len() ==> is_walk_request(#[trigger] result.asked[i])
            &&& !was_recorded(replies)
        }),
    decreases replies.len(),
{
    if replies.len() > 0 {
        lemma_recorded_next(replies);
        let (next, step) = walk_step(frames, replies[0]);
        if let StepView::Ask(later) = step {
            lemma_walk_asks(next, later, replies.drop_first());
        }
        let rest = run(walk_machine::<E>(), next, step, replies.drop_first());
        let asked = seq![request] + rest.asked;
        assert forall|i: int| 0 <= i < asked.len() implies is_walk_request(#[trigger] asked[i]) by {
            if i > 0 {
                assert(asked[i] == rest.asked[i - 1]);
            }
        }
    }
}

/// A walk through a directory, whether it succeeds, fails or is still under
/// way, leaves the journal as it is, and never asks what a link leads to.
pub proof fn walk_leaves_the_journal_alone<E>(path: Seq<u8>, replies: Seq<ReplyView<E>>)
    requires
        walk_run(path, replies).accepted,
    ensures
        forall|i: int|
            0 <= i < walk_run(path, replies).asked.len() ==> is_walk_request(
                #[trigger] walk_run(path, replies).asked[i],
            ),
        !was_recorded(replies),
{
    lemma_walk_asks(seq![fresh_frame(path)], open_request(path), replies);
}

/// The replies to the adding of a path at which a file stands.
pub open spec fn file_replies<E>(
    metadata: Metadata,
    hash: crate::hash::Hash,
    seconds: u64,
) -> Seq<ReplyView<E>> {
    seq![
        ReplyView::Exists(true),
        ReplyView::Metadata(metadata),
        ReplyView::Stored(hash),
        ReplyView::Seconds(seconds),
        ReplyView::Appended,
    ]
}

/// The last replies to the adding of a path at which a directory stands.
pub open spec fn last_directory_replies<E>(
    hash: crate::hash::Hash,
    seconds: u64,
    entries: Seq<TreeEntryView>,
    size: u64,
) -> Seq<ReplyView<E>> {
    seq![
        ReplyView::Stored(hash),
        ReplyView::Seconds(seconds),
        ReplyView::Tree(entries),
        ReplyView::Size(size),
        ReplyView::Appended,
    ]
}

/// `entry` is the line of the journal for a path that was added as `hash`, with
/// the given replies: the time is the one that the clock gave; a file counts as
/// one entry of its length, a directory as the entries of its tree and the size
/// of the tree's object.
pub open spec fn is_record_of<E>(
    entry: JournalEntryView,
    path: Seq<u8>,
    hash: crate::hash::Hash,
    replies: Seq<ReplyView<E>>,
) -> bool {
    ||| exists|metadata: Metadata, seconds: u64|
        {
            &&& replies == #[trigger] file_replies::<E>(metadata, hash, seconds)
            &&& metadata.file_type == FileType::File
            &&& entry == add_record(seconds, hash, lossy_text(path), 1, metadata.len as nat)
        }
    ||| exists|seconds: u64, entries: Seq<TreeEntryView>, size: u64|
        {
            &&& (#[trigger] last_directory_replies::<E>(
                hash,
                seconds,
                entries,
                size,
            )).is_suffix_of(replies)
            &&& replies[1] matches ReplyView::Metadata(metadata) && metadata.file_type
                == FileType::Directory
            &&& entry == add_record(seconds, hash, lossy_text(path), entries.len(), size as nat)
        }
}

/// However the outside replies, an adding of a path that succeeds has written
/// the journal once, as its last request, with the time, the path, the hash
/// that it returns, and the extent of what was added.
pub proof fn every_success_is_recorded<E>(path: Seq<u8>, replies: Seq<ReplyView<E>>)
    requires
        path_run(path, replies).accepted,
        path_run(path, replies).step matches StepView::Done(Ok(_)),
    ensures
        ({
            let result = path_run(path, replies);
            &&& result.asked.len() > 0
            &&& result.asked.last() matches RequestView::AppendJournal { entry }
            &&& is_record_of(entry, path, result.step->Done_0->Ok_0, replies)
            &&& forall|i: int|
                0 <= i < result.asked.len() - 1 ==> !(#[trigger] result.asked[i] is AppendJournal)
        }),
{
    every_add_path_has_its_trace(path, replies);
    let all = choose|all: PathReplies<E>|
        (#[trigger] add_path_trace(path, all)).replies == replies;
    add_path_follows_its_trace(path, all);
    added_path_is_recorded(path, all);
    nothing_follows_the_record(path, all);
    let hash = path_run(path, replies).step->Done_0->Ok_0;
    let metadata = all.metadata->Ok_0;
    if metadata.file_type == FileType::File {
        assert(replies =~= file_replies::<E>(metadata, hash, all.seconds));
    } else {
        let walk = directory_trace(path, all.directory);
        tree_lists_the_children(path, all.directory);
        let later = directory_recorded_trace(path, hash, all);
        let last = last_directory_replies::<E>(
            hash,
            all.seconds,
            all.tree->Ok_0,
            all.size->Ok_0,
        );
        assert(seq![walk.replies.last()] + later.replies =~= last);
        assert(replies =~= seq![ReplyView::<E>::Exists(true), ReplyView::Metadata(metadata)] + (
        walk.replies + later.replies));
        assert(last.is_suffix_of(replies)) by {
            assert(replies.subrange(replies.len() - last.len(), replies.len() as int) =~= last);
        }
    }
}

/// However the outside replies, an adding of standard input that succeeds has
/// stored it, asked for the size of the object and the time, and written the
/// journal once, with these, the path `(stdin)` and the hash that it returns.
pub proof fn every_stdin_success_is_recorded<E>(replies: Seq<ReplyView<E>>)
    requires
        stdin_run(replies).accepted,
        stdin_run(replies).step matches StepView::Done(Ok(_)),
    ensures
        ({
            let result = stdin_run(replies);
            let hash = result.step->Done_0->Ok_0;
            exists|size: u64, seconds: u64|
                {
                    &&& replies == seq![
                        ReplyView::<E>::Stored(hash),
                        ReplyView::Size(size),
                        ReplyView::Seconds(seconds),
                        ReplyView::Appended,
                    ]
                    &&& result.asked == seq![
                        RequestView::StoreInput,
                        RequestView::ObjectSize { hash },
                        RequestView::Clock,
                        RequestView::AppendJournal {
                            entry: #[trigger] add_record(
                                seconds,
                                hash,
                                stdin_path(),
                                1,
                                size as nat,
                            ),
                        },
                    ]
                }
        }),
{
    every_add_stdin_has_its_trace(replies);
    let all = choose|all: StdinReplies<E>| (#[trigger] add_stdin_trace(all)).replies == replies;
    add_stdin_follows_its_trace(all);
    let result = stdin_run(replies);
    let hash = result.step->Done_0->Ok_0;
    let size = all.size->Ok_0;
    assert(replies =~= seq![
        ReplyView::<E>::Stored(hash),
        ReplyView::Size(size),
        ReplyView::Seconds(all.seconds),
        ReplyView::Appended,
    ]);
    assert(result.asked =~= seq![
        RequestView::StoreInput,
        RequestView::ObjectSize { hash },
        RequestView::Clock,
        RequestView::AppendJournal {
            entry: add_record(all.seconds, hash, stdin_path(), 1, size as nat),
        },
    ]);
}

} // verus!
