//! The operations, run against all replies of the outside, do what their
//! traces say.

use vstd::prelude::*;

use crate::directory::directory_stored;
use crate::directory::fresh_frame;
use crate::directory::open_request;
use crate::directory::walk_accepts;
use crate::directory::walk_fails;
use crate::directory::walk_step;
use crate::directory::FrameView;
use crate::directory::StageView;
use crate::journal::add_record;
use crate::journal::stdin_path;
use crate::journal::JournalEntryView;
use crate::metadata::file_mode;
use crate::metadata::FileType;
use crate::order::in_order;
use crate::path::entry_name;
use crate::path::same_path;
use crate::protocol::ReplyView;
use crate::protocol::RequestView;
use crate::protocol::StepView;
use crate::text::lossy_text;
use crate::trace::add_path_trace;
use crate::trace::add_stdin_trace;
use crate::trace::child_trace;
use crate::trace::directory_recorded_trace;
use crate::trace::directory_trace;
use crate::trace::file_recorded_trace;
use crate::trace::journal_reply;
use crate::trace::journal_trace;
use crate::trace::listing_trace;
use crate::trace::metadata_reply;
use crate::trace::size_reply;
use crate::trace::stored_reply;
use crate::trace::tree_reply;
use crate::trace::with_found;
use crate::trace::Child;
use crate::trace::Directory;
use crate::trace::PathReplies;
use crate::trace::StdinReplies;
use crate::tree::TreeEntryView;
use crate::walk::path_accepts;
use crate::walk::path_step;
use crate::walk::path_walks;
use crate::walk::stdin_accepts;
use crate::walk::stdin_step;
use crate::walk::PathStageView;
use crate::walk::StdinStage;

verus! {

/// An operation as a machine: which replies it can take, and how it goes on.
#[verifier::reject_recursive_types(S)]
#[verifier::reject_recursive_types(E)]
pub struct Machine<S, E> {
    pub accepts: spec_fn(S, ReplyView<E>) -> bool,
    pub next: spec_fn(S, ReplyView<E>) -> (S, StepView<E>),
}

/// The walk through a directory.
pub open spec fn walk_machine<E>() -> Machine<Seq<FrameView>, E> {
    Machine {
        accepts: |frames: Seq<FrameView>, reply: ReplyView<E>| walk_accepts(frames, reply),
        next: |frames: Seq<FrameView>, reply: ReplyView<E>| walk_step(frames, reply),
    }
}

/// The adding of `path`.
pub open spec fn path_machine<E>(path: Seq<u8>) -> Machine<PathStageView, E> {
    Machine {
        accepts: |stage: PathStageView, reply: ReplyView<E>| path_accepts(stage, reply),
        next: |stage: PathStageView, reply: ReplyView<E>| path_step(path, stage, reply),
    }
}

/// The adding of standard input.
pub open spec fn stdin_machine<E>() -> Machine<StdinStage, E> {
    Machine {
        accepts: |stage: StdinStage, reply: ReplyView<E>| stdin_accepts(stage, reply),
        next: |stage: StdinStage, reply: ReplyView<E>| stdin_step(stage, reply),
    }
}

/// What comes of running a machine.
pub struct Run<S, E> {
    /// Every reply was one that the machine could take at its place.
    pub accepted: bool,
    /// The requests that were replied to.
    pub asked: Seq<RequestView>,
    pub state: S,
    pub step: StepView<E>,
}

/// Runs a machine that is at `state` and has made `step` on `replies`.
pub open spec fn run<S, E>(
    machine: Machine<S, E>,
    state: S,
    step: StepView<E>,
    replies: Seq<ReplyView<E>>,
) -> Run<S, E>
    decreases replies.len(),
{
    if replies.len() == 0 {
        Run { accepted: true, asked: seq![], state, step }
    } else {
        match step {
            StepView::Done(_) => Run { accepted: false, asked: seq![], state, step },
            StepView::Ask(request) => {
                let (next_state, next_step) = (machine.next)(state, replies[0]);
                let rest = run(machine, next_state, next_step, replies.drop_first());
                Run {
                    accepted: (machine.accepts)(state, replies[0]) && rest.accepted,
                    asked: seq![request] + rest.asked,
                    state: rest.state,
                    step: rest.step,
                }
            },
        }
    }
}

pub(crate) proof fn lemma_run_once<S, E>(
    machine: Machine<S, E>,
    state: S,
    request: RequestView,
    reply: ReplyView<E>,
    rest: Seq<ReplyView<E>>,
)
    ensures
        ({
            let (next_state, next_step) = (machine.next)(state, reply);
            let later = run(machine, next_state, next_step, rest);
            run(machine, state, StepView::Ask(request), seq![reply] + rest) == (Run {
                accepted: (machine.accepts)(state, reply) && later.accepted,
                asked: seq![request] + later.asked,
                state: later.state,
                step: later.step,
            })
        }),
{
    let replies = seq![reply] + rest;
    assert(replies[0] == reply);
    assert(replies.drop_first() =~= rest);
}

pub(crate) proof fn lemma_run_twice<S, E>(
    machine: Machine<S, E>,
    state: S,
    step: StepView<E>,
    first: Seq<ReplyView<E>>,
    second: Seq<ReplyView<E>>,
)
    requires
        run(machine, state, step, first).accepted,
    ensures
        ({
            let middle = run(machine, state, step, first);
            let later = run(machine, middle.state, middle.step, second);
            run(machine, state, step, first + second) == (Run {
                accepted: later.accepted,
                asked: middle.asked + later.asked,
                state: later.state,
                step: later.step,
            })
        }),
    decreases first.len(),
{
    if first.len() == 0 {
        assert(first + second =~= second);
        let later = run(machine, state, step, second);
        assert(seq![] + later.asked =~= later.asked);
    } else {
        match step {
            StepView::Done(_) => {},
            StepView::Ask(request) => {
                let (next_state, next_step) = (machine.next)(state, first[0]);
                lemma_run_twice(machine, next_state, next_step, first.drop_first(), second);
                assert((first + second).drop_first() =~= first.drop_first() + second);
                let middle = run(machine, next_state, next_step, first.drop_first());
                let later = run(machine, middle.state, middle.step, second);
                assert(seq![request] + (middle.asked + later.asked) =~= (seq![request]
                    + middle.asked) + later.asked);
            },
        }
    }
}

/// The walk, about to take the reply that names a child, at the place where the
/// child has been dealt with.
pub(crate) open spec fn after_child<E>(
    base: Seq<FrameView>,
    path: Seq<u8>,
    entries: Seq<TreeEntryView>,
    child: Child<E>,
) -> (Seq<FrameView>, StepView<E>) {
    match child_trace(path, child).outcome {
        Err(error) => walk_fails(error),
        Ok(found) => (
            base.push(
                FrameView { path, entries: with_found(entries, found), stage: StageView::Entry },
            ),
            StepView::Ask(RequestView::NextEntry),
        ),
    }
}

/// The walk at the place where the list of a directory has been gone through.
pub(crate) open spec fn after_listing<E>(
    base: Seq<FrameView>,
    path: Seq<u8>,
    opening: bool,
    entries: Seq<TreeEntryView>,
    listing: Seq<Result<Child<E>, E>>,
    tree: Result<crate::hash::Hash, E>,
) -> (Seq<FrameView>, StepView<E>) {
    match listing_trace(path, opening, entries, listing, tree).outcome {
        Err(error) => walk_fails(error),
        Ok(hash) => directory_stored(base, hash),
    }
}

pub(crate) proof fn lemma_child_runs<E>(
    base: Seq<FrameView>,
    path: Seq<u8>,
    entries: Seq<TreeEntryView>,
    child: Child<E>,
)
    ensures
        ({
            let frames = base.push(FrameView { path, entries, stage: StageView::Entry });
            let (state, step) = walk_step(frames, ReplyView::<E>::Entry(child.path));
            let trace = child_trace(path, child);
            let result = run(walk_machine::<E>(), state, step, trace.replies);
            &&& result.accepted
            &&& result.asked == trace.asked
            &&& (result.state, result.step) == after_child(base, path, entries, child)
        }),
    decreases child,
{
    let machine = walk_machine::<E>();
    let frames = base.push(FrameView { path, entries, stage: StageView::Entry });
    assert(frames.drop_last() =~= base);
    let (state, step) = walk_step(frames, ReplyView::<E>::Entry(child.path));
    let trace = child_trace(path, child);
    if !same_path(child.path, path) {
        let inspecting = base.push(
            FrameView { path, entries, stage: StageView::Inspecting { child: child.path } },
        );
        assert(inspecting.drop_last() =~= base);
        assert(state == inspecting);
        let request = RequestView::SymlinkMetadata { path: child.path };
        match child.metadata {
            Err(e) => {
                lemma_run_once(machine, state, request, ReplyView::Failed(e), seq![]);
            },
            Ok(metadata) => {
                let reply = ReplyView::<E>::Metadata(metadata);
                let later = trace.replies.drop_first();
                assert(trace.replies =~= seq![reply] + later);
                lemma_run_once(machine, state, request, reply, later);
                match entry_name(child.path) {
                    None => {
                        assert(later =~= seq![]);
                    },
                    Some(name) => match metadata.file_type {
                        FileType::Symlink => {
                            let reading = base.push(
                                FrameView { path, entries, stage: StageView::ReadingLink { name } },
                            );
                            assert(reading.drop_last() =~= base);
                            let ask = RequestView::ReadLink { path: child.path };
                            match child.target {
                                Err(e) => {
                                    assert(later =~= seq![ReplyView::Failed(e)] + seq![]);
                                    lemma_run_once(
                                        machine,
                                        reading,
                                        ask,
                                        ReplyView::Failed(e),
                                        seq![],
                                    );
                                },
                                Ok(target) => {
                                    let storing = base.push(
                                        FrameView {
                                            path,
                                            entries,
                                            stage: StageView::StoringLink { name },
                                        },
                                    );
                                    assert(storing.drop_last() =~= base);
                                    let last = stored_reply(child.blob);
                                    assert(later =~= seq![ReplyView::LinkTarget(target)] + (
                                    seq![last] + seq![]));
                                    lemma_run_once(
                                        machine,
                                        reading,
                                        ask,
                                        ReplyView::LinkTarget(target),
                                        seq![last] + seq![],
                                    );
                                    lemma_run_once(
                                        machine,
                                        storing,
                                        RequestView::StoreBytes { bytes: target },
                                        last,
                                        seq![],
                                    );
                                },
                            }
                        },
                        FileType::File => {
                            let mode = file_mode(metadata);
                            let storing = base.push(
                                FrameView {
                                    path,
                                    entries,
                                    stage: StageView::StoringFile { name, mode },
                                },
                            );
                            assert(storing.drop_last() =~= base);
                            let last = stored_reply(child.blob);
                            assert(later =~= seq![last] + seq![]);
                            lemma_run_once(
                                machine,
                                storing,
                                RequestView::StoreFile { path: child.path },
                                last,
                                seq![],
                            );
                        },
                        FileType::Directory => {
                            let around = base.push(
                                FrameView { path, entries, stage: StageView::Below { name } },
                            );
                            assert(around.drop_last() =~= base);
                            lemma_listing_runs(
                                around,
                                child.path,
                                true,
                                seq![],
                                child.directory.listing,
                                child.directory.tree,
                            );
                            let below = listing_trace(
                                child.path,
                                true,
                                seq![],
                                child.directory.listing,
                                child.directory.tree,
                            );
                            assert(later =~= below.replies);
                            assert(trace.asked =~= seq![request] + below.asked);
                        },
                        FileType::Other => {
                            assert(later =~= seq![]);
                        },
                    },
                }
            },
        }
    }
    assert(run(machine, state, step, trace.replies).asked =~= trace.asked);
}

pub(crate) proof fn lemma_listing_runs<E>(
    base: Seq<FrameView>,
    path: Seq<u8>,
    opening: bool,
    entries: Seq<TreeEntryView>,
    listing: Seq<Result<Child<E>, E>>,
    tree: Result<crate::hash::Hash, E>,
)
    ensures
        ({
            let frames = base.push(FrameView { path, entries, stage: StageView::Entry });
            let request = if opening {
                open_request(path)
            } else {
                RequestView::NextEntry
            };
            let trace = listing_trace(path, opening, entries, listing, tree);
            let result = run(walk_machine::<E>(), frames, StepView::Ask(request), trace.replies);
            &&& result.accepted
            &&& result.asked == trace.asked
            &&& (result.state, result.step) == after_listing(
                base,
                path,
                opening,
                entries,
                listing,
                tree,
            )
        }),
    decreases listing,
{
    let machine = walk_machine::<E>();
    let frames = base.push(FrameView { path, entries, stage: StageView::Entry });
    assert(frames.drop_last() =~= base);
    let request = if opening {
        open_request(path)
    } else {
        RequestView::NextEntry
    };
    let trace = listing_trace(path, opening, entries, listing, tree);
    if listing.len() == 0 {
        let storing = base.push(
            FrameView { path, entries: seq![], stage: StageView::StoringTree },
        );
        assert(storing.drop_last() =~= base);
        let last = stored_reply(tree);
        assert(trace.replies =~= seq![ReplyView::NoMoreEntries] + (seq![last] + seq![]));
        lemma_run_once(
            machine,
            frames,
            request,
            ReplyView::NoMoreEntries,
            seq![last] + seq![],
        );
        lemma_run_once(
            machine,
            storing,
            RequestView::StoreTree { entries: in_order(entries) },
            last,
            seq![],
        );
    } else {
        match listing[0] {
            Err(e) => {
                lemma_run_once(machine, frames, request, ReplyView::Failed(e), seq![]);
            },
            Ok(child) => {
                let first = child_trace(path, child);
                let reply = ReplyView::<E>::Entry(child.path);
                let (state, step) = walk_step(frames, reply);
                lemma_child_runs(base, path, entries, child);
                match first.outcome {
                    Err(_) => {
                        assert(trace.replies =~= seq![reply] + first.replies);
                        lemma_run_once(machine, frames, request, reply, first.replies);
                    },
                    Ok(found) => {
                        let rest = listing_trace(
                            path,
                            false,
                            with_found(entries, found),
                            listing.drop_first(),
                            tree,
                        );
                        lemma_listing_runs(
                            base,
                            path,
                            false,
                            with_found(entries, found),
                            listing.drop_first(),
                            tree,
                        );
                        lemma_run_once(
                            machine,
                            frames,
                            request,
                            reply,
                            first.replies + rest.replies,
                        );
                        lemma_run_twice(machine, state, step, first.replies, rest.replies);
                    },
                }
            },
        }
    }
    assert(run(machine, frames, StepView::Ask(request), trace.replies).asked =~= trace.asked);
}

/// Adding a directory takes every reply, makes the requests of its trace in
/// their order, and ends as the trace does, after the last reply and not
/// before.
pub proof fn add_directory_follows_its_trace<E>(path: Seq<u8>, directory: Directory<E>)
    ensures
        ({
            let trace = directory_trace(path, directory);
            let result = run(
                walk_machine::<E>(),
                seq![fresh_frame(path)],
                StepView::Ask(open_request(path)),
                trace.replies,
            );
            &&& result.accepted
            &&& result.asked == trace.asked
            &&& result.step == StepView::Done(trace.outcome)
        }),
{
    let base = Seq::<FrameView>::empty();
    assert(base.push(fresh_frame(path)) =~= seq![fresh_frame(path)]);
    lemma_listing_runs(base, path, true, seq![], directory.listing, directory.tree);
}

pub(crate) proof fn lemma_path_walks<E>(
    path: Seq<u8>,
    frames: Seq<FrameView>,
    request: RequestView,
    replies: Seq<ReplyView<E>>,
)
    requires
        run(walk_machine::<E>(), frames, StepView::Ask(request), replies).accepted,
        run(walk_machine::<E>(), frames, StepView::Ask(request), replies).step is Done,
    ensures
        ({
            let walked = run(walk_machine::<E>(), frames, StepView::Ask(request), replies);
            let (state, step) = path_walks((walked.state, walked.step));
            run(
                path_machine::<E>(path),
                PathStageView::Walking { frames },
                StepView::Ask(request),
                replies,
            ) == (Run { accepted: true, asked: walked.asked, state, step })
        }),
    decreases replies.len(),
{
    let (next_frames, next_step) = walk_step(frames, replies[0]);
    let rest = replies.drop_first();
    assert(replies =~= seq![replies[0]] + rest);
    lemma_run_once(walk_machine::<E>(), frames, request, replies[0], rest);
    lemma_run_once(
        path_machine::<E>(path),
        PathStageView::Walking { frames },
        request,
        replies[0],
        rest,
    );
    match next_step {
        StepView::Ask(next_request) => {
            lemma_path_walks(path, next_frames, next_request, rest);
        },
        StepView::Done(_) => {
            assert(rest.len() == 0);
        },
    }
}

proof fn lemma_journal_runs<E>(
    path: Seq<u8>,
    entry: JournalEntryView,
    journal: Result<(), E>,
)
    ensures
        ({
            let trace = journal_trace(entry, journal);
            run(
                path_machine::<E>(path),
                PathStageView::Journaling { hash: entry.hash },
                StepView::Ask(RequestView::AppendJournal { entry }),
                trace.replies,
            ) == (Run {
                accepted: true,
                asked: trace.asked,
                state: PathStageView::Finished,
                step: StepView::Done(trace.outcome),
            })
        }),
{
    let reply = journal_reply(journal);
    lemma_run_once(
        path_machine::<E>(path),
        PathStageView::Journaling { hash: entry.hash },
        RequestView::AppendJournal { entry },
        reply,
        seq![],
    );
}

proof fn lemma_file_recorded_runs<E>(
    path: Seq<u8>,
    hash: crate::hash::Hash,
    len: u64,
    replies: PathReplies<E>,
)
    ensures
        ({
            let trace = file_recorded_trace(path, hash, len, replies);
            run(
                path_machine::<E>(path),
                PathStageView::Clock { hash, file_size: Some(len) },
                StepView::Ask(RequestView::Clock),
                trace.replies,
            ) == (Run {
                accepted: true,
                asked: trace.asked,
                state: PathStageView::Finished,
                step: StepView::Done(trace.outcome),
            })
        }),
{
    let entry = add_record(
        replies.seconds,
        hash,
        lossy_text(path),
        1,
        len as nat,
    );
    lemma_journal_runs(path, entry, replies.journal);
    lemma_run_once(
        path_machine::<E>(path),
        PathStageView::Clock { hash, file_size: Some(len) },
        RequestView::Clock,
        ReplyView::Seconds(replies.seconds),
        journal_trace(entry, replies.journal).replies,
    );
}

proof fn lemma_directory_recorded_runs<E>(
    path: Seq<u8>,
    hash: crate::hash::Hash,
    replies: PathReplies<E>,
)
    ensures
        ({
            let trace = directory_recorded_trace(path, hash, replies);
            run(
                path_machine::<E>(path),
                PathStageView::Clock { hash, file_size: None },
                StepView::Ask(RequestView::Clock),
                trace.replies,
            ) == (Run {
                accepted: true,
                asked: trace.asked,
                state: PathStageView::Finished,
                step: StepView::Done(trace.outcome),
            })
        }),
{
    let machine = path_machine::<E>(path);
    let seconds = replies.seconds;
    let trace = directory_recorded_trace(path, hash, replies);
    let after_clock = trace.replies.drop_first();
    let after_tree = after_clock.drop_first();
    assert(trace.replies =~= seq![ReplyView::Seconds(seconds)] + after_clock);
    lemma_run_once(
        machine,
        PathStageView::Clock { hash, file_size: None },
        RequestView::Clock,
        ReplyView::Seconds(seconds),
        after_clock,
    );
    let tree_replied = tree_reply(replies.tree);
    assert(after_clock =~= seq![tree_replied] + after_tree);
    lemma_run_once(
        machine,
        PathStageView::ReadingTree { hash, seconds },
        RequestView::ReadTree { hash },
        tree_replied,
        after_tree,
    );
    match replies.tree {
        Err(_) => {
            assert(after_tree =~= seq![]);
        },
        Ok(entries) => {
            let after_size = after_tree.drop_first();
            let size_replied = size_reply(replies.size);
            assert(after_tree =~= seq![size_replied] + after_size);
            lemma_run_once(
                machine,
                PathStageView::Sizing { hash, seconds, entries: entries.len() },
                RequestView::ObjectSize { hash },
                size_replied,
                after_size,
            );
            match replies.size {
                Err(_) => {
                    assert(after_size =~= seq![]);
                },
                Ok(size) => {
                    let entry = add_record(
                        seconds,
                        hash,
                        lossy_text(path),
                        entries.len(),
                        size as nat,
                    );
                    lemma_journal_runs(path, entry, replies.journal);
                    assert(after_size =~= journal_trace(
                        entry,
                        replies.journal,
                    ).replies);
                },
            }
        },
    }
    assert(run(
        machine,
        PathStageView::Clock { hash, file_size: None },
        StepView::Ask(RequestView::Clock),
        trace.replies,
    ).asked =~= trace.asked);
}

/// Adding a path takes every reply, makes the requests of its trace in their
/// order, and ends as the trace does, after the last reply and not before.
pub proof fn add_path_follows_its_trace<E>(path: Seq<u8>, replies: PathReplies<E>)
    ensures
        ({
            let trace = add_path_trace(path, replies);
            run(
                path_machine::<E>(path),
                PathStageView::Exists,
                StepView::Ask(RequestView::Exists { path }),
                trace.replies,
            ) == (Run {
                accepted: true,
                asked: trace.asked,
                state: PathStageView::Finished,
                step: StepView::Done(trace.outcome),
            })
        }),
{
    let machine = path_machine::<E>(path);
    let trace = add_path_trace(path, replies);
    let exists = RequestView::Exists { path };
    let after_exists = trace.replies.drop_first();
    assert(trace.replies =~= seq![ReplyView::Exists(replies.exists)] + after_exists);
    lemma_run_once(
        machine,
        PathStageView::Exists,
        exists,
        ReplyView::Exists(replies.exists),
        after_exists,
    );
    if !replies.exists {
        assert(after_exists =~= seq![]);
    } else {
        let reply = metadata_reply(replies.metadata);
        let after_metadata = after_exists.drop_first();
        assert(after_exists =~= seq![reply] + after_metadata);
        lemma_run_once(
            machine,
            PathStageView::Inspecting,
            RequestView::Metadata { path },
            reply,
            after_metadata,
        );
        match replies.metadata {
            Err(_) => {
                assert(after_metadata =~= seq![]);
            },
            Ok(metadata) => match metadata.file_type {
                FileType::File => {
                    let stored = stored_reply(replies.blob);
                    let after_stored = after_metadata.drop_first();
                    assert(after_metadata =~= seq![stored] + after_stored);
                    lemma_run_once(
                        machine,
                        PathStageView::StoringFile { size: metadata.len },
                        RequestView::StoreFile { path },
                        stored,
                        after_stored,
                    );
                    match replies.blob {
                        Err(_) => {
                            assert(after_stored =~= seq![]);
                        },
                        Ok(hash) => {
                            lemma_file_recorded_runs(path, hash, metadata.len, replies);
                            assert(after_stored =~= file_recorded_trace(
                                path,
                                hash,
                                metadata.len,
                                replies,
                            ).replies);
                        },
                    }
                },
                FileType::Directory => {
                    let walk = directory_trace(path, replies.directory);
                    add_directory_follows_its_trace(path, replies.directory);
                    let frames = seq![fresh_frame(path)];
                    let request = open_request(path);
                    lemma_path_walks(path, frames, request, walk.replies);
                    let started = PathStageView::Walking { frames };
                    match walk.outcome {
                        Err(_) => {
                            assert(after_metadata =~= walk.replies);
                        },
                        Ok(hash) => {
                            lemma_directory_recorded_runs(path, hash, replies);
                            let recorded = directory_recorded_trace(
                                path,
                                hash,
                                replies,
                            );
                            assert(after_metadata =~= walk.replies + recorded.replies);
                            lemma_run_twice(
                                machine,
                                started,
                                StepView::Ask(request),
                                walk.replies,
                                recorded.replies,
                            );
                        },
                    }
                },
                _ => {
                    assert(after_metadata =~= seq![]);
                },
            },
        }
    }
    assert(run(machine, PathStageView::Exists, StepView::Ask(exists), trace.replies).asked
        =~= trace.asked);
}

/// Adding standard input takes every reply, makes the requests of its trace in
/// their order, and ends as the trace does, after the last reply and not before.
pub proof fn add_stdin_follows_its_trace<E>(replies: StdinReplies<E>)
    ensures
        ({
            let trace = add_stdin_trace(replies);
            run(
                stdin_machine::<E>(),
                StdinStage::Storing,
                StepView::Ask(RequestView::StoreInput),
                trace.replies,
            ) == (Run {
                accepted: true,
                asked: trace.asked,
                state: StdinStage::Finished,
                step: StepView::Done(trace.outcome),
            })
        }),
{
    let machine = stdin_machine::<E>();
    let trace = add_stdin_trace(replies);
    let stored = stored_reply(replies.blob);
    let after_stored = trace.replies.drop_first();
    assert(trace.replies =~= seq![stored] + after_stored);
    lemma_run_once(
        machine,
        StdinStage::Storing,
        RequestView::StoreInput,
        stored,
        after_stored,
    );
    match replies.blob {
        Err(_) => {
            assert(after_stored =~= seq![]);
        },
        Ok(hash) => {
            let sized = size_reply(replies.size);
            let after_size = after_stored.drop_first();
            assert(after_stored =~= seq![sized] + after_size);
            lemma_run_once(
                machine,
                StdinStage::Sizing { hash },
                RequestView::ObjectSize { hash },
                sized,
                after_size,
            );
            match replies.size {
                Err(_) => {
                    assert(after_size =~= seq![]);
                },
                Ok(size) => {
                    let entry = add_record(
                        replies.seconds,
                        hash,
                        stdin_path(),
                        1,
                        size as nat,
                    );
                    let written = journal_reply(replies.journal);
                    let clock = ReplyView::<E>::Seconds(replies.seconds);
                    assert(after_size =~= seq![clock] + (seq![written] + seq![]));
                    lemma_run_once(
                        machine,
                        StdinStage::Clock { hash, size },
                        RequestView::Clock,
                        clock,
                        seq![written] + seq![],
                    );
                    lemma_run_once(
                        machine,
                        StdinStage::Journaling { hash },
                        RequestView::AppendJournal { entry },
                        written,
                        seq![],
                    );
                },
            }
        },
    }
    assert(run(
        machine,
        StdinStage::Storing,
        StepView::Ask(RequestView::StoreInput),
        trace.replies,
    ).asked =~= trace.asked);
}

} // verus!
