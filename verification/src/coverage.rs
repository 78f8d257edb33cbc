//! The traces leave nothing out: however the outside replies, an operation that
//! ends has gone through one of them.

use vstd::prelude::*;

use crate::directory::fresh_frame;
use crate::directory::open_request;
use crate::directory::walk_step;
use crate::directory::FrameView;
use crate::directory::StageView;
use crate::journal::add_record;
use crate::journal::stdin_path;
use crate::journal::JournalEntryView;
use crate::metadata::file_mode;
use crate::metadata::FileType;
use crate::metadata::Metadata;
use crate::order::in_order;
use crate::path::entry_name;
use crate::path::same_path;
use crate::protocol::ReplyView;
use crate::protocol::RequestView;
use crate::protocol::StepView;
use crate::run::add_directory_follows_its_trace;
use crate::run::lemma_child_runs;
use crate::run::lemma_path_walks;
use crate::run::lemma_run_once;
use crate::run::lemma_run_twice;
use crate::run::path_machine;
use crate::run::run;
use crate::run::stdin_machine;
use crate::run::walk_machine;
use crate::run::Machine;
use crate::text::lossy_text;
use crate::trace::add_path_trace;
use crate::trace::add_stdin_trace;
use crate::trace::child_trace;
use crate::trace::directory_recorded_trace;
use crate::trace::directory_trace;
use crate::trace::file_recorded_trace;
use crate::trace::journal_trace;
use crate::trace::listing_trace;
use crate::trace::with_found;
use crate::trace::Child;
use crate::trace::Directory;
use crate::trace::PathReplies;
use crate::trace::StdinReplies;
use crate::tree::TreeEntryView;
use crate::walk::path_step;
use crate::walk::stdin_step;
use crate::walk::PathStageView;
use crate::walk::StdinStage;

verus! {

/// The machine, which is at `state` and has made `step`, takes all of `replies`
/// and is over then.
pub open spec fn ends_with<S, E>(
    machine: Machine<S, E>,
    state: S,
    step: StepView<E>,
    replies: Seq<ReplyView<E>>,
) -> bool {
    run(machine, state, step, replies).accepted && run(machine, state, step, replies).step is Done
}

proof fn lemma_ends_with_next<S, E>(
    machine: Machine<S, E>,
    state: S,
    request: RequestView,
    replies: Seq<ReplyView<E>>,
)
    requires
        ends_with(machine, state, StepView::Ask(request), replies),
    ensures
        replies.len() > 0,
        (machine.accepts)(state, replies[0]),
        ({
            let (next, step) = (machine.next)(state, replies[0]);
            ends_with(machine, next, step, replies.drop_first())
        }),
        replies == seq![replies[0]] + replies.drop_first(),
{
    assert(replies =~= seq![replies[0]] + replies.drop_first());
}

proof fn lemma_ends_with_done<S, E>(
    machine: Machine<S, E>,
    state: S,
    step: StepView<E>,
    replies: Seq<ReplyView<E>>,
)
    requires
        ends_with(machine, state, step, replies),
        step is Done,
    ensures
        replies == Seq::<ReplyView<E>>::empty(),
{
    assert(replies =~= seq![]);
}

/// A child about which nothing but its path is known yet.
spec fn blank_child<E>(path: Seq<u8>) -> Child<E> {
    Child {
        path,
        metadata: Ok(arbitrary()),
        target: Ok(arbitrary()),
        blob: Ok(arbitrary()),
        directory: Directory { listing: seq![], tree: Ok(arbitrary()) },
    }
}

/// A reply about an object, as a result.
spec fn stored_result<E>(reply: ReplyView<E>) -> Result<crate::hash::Hash, E> {
    match reply {
        ReplyView::Stored(hash) => Ok(hash),
        ReplyView::Failed(e) => Err(e),
        _ => Ok(arbitrary()),
    }
}

/// Finds the child whose trace starts `replies`.
proof fn find_child<E>(
    base: Seq<FrameView>,
    path: Seq<u8>,
    entries: Seq<TreeEntryView>,
    child_path: Seq<u8>,
    replies: Seq<ReplyView<E>>,
) -> (result: (Child<E>, int))
    requires
        ({
            let frames = base.push(FrameView { path, entries, stage: StageView::Entry });
            let (state, step) = walk_step(frames, ReplyView::<E>::Entry(child_path));
            ends_with(walk_machine::<E>(), state, step, replies)
        }),
    ensures
        result.0.path == child_path,
        0 <= result.1 <= replies.len(),
        child_trace(path, result.0).replies == replies.take(result.1),
    decreases replies.len(), 1int,
{
    let machine = walk_machine::<E>();
    let frames = base.push(FrameView { path, entries, stage: StageView::Entry });
    assert(frames.drop_last() =~= base);
    let (state, step) = walk_step(frames, ReplyView::<E>::Entry(child_path));
    let blank = blank_child::<E>(child_path);
    if same_path(child_path, path) {
        assert(child_trace(path, blank).replies =~= replies.take(0));
        (blank, 0)
    } else {
        let inspecting = base.push(
            FrameView { path, entries, stage: StageView::Inspecting { child: child_path } },
        );
        assert(inspecting.drop_last() =~= base);
        assert(state == inspecting);
        lemma_ends_with_next(
            machine,
            state,
            RequestView::SymlinkMetadata { path: child_path },
            replies,
        );
        match replies[0] {
            ReplyView::Failed(e) => {
                let child = Child { metadata: Err(e), ..blank };
                assert(child_trace(path, child).replies =~= replies.take(1));
                (child, 1)
            },
            ReplyView::Metadata(metadata) => find_named_child(
                base,
                path,
                entries,
                child_path,
                metadata,
                replies,
            ),
            _ => {
                assert(false);
                (blank, 0)
            },
        }
    }
}

/// Finds the child whose trace starts `replies`, when it is known what stands
/// at its path.
proof fn find_named_child<E>(
    base: Seq<FrameView>,
    path: Seq<u8>,
    entries: Seq<TreeEntryView>,
    child_path: Seq<u8>,
    metadata: Metadata,
    replies: Seq<ReplyView<E>>,
) -> (result: (Child<E>, int))
    requires
        !same_path(child_path, path),
        replies.len() > 0,
        replies[0] == ReplyView::<E>::Metadata(metadata),
        ({
            let frames = base.push(
                FrameView { path, entries, stage: StageView::Inspecting { child: child_path } },
            );
            let (state, step) = walk_step(frames, replies[0]);
            ends_with(walk_machine::<E>(), state, step, replies.drop_first())
        }),
    ensures
        result.0.path == child_path,
        0 <= result.1 <= replies.len(),
        child_trace(path, result.0).replies == replies.take(result.1),
    decreases replies.len(), 0int,
{
    let machine = walk_machine::<E>();
    let frames = base.push(
        FrameView { path, entries, stage: StageView::Inspecting { child: child_path } },
    );
    assert(frames.drop_last() =~= base);
    let blank = Child { metadata: Ok(metadata), ..blank_child::<E>(child_path) };
    let rest = replies.drop_first();
    match entry_name(child_path) {
        None => {
            assert(child_trace(path, blank).replies =~= replies.take(1));
            (blank, 1)
        },
        Some(name) => match metadata.file_type {
            FileType::Symlink => {
                let reading = base.push(
                    FrameView { path, entries, stage: StageView::ReadingLink { name } },
                );
                assert(reading.drop_last() =~= base);
                lemma_ends_with_next(
                    machine,
                    reading,
                    RequestView::ReadLink { path: child_path },
                    rest,
                );
                match rest[0] {
                    ReplyView::Failed(e) => {
                        let child = Child { target: Err(e), ..blank };
                        assert(child_trace(path, child).replies =~= replies.take(2));
                        (child, 2)
                    },
                    ReplyView::LinkTarget(target) => {
                        let storing = base.push(
                            FrameView { path, entries, stage: StageView::StoringLink { name } },
                        );
                        lemma_ends_with_next(
                            machine,
                            storing,
                            RequestView::StoreBytes { bytes: target },
                            rest.drop_first(),
                        );
                        let child = Child {
                            target: Ok(target),
                            blob: stored_result(rest.drop_first()[0]),
                            ..blank
                        };
                        assert(child_trace(path, child).replies =~= replies.take(3));
                        (child, 3)
                    },
                    _ => {
                        assert(false);
                        (blank, 0)
                    },
                }
            },
            FileType::File => {
                let storing = base.push(
                    FrameView {
                        path,
                        entries,
                        stage: StageView::StoringFile { name, mode: file_mode(metadata) },
                    },
                );
                lemma_ends_with_next(
                    machine,
                    storing,
                    RequestView::StoreFile { path: child_path },
                    rest,
                );
                let child = Child { blob: stored_result(rest[0]), ..blank };
                assert(child_trace(path, child).replies =~= replies.take(2));
                (child, 2)
            },
            FileType::Directory => {
                let around = base.push(
                    FrameView { path, entries, stage: StageView::Below { name } },
                );
                let (directory, used) = find_listing(around, child_path, true, seq![], rest);
                let child = Child { directory, ..blank };
                assert(child_trace(path, child).replies =~= replies.take(used + 1));
                (child, used + 1)
            },
            FileType::Other => {
                assert(child_trace(path, blank).replies =~= replies.take(1));
                (blank, 1)
            },
        },
    }
}

/// Finds the rest of a directory's list whose trace starts `replies`.
proof fn find_listing<E>(
    base: Seq<FrameView>,
    path: Seq<u8>,
    opening: bool,
    entries: Seq<TreeEntryView>,
    replies: Seq<ReplyView<E>>,
) -> (result: (Directory<E>, int))
    requires
        ({
            let frames = base.push(FrameView { path, entries, stage: StageView::Entry });
            let request = if opening {
                open_request(path)
            } else {
                RequestView::NextEntry
            };
            ends_with(walk_machine::<E>(), frames, StepView::Ask(request), replies)
        }),
    ensures
        0 <= result.1 <= replies.len(),
        listing_trace(path, opening, entries, result.0.listing, result.0.tree).replies
            == replies.take(result.1),
    decreases replies.len(), 0int,
{
    let machine = walk_machine::<E>();
    let frames = base.push(FrameView { path, entries, stage: StageView::Entry });
    assert(frames.drop_last() =~= base);
    let request = if opening {
        open_request(path)
    } else {
        RequestView::NextEntry
    };
    lemma_ends_with_next(machine, frames, request, replies);
    let rest = replies.drop_first();
    match replies[0] {
        ReplyView::Failed(e) => {
            let directory = Directory { listing: seq![Err(e)], tree: Ok(arbitrary()) };
            assert(listing_trace(path, opening, entries, directory.listing, directory.tree).replies
                =~= replies.take(1));
            (directory, 1)
        },
        ReplyView::NoMoreEntries => {
            let storing = base.push(
                FrameView { path, entries: seq![], stage: StageView::StoringTree },
            );
            lemma_ends_with_next(
                machine,
                storing,
                RequestView::StoreTree { entries: in_order(entries) },
                rest,
            );
            let directory = Directory { listing: seq![], tree: stored_result(rest[0]) };
            assert(listing_trace(path, opening, entries, directory.listing, directory.tree).replies
                =~= replies.take(2));
            (directory, 2)
        },
        ReplyView::Entry(child_path) => {
            let (child, used) = find_child(base, path, entries, child_path, rest);
            let first = child_trace(path, child);
            let (state, step) = walk_step(frames, replies[0]);
            lemma_child_runs(base, path, entries, child);
            assert(rest =~= rest.take(used) + rest.skip(used));
            lemma_run_twice(machine, state, step, rest.take(used), rest.skip(used));
            match first.outcome {
                Err(_) => {
                    let directory = Directory { listing: seq![Ok(child)], tree: Ok(arbitrary()) };
                    assert(listing_trace(
                        path,
                        opening,
                        entries,
                        directory.listing,
                        directory.tree,
                    ).replies =~= replies.take(used + 1));
                    (directory, used + 1)
                },
                Ok(found) => {
                    let (later, used_later) = find_listing(
                        base,
                        path,
                        false,
                        with_found(entries, found),
                        rest.skip(used),
                    );
                    let directory = Directory {
                        listing: seq![Ok(child)] + later.listing,
                        tree: later.tree,
                    };
                    assert(directory.listing.drop_first() =~= later.listing);
                    assert(listing_trace(
                        path,
                        opening,
                        entries,
                        directory.listing,
                        directory.tree,
                    ).replies =~= replies.take(used + used_later + 1));
                    (directory, used + used_later + 1)
                },
            }
        },
        _ => {
            assert(false);
            (Directory { listing: seq![], tree: Ok(arbitrary()) }, 0)
        },
    }
}

/// Whenever the adding of a directory ends, it has gone through the trace of
/// some directory.
pub proof fn every_directory_has_its_trace<E>(path: Seq<u8>, replies: Seq<ReplyView<E>>)
    requires
        ends_with(
            walk_machine::<E>(),
            seq![fresh_frame(path)],
            StepView::Ask(open_request(path)),
            replies,
        ),
    ensures
        exists|directory: Directory<E>| (#[trigger] directory_trace(path, directory)).replies
            == replies,
{
    let machine = walk_machine::<E>();
    let start = seq![fresh_frame(path)];
    let request = StepView::<E>::Ask(open_request(path));
    assert(Seq::<FrameView>::empty().push(fresh_frame(path)) =~= start);
    let (directory, used) = find_listing::<E>(seq![], path, true, seq![], replies);
    let trace = directory_trace(path, directory);
    add_directory_follows_its_trace(path, directory);
    assert(replies =~= replies.take(used) + replies.skip(used));
    lemma_run_twice(machine, start, request, replies.take(used), replies.skip(used));
    let middle = run(machine, start, request, replies.take(used));
    lemma_ends_with_done(machine, middle.state, middle.step, replies.skip(used));
    assert(replies.take(used) =~= replies);
    assert(trace.replies == replies);
}

/// Finds where the walk ends within the adding of a path.
proof fn find_walk<E>(
    path: Seq<u8>,
    frames: Seq<FrameView>,
    request: RequestView,
    replies: Seq<ReplyView<E>>,
) -> (used: int)
    requires
        ends_with(
            path_machine::<E>(path),
            PathStageView::Walking { frames },
            StepView::Ask(request),
            replies,
        ),
    ensures
        0 <= used <= replies.len(),
        ends_with(walk_machine::<E>(), frames, StepView::Ask(request), replies.take(used)),
    decreases replies.len(),
{
    let stage = PathStageView::Walking { frames };
    lemma_ends_with_next(path_machine::<E>(path), stage, request, replies);
    let (next, step) = walk_step(frames, replies[0]);
    let rest = replies.drop_first();
    let used = match step {
        StepView::Done(_) => 0,
        StepView::Ask(next_request) => find_walk(path, next, next_request, rest),
    };
    lemma_run_once(walk_machine::<E>(), frames, request, replies[0], rest.take(used));
    assert(replies.take(used + 1) =~= seq![replies[0]] + rest.take(used));
    used + 1
}

/// Finds the reply to the last request of the adding of a path.
proof fn find_journal<E>(
    path: Seq<u8>,
    entry: JournalEntryView,
    replies: Seq<ReplyView<E>>,
) -> (journal: Result<(), E>)
    requires
        ends_with(
            path_machine::<E>(path),
            PathStageView::Journaling { hash: entry.hash },
            StepView::Ask(RequestView::AppendJournal { entry }),
            replies,
        ),
    ensures
        journal_trace(entry, journal).replies == replies,
{
    let machine = path_machine::<E>(path);
    let stage = PathStageView::Journaling { hash: entry.hash };
    lemma_ends_with_next(machine, stage, RequestView::AppendJournal { entry }, replies);
    let (next, step) = path_step(path, stage, replies[0]);
    lemma_ends_with_done(machine, next, step, replies.drop_first());
    let journal = match replies[0] {
        ReplyView::Failed(e) => Err(e),
        _ => Ok(()),
    };
    assert(journal_trace(entry, journal).replies =~= replies);
    journal
}

/// Finds the replies with which the adding of a file ends.
proof fn find_file_record<E>(
    path: Seq<u8>,
    hash: crate::hash::Hash,
    len: u64,
    known: PathReplies<E>,
    replies: Seq<ReplyView<E>>,
) -> (found: PathReplies<E>)
    requires
        ends_with(
            path_machine::<E>(path),
            PathStageView::Clock { hash, file_size: Some(len) },
            StepView::Ask(RequestView::Clock),
            replies,
        ),
    ensures
        found == (PathReplies { seconds: found.seconds, journal: found.journal, ..known }),
        file_recorded_trace(path, hash, len, found).replies == replies,
{
    let machine = path_machine::<E>(path);
    let stage = PathStageView::Clock { hash, file_size: Some(len) };
    lemma_ends_with_next(machine, stage, RequestView::Clock, replies);
    let seconds = replies[0]->Seconds_0;
    let entry = add_record(seconds, hash, lossy_text(path), 1, len as nat);
    let journal = find_journal(path, entry, replies.drop_first());
    let found = PathReplies { seconds, journal, ..known };
    assert(file_recorded_trace(path, hash, len, found).replies =~= replies);
    found
}

/// Finds the replies with which the adding of a directory ends.
proof fn find_directory_record<E>(
    path: Seq<u8>,
    hash: crate::hash::Hash,
    known: PathReplies<E>,
    replies: Seq<ReplyView<E>>,
) -> (found: PathReplies<E>)
    requires
        ends_with(
            path_machine::<E>(path),
            PathStageView::Clock { hash, file_size: None },
            StepView::Ask(RequestView::Clock),
            replies,
        ),
    ensures
        found == (PathReplies {
            seconds: found.seconds,
            tree: found.tree,
            size: found.size,
            journal: found.journal,
            ..known
        }),
        directory_recorded_trace(path, hash, found).replies == replies,
{
    let machine = path_machine::<E>(path);
    let stage = PathStageView::Clock { hash, file_size: None };
    lemma_ends_with_next(machine, stage, RequestView::Clock, replies);
    let seconds = replies[0]->Seconds_0;
    let after_clock = replies.drop_first();
    let reading = PathStageView::ReadingTree { hash, seconds };
    lemma_ends_with_next(machine, reading, RequestView::ReadTree { hash }, after_clock);
    let after_tree = after_clock.drop_first();
    match after_clock[0] {
        ReplyView::Tree(entries) => {
            let sizing = PathStageView::Sizing { hash, seconds, entries: entries.len() };
            lemma_ends_with_next(machine, sizing, RequestView::ObjectSize { hash }, after_tree);
            let after_size = after_tree.drop_first();
            match after_tree[0] {
                ReplyView::Size(size) => {
                    let entry = add_record(
                        seconds,
                        hash,
                        lossy_text(path),
                        entries.len(),
                        size as nat,
                    );
                    let journal = find_journal(path, entry, after_size);
                    let found = PathReplies {
                        seconds,
                        tree: Ok(entries),
                        size: Ok(size),
                        journal,
                        ..known
                    };
                    assert(directory_recorded_trace(path, hash, found).replies =~= replies);
                    found
                },
                _ => {
                    let e = after_tree[0]->Failed_0;
                    let (next, step) = path_step(path, sizing, after_tree[0]);
                    lemma_ends_with_done(machine, next, step, after_size);
                    let found = PathReplies { seconds, tree: Ok(entries), size: Err(e), ..known };
                    assert(directory_recorded_trace(path, hash, found).replies =~= replies);
                    found
                },
            }
        },
        _ => {
            let e = after_clock[0]->Failed_0;
            let (next, step) = path_step(path, reading, after_clock[0]);
            lemma_ends_with_done(machine, next, step, after_tree);
            let found = PathReplies { seconds, tree: Err(e), ..known };
            assert(directory_recorded_trace(path, hash, found).replies =~= replies);
            found
        },
    }
}

/// Finds the replies of the adding of a directory, from its opening on.
proof fn find_directory<E>(
    path: Seq<u8>,
    known: PathReplies<E>,
    metadata: Metadata,
    replies: Seq<ReplyView<E>>,
) -> (found: PathReplies<E>)
    requires
        known.exists,
        known.metadata == Ok::<Metadata, E>(metadata),
        metadata.file_type == FileType::Directory,
        ends_with(
            path_machine::<E>(path),
            PathStageView::Walking { frames: seq![fresh_frame(path)] },
            StepView::Ask(open_request(path)),
            replies,
        ),
    ensures
        found.exists,
        found.metadata == known.metadata,
        add_path_trace(path, found).replies == seq![
            ReplyView::Exists(true),
            ReplyView::Metadata(metadata),
        ] + replies,
{
    let machine = path_machine::<E>(path);
    let frames = seq![fresh_frame(path)];
    let stage = PathStageView::Walking { frames };
    let request = open_request(path);
    let ask = StepView::<E>::Ask(request);
    let used = find_walk(path, frames, request, replies);
    let walked = replies.take(used);
    let rest = replies.skip(used);
    assert(replies =~= walked + rest);
    every_directory_has_its_trace(path, walked);
    let directory = choose|directory: Directory<E>|
        (#[trigger] directory_trace(path, directory)).replies == walked;
    let trace = directory_trace(path, directory);
    add_directory_follows_its_trace(path, directory);
    lemma_path_walks(path, frames, request, walked);
    lemma_run_twice(machine, stage, ask, walked, rest);
    let middle = run(machine, stage, ask, walked);
    let known = PathReplies { directory, ..known };
    let found = match trace.outcome {
        Ok(hash) => find_directory_record(path, hash, known, rest),
        Err(_) => {
            lemma_ends_with_done(machine, middle.state, middle.step, rest);
            known
        },
    };
    assert(add_path_trace(path, found).replies =~= seq![
        ReplyView::Exists(true),
        ReplyView::Metadata(metadata),
    ] + replies);
    found
}

/// Whenever the adding of a path ends, it has gone through the trace of some
/// replies.
pub proof fn every_add_path_has_its_trace<E>(path: Seq<u8>, replies: Seq<ReplyView<E>>)
    requires
        ends_with(
            path_machine::<E>(path),
            PathStageView::Exists,
            StepView::Ask(RequestView::Exists { path }),
            replies,
        ),
    ensures
        exists|all: PathReplies<E>| (#[trigger] add_path_trace(path, all)).replies == replies,
{
    let machine = path_machine::<E>(path);
    let exists_stage = PathStageView::Exists;
    lemma_ends_with_next(machine, exists_stage, RequestView::Exists { path }, replies);
    let found_it = replies[0]->Exists_0;
    let blank = PathReplies::<E> {
        exists: found_it,
        metadata: Ok(arbitrary()),
        blob: Ok(arbitrary()),
        directory: Directory { listing: seq![], tree: Ok(arbitrary()) },
        seconds: 0,
        tree: Ok(arbitrary()),
        size: Ok(arbitrary()),
        journal: Ok(()),
    };
    let rest = replies.drop_first();
    if !found_it {
        let (next, step) = path_step(path, exists_stage, replies[0]);
        lemma_ends_with_done(machine, next, step, rest);
        assert(add_path_trace(path, blank).replies =~= replies);
    } else {
        let stage = PathStageView::Inspecting;
        lemma_ends_with_next(machine, stage, RequestView::Metadata { path }, rest);
        let later = rest.drop_first();
        let (next, step) = path_step(path, stage, rest[0]);
        match rest[0] {
            ReplyView::Metadata(metadata) => {
                let known = PathReplies { metadata: Ok(metadata), ..blank };
                match metadata.file_type {
                    FileType::File => {
                        let storing = PathStageView::StoringFile { size: metadata.len };
                        lemma_ends_with_next(
                            machine,
                            storing,
                            RequestView::StoreFile { path },
                            later,
                        );
                        match later[0] {
                            ReplyView::Stored(hash) => {
                                let known = PathReplies { blob: Ok(hash), ..known };
                                let all = find_file_record(
                                    path,
                                    hash,
                                    metadata.len,
                                    known,
                                    later.drop_first(),
                                );
                                assert(add_path_trace(path, all).replies =~= replies);
                            },
                            _ => {
                                let e = later[0]->Failed_0;
                                let (end, last) = path_step(path, storing, later[0]);
                                lemma_ends_with_done(machine, end, last, later.drop_first());
                                let all = PathReplies { blob: Err(e), ..known };
                                assert(add_path_trace(path, all).replies =~= replies);
                            },
                        }
                    },
                    FileType::Directory => {
                        let all = find_directory(path, known, metadata, later);
                        assert(add_path_trace(path, all).replies =~= replies);
                    },
                    _ => {
                        lemma_ends_with_done(machine, next, step, later);
                        assert(add_path_trace(path, known).replies =~= replies);
                    },
                }
            },
            _ => {
                let e = rest[0]->Failed_0;
                lemma_ends_with_done(machine, next, step, later);
                let all = PathReplies { metadata: Err(e), ..blank };
                assert(add_path_trace(path, all).replies =~= replies);
            },
        }
    }
}

/// Whenever the adding of standard input ends, it has gone through the trace of
/// some replies.
pub proof fn every_add_stdin_has_its_trace<E>(replies: Seq<ReplyView<E>>)
    requires
        ends_with(
            stdin_machine::<E>(),
            StdinStage::Storing,
            StepView::Ask(RequestView::StoreInput),
            replies,
        ),
    ensures
        exists|all: StdinReplies<E>| (#[trigger] add_stdin_trace(all)).replies == replies,
{
    let machine = stdin_machine::<E>();
    let storing = StdinStage::Storing;
    lemma_ends_with_next(machine, storing, RequestView::StoreInput, replies);
    let blank = StdinReplies::<E> {
        blob: Ok(arbitrary()),
        size: Ok(arbitrary()),
        seconds: 0,
        journal: Ok(()),
    };
    let after_blob = replies.drop_first();
    match replies[0] {
        ReplyView::Stored(hash) => {
            let sizing = StdinStage::Sizing { hash };
            lemma_ends_with_next(machine, sizing, RequestView::ObjectSize { hash }, after_blob);
            let after_size = after_blob.drop_first();
            match after_blob[0] {
                ReplyView::Size(size) => {
                    let clock = StdinStage::Clock { hash, size };
                    lemma_ends_with_next(machine, clock, RequestView::Clock, after_size);
                    let seconds = after_size[0]->Seconds_0;
                    let after_clock = after_size.drop_first();
                    let entry = add_record(seconds, hash, stdin_path(), 1, size as nat);
                    let journaling = StdinStage::Journaling { hash };
                    lemma_ends_with_next(
                        machine,
                        journaling,
                        RequestView::AppendJournal { entry },
                        after_clock,
                    );
                    let (next, step) = stdin_step(journaling, after_clock[0]);
                    lemma_ends_with_done(machine, next, step, after_clock.drop_first());
                    let journal = match after_clock[0] {
                        ReplyView::Failed(e) => Err(e),
                        _ => Ok(()),
                    };
                    let all = StdinReplies { blob: Ok(hash), size: Ok(size), seconds, journal };
                    assert(add_stdin_trace(all).replies =~= replies);
                },
                _ => {
                    let e = after_blob[0]->Failed_0;
                    let (next, step) = stdin_step(sizing, after_blob[0]);
                    lemma_ends_with_done(machine, next, step, after_size);
                    let all = StdinReplies { blob: Ok(hash), size: Err(e), ..blank };
                    assert(add_stdin_trace(all).replies =~= replies);
                },
            }
        },
        _ => {
            let e = replies[0]->Failed_0;
            let (next, step) = stdin_step(storing, replies[0]);
            lemma_ends_with_done(machine, next, step, after_blob);
            let all = StdinReplies { blob: Err(e), ..blank };
            assert(add_stdin_trace(all).replies =~= replies);
        },
    }
}

} // verus!
