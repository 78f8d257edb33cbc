//! What the operations do, request by request and reply by reply.

use vstd::prelude::*;

use crate::content::lemma_child_lengths;
use crate::coverage::every_add_path_has_its_trace;
use crate::coverage::every_add_stdin_has_its_trace;
use crate::directory::fresh_frame;
use crate::directory::walk_step;
use crate::directory::FrameView;
use crate::directory::StageView;
use crate::error::ErrorView;
use crate::journal::add_record;
use crate::journal::extent_reads_back;
use crate::journal::record_keeps_the_time;
use crate::laws::lemma_child_outcome;
use crate::laws::lemma_listed_entries_front;
use crate::laws::listed_entries;
use crate::laws::tree_lists_the_children;
use crate::metadata::files_have_one_of_two_modes;
use crate::metadata::FileType;
use crate::order::in_order;
use crate::order::trees_are_dictionaries;
use crate::path::entry_name;
use crate::path::same_path;
use crate::path::spelling_makes_no_other_path;
use crate::protocol::ListOptions;
use crate::protocol::ReplyView;
use crate::protocol::RequestView;
use crate::protocol::StepView;
use crate::recording::path_run;
use crate::recording::stdin_run;
use crate::recording::walk_run;
use crate::run::add_path_follows_its_trace;
use crate::run::add_stdin_follows_its_trace;
use crate::run::path_machine;
use crate::run::run;
use crate::run::walk_machine;
use crate::text::decimal_value;
use crate::text::lossy_text;
use crate::trace::add_path_trace;
use crate::trace::add_stdin_trace;
use crate::trace::child_trace;
use crate::trace::directory_recorded_trace;
use crate::trace::directory_trace;
use crate::trace::journal_reply;
use crate::trace::listing_trace;
use crate::trace::metadata_reply;
use crate::trace::outside;
use crate::trace::stored_reply;
use crate::trace::with_found;
use crate::trace::Child;
use crate::trace::Directory;
use crate::trace::PathReplies;
use crate::trace::StdinReplies;
use crate::trace::Trace;
use crate::tree::EntryType;
use crate::tree::TreeEntryView;
use crate::walk::path_step;
use crate::walk::PathStageView;

verus! {

/// A directory is passed over in its own list, without a request and without an
/// entry, however long its path is, and also if the list spells the path with a
/// `/` or `/.` more at its end.
pub proof fn directory_is_passed_over_in_its_list<E>(dir: Seq<u8>, child: Child<E>)
    requires
        child.path == dir || (dir.len() > 0 && (child.path == dir + seq![47u8] || child.path == dir
            + seq![47u8, 46u8])),
    ensures
        child_trace(dir, child).asked.len() == 0,
        child_trace(dir, child).replies.len() == 0,
        child_trace(dir, child).outcome == Ok::<Option<TreeEntryView>, ErrorView<E>>(None),
{
    spelling_makes_no_other_path(dir, Seq::empty());
}

/// Of any other path of a directory's list it is asked first, and without
/// following links, what stands there. If that fails, or the name is not text,
/// it is the end.
pub proof fn children_are_inspected_first<E>(dir: Seq<u8>, child: Child<E>)
    requires
        !same_path(child.path, dir),
    ensures
        ({
            let trace = child_trace(dir, child);
            let inspect = RequestView::SymlinkMetadata { path: child.path };
            &&& trace.asked.len() > 0
            &&& trace.replies.len() > 0
            &&& trace.asked[0] == inspect
            &&& child.metadata matches Err(e) ==> {
                &&& trace.asked == seq![inspect]
                &&& trace.replies == seq![ReplyView::<E>::Failed(e)]
                &&& trace.outcome == Err::<Option<TreeEntryView>, ErrorView<E>>(
                    ErrorView::Outside(e),
                )
            }
            &&& child.metadata matches Ok(metadata) ==> {
                &&& trace.replies[0] == ReplyView::<E>::Metadata(metadata)
                &&& entry_name(child.path) is None ==> {
                    &&& trace.asked == seq![inspect]
                    &&& trace.replies == seq![ReplyView::<E>::Metadata(metadata)]
                    &&& trace.outcome == Err::<Option<TreeEntryView>, ErrorView<E>>(
                        ErrorView::InvalidHash {
                            message: "Invalid filename: "@ + lossy_text(child.path),
                        },
                    )
                }
                &&& entry_name(child.path) is Some && metadata.file_type == FileType::Other ==> {
                    &&& trace.asked == seq![inspect]
                    &&& trace.replies == seq![ReplyView::<E>::Metadata(metadata)]
                    &&& trace.outcome == Ok::<Option<TreeEntryView>, ErrorView<E>>(None)
                }
            }
        }),
{
    let trace = child_trace(dir, child);
    let inspect = RequestView::SymlinkMetadata { path: child.path };
    match child.metadata {
        Err(e) => {
            assert(trace.asked =~= seq![inspect]);
            assert(trace.replies =~= seq![ReplyView::<E>::Failed(e)]);
        },
        Ok(metadata) => {
            if entry_name(child.path) is None || metadata.file_type == FileType::Other {
                assert(trace.asked =~= seq![inspect]);
                assert(trace.replies =~= seq![ReplyView::<E>::Metadata(metadata)]);
            }
        },
    }
}

/// A file in a directory is stored from its own path, and gives an entry with
/// its name, the hash that came back, and the mode of an executable file if and
/// only if it has an execute bit. A name of more than 255 bytes is refused.
pub proof fn files_become_blob_entries<E>(dir: Seq<u8>, child: Child<E>, name: Seq<char>)
    requires
        !same_path(child.path, dir),
        entry_name(child.path) == Some(name),
        child.metadata matches Ok(metadata) && metadata.file_type == FileType::File,
    ensures
        ({
            let trace = child_trace(dir, child);
            let metadata = child.metadata->Ok_0;
            let runs = metadata.mode & 0o100 != 0 || metadata.mode & 0o010 != 0 || metadata.mode
                & 0o001 != 0;
            &&& trace.asked == seq![
                RequestView::SymlinkMetadata { path: child.path },
                RequestView::StoreFile { path: child.path },
            ]
            &&& match child.blob {
                Err(e) => {
                    &&& trace.replies == seq![
                        ReplyView::<E>::Metadata(metadata),
                        ReplyView::Failed(e),
                    ]
                    &&& trace.outcome == Err::<Option<TreeEntryView>, ErrorView<E>>(
                        ErrorView::Outside(e),
                    )
                },
                Ok(hash) => {
                    &&& trace.replies == seq![
                        ReplyView::<E>::Metadata(metadata),
                        ReplyView::Stored(hash),
                    ]
                    &&& vstd::utf8::encode_utf8(name).len() > 255 ==> trace.outcome == Err::<
                        Option<TreeEntryView>,
                        ErrorView<E>,
                    >(ErrorView::NameTooLong { name })
                    &&& vstd::utf8::encode_utf8(name).len() <= 255 ==> trace.outcome == Ok::<
                        Option<TreeEntryView>,
                        ErrorView<E>,
                    >(
                        Some(
                            TreeEntryView {
                                entry_type: EntryType::Blob,
                                mode: if runs {
                                    0o100755
                                } else {
                                    0o100644
                                },
                                hash,
                                name,
                            },
                        ),
                    )
                },
            }
        }),
{
    let trace = child_trace(dir, child);
    let metadata = child.metadata->Ok_0;
    files_have_one_of_two_modes(metadata);
    assert(trace.asked =~= seq![
        RequestView::SymlinkMetadata { path: child.path },
        RequestView::StoreFile { path: child.path },
    ]);
    match child.blob {
        Err(e) => {
            assert(trace.replies =~= seq![
                ReplyView::<E>::Metadata(metadata),
                ReplyView::Failed(e),
            ]);
        },
        Ok(hash) => {
            assert(trace.replies =~= seq![
                ReplyView::<E>::Metadata(metadata),
                ReplyView::Stored(hash),
            ]);
        },
    }
}

/// Of a link in a directory the target is read, the bytes that came back are
/// stored as they are, and the entry has the link's name, the mode of a link
/// and the hash that came back.
pub proof fn links_become_link_entries<E>(dir: Seq<u8>, child: Child<E>, name: Seq<char>)
    requires
        !same_path(child.path, dir),
        entry_name(child.path) == Some(name),
        child.metadata matches Ok(metadata) && metadata.file_type == FileType::Symlink,
    ensures
        ({
            let trace = child_trace(dir, child);
            let inspect = RequestView::SymlinkMetadata { path: child.path };
            let read = RequestView::ReadLink { path: child.path };
            let known = ReplyView::<E>::Metadata(child.metadata->Ok_0);
            match (child.target, child.blob) {
                (Err(e), _) => {
                    &&& trace.asked == seq![inspect, read]
                    &&& trace.replies == seq![known, ReplyView::Failed(e)]
                    &&& trace.outcome == Err::<Option<TreeEntryView>, ErrorView<E>>(
                        ErrorView::Outside(e),
                    )
                },
                (Ok(target), Err(e)) => {
                    &&& trace.asked == seq![
                        inspect,
                        read,
                        RequestView::StoreBytes { bytes: target },
                    ]
                    &&& trace.replies == seq![
                        known,
                        ReplyView::LinkTarget(target),
                        ReplyView::Failed(e),
                    ]
                    &&& trace.outcome == Err::<Option<TreeEntryView>, ErrorView<E>>(
                        ErrorView::Outside(e),
                    )
                },
                (Ok(target), Ok(hash)) => {
                    &&& trace.asked == seq![
                        inspect,
                        read,
                        RequestView::StoreBytes { bytes: target },
                    ]
                    &&& trace.replies == seq![
                        known,
                        ReplyView::LinkTarget(target),
                        ReplyView::Stored(hash),
                    ]
                    &&& vstd::utf8::encode_utf8(name).len() > 255 ==> trace.outcome == Err::<
                        Option<TreeEntryView>,
                        ErrorView<E>,
                    >(ErrorView::NameTooLong { name })
                    &&& vstd::utf8::encode_utf8(name).len() <= 255 ==> trace.outcome == Ok::<
                        Option<TreeEntryView>,
                        ErrorView<E>,
                    >(
                        Some(
                            TreeEntryView {
                                entry_type: EntryType::Symlink,
                                mode: 0o120000,
                                hash,
                                name,
                            },
                        ),
                    )
                },
            }
        }),
{
    let trace = child_trace(dir, child);
    let inspect = RequestView::SymlinkMetadata { path: child.path };
    let read = RequestView::ReadLink { path: child.path };
    let known = ReplyView::<E>::Metadata(child.metadata->Ok_0);
    match (child.target, child.blob) {
        (Err(e), _) => {
            assert(trace.asked =~= seq![inspect, read]);
            assert(trace.replies =~= seq![known, ReplyView::Failed(e)]);
        },
        (Ok(target), Err(e)) => {
            assert(trace.asked =~= seq![inspect, read, RequestView::StoreBytes { bytes: target }]);
            assert(trace.replies =~= seq![
                known,
                ReplyView::LinkTarget(target),
                ReplyView::Failed(e),
            ]);
        },
        (Ok(target), Ok(hash)) => {
            assert(trace.asked =~= seq![inspect, read, RequestView::StoreBytes { bytes: target }]);
            assert(trace.replies =~= seq![
                known,
                ReplyView::LinkTarget(target),
                ReplyView::Stored(hash),
            ]);
        },
    }
}

/// A directory in a directory is walked just as if it were added by itself, and
/// gives an entry with its name, the mode of a directory and the hash of its
/// tree.
pub proof fn directories_become_tree_entries<E>(dir: Seq<u8>, child: Child<E>, name: Seq<char>)
    requires
        !same_path(child.path, dir),
        entry_name(child.path) == Some(name),
        child.metadata matches Ok(metadata) && metadata.file_type == FileType::Directory,
    ensures
        ({
            let trace = child_trace(dir, child);
            let alone = directory_trace(child.path, child.directory);
            &&& trace.asked == seq![RequestView::SymlinkMetadata { path: child.path }]
                + alone.asked
            &&& trace.replies == seq![ReplyView::<E>::Metadata(child.metadata->Ok_0)]
                + alone.replies
            &&& match alone.outcome {
                Err(error) => trace.outcome == Err::<Option<TreeEntryView>, ErrorView<E>>(error),
                Ok(hash) => {
                    &&& vstd::utf8::encode_utf8(name).len() > 255 ==> trace.outcome == Err::<
                        Option<TreeEntryView>,
                        ErrorView<E>,
                    >(ErrorView::NameTooLong { name })
                    &&& vstd::utf8::encode_utf8(name).len() <= 255 ==> trace.outcome == Ok::<
                        Option<TreeEntryView>,
                        ErrorView<E>,
                    >(
                        Some(
                            TreeEntryView {
                                entry_type: EntryType::Tree,
                                mode: 0o040000,
                                hash,
                                name,
                            },
                        ),
                    )
                },
            }
        }),
{
    let alone = directory_trace(child.path, child.directory);
    assert(alone.asked + seq![] =~= alone.asked);
    assert(alone.replies + seq![] =~= alone.replies);
}

/// An empty list: the directory is opened under its own path, one level deep,
/// with its hidden entries and without what `.gitignore` files exclude, and the
/// tree without entries is stored.
pub proof fn empty_directory_is_an_empty_tree<E>(
    path: Seq<u8>,
    tree: Result<crate::hash::Hash, E>,
)
    ensures
        ({
            let trace = directory_trace(path, Directory { listing: seq![], tree });
            &&& trace.asked == seq![
                RequestView::OpenDirectory {
                    path,
                    options: ListOptions { max_depth: Some(1), hidden: false, git_ignore: true },
                },
                RequestView::StoreTree { entries: seq![] },
            ]
            &&& match tree {
                Ok(hash) => {
                    &&& trace.replies == seq![
                        ReplyView::<E>::NoMoreEntries,
                        ReplyView::Stored(hash),
                    ]
                    &&& trace.outcome == Ok::<crate::hash::Hash, ErrorView<E>>(hash)
                },
                Err(e) => {
                    &&& trace.replies == seq![ReplyView::<E>::NoMoreEntries, ReplyView::Failed(e)]
                    &&& trace.outcome == Err::<crate::hash::Hash, ErrorView<E>>(
                        ErrorView::Outside(e),
                    )
                },
            }
        }),
{
    let trace = directory_trace(path, Directory { listing: seq![], tree });
    assert(in_order(seq![]) =~= seq![]);
    assert(trace.asked =~= seq![
        RequestView::OpenDirectory {
            path,
            options: ListOptions { max_depth: Some(1), hidden: false, git_ignore: true },
        },
        RequestView::StoreTree { entries: seq![] },
    ]);
    match tree {
        Ok(hash) => {
            assert(trace.replies =~= seq![ReplyView::<E>::NoMoreEntries, ReplyView::Stored(hash)]);
        },
        Err(e) => {
            assert(trace.replies =~= seq![ReplyView::<E>::NoMoreEntries, ReplyView::Failed(e)]);
        },
    }
}

/// What follows the last `NextEntry` or `OpenDirectory` of a list that has given
/// `all` entries, when it is answered by `item` and the list is over then.
spec fn one_more<E>(
    path: Seq<u8>,
    all: Seq<TreeEntryView>,
    item: Result<Child<E>, E>,
    tree: Result<crate::hash::Hash, E>,
) -> Trace<crate::hash::Hash, E> {
    match item {
        Err(e) => Trace {
            asked: seq![],
            replies: seq![ReplyView::<E>::Failed(e)],
            outcome: Err(ErrorView::Outside(e)),
        },
        Ok(child) => {
            let middle = child_trace(path, child);
            let first = seq![ReplyView::<E>::Entry(child.path)];
            match middle.outcome {
                Err(error) => Trace {
                    asked: middle.asked,
                    replies: first + middle.replies,
                    outcome: Err(error),
                },
                Ok(found) => Trace {
                    asked: middle.asked + seq![
                        RequestView::NextEntry,
                        RequestView::StoreTree { entries: in_order(with_found(all, found)) },
                    ],
                    replies: first + middle.replies + seq![
                        ReplyView::<E>::NoMoreEntries,
                        stored_reply(tree),
                    ],
                    outcome: outside(tree),
                },
            }
        },
    }
}

/// How a list that goes well goes on with one path more at its end.
proof fn lemma_one_more<E>(
    path: Seq<u8>,
    opening: bool,
    entries: Seq<TreeEntryView>,
    listing: Seq<Result<Child<E>, E>>,
    item: Result<Child<E>, E>,
    hash: crate::hash::Hash,
    tree: Result<crate::hash::Hash, E>,
)
    ensures
        ({
            let before = listing_trace(path, opening, entries, listing, Ok(hash));
            let after = listing_trace(path, opening, entries, listing.push(item), tree);
            let all = entries + listed_entries(path, listing);
            let n = before.asked.len();
            let more = one_more(path, all, item, tree);
            &&& before.outcome is Err ==> after == before
            &&& before.outcome is Ok ==> {
                &&& n >= 2
                &&& before.replies.len() == n
                &&& before.asked.last() == (RequestView::StoreTree { entries: in_order(all) })
                &&& before.replies[n - 2] == ReplyView::<E>::NoMoreEntries
                &&& before.replies[n - 1] == ReplyView::<E>::Stored(hash)
                &&& before.outcome == Ok::<crate::hash::Hash, ErrorView<E>>(hash)
                &&& after.asked == before.asked.drop_last() + more.asked
                &&& after.replies == before.replies.take(n - 2) + more.replies
                &&& after.outcome == more.outcome
            }
        }),
    decreases listing.len(),
{
    let before = listing_trace(path, opening, entries, listing, Ok(hash));
    let after = listing_trace(path, opening, entries, listing.push(item), tree);
    let all = entries + listed_entries(path, listing);
    let longer = listing.push(item);
    if listing.len() == 0 {
        assert(all =~= entries);
        lemma_first_of_a_list(path, opening, entries, listing, item, hash, tree);
    } else {
        assert(longer[0] == listing[0]);
        assert(longer.drop_first() =~= listing.drop_first().push(item));
        if let Ok(child) = listing[0] {
            let first = child_trace(path, child);
            if let Ok(found) = first.outcome {
                let rest = listing.drop_first();
                let more = with_found(entries, found);
                lemma_one_more(path, false, more, rest, item, hash, tree);
                lemma_child_outcome(path, child);
                lemma_child_lengths(path, child);
                lemma_listed_entries_front(path, listing);
                assert(more + listed_entries(path, rest) =~= all);
                let inner = listing_trace(path, false, more, rest, Ok(hash));
                if inner.outcome is Ok {
                    let last = one_more(path, all, item, tree);
                    let k = inner.asked.len();
                    lemma_replaced_end(
                        before.asked[0],
                        first.asked,
                        inner.asked,
                        k - 1,
                        last.asked,
                    );
                    lemma_replaced_end(
                        ReplyView::<E>::Entry(child.path),
                        first.replies,
                        inner.replies,
                        k - 2,
                        last.replies,
                    );
                    assert(inner.asked.drop_last() == inner.asked.take(k - 1));
                    assert(before.asked.drop_last() == before.asked.take(before.asked.len() - 1));
                }
            }
        }
    }
}

/// A sequence with another end.
proof fn lemma_replaced_end<T>(
    head: T,
    first: Seq<T>,
    inner: Seq<T>,
    kept: int,
    end: Seq<T>,
)
    requires
        0 <= kept <= inner.len(),
    ensures
        ({
            let all = seq![head] + (first + inner);
            &&& seq![head] + (first + (inner.take(kept) + end)) == all.take(
                1 + first.len() + kept,
            ) + end
            &&& all.len() == 1 + first.len() + inner.len()
            &&& inner.len() > 0 ==> all.last() == inner.last()
            &&& forall|i: int|
                0 <= i < inner.len() ==> all[1 + first.len() + i] == #[trigger] inner[i]
        }),
{
    let all = seq![head] + (first + inner);
    assert(seq![head] + (first + (inner.take(kept) + end)) =~= all.take(
        1 + first.len() + kept,
    ) + end);
}

proof fn lemma_first_of_a_list<E>(
    path: Seq<u8>,
    opening: bool,
    entries: Seq<TreeEntryView>,
    none: Seq<Result<Child<E>, E>>,
    item: Result<Child<E>, E>,
    hash: crate::hash::Hash,
    tree: Result<crate::hash::Hash, E>,
)
    requires
        none.len() == 0,
    ensures
        ({
            let before = listing_trace(path, opening, entries, none, Ok(hash));
            let after = listing_trace(path, opening, entries, none.push(item), tree);
            let more = one_more(path, entries, item, tree);
            &&& before.asked.len() == 2
            &&& before.replies == seq![ReplyView::<E>::NoMoreEntries, ReplyView::Stored(hash)]
            &&& after.asked == before.asked.drop_last() + more.asked
            &&& after.replies == before.replies.take(0) + more.replies
            &&& after.outcome == more.outcome
        }),
{
    let before = listing_trace(path, opening, entries, none, Ok(hash));
    let after = listing_trace(path, opening, entries, none.push(item), tree);
    let more = one_more(path, entries, item, tree);
    assert(none.push(item).drop_first() =~= none);
    assert(before.replies =~= seq![ReplyView::<E>::NoMoreEntries, ReplyView::Stored(hash)]);
    if let Ok(child) = item {
        if let Ok(found) = child_trace(path, child).outcome {
            let over = listing_trace(path, false, with_found(entries, found), none, tree);
            assert(over.asked =~= seq![
                RequestView::NextEntry,
                RequestView::StoreTree { entries: in_order(with_found(entries, found)) },
            ]);
            assert(over.replies =~= seq![ReplyView::<E>::NoMoreEntries, stored_reply(tree)]);
        }
    }
    assert(after.asked =~= before.asked.drop_last() + more.asked);
    assert(after.replies =~= before.replies.take(0) + more.replies);
}

proof fn lemma_one_more_entry(all: Seq<TreeEntryView>, found: Option<TreeEntryView>)
    ensures
        ({
            let more = in_order(with_found(all, found));
            &&& more.to_multiset() == match found {
                Some(entry) => in_order(all).to_multiset().insert(entry),
                None => in_order(all).to_multiset(),
            }
            &&& forall|i: int, j: int|
                #![trigger more[i], more[j]]
                0 <= i < j < more.len() ==> {
                    let a = vstd::utf8::encode_utf8(more[i].name);
                    let b = vstd::utf8::encode_utf8(more[j].name);
                    ||| a.is_prefix_of(b)
                    ||| exists|k: int|
                        0 <= k < a.len() && k < b.len() && #[trigger] a.take(k) == b.take(k) && a[k]
                            < b[k]
                }
        }),
{
    broadcast use vstd::seq_lib::group_to_multiset_ensures;

    trees_are_dictionaries(all);
    trees_are_dictionaries(with_found(all, found));
}

/// A path more at the end of a directory's list means: where the list was over,
/// the path comes instead; then it is dealt with like any other; then the list
/// is over, and the tree is stored. The tree has one entry more, if the path
/// gives one, and lists its entries as a dictionary does. If the path fails, so
/// does the directory, and nothing more is asked.
#[verifier::rlimit(40)]
#[verifier::spinoff_prover]
pub proof fn one_more_path_is_one_more_child<E>(
    path: Seq<u8>,
    listing: Seq<Result<Child<E>, E>>,
    child: Child<E>,
    hash: crate::hash::Hash,
    tree: Result<crate::hash::Hash, E>,
)
    requires
        directory_trace(path, Directory { listing, tree: Ok::<crate::hash::Hash, E>(hash) }).outcome
            is Ok,
    ensures
        ({
            let before = directory_trace(
                path,
                Directory { listing, tree: Ok::<crate::hash::Hash, E>(hash) },
            );
            let after = directory_trace(path, Directory { listing: listing.push(Ok(child)), tree });
            let middle = child_trace(path, child);
            let n = before.asked.len();
            let early = before.replies.take(n - 2);
            &&& n >= 2
            &&& before.replies == early + seq![
                ReplyView::<E>::NoMoreEntries,
                ReplyView::Stored(hash),
            ]
            &&& before.outcome == Ok::<crate::hash::Hash, ErrorView<E>>(hash)
            &&& before.asked.last() matches RequestView::StoreTree { entries }
            &&& match middle.outcome {
                Err(error) => {
                    &&& after.asked == before.asked.drop_last() + middle.asked
                    &&& after.replies == early + seq![ReplyView::<E>::Entry(child.path)]
                        + middle.replies
                    &&& after.outcome == Err::<crate::hash::Hash, ErrorView<E>>(error)
                },
                Ok(found) => {
                    &&& after.asked.len() > 0
                    &&& after.asked.drop_last() == before.asked.drop_last() + middle.asked + seq![
                        RequestView::NextEntry,
                    ]
                    &&& after.replies == early + seq![ReplyView::<E>::Entry(child.path)]
                        + middle.replies + seq![
                        ReplyView::<E>::NoMoreEntries,
                        match tree {
                            Ok(stored) => ReplyView::Stored(stored),
                            Err(e) => ReplyView::Failed(e),
                        },
                    ]
                    &&& after.outcome == match tree {
                        Ok(stored) => Ok::<crate::hash::Hash, ErrorView<E>>(stored),
                        Err(e) => Err(ErrorView::Outside(e)),
                    }
                    &&& after.asked.last() matches RequestView::StoreTree { entries: more }
                    &&& more.to_multiset() == match found {
                        Some(entry) => entries.to_multiset().insert(entry),
                        None => entries.to_multiset(),
                    }
                    &&& forall|i: int, j: int|
                        #![trigger more[i], more[j]]
                        0 <= i < j < more.len() ==> {
                            let a = vstd::utf8::encode_utf8(more[i].name);
                            let b = vstd::utf8::encode_utf8(more[j].name);
                            ||| a.is_prefix_of(b)
                            ||| exists|k: int|
                                0 <= k < a.len() && k < b.len() && #[trigger] a.take(k) == b.take(k)
                                    && a[k] < b[k]
                        }
                },
            }
        }),
{
    lemma_one_more(path, true, seq![], listing, Ok(child), hash, tree);
    let all = Seq::<TreeEntryView>::empty() + listed_entries(path, listing);
    let before = directory_trace(
        path,
        Directory { listing, tree: Ok::<crate::hash::Hash, E>(hash) },
    );
    let after = directory_trace(path, Directory { listing: listing.push(Ok(child)), tree });
    let middle = child_trace(path, child);
    let early = before.replies.take(before.asked.len() - 2);
    assert(before.replies =~= early + seq![ReplyView::<E>::NoMoreEntries, ReplyView::Stored(hash)]);
    match middle.outcome {
        Err(_) => {
            assert(after.replies =~= early + seq![ReplyView::<E>::Entry(child.path)]
                + middle.replies);
        },
        Ok(found) => {
            lemma_one_more_entry(all, found);
            assert(after.asked.drop_last() =~= before.asked.drop_last() + middle.asked + seq![
                RequestView::NextEntry,
            ]);
            assert(after.replies =~= early + seq![ReplyView::<E>::Entry(child.path)]
                + middle.replies + seq![ReplyView::<E>::NoMoreEntries, stored_reply(tree)]);
            assert(after.asked.last() == (RequestView::StoreTree {
                entries: in_order(with_found(all, found)),
            }));
        },
    }
}

/// If the list breaks off with a failure, the directory fails with it, and
/// nothing more is asked.
pub proof fn broken_list_ends_the_walk<E>(
    path: Seq<u8>,
    listing: Seq<Result<Child<E>, E>>,
    e: E,
    hash: crate::hash::Hash,
    tree: Result<crate::hash::Hash, E>,
)
    requires
        directory_trace(path, Directory { listing, tree: Ok::<crate::hash::Hash, E>(hash) }).outcome
            is Ok,
    ensures
        ({
            let before = directory_trace(
                path,
                Directory { listing, tree: Ok::<crate::hash::Hash, E>(hash) },
            );
            let after = directory_trace(path, Directory { listing: listing.push(Err(e)), tree });
            &&& after.asked == before.asked.drop_last()
            &&& after.replies == before.replies.take(before.asked.len() - 2) + seq![
                ReplyView::<E>::Failed(e),
            ]
            &&& after.outcome == Err::<crate::hash::Hash, ErrorView<E>>(ErrorView::Outside(e))
        }),
{
    lemma_one_more(path, true, seq![], listing, Err(e), hash, tree);
    let before = directory_trace(
        path,
        Directory { listing, tree: Ok::<crate::hash::Hash, E>(hash) },
    );
    assert(before.asked.drop_last() + seq![] =~= before.asked.drop_last());
}

/// What a list would have named after a path that fails is never asked about.
pub proof fn nothing_follows_a_failure<E>(
    path: Seq<u8>,
    listing: Seq<Result<Child<E>, E>>,
    item: Result<Child<E>, E>,
    hash: crate::hash::Hash,
    tree: Result<crate::hash::Hash, E>,
)
    requires
        directory_trace(path, Directory { listing, tree: Ok::<crate::hash::Hash, E>(hash) }).outcome
            is Err,
    ensures
        ({
            let before = directory_trace(
                path,
                Directory { listing, tree: Ok::<crate::hash::Hash, E>(hash) },
            );
            let after = directory_trace(path, Directory { listing: listing.push(item), tree });
            &&& after.asked == before.asked
            &&& after.replies == before.replies
            &&& after.outcome == before.outcome
        }),
{
    lemma_one_more(path, true, seq![], listing, item, hash, tree);
}

/// If the tree cannot be stored, the directory has asked what it asks when it
/// can, and fails.
pub proof fn unstored_tree_fails_the_directory<E>(
    path: Seq<u8>,
    listing: Seq<Result<Child<E>, E>>,
    hash: crate::hash::Hash,
    e: E,
)
    requires
        directory_trace(path, Directory { listing, tree: Ok::<crate::hash::Hash, E>(hash) }).outcome
            is Ok,
    ensures
        ({
            let stored = directory_trace(
                path,
                Directory { listing, tree: Ok::<crate::hash::Hash, E>(hash) },
            );
            let failed = directory_trace(
                path,
                Directory { listing, tree: Err::<crate::hash::Hash, E>(e) },
            );
            &&& failed.asked == stored.asked
            &&& failed.replies == stored.replies.drop_last() + seq![ReplyView::<E>::Failed(e)]
            &&& failed.outcome == Err::<crate::hash::Hash, ErrorView<E>>(ErrorView::Outside(e))
        }),
{
    lemma_unstored_tree(path, true, seq![], listing, hash, e);
}

proof fn lemma_unstored_tree<E>(
    path: Seq<u8>,
    opening: bool,
    entries: Seq<TreeEntryView>,
    listing: Seq<Result<Child<E>, E>>,
    hash: crate::hash::Hash,
    e: E,
)
    requires
        listing_trace::<E>(path, opening, entries, listing, Ok(hash)).outcome is Ok,
    ensures
        ({
            let stored = listing_trace::<E>(path, opening, entries, listing, Ok(hash));
            let failed = listing_trace::<E>(path, opening, entries, listing, Err(e));
            &&& stored.replies.len() > 0
            &&& failed.asked == stored.asked
            &&& failed.replies == stored.replies.drop_last() + seq![ReplyView::<E>::Failed(e)]
            &&& failed.outcome == Err::<crate::hash::Hash, ErrorView<E>>(ErrorView::Outside(e))
        }),
    decreases listing.len(),
{
    let stored = listing_trace::<E>(path, opening, entries, listing, Ok(hash));
    let failed = listing_trace::<E>(path, opening, entries, listing, Err(e));
    if listing.len() > 0 {
        let child = listing[0]->Ok_0;
        let found = child_trace(path, child).outcome->Ok_0;
        let rest = listing.drop_first();
        lemma_unstored_tree(path, false, with_found(entries, found), rest, hash, e);
    }
    assert(failed.replies =~= stored.replies.drop_last() + seq![ReplyView::<E>::Failed(e)]);
}

/// The adding of a path asks first whether anything stands there, then what it
/// is, links followed. Nothing there, a failure, or something that is neither a
/// file nor a directory is the end, with the matching error.
pub proof fn paths_are_looked_at_first<E>(path: Seq<u8>, replies: PathReplies<E>)
    ensures
        ({
            let trace = add_path_trace(path, replies);
            let both = seq![RequestView::Exists { path }, RequestView::Metadata { path }];
            &&& !replies.exists ==> {
                &&& trace.asked == seq![RequestView::Exists { path }]
                &&& trace.replies == seq![ReplyView::<E>::Exists(false)]
                &&& trace.outcome == Err::<crate::hash::Hash, ErrorView<E>>(
                    ErrorView::NotFound { message: "Path does not exist: "@ + lossy_text(path) },
                )
            }
            &&& replies.exists ==> match replies.metadata {
                Err(e) => {
                    &&& trace.asked == both
                    &&& trace.replies == seq![ReplyView::<E>::Exists(true), ReplyView::Failed(e)]
                    &&& trace.outcome == Err::<crate::hash::Hash, ErrorView<E>>(
                        ErrorView::Outside(e),
                    )
                },
                Ok(metadata) => metadata.file_type == FileType::Symlink || metadata.file_type
                    == FileType::Other ==> {
                    &&& trace.asked == both
                    &&& trace.replies == seq![
                        ReplyView::<E>::Exists(true),
                        ReplyView::Metadata(metadata),
                    ]
                    &&& trace.outcome == Err::<crate::hash::Hash, ErrorView<E>>(
                        ErrorView::InvalidHash {
                            message: "Unsupported file type: "@ + lossy_text(path),
                        },
                    )
                },
            }
        }),
{
    let trace = add_path_trace(path, replies);
    let both = seq![RequestView::Exists { path }, RequestView::Metadata { path }];
    if !replies.exists {
        assert(trace.asked =~= seq![RequestView::Exists { path }]);
        assert(trace.replies =~= seq![ReplyView::<E>::Exists(false)]);
    } else {
        match replies.metadata {
            Err(e) => {
                assert(trace.asked =~= both);
                assert(trace.replies =~= seq![ReplyView::<E>::Exists(true), ReplyView::Failed(e)]);
            },
            Ok(metadata) => {
                if metadata.file_type == FileType::Symlink || metadata.file_type
                    == FileType::Other {
                    assert(trace.asked =~= both);
                    assert(trace.replies =~= seq![
                        ReplyView::<E>::Exists(true),
                        ReplyView::Metadata(metadata),
                    ]);
                }
            },
        }
    }
}

/// A file that is added is stored, the clock is read, and one line is written:
/// with that time, the hash that came back, the path, one entry, and the length
/// of the file. The hash that came back is returned.
pub proof fn added_file_is_stored_and_recorded<E>(path: Seq<u8>, replies: PathReplies<E>)
    requires
        replies.exists,
        replies.metadata matches Ok(metadata) && metadata.file_type == FileType::File,
    ensures
        ({
            let trace = add_path_trace(path, replies);
            let metadata = replies.metadata->Ok_0;
            let first = seq![
                RequestView::Exists { path },
                RequestView::Metadata { path },
                RequestView::StoreFile { path },
            ];
            match replies.blob {
                Err(e) => {
                    &&& trace.asked == first
                    &&& trace.replies == seq![
                        ReplyView::<E>::Exists(true),
                        ReplyView::Metadata(metadata),
                        ReplyView::Failed(e),
                    ]
                    &&& trace.outcome == Err::<crate::hash::Hash, ErrorView<E>>(
                        ErrorView::Outside(e),
                    )
                },
                Ok(hash) => {
                    &&& trace.asked.len() == 5
                    &&& trace.asked.drop_last() == first + seq![RequestView::Clock]
                    &&& trace.replies == seq![
                        ReplyView::<E>::Exists(true),
                        ReplyView::Metadata(metadata),
                        ReplyView::Stored(hash),
                        ReplyView::Seconds(replies.seconds),
                        match replies.journal {
                            Ok(_) => ReplyView::Appended,
                            Err(e) => ReplyView::Failed(e),
                        },
                    ]
                    &&& trace.outcome == match replies.journal {
                        Ok(_) => Ok::<crate::hash::Hash, ErrorView<E>>(hash),
                        Err(e) => Err(ErrorView::Outside(e)),
                    }
                    &&& trace.asked[4] == (RequestView::AppendJournal {
                        entry: add_record(
                            replies.seconds,
                            hash,
                            lossy_text(path),
                            1,
                            metadata.len as nat,
                        ),
                    })
                },
            }
        }),
{
    let trace = add_path_trace(path, replies);
    let metadata = replies.metadata->Ok_0;
    let first = seq![
        RequestView::Exists { path },
        RequestView::Metadata { path },
        RequestView::StoreFile { path },
    ];
    match replies.blob {
        Err(e) => {
            assert(trace.asked =~= first);
            assert(trace.replies =~= seq![
                ReplyView::<E>::Exists(true),
                ReplyView::Metadata(metadata),
                ReplyView::Failed(e),
            ]);
        },
        Ok(hash) => {
            assert(trace.asked.drop_last() =~= first + seq![RequestView::Clock]);
            assert(trace.replies =~= seq![
                ReplyView::<E>::Exists(true),
                ReplyView::Metadata(metadata),
                ReplyView::Stored(hash),
                ReplyView::Seconds(replies.seconds),
                journal_reply(replies.journal),
            ]);
        },
    }
}

/// A directory that is added is walked just as it is by itself. If that
/// succeeds, the clock is read, the tree is read back, the size of the object
/// with the very hash of the tree is asked for, and one line is written: with
/// that time, that hash, the path, the number of entries of the tree, and that
/// size. The hash is returned.
pub proof fn added_directory_is_stored_and_recorded<E>(path: Seq<u8>, replies: PathReplies<E>)
    requires
        replies.exists,
        replies.metadata matches Ok(metadata) && metadata.file_type == FileType::Directory,
    ensures
        ({
            let trace = add_path_trace(path, replies);
            let walk = directory_trace(path, replies.directory);
            let asked = seq![RequestView::Exists { path }, RequestView::Metadata { path }]
                + walk.asked;
            let replied = seq![
                ReplyView::<E>::Exists(true),
                ReplyView::Metadata(replies.metadata->Ok_0),
            ] + walk.replies;
            let time = ReplyView::<E>::Seconds(replies.seconds);
            match walk.outcome {
                Err(error) => {
                    &&& trace.asked == asked
                    &&& trace.replies == replied
                    &&& trace.outcome == Err::<crate::hash::Hash, ErrorView<E>>(error)
                },
                Ok(hash) => match (replies.tree, replies.size) {
                    (Err(e), _) => {
                        &&& trace.asked == asked + seq![
                            RequestView::Clock,
                            RequestView::ReadTree { hash },
                        ]
                        &&& trace.replies == replied + seq![time, ReplyView::Failed(e)]
                        &&& trace.outcome == Err::<crate::hash::Hash, ErrorView<E>>(
                            ErrorView::Outside(e),
                        )
                    },
                    (Ok(entries), Err(e)) => {
                        &&& trace.asked == asked + seq![
                            RequestView::Clock,
                            RequestView::ReadTree { hash },
                            RequestView::ObjectSize { hash },
                        ]
                        &&& trace.replies == replied + seq![
                            time,
                            ReplyView::Tree(entries),
                            ReplyView::Failed(e),
                        ]
                        &&& trace.outcome == Err::<crate::hash::Hash, ErrorView<E>>(
                            ErrorView::Outside(e),
                        )
                    },
                    (Ok(entries), Ok(size)) => {
                        &&& trace.asked.len() > 0
                        &&& trace.asked.drop_last() == asked + seq![
                            RequestView::Clock,
                            RequestView::ReadTree { hash },
                            RequestView::ObjectSize { hash },
                        ]
                        &&& trace.replies == replied + seq![
                            time,
                            ReplyView::Tree(entries),
                            ReplyView::Size(size),
                            match replies.journal {
                                Ok(_) => ReplyView::Appended,
                                Err(e) => ReplyView::Failed(e),
                            },
                        ]
                        &&& trace.outcome == match replies.journal {
                            Ok(_) => Ok::<crate::hash::Hash, ErrorView<E>>(hash),
                            Err(e) => Err(ErrorView::Outside(e)),
                        }
                        &&& trace.asked.last() == (RequestView::AppendJournal {
                            entry: add_record(
                                replies.seconds,
                                hash,
                                lossy_text(path),
                                entries.len(),
                                size as nat,
                            ),
                        })
                    },
                },
            }
        }),
{
    let trace = add_path_trace(path, replies);
    let walk = directory_trace(path, replies.directory);
    let asked = seq![RequestView::Exists { path }, RequestView::Metadata { path }] + walk.asked;
    let replied = seq![
        ReplyView::<E>::Exists(true),
        ReplyView::Metadata(replies.metadata->Ok_0),
    ] + walk.replies;
    match walk.outcome {
        Err(_) => {
            assert(trace.asked =~= asked);
            assert(trace.replies =~= replied);
        },
        Ok(hash) => {
            let later = directory_recorded_trace(path, hash, replies);
            assert(trace.asked =~= asked + later.asked);
            assert(trace.replies =~= replied + later.replies);
            let time = ReplyView::<E>::Seconds(replies.seconds);
            match (replies.tree, replies.size) {
                (Err(e), _) => {
                    assert(later.asked =~= seq![
                        RequestView::Clock,
                        RequestView::ReadTree { hash },
                    ]);
                    assert(later.replies =~= seq![time, ReplyView::Failed(e)]);
                },
                (Ok(entries), Err(e)) => {
                    assert(later.asked =~= seq![
                        RequestView::Clock,
                        RequestView::ReadTree { hash },
                        RequestView::ObjectSize { hash },
                    ]);
                    assert(later.replies =~= seq![
                        time,
                        ReplyView::Tree(entries),
                        ReplyView::Failed(e),
                    ]);
                },
                (Ok(entries), Ok(size)) => {
                    let ends = seq![
                        RequestView::Clock,
                        RequestView::ReadTree { hash },
                        RequestView::ObjectSize { hash },
                    ];
                    assert(later.asked.drop_last() =~= ends);
                    assert(trace.asked.drop_last() =~= asked + ends);
                    assert(later.replies =~= seq![
                        time,
                        ReplyView::Tree(entries),
                        ReplyView::Size(size),
                        journal_reply(replies.journal),
                    ]);
                },
            }
        },
    }
}

/// Standard input is stored, the size of the object with the hash that came
/// back is asked for, the clock is read, and one line is written: with that
/// time, that hash, the path `(stdin)`, one entry, and that size. The hash is
/// returned.
pub proof fn added_stdin_is_stored_and_recorded<E>(replies: StdinReplies<E>)
    ensures
        ({
            let trace = add_stdin_trace(replies);
            match (replies.blob, replies.size) {
                (Err(e), _) => {
                    &&& trace.asked == seq![RequestView::StoreInput]
                    &&& trace.replies == seq![ReplyView::<E>::Failed(e)]
                    &&& trace.outcome == Err::<crate::hash::Hash, ErrorView<E>>(
                        ErrorView::Outside(e),
                    )
                },
                (Ok(hash), Err(e)) => {
                    &&& trace.asked == seq![
                        RequestView::StoreInput,
                        RequestView::ObjectSize { hash },
                    ]
                    &&& trace.replies == seq![ReplyView::<E>::Stored(hash), ReplyView::Failed(e)]
                    &&& trace.outcome == Err::<crate::hash::Hash, ErrorView<E>>(
                        ErrorView::Outside(e),
                    )
                },
                (Ok(hash), Ok(size)) => {
                    &&& trace.asked.len() == 4
                    &&& trace.asked.drop_last() == seq![
                        RequestView::StoreInput,
                        RequestView::ObjectSize { hash },
                        RequestView::Clock,
                    ]
                    &&& trace.replies == seq![
                        ReplyView::<E>::Stored(hash),
                        ReplyView::Size(size),
                        ReplyView::Seconds(replies.seconds),
                        match replies.journal {
                            Ok(_) => ReplyView::Appended,
                            Err(e) => ReplyView::Failed(e),
                        },
                    ]
                    &&& trace.outcome == match replies.journal {
                        Ok(_) => Ok::<crate::hash::Hash, ErrorView<E>>(hash),
                        Err(e) => Err(ErrorView::Outside(e)),
                    }
                    &&& trace.asked[3] == (RequestView::AppendJournal {
                        entry: add_record(replies.seconds, hash, "(stdin)"@, 1, size as nat),
                    })
                },
            }
        }),
{
    let trace = add_stdin_trace(replies);
    match (replies.blob, replies.size) {
        (Err(e), _) => {
            assert(trace.asked =~= seq![RequestView::StoreInput]);
            assert(trace.replies =~= seq![ReplyView::<E>::Failed(e)]);
        },
        (Ok(hash), Err(e)) => {
            assert(trace.asked =~= seq![RequestView::StoreInput, RequestView::ObjectSize { hash }]);
            assert(trace.replies =~= seq![ReplyView::<E>::Stored(hash), ReplyView::Failed(e)]);
        },
        (Ok(hash), Ok(size)) => {
            assert(trace.asked.drop_last() =~= seq![
                RequestView::StoreInput,
                RequestView::ObjectSize { hash },
                RequestView::Clock,
            ]);
            assert(trace.replies =~= seq![
                ReplyView::<E>::Stored(hash),
                ReplyView::Size(size),
                ReplyView::Seconds(replies.seconds),
                journal_reply(replies.journal),
            ]);
        },
    }
}

/// `request` is what may be asked once `last` has been answered by `reply`.
spec fn has_reason<E>(last: RequestView, reply: ReplyView<E>, request: RequestView) -> bool {
    match request {
        RequestView::Exists { .. } => false,
        RequestView::Metadata { path } => last == (RequestView::Exists { path }) && reply
            == ReplyView::<E>::Exists(true),
        RequestView::SymlinkMetadata { path } => {
            &&& last is OpenDirectory || last is NextEntry
            &&& reply == ReplyView::<E>::Entry(path)
        },
        RequestView::OpenDirectory { path, options } => {
            &&& last == (RequestView::Metadata { path }) || last == (
            RequestView::SymlinkMetadata { path })
            &&& reply matches ReplyView::Metadata(metadata) && metadata.file_type
                == FileType::Directory
            &&& options.max_depth == Some(1usize)
            &&& options.hidden == false
            &&& options.git_ignore == true
        },
        RequestView::NextEntry => {
            ||| reply is Entry
            ||| reply is Stored
            ||| (reply matches ReplyView::Metadata(metadata) && metadata.file_type
                == FileType::Other)
        },
        RequestView::ReadLink { path } => {
            &&& last == (RequestView::SymlinkMetadata { path })
            &&& reply matches ReplyView::Metadata(metadata) && metadata.file_type
                == FileType::Symlink
        },
        RequestView::StoreFile { path } => {
            &&& last == (RequestView::Metadata { path }) || last == (
            RequestView::SymlinkMetadata { path })
            &&& reply matches ReplyView::Metadata(metadata) && metadata.file_type
                == FileType::File
        },
        RequestView::StoreBytes { bytes } => last is ReadLink && reply
            == ReplyView::<E>::LinkTarget(bytes),
        RequestView::StoreInput => false,
        RequestView::StoreTree { .. } => reply is NoMoreEntries,
        RequestView::ReadTree { .. } => last is Clock,
        RequestView::ObjectSize { hash } => last == (RequestView::ReadTree { hash }),
        RequestView::Clock => reply is Stored,
        RequestView::AppendJournal { .. } => last is Clock || last is ObjectSize,
    }
}

/// A walk with `frames` under way has asked `request`.
spec fn walk_waits(frames: Seq<FrameView>, request: RequestView) -> bool {
    frames.len() > 0 && match frames.last().stage {
        StageView::Entry => request is OpenDirectory || request is NextEntry,
        StageView::Inspecting { child } => request == (RequestView::SymlinkMetadata {
            path: child,
        }),
        StageView::ReadingLink { .. } => request is ReadLink,
        StageView::StoringLink { .. } => request is StoreBytes,
        StageView::StoringFile { .. } => request is StoreFile,
        StageView::Below { .. } => false,
        StageView::StoringTree => request is StoreTree,
    }
}

/// The adding of `path`, at `stage`, has asked `request`.
spec fn path_waits(path: Seq<u8>, stage: PathStageView, request: RequestView) -> bool {
    match stage {
        PathStageView::Exists => request == (RequestView::Exists { path }),
        PathStageView::Inspecting => request == (RequestView::Metadata { path }),
        PathStageView::StoringFile { .. } => request == (RequestView::StoreFile { path }),
        PathStageView::Walking { frames } => walk_waits(frames, request),
        PathStageView::Clock { .. } => request is Clock,
        PathStageView::ReadingTree { hash, .. } => request == (RequestView::ReadTree { hash }),
        PathStageView::Sizing { hash, .. } => request == (RequestView::ObjectSize { hash }),
        PathStageView::Journaling { .. } => request is AppendJournal,
        PathStageView::Finished => false,
    }
}

proof fn lemma_walk_reasons<E>(
    frames: Seq<FrameView>,
    request: RequestView,
    replies: Seq<ReplyView<E>>,
)
    requires
        walk_waits(frames, request),
        run(walk_machine::<E>(), frames, StepView::Ask(request), replies).accepted,
    ensures
        ({
            let asked = run(walk_machine::<E>(), frames, StepView::Ask(request), replies).asked;
            &&& asked.len() == replies.len()
            &&& asked.len() > 0 ==> asked[0] == request
            &&& forall|i: int|
                0 < i < asked.len() ==> has_reason(
                    asked[i - 1],
                    replies[i - 1],
                    #[trigger] asked[i],
                )
        }),
    decreases replies.len(),
{
    if replies.len() > 0 {
        let (next, step) = walk_step(frames, replies[0]);
        let rest = replies.drop_first();
        let later = run(walk_machine::<E>(), next, step, rest);
        let asked = seq![request] + later.asked;
        if let StepView::Ask(more) = step {
            assert(walk_waits(next, more));
            assert(has_reason(request, replies[0], more));
            lemma_walk_reasons(next, more, rest);
        }
        assert forall|i: int| 0 < i < asked.len() implies has_reason(
            asked[i - 1],
            replies[i - 1],
            #[trigger] asked[i],
        ) by {
            assert(asked[i] == later.asked[i - 1]);
            if i > 1 {
                assert(asked[i - 1] == later.asked[i - 2]);
                assert(replies[i - 1] == rest[i - 2]);
            }
        }
    }
}

proof fn lemma_path_reasons<E>(
    path: Seq<u8>,
    stage: PathStageView,
    request: RequestView,
    replies: Seq<ReplyView<E>>,
)
    requires
        path_waits(path, stage, request),
        run(path_machine::<E>(path), stage, StepView::Ask(request), replies).accepted,
    ensures
        ({
            let asked = run(
                path_machine::<E>(path),
                stage,
                StepView::Ask(request),
                replies,
            ).asked;
            &&& asked.len() == replies.len()
            &&& asked.len() > 0 ==> asked[0] == request
            &&& forall|i: int|
                0 < i < asked.len() ==> has_reason(
                    asked[i - 1],
                    replies[i - 1],
                    #[trigger] asked[i],
                )
        }),
    decreases replies.len(),
{
    if replies.len() > 0 {
        let (next, step) = path_step(path, stage, replies[0]);
        let rest = replies.drop_first();
        let later = run(path_machine::<E>(path), next, step, rest);
        let asked = seq![request] + later.asked;
        if let StepView::Ask(more) = step {
            assert(path_waits(path, next, more));
            assert(has_reason(request, replies[0], more));
            lemma_path_reasons(path, next, more, rest);
        }
        assert forall|i: int| 0 < i < asked.len() implies has_reason(
            asked[i - 1],
            replies[i - 1],
            #[trigger] asked[i],
        ) by {
            assert(asked[i] == later.asked[i - 1]);
            if i > 1 {
                assert(asked[i - 1] == later.asked[i - 2]);
                assert(replies[i - 1] == rest[i - 2]);
            }
        }
    }
}

/// Every request of the adding of a path, whether it has ended or not, comes of
/// the request and the reply before it. A directory is opened where it was found
/// to be one, one level deep, with its hidden entries and without what
/// `.gitignore` files exclude; a file is stored where it was found to be one; a
/// link is read where it was found to be one, and what is stored for it is what
/// came back; what is inspected is what the list has named; and the size that is
/// asked for is that of the tree that was read.
pub proof fn every_request_has_its_reason<E>(path: Seq<u8>, replies: Seq<ReplyView<E>>)
    requires
        path_run(path, replies).accepted,
    ensures
        ({
            let asked = path_run(path, replies).asked;
            &&& asked.len() == replies.len()
            &&& asked.len() > 0 ==> asked[0] == (RequestView::Exists { path })
            &&& forall|i: int|
                0 < i < asked.len() ==> {
                    let last = asked[i - 1];
                    let reply = replies[i - 1];
                    match #[trigger] asked[i] {
                        RequestView::Exists { .. } => false,
                        RequestView::Metadata { path } => last == (RequestView::Exists { path }) && reply
                            == ReplyView::<E>::Exists(true),
                        RequestView::SymlinkMetadata { path } => {
                            &&& last is OpenDirectory || last is NextEntry
                            &&& reply == ReplyView::<E>::Entry(path)
                        },
                        RequestView::OpenDirectory { path, options } => {
                            &&& last == (RequestView::Metadata { path }) || last == (
                            RequestView::SymlinkMetadata { path })
                            &&& reply matches ReplyView::Metadata(metadata) && metadata.file_type
                                == FileType::Directory
                            &&& options.max_depth == Some(1usize)
                            &&& options.hidden == false
                            &&& options.git_ignore == true
                        },
                        RequestView::NextEntry => {
                            ||| reply is Entry
                            ||| reply is Stored
                            ||| (reply matches ReplyView::Metadata(metadata) && metadata.file_type
                                == FileType::Other)
                        },
                        RequestView::ReadLink { path } => {
                            &&& last == (RequestView::SymlinkMetadata { path })
                            &&& reply matches ReplyView::Metadata(metadata) && metadata.file_type
                                == FileType::Symlink
                        },
                        RequestView::StoreFile { path } => {
                            &&& last == (RequestView::Metadata { path }) || last == (
                            RequestView::SymlinkMetadata { path })
                            &&& reply matches ReplyView::Metadata(metadata) && metadata.file_type
                                == FileType::File
                        },
                        RequestView::StoreBytes { bytes } => last is ReadLink && reply
                            == ReplyView::<E>::LinkTarget(bytes),
                        RequestView::StoreInput => false,
                        RequestView::StoreTree { .. } => reply is NoMoreEntries,
                        RequestView::ReadTree { .. } => last is Clock,
                        RequestView::ObjectSize { hash } => last == (RequestView::ReadTree { hash }),
                        RequestView::Clock => reply is Stored,
                        RequestView::AppendJournal { .. } => last is Clock || last is ObjectSize,
                    }
                }
        }),
{
    let start = RequestView::Exists { path };
    lemma_path_reasons(path, PathStageView::Exists, start, replies);
    let asked = path_run(path, replies).asked;
    assert forall|i: int| 0 < i < asked.len() implies has_reason(
        asked[i - 1],
        replies[i - 1],
        #[trigger] asked[i],
    ) by {}
}

/// A walk through a directory by itself, whether it has ended or not, opens that
/// directory first, and others where they were found to be directories without
/// following a link; each of them one level deep, with its hidden entries and
/// without what `.gitignore` files exclude.
pub proof fn walks_open_the_directories_they_find<E>(path: Seq<u8>, replies: Seq<ReplyView<E>>)
    requires
        walk_run(path, replies).accepted,
    ensures
        ({
            let asked = walk_run(path, replies).asked;
            &&& asked.len() == replies.len()
            &&& asked.len() > 0 ==> asked[0] == (RequestView::OpenDirectory {
                path,
                options: ListOptions { max_depth: Some(1), hidden: false, git_ignore: true },
            })
            &&& forall|i: int|
                0 < i < asked.len() ==> (#[trigger] asked[i] matches RequestView::OpenDirectory {
                    path: below,
                    options,
                } ==> {
                    &&& asked[i - 1] == (RequestView::SymlinkMetadata { path: below })
                    &&& replies[i - 1] matches ReplyView::Metadata(metadata) && metadata.file_type
                        == FileType::Directory
                    &&& options.max_depth == Some(1usize)
                    &&& options.hidden == false
                    &&& options.git_ignore == true
                })
        }),
{
    let open = RequestView::OpenDirectory {
        path,
        options: ListOptions { max_depth: Some(1), hidden: false, git_ignore: true },
    };
    lemma_walk_reasons(seq![fresh_frame(path)], open, replies);
    let asked = walk_run(path, replies).asked;
    assert forall|i: int| 0 < i < asked.len() implies has_reason(
        asked[i - 1],
        replies[i - 1],
        #[trigger] asked[i],
    ) by {}
}

/// However the outside replies, an adding that succeeds and has found a
/// directory ends with four requests: the time, the tree with the hash that is
/// returned, the size of the object with that hash, and the line of the journal
/// made of the four replies before.
pub proof fn every_added_directory_ends_with_its_record<E>(
    path: Seq<u8>,
    replies: Seq<ReplyView<E>>,
    hash: crate::hash::Hash,
)
    requires
        path_run(path, replies).accepted,
        path_run(path, replies).step == StepView::<E>::Done(Ok(hash)),
        replies.len() > 1,
        replies[1] matches ReplyView::Metadata(metadata) && metadata.file_type
            == FileType::Directory,
    ensures
        ({
            let asked = path_run(path, replies).asked;
            let n = asked.len();
            &&& n == replies.len()
            &&& n >= 7
            &&& replies[n - 5] == ReplyView::<E>::Stored(hash)
            &&& asked[n - 4] == RequestView::Clock
            &&& asked[n - 3] == (RequestView::ReadTree { hash })
            &&& asked[n - 2] == (RequestView::ObjectSize { hash })
            &&& replies[n - 4] matches ReplyView::Seconds(seconds)
            &&& replies[n - 3] matches ReplyView::Tree(entries)
            &&& replies[n - 2] matches ReplyView::Size(size)
            &&& replies[n - 1] is Appended
            &&& asked[n - 1] matches RequestView::AppendJournal { entry }
            &&& seconds <= 0x7fff_ffff_ffff_ffff ==> entry.timestamp as int == seconds as int
            &&& seconds > 0x7fff_ffff_ffff_ffff ==> entry.timestamp as int == seconds as int
                - 0x1_0000_0000_0000_0000
            &&& entry.operation == "add"@
            &&& entry.hash == hash
            &&& entry.path == lossy_text(path)
            &&& exists|count: Seq<char>, extent: Seq<char>|
                {
                    &&& entry.metadata == #[trigger] ("entries="@ + count + ",size="@ + extent)
                    &&& count.len() > 0
                    &&& extent.len() > 0
                    &&& forall|i: int|
                        0 <= i < count.len() ==> 48 <= (#[trigger] count[i]) as int && count[i] as int
                            <= 57
                    &&& forall|i: int|
                        0 <= i < extent.len() ==> 48 <= (#[trigger] extent[i]) as int
                            && extent[i] as int <= 57
                    &&& count.len() > 1 ==> count[0] as int != 48
                    &&& extent.len() > 1 ==> extent[0] as int != 48
                    &&& decimal_value(count) == entries.len()
                    &&& decimal_value(extent) == size
                }
        }),
{
    every_add_path_has_its_trace(path, replies);
    let all = choose|all: PathReplies<E>|
        (#[trigger] add_path_trace(path, all)).replies == replies;
    add_path_follows_its_trace(path, all);
    every_request_has_its_reason(path, replies);
    let trace = add_path_trace(path, all);
    assert(all.exists && all.metadata is Ok) by {
        if all.exists {
            assert(trace.replies[1] == metadata_reply(all.metadata));
        }
    }
    assert(trace.replies[1] == metadata_reply(all.metadata));
    added_directory_is_stored_and_recorded(path, all);
    tree_lists_the_children(path, all.directory);
    let (entries, size) = (all.tree->Ok_0.len(), all.size->Ok_0 as nat);
    record_keeps_the_time(all.seconds, hash, lossy_text(path), entries, size);
    extent_reads_back(entries, size);
}

/// However the outside replies, an adding that succeeds and has found a file has
/// made five requests, and the line of the journal is made of the four replies
/// before.
pub proof fn every_added_file_ends_with_its_record<E>(
    path: Seq<u8>,
    replies: Seq<ReplyView<E>>,
    hash: crate::hash::Hash,
)
    requires
        path_run(path, replies).accepted,
        path_run(path, replies).step == StepView::<E>::Done(Ok(hash)),
        replies.len() > 1,
        replies[1] matches ReplyView::Metadata(metadata) && metadata.file_type == FileType::File,
    ensures
        ({
            let asked = path_run(path, replies).asked;
            &&& replies.len() == 5
            &&& asked.len() == 5
            &&& asked[2] == (RequestView::StoreFile { path })
            &&& replies[2] == ReplyView::<E>::Stored(hash)
            &&& asked[3] == RequestView::Clock
            &&& replies[3] matches ReplyView::Seconds(seconds)
            &&& replies[4] is Appended
            &&& asked[4] matches RequestView::AppendJournal { entry }
            &&& seconds <= 0x7fff_ffff_ffff_ffff ==> entry.timestamp as int == seconds as int
            &&& seconds > 0x7fff_ffff_ffff_ffff ==> entry.timestamp as int == seconds as int
                - 0x1_0000_0000_0000_0000
            &&& entry.operation == "add"@
            &&& entry.hash == hash
            &&& entry.path == lossy_text(path)
            &&& exists|count: Seq<char>, extent: Seq<char>|
                {
                    &&& entry.metadata == #[trigger] ("entries="@ + count + ",size="@ + extent)
                    &&& count.len() > 0
                    &&& extent.len() > 0
                    &&& forall|i: int|
                        0 <= i < count.len() ==> 48 <= (#[trigger] count[i]) as int && count[i] as int
                            <= 57
                    &&& forall|i: int|
                        0 <= i < extent.len() ==> 48 <= (#[trigger] extent[i]) as int
                            && extent[i] as int <= 57
                    &&& count.len() > 1 ==> count[0] as int != 48
                    &&& extent.len() > 1 ==> extent[0] as int != 48
                    &&& decimal_value(count) == 1
                    &&& decimal_value(extent) == replies[1]->Metadata_0.len
                }
        }),
{
    every_add_path_has_its_trace(path, replies);
    let all = choose|all: PathReplies<E>|
        (#[trigger] add_path_trace(path, all)).replies == replies;
    add_path_follows_its_trace(path, all);
    let trace = add_path_trace(path, all);
    assert(all.exists);
    assert(trace.replies[1] == metadata_reply(all.metadata));
    added_file_is_stored_and_recorded(path, all);
    let size = all.metadata->Ok_0.len as nat;
    record_keeps_the_time(all.seconds, hash, lossy_text(path), 1, size);
    extent_reads_back(1, size);
    assert(trace.asked[2] == trace.asked.drop_last()[2]);
    assert(trace.asked[3] == trace.asked.drop_last()[3]);
}

/// However the outside replies, an adding of standard input that succeeds has
/// made four requests, and the line of the journal is made of the three replies
/// before.
pub proof fn every_added_stdin_ends_with_its_record<E>(
    replies: Seq<ReplyView<E>>,
    hash: crate::hash::Hash,
)
    requires
        stdin_run(replies).accepted,
        stdin_run(replies).step == StepView::<E>::Done(Ok(hash)),
    ensures
        ({
            let asked = stdin_run(replies).asked;
            &&& replies.len() == 4
            &&& asked.len() == 4
            &&& asked[0] == RequestView::StoreInput
            &&& replies[0] == ReplyView::<E>::Stored(hash)
            &&& asked[1] == (RequestView::ObjectSize { hash })
            &&& replies[1] matches ReplyView::Size(size)
            &&& asked[2] == RequestView::Clock
            &&& replies[2] matches ReplyView::Seconds(seconds)
            &&& replies[3] is Appended
            &&& asked[3] matches RequestView::AppendJournal { entry }
            &&& seconds <= 0x7fff_ffff_ffff_ffff ==> entry.timestamp as int == seconds as int
            &&& seconds > 0x7fff_ffff_ffff_ffff ==> entry.timestamp as int == seconds as int
                - 0x1_0000_0000_0000_0000
            &&& entry.operation == "add"@
            &&& entry.hash == hash
            &&& entry.path == "(stdin)"@
            &&& exists|count: Seq<char>, extent: Seq<char>|
                {
                    &&& entry.metadata == #[trigger] ("entries="@ + count + ",size="@ + extent)
                    &&& count.len() > 0
                    &&& extent.len() > 0
                    &&& forall|i: int|
                        0 <= i < count.len() ==> 48 <= (#[trigger] count[i]) as int && count[i] as int
                            <= 57
                    &&& forall|i: int|
                        0 <= i < extent.len() ==> 48 <= (#[trigger] extent[i]) as int
                            && extent[i] as int <= 57
                    &&& count.len() > 1 ==> count[0] as int != 48
                    &&& extent.len() > 1 ==> extent[0] as int != 48
                    &&& decimal_value(count) == 1
                    &&& decimal_value(extent) == size
                }
        }),
{
    every_add_stdin_has_its_trace(replies);
    let all = choose|all: StdinReplies<E>| (#[trigger] add_stdin_trace(all)).replies == replies;
    add_stdin_follows_its_trace(all);
    added_stdin_is_stored_and_recorded(all);
    let trace = add_stdin_trace(all);
    let size = all.size->Ok_0 as nat;
    record_keeps_the_time(all.seconds, hash, "(stdin)"@, 1, size);
    extent_reads_back(1, size);
    assert(trace.asked[0] == trace.asked.drop_last()[0]);
    assert(trace.asked[1] == trace.asked.drop_last()[1]);
    assert(trace.asked[2] == trace.asked.drop_last()[2]);
}

} // verus!
