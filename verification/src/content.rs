//! What is stored depends on content alone: neither on where it stands, nor on
//! the order in which it is listed.

use vstd::prelude::*;

use crate::laws::added_path_is_recorded;
use crate::laws::child_entry;
use crate::laws::lemma_child_outcome;
use crate::laws::lemma_listed_entries_front;
use crate::laws::listed_entries;
use crate::laws::nothing_follows_the_record;
use crate::laws::tree_lists_the_children;
use crate::metadata::executable;
use crate::metadata::FileType;
use crate::order::distinct_names;
use crate::order::finding_order_does_not_matter;
use crate::order::in_order;
use crate::order::ordering_keeps_entries;
use crate::path::entry_name;
use crate::path::same_path;
use crate::protocol::ReplyView;
use crate::protocol::RequestView;
use crate::trace::add_path_trace;
use crate::trace::add_stdin_trace;
use crate::trace::child_trace;
use crate::trace::directory_recorded_trace;
use crate::trace::directory_trace;
use crate::trace::file_recorded_trace;
use crate::trace::listing_trace;
use crate::trace::with_found;
use crate::trace::Child;
use crate::trace::Directory;
use crate::trace::PathReplies;
use crate::trace::StdinReplies;
use crate::tree::EntryType;
use crate::tree::TreeEntryView;

verus! {

/// What a store keeps under a hash.
pub enum Object {
    Blob(Seq<u8>),
    Tree(Seq<TreeEntryView>),
}

/// A content-addressed store: the hash of an object is a function of the
/// object. `objects` are those that it is given.
pub struct Storage {
    pub objects: Set<Object>,
    pub hash: spec_fn(Object) -> crate::hash::Hash,
}

/// What the files hold, by path, and what the input holds, when they are read.
pub struct Disk {
    pub files: spec_fn(Seq<u8>) -> Seq<u8>,
    pub input: Seq<u8>,
}

/// The object that a request asks to store, if it asks for that.
pub open spec fn object_of(disk: Disk, request: RequestView) -> Option<Object> {
    match request {
        RequestView::StoreFile { path } => Some(Object::Blob((disk.files)(path))),
        RequestView::StoreBytes { bytes } => Some(Object::Blob(bytes)),
        RequestView::StoreInput => Some(Object::Blob(disk.input)),
        RequestView::StoreTree { entries } => Some(Object::Tree(entries)),
        _ => None,
    }
}

/// If an object was asked to be stored and the store gave a hash for it, that
/// is the hash of the object.
pub open spec fn reply_fits<E>(
    storage: Storage,
    disk: Disk,
    request: RequestView,
    reply: ReplyView<E>,
) -> bool {
    object_of(disk, request) matches Some(object) ==> {
        &&& storage.objects.contains(object)
        &&& reply matches ReplyView::Stored(hash) ==> hash == (storage.hash)(object)
    }
}

/// The replies come from the disk and the store.
pub open spec fn answered_by<E>(
    storage: Storage,
    disk: Disk,
    asked: Seq<RequestView>,
    replies: Seq<ReplyView<E>>,
) -> bool {
    forall|i: int|
        #![trigger asked[i]]
        #![trigger replies[i]]
        0 <= i < asked.len() && i < replies.len() ==> reply_fits(
            storage,
            disk,
            asked[i],
            replies[i],
        )
}

/// No two blobs, and no two trees, that the store is given have one hash.
pub open spec fn no_collisions(storage: Storage) -> bool {
    forall|a: Object, b: Object|
        #![trigger storage.objects.contains(a), storage.objects.contains(b)]
        {
            &&& storage.objects.contains(a)
            &&& storage.objects.contains(b)
            &&& a is Blob <==> b is Blob
            &&& (storage.hash)(a) == (storage.hash)(b)
        } ==> a == b
}

/// What stands at a path, as far as a store keeps it.
pub enum Content {
    File { bytes: Seq<u8>, executable: bool },
    Link { target: Seq<u8> },
    Directory { entries: Map<Seq<char>, Content> },
}

/// The content of one path of the list of `dir`; nothing for what is passed
/// over, or could not be found out.
pub open spec fn child_content<E>(disk: Disk, dir: Seq<u8>, child: Child<E>) -> Option<Content>
    decreases child,
{
    if same_path(child.path, dir) || entry_name(child.path) is None {
        None
    } else {
        match child.metadata {
            Err(_) => None,
            Ok(metadata) => match metadata.file_type {
                FileType::File => Some(
                    Content::File {
                        bytes: (disk.files)(child.path),
                        executable: executable(metadata),
                    },
                ),
                FileType::Symlink => match child.target {
                    Ok(target) => Some(Content::Link { target }),
                    Err(_) => None,
                },
                FileType::Directory => Some(
                    Content::Directory {
                        entries: listing_content(disk, child.path, child.directory.listing),
                    },
                ),
                FileType::Other => None,
            },
        }
    }
}

/// What a directory holds, by name.
pub open spec fn listing_content<E>(
    disk: Disk,
    dir: Seq<u8>,
    listing: Seq<Result<Child<E>, E>>,
) -> Map<Seq<char>, Content>
    decreases listing,
{
    if listing.len() == 0 {
        Map::empty()
    } else {
        let rest = listing_content(disk, dir, listing.drop_first());
        match listing[0] {
            Err(_) => rest,
            Ok(child) => match (entry_name(child.path), child_content(disk, dir, child)) {
                (Some(name), Some(content)) => rest.insert(name, content),
                _ => rest,
            },
        }
    }
}

/// The content of a directory.
pub open spec fn directory_content<E>(
    disk: Disk,
    path: Seq<u8>,
    directory: Directory<E>,
) -> Content {
    Content::Directory { entries: listing_content(disk, path, directory.listing) }
}

/// No directory, neither this one nor one below it, lists one name twice.
pub open spec fn names_differ<E>(path: Seq<u8>, directory: Directory<E>) -> bool
    decreases directory,
{
    &&& distinct_names(listed_entries(path, directory.listing))
    &&& children_names_differ(path, directory.listing)
}

/// No directory below the paths of the list lists one name twice.
pub open spec fn children_names_differ<E>(
    path: Seq<u8>,
    listing: Seq<Result<Child<E>, E>>,
) -> bool
    decreases listing,
{
    listing.len() == 0 || {
        &&& match listing[0] {
            Ok(child) => child_names_differ(path, child),
            Err(_) => true,
        }
        &&& children_names_differ(path, listing.drop_first())
    }
}

/// If a directory stands at the path of the list, neither it nor one below it
/// lists one name twice.
pub open spec fn child_names_differ<E>(dir: Seq<u8>, child: Child<E>) -> bool
    decreases child,
{
    !same_path(child.path, dir) && (child.metadata matches Ok(metadata) && metadata.file_type
        == FileType::Directory) ==> names_differ(child.path, child.directory)
}

proof fn lemma_answered_parts<E>(
    storage: Storage,
    disk: Disk,
    first_asked: Seq<RequestView>,
    first_replies: Seq<ReplyView<E>>,
    asked: Seq<RequestView>,
    replies: Seq<ReplyView<E>>,
)
    requires
        answered_by(storage, disk, first_asked + asked, first_replies + replies),
        first_asked.len() == first_replies.len(),
    ensures
        answered_by(storage, disk, first_asked, first_replies),
        answered_by(storage, disk, asked, replies),
{
    let all_asked = first_asked + asked;
    let all_replies = first_replies + replies;
    assert forall|i: int|
        #![trigger first_asked[i]]
        #![trigger first_replies[i]]
        0 <= i < first_asked.len() && i < first_replies.len() implies reply_fits(
        storage,
        disk,
        first_asked[i],
        first_replies[i],
    ) by {
        assert(all_asked[i] == first_asked[i]);
        assert(all_replies[i] == first_replies[i]);
    }
    assert forall|i: int|
        #![trigger asked[i]]
        #![trigger replies[i]]
        0 <= i < asked.len() && i < replies.len() implies reply_fits(
        storage,
        disk,
        asked[i],
        replies[i],
    ) by {
        let k = first_asked.len() + i;
        assert(all_asked[k] == asked[i]);
        assert(all_replies[k] == replies[i]);
    }
}

proof fn lemma_answered_first<E>(
    storage: Storage,
    disk: Disk,
    request: RequestView,
    reply: ReplyView<E>,
    asked: Seq<RequestView>,
    replies: Seq<ReplyView<E>>,
)
    requires
        answered_by(storage, disk, seq![request] + asked, seq![reply] + replies),
    ensures
        reply_fits(storage, disk, request, reply),
        answered_by(storage, disk, asked, replies),
{
    lemma_answered_parts(storage, disk, seq![request], seq![reply], asked, replies);
    let one = seq![request];
    assert(one[0] == request);
}

pub(crate) proof fn lemma_child_lengths<E>(dir: Seq<u8>, child: Child<E>)
    ensures
        child_trace(dir, child).asked.len() == child_trace(dir, child).replies.len(),
    decreases child,
{
    if !same_path(child.path, dir) {
        if let Ok(metadata) = child.metadata {
            if metadata.file_type == FileType::Directory {
                lemma_listing_lengths(
                    child.path,
                    true,
                    seq![],
                    child.directory.listing,
                    child.directory.tree,
                );
            }
        }
    }
}

proof fn lemma_listing_lengths<E>(
    path: Seq<u8>,
    opening: bool,
    entries: Seq<TreeEntryView>,
    listing: Seq<Result<Child<E>, E>>,
    tree: Result<crate::hash::Hash, E>,
)
    ensures
        ({
            let trace = listing_trace(path, opening, entries, listing, tree);
            trace.asked.len() == trace.replies.len()
        }),
    decreases listing,
{
    if listing.len() > 0 {
        if let Ok(child) = listing[0] {
            lemma_child_lengths(path, child);
            if let Ok(found) = child_trace(path, child).outcome {
                lemma_listing_lengths(
                    path,
                    false,
                    with_found(entries, found),
                    listing.drop_first(),
                    tree,
                );
            }
        }
    }
}

/// The blob or tree of a path of the list of `dir` has been stored, and
/// everything below it.
spec fn child_kept<E>(storage: Storage, disk: Disk, dir: Seq<u8>, child: Child<E>) -> bool
    decreases child,
{
    same_path(child.path, dir) || (entry_name(child.path) is Some && match child.metadata {
        Err(_) => false,
        Ok(metadata) => match metadata.file_type {
            FileType::File => blob_kept(storage, (disk.files)(child.path), child.blob),
            FileType::Symlink => child.target matches Ok(target) && blob_kept(
                storage,
                target,
                child.blob,
            ),
            FileType::Directory => directory_kept(storage, disk, child.path, child.directory),
            FileType::Other => true,
        },
    })
}

spec fn blob_kept<E>(
    storage: Storage,
    bytes: Seq<u8>,
    blob: Result<crate::hash::Hash, E>,
) -> bool {
    &&& storage.objects.contains(Object::Blob(bytes))
    &&& blob == Ok::<crate::hash::Hash, E>((storage.hash)(Object::Blob(bytes)))
}

spec fn tree_kept<E>(
    storage: Storage,
    entries: Seq<TreeEntryView>,
    tree: Result<crate::hash::Hash, E>,
) -> bool {
    &&& storage.objects.contains(Object::Tree(in_order(entries)))
    &&& tree == Ok::<crate::hash::Hash, E>((storage.hash)(Object::Tree(in_order(entries))))
}

spec fn listing_kept<E>(
    storage: Storage,
    disk: Disk,
    path: Seq<u8>,
    listing: Seq<Result<Child<E>, E>>,
) -> bool
    decreases listing,
{
    listing.len() == 0 || match listing[0] {
        Err(_) => false,
        Ok(child) => child_kept(storage, disk, path, child) && listing_kept(
            storage,
            disk,
            path,
            listing.drop_first(),
        ),
    }
}

/// A directory has been stored, with everything below it.
spec fn directory_kept<E>(
    storage: Storage,
    disk: Disk,
    path: Seq<u8>,
    directory: Directory<E>,
) -> bool
    decreases directory,
{
    &&& listing_kept(storage, disk, path, directory.listing)
    &&& tree_kept(storage, listed_entries(path, directory.listing), directory.tree)
}

proof fn lemma_child_kept<E>(storage: Storage, disk: Disk, dir: Seq<u8>, child: Child<E>)
    requires
        child_trace(dir, child).outcome is Ok,
        answered_by(
            storage,
            disk,
            child_trace(dir, child).asked,
            child_trace(dir, child).replies,
        ),
    ensures
        child_kept(storage, disk, dir, child),
        child_trace(dir, child).outcome->Ok_0 == child_entry(dir, child),
    decreases child,
{
    let trace = child_trace(dir, child);
    if !same_path(child.path, dir) {
        let metadata = child.metadata->Ok_0;
        match metadata.file_type {
            FileType::File => {
                assert(trace.asked[1] == (RequestView::StoreFile { path: child.path }));
                assert(trace.replies[1] == ReplyView::<E>::Stored(child.blob->Ok_0));
            },
            FileType::Symlink => {
                assert(trace.asked[2] == (RequestView::StoreBytes { bytes: child.target->Ok_0 }));
                assert(trace.replies[2] == ReplyView::<E>::Stored(child.blob->Ok_0));
            },
            FileType::Directory => {
                let directory = child.directory;
                let below = directory_trace(child.path, directory);
                assert(below.asked + seq![] =~= below.asked);
                assert(below.replies + seq![] =~= below.replies);
                lemma_answered_first(
                    storage,
                    disk,
                    RequestView::SymlinkMetadata { path: child.path },
                    ReplyView::<E>::Metadata(metadata),
                    below.asked,
                    below.replies,
                );
                lemma_listing_kept(
                    storage,
                    disk,
                    child.path,
                    true,
                    seq![],
                    directory.listing,
                    directory.tree,
                );
                let listed = listed_entries(child.path, directory.listing);
                assert(Seq::<TreeEntryView>::empty() + listed =~= listed);
            },
            FileType::Other => {},
        }
    }
}

proof fn lemma_listing_kept<E>(
    storage: Storage,
    disk: Disk,
    path: Seq<u8>,
    opening: bool,
    entries: Seq<TreeEntryView>,
    listing: Seq<Result<Child<E>, E>>,
    tree: Result<crate::hash::Hash, E>,
)
    requires
        listing_trace(path, opening, entries, listing, tree).outcome is Ok,
        answered_by(
            storage,
            disk,
            listing_trace(path, opening, entries, listing, tree).asked,
            listing_trace(path, opening, entries, listing, tree).replies,
        ),
    ensures
        listing_kept(storage, disk, path, listing),
        tree_kept(storage, entries + listed_entries(path, listing), tree),
        listing_trace(path, opening, entries, listing, tree).outcome->Ok_0 == tree->Ok_0,
    decreases listing,
{
    let trace = listing_trace(path, opening, entries, listing, tree);
    let listed = listed_entries(path, listing);
    if listing.len() == 0 {
        assert(entries + listed =~= entries);
        assert(trace.asked[1] == (RequestView::StoreTree { entries: in_order(entries) }));
        assert(trace.replies[1] == ReplyView::<E>::Stored(tree->Ok_0));
    } else {
        let child = listing[0]->Ok_0;
        let first = child_trace(path, child);
        let found = first.outcome->Ok_0;
        let rest = listing_trace(
            path,
            false,
            with_found(entries, found),
            listing.drop_first(),
            tree,
        );
        lemma_answered_first(
            storage,
            disk,
            trace.asked[0],
            ReplyView::<E>::Entry(child.path),
            first.asked + rest.asked,
            first.replies + rest.replies,
        );
        lemma_child_lengths(path, child);
        lemma_answered_parts(
            storage,
            disk,
            first.asked,
            first.replies,
            rest.asked,
            rest.replies,
        );
        lemma_child_kept(storage, disk, path, child);
        lemma_listing_kept(
            storage,
            disk,
            path,
            false,
            with_found(entries, found),
            listing.drop_first(),
            tree,
        );
        lemma_listed_entries_front(path, listing);
        assert(with_found(entries, found) + listed_entries(path, listing.drop_first()) =~= entries
            + listed);
    }
}

proof fn lemma_directory_kept<E>(
    storage: Storage,
    disk: Disk,
    path: Seq<u8>,
    directory: Directory<E>,
)
    requires
        directory_trace(path, directory).outcome is Ok,
        answered_by(
            storage,
            disk,
            directory_trace(path, directory).asked,
            directory_trace(path, directory).replies,
        ),
    ensures
        directory_kept(storage, disk, path, directory),
        directory_trace(path, directory).outcome->Ok_0 == directory.tree->Ok_0,
{
    lemma_listing_kept(
        storage,
        disk,
        path,
        true,
        seq![],
        directory.listing,
        directory.tree,
    );
    let listed = listed_entries(path, directory.listing);
    assert(Seq::<TreeEntryView>::empty() + listed =~= listed);
}

/// The path of the list at `i` gives the entry `entry`.
spec fn gives<E>(
    path: Seq<u8>,
    listing: Seq<Result<Child<E>, E>>,
    i: int,
    entry: TreeEntryView,
) -> bool {
    &&& 0 <= i < listing.len()
    &&& listing[i] matches Ok(child) && child_entry(path, child) == Some(entry)
}

proof fn lemma_kept_at<E>(
    storage: Storage,
    disk: Disk,
    path: Seq<u8>,
    listing: Seq<Result<Child<E>, E>>,
    i: int,
)
    requires
        listing_kept(storage, disk, path, listing),
        0 <= i < listing.len(),
    ensures
        listing[i] is Ok,
        child_kept(storage, disk, path, listing[i]->Ok_0),
    decreases listing.len(),
{
    if i > 0 {
        lemma_kept_at(storage, disk, path, listing.drop_first(), i - 1);
    }
}

proof fn lemma_child_parts<E>(storage: Storage, disk: Disk, dir: Seq<u8>, child: Child<E>)
    requires
        child_kept(storage, disk, dir, child),
    ensures
        child_entry(dir, child) is Some <==> child_content(disk, dir, child) is Some,
        child_entry(dir, child) matches Some(entry) ==> entry_name(child.path) == Some(entry.name),
{
    if let Ok(metadata) = child.metadata {
        if !same_path(child.path, dir) && metadata.file_type == FileType::Directory {
            assert(directory_kept(storage, disk, child.path, child.directory));
        }
    }
}

/// Every path of the list that gives an entry is found by the entry's name.
proof fn lemma_content_found<E>(
    storage: Storage,
    disk: Disk,
    path: Seq<u8>,
    listing: Seq<Result<Child<E>, E>>,
    i: int,
    entry: TreeEntryView,
)
    requires
        listing_kept(storage, disk, path, listing),
        distinct_names(listed_entries(path, listing)),
        children_names_differ(path, listing),
        gives(path, listing, i, entry),
    ensures
        listed_entries(path, listing).contains(entry),
        listing_content(disk, path, listing).contains_key(entry.name),
        child_content(disk, path, listing[i]->Ok_0) == Some(
            listing_content(disk, path, listing)[entry.name],
        ),
        child_kept(storage, disk, path, listing[i]->Ok_0),
        child_names_differ(path, listing[i]->Ok_0),
    decreases listing.len(),
{
    let head = listing[0]->Ok_0;
    let rest = listing.drop_first();
    let listed = listed_entries(path, listing);
    let rest_listed = listed_entries(path, rest);
    let front = with_found(seq![], child_entry(path, head));
    lemma_listed_entries_front(path, listing);
    lemma_child_parts(storage, disk, path, head);
    assert(listed =~= front + rest_listed);
    if i == 0 {
        assert(front[0] == entry);
        assert(listed[0] == entry);
    } else {
        assert(distinct_names(rest_listed)) by {
            assert forall|a: int, b: int|
                0 <= a < rest_listed.len() && 0 <= b < rest_listed.len() && a
                    != b implies rest_listed[a].name != rest_listed[b].name by {
                assert(listed[front.len() + a] == rest_listed[a]);
                assert(listed[front.len() + b] == rest_listed[b]);
            }
        }
        assert(rest[i - 1] == listing[i]);
        lemma_content_found(storage, disk, path, rest, i - 1, entry);
        let k = choose|k: int| 0 <= k < rest_listed.len() && rest_listed[k] == entry;
        assert(listed[front.len() + k] == entry);
        if front.len() > 0 {
            assert(listed[0] == front[0]);
            assert(front[0].name != entry.name);
        }
    }
}

/// Every name of a directory's content comes from a path of its list.
proof fn lemma_content_source<E>(
    storage: Storage,
    disk: Disk,
    path: Seq<u8>,
    listing: Seq<Result<Child<E>, E>>,
    name: Seq<char>,
) -> (result: (int, TreeEntryView))
    requires
        listing_kept(storage, disk, path, listing),
        listing_content(disk, path, listing).contains_key(name),
    ensures
        gives(path, listing, result.0, result.1),
        result.1.name == name,
    decreases listing.len(),
{
    let head = listing[0]->Ok_0;
    let rest = listing.drop_first();
    lemma_child_parts(storage, disk, path, head);
    match child_entry(path, head) {
        Some(entry) if entry.name == name => (0, entry),
        _ => {
            let (i, entry) = lemma_content_source(storage, disk, path, rest, name);
            assert(listing[i + 1] == rest[i]);
            (i + 1, entry)
        },
    }
}

/// Every entry of a tree comes from a path of the directory's list.
proof fn lemma_entry_source<E>(
    path: Seq<u8>,
    listing: Seq<Result<Child<E>, E>>,
    entry: TreeEntryView,
) -> (i: int)
    requires
        listed_entries(path, listing).contains(entry),
    ensures
        gives(path, listing, i, entry),
    decreases listing.len(),
{
    let front = listed_entries(path, listing.drop_last());
    match listing.last() {
        Ok(child) if child_entry(path, child) == Some(entry) => listing.len() - 1,
        _ => {
            let k = choose|k: int|
                0 <= k < listed_entries(path, listing).len() && listed_entries(path, listing)[k]
                    == entry;
            assert(front[k] == entry);
            let i = lemma_entry_source(path, listing.drop_last(), entry);
            assert(listing.drop_last()[i] == listing[i]);
            i
        },
    }
}

/// Two stored paths with one name give the same entry if they have the same
/// content and, unless hashes collide, only then.
proof fn lemma_children_agree<E>(
    storage: Storage,
    disk: Disk,
    dir: Seq<u8>,
    child: Child<E>,
    other_disk: Disk,
    other_dir: Seq<u8>,
    other: Child<E>,
)
    requires
        child_kept(storage, disk, dir, child),
        child_kept(storage, other_disk, other_dir, other),
        child_names_differ(dir, child),
        child_names_differ(other_dir, other),
        child_entry(dir, child) is Some,
        child_entry(other_dir, other) is Some,
    ensures
        child_content(disk, dir, child) is Some,
        child_content(other_disk, other_dir, other) is Some,
        child_entry(dir, child)->Some_0.name == child_entry(other_dir, other)->Some_0.name
            && child_content(disk, dir, child) == child_content(other_disk, other_dir, other)
            ==> child_entry(dir, child) == child_entry(other_dir, other),
        no_collisions(storage) && child_entry(dir, child) == child_entry(other_dir, other)
            ==> child_content(disk, dir, child) == child_content(other_disk, other_dir, other),
    decreases child,
{
    if child.metadata->Ok_0.file_type == FileType::Directory
        && other.metadata->Ok_0.file_type == FileType::Directory {
        lemma_directories_agree(
            storage,
            disk,
            child.path,
            child.directory,
            other_disk,
            other.path,
            other.directory,
        );
    }
}

/// Two stored directories become the same tree if they have the same content
/// and, unless hashes collide, only then.
proof fn lemma_directories_agree<E>(
    storage: Storage,
    disk: Disk,
    path: Seq<u8>,
    directory: Directory<E>,
    other_disk: Disk,
    other_path: Seq<u8>,
    other: Directory<E>,
)
    requires
        directory_kept(storage, disk, path, directory),
        directory_kept(storage, other_disk, other_path, other),
        names_differ(path, directory),
        names_differ(other_path, other),
    ensures
        directory_content(disk, path, directory) == directory_content(
            other_disk,
            other_path,
            other,
        ) ==> in_order(listed_entries(path, directory.listing)) == in_order(
            listed_entries(other_path, other.listing),
        ),
        no_collisions(storage) && directory.tree == other.tree ==> directory_content(
            disk,
            path,
            directory,
        ) == directory_content(other_disk, other_path, other),
    decreases directory,
{
    broadcast use vstd::seq_lib::group_to_multiset_ensures;

    let (one, two) = (directory.listing, other.listing);
    let a = listed_entries(path, one);
    let b = listed_entries(other_path, two);
    let m = listing_content(disk, path, one);
    let n = listing_content(other_disk, other_path, two);
    if m == n {
        assert forall|e: TreeEntryView| a.contains(e) implies b.contains(e) by {
            let i = lemma_entry_source(path, one, e);
            lemma_content_found(storage, disk, path, one, i, e);
            let (j, f) = lemma_content_source(storage, other_disk, other_path, two, e.name);
            lemma_content_found(storage, other_disk, other_path, two, j, f);
            lemma_children_agree(
                storage,
                disk,
                path,
                one[i]->Ok_0,
                other_disk,
                other_path,
                two[j]->Ok_0,
            );
        }
        assert forall|e: TreeEntryView| b.contains(e) implies a.contains(e) by {
            let j = lemma_entry_source(other_path, two, e);
            lemma_content_found(storage, other_disk, other_path, two, j, e);
            let (i, f) = lemma_content_source(storage, disk, path, one, e.name);
            lemma_content_found(storage, disk, path, one, i, f);
            lemma_children_agree(
                storage,
                disk,
                path,
                one[i]->Ok_0,
                other_disk,
                other_path,
                two[j]->Ok_0,
            );
        }
        lemma_same_entries(a, b);
        finding_order_does_not_matter(a, b);
    }
    if no_collisions(storage) && directory.tree == other.tree {
        assert(storage.objects.contains(Object::Tree(in_order(a))));
        assert(storage.objects.contains(Object::Tree(in_order(b))));
        assert(in_order(a) == in_order(b));
        ordering_keeps_entries(a);
        ordering_keeps_entries(b);
        assert(a.to_multiset() == b.to_multiset());
        assert forall|name: Seq<char>| #[trigger] m.contains_key(name) implies n.contains_key(name)
            && n[name] == m[name] by {
            let (i, e) = lemma_content_source(storage, disk, path, one, name);
            lemma_content_found(storage, disk, path, one, i, e);
            assert(a.to_multiset().count(e) > 0);
            assert(b.contains(e));
            let j = lemma_entry_source(other_path, two, e);
            lemma_content_found(storage, other_disk, other_path, two, j, e);
            lemma_children_agree(
                storage,
                disk,
                path,
                one[i]->Ok_0,
                other_disk,
                other_path,
                two[j]->Ok_0,
            );
        }
        assert forall|name: Seq<char>| #[trigger] n.contains_key(name) implies m.contains_key(
            name,
        ) by {
            let (j, e) = lemma_content_source(storage, other_disk, other_path, two, name);
            lemma_content_found(storage, other_disk, other_path, two, j, e);
            assert(b.to_multiset().count(e) > 0);
            assert(a.contains(e));
            let i = lemma_entry_source(path, one, e);
            lemma_content_found(storage, disk, path, one, i, e);
        }
        assert(m =~= n);
    }
}

proof fn lemma_same_entries(a: Seq<TreeEntryView>, b: Seq<TreeEntryView>)
    requires
        distinct_names(a),
        distinct_names(b),
        forall|e: TreeEntryView| a.contains(e) <==> b.contains(e),
    ensures
        a.to_multiset() == b.to_multiset(),
{
    broadcast use vstd::seq_lib::group_to_multiset_ensures;

    assert(a.no_duplicates());
    assert(b.no_duplicates());
    a.lemma_multiset_has_no_duplicates();
    b.lemma_multiset_has_no_duplicates();
    assert forall|e: TreeEntryView| a.to_multiset().count(e) == b.to_multiset().count(e) by {
        assert(a.contains(e) <==> b.contains(e));
        assert(a.to_multiset().contains(e) <==> b.to_multiset().contains(e));
    }
    assert(a.to_multiset() =~= b.to_multiset());
}

/// The bytes of the blob that a path of the list of `dir` is stored as: the
/// content of a file, or the target of a link.
pub open spec fn child_bytes<E>(disk: Disk, dir: Seq<u8>, child: Child<E>) -> Option<Seq<u8>> {
    match child_content(disk, dir, child) {
        Some(Content::File { bytes, .. }) => Some(bytes),
        Some(Content::Link { target }) => Some(target),
        _ => None,
    }
}

/// The tree entry of a file carries the hash of its content as a blob, and that
/// of a link the hash of its target as a blob. Nothing else enters the hash.
pub proof fn entries_point_at_their_blobs<E>(
    storage: Storage,
    disk: Disk,
    dir: Seq<u8>,
    child: Child<E>,
)
    requires
        child_trace(dir, child).outcome is Ok,
        answered_by(
            storage,
            disk,
            child_trace(dir, child).asked,
            child_trace(dir, child).replies,
        ),
        child_bytes(disk, dir, child) is Some,
    ensures
        child_trace(dir, child).outcome->Ok_0 is Some,
        child_trace(dir, child).outcome->Ok_0->Some_0.hash == (storage.hash)(
            Object::Blob(child_bytes(disk, dir, child)->Some_0),
        ),
        storage.objects.contains(Object::Blob(child_bytes(disk, dir, child)->Some_0)),
{
    lemma_child_kept(storage, disk, dir, child);
}

/// Files and links share a blob when the content of the file, or the target of
/// the link, is the same bytes, wherever they stand and whatever their names
/// and modes are. Unless hashes collide, they share one only then.
pub proof fn equal_bytes_share_a_blob<E>(
    storage: Storage,
    disk: Disk,
    dir: Seq<u8>,
    child: Child<E>,
    other_disk: Disk,
    other_dir: Seq<u8>,
    other: Child<E>,
)
    requires
        child_trace(dir, child).outcome is Ok,
        answered_by(
            storage,
            disk,
            child_trace(dir, child).asked,
            child_trace(dir, child).replies,
        ),
        child_bytes(disk, dir, child) is Some,
        child_trace(other_dir, other).outcome is Ok,
        answered_by(
            storage,
            other_disk,
            child_trace(other_dir, other).asked,
            child_trace(other_dir, other).replies,
        ),
        child_bytes(other_disk, other_dir, other) is Some,
    ensures
        ({
            let one = child_trace(dir, child).outcome->Ok_0;
            let two = child_trace(other_dir, other).outcome->Ok_0;
            let same_bytes = child_bytes(disk, dir, child) == child_bytes(
                other_disk,
                other_dir,
                other,
            );
            &&& one is Some
            &&& two is Some
            &&& same_bytes ==> one->Some_0.hash == two->Some_0.hash
            &&& no_collisions(storage) && one->Some_0.hash == two->Some_0.hash ==> same_bytes
        }),
{
    entries_point_at_their_blobs(storage, disk, dir, child);
    entries_point_at_their_blobs(storage, other_disk, other_dir, other);
}

/// Every link entry of a stored tree comes from a link of that name, and its
/// hash is that of the link's target as a blob, so whoever follows the hashes
/// of a tree comes to the targets of its links.
pub proof fn link_entries_point_at_their_targets<E>(
    storage: Storage,
    disk: Disk,
    path: Seq<u8>,
    directory: Directory<E>,
    entry: TreeEntryView,
)
    requires
        directory_trace(path, directory).outcome is Ok,
        answered_by(
            storage,
            disk,
            directory_trace(path, directory).asked,
            directory_trace(path, directory).replies,
        ),
        listed_entries(path, directory.listing).contains(entry),
        entry.entry_type == EntryType::Symlink,
    ensures
        exists|i: int|
            0 <= i < directory.listing.len() && (#[trigger] directory.listing[i] matches Ok(child)
                && entry_name(child.path) == Some(entry.name) && (
            child_content(disk, path, child) matches Some(Content::Link { target })
                && child.target == Ok::<Seq<u8>, E>(target) && storage.objects.contains(
                Object::Blob(target),
            ) && entry.hash == (storage.hash)(Object::Blob(target)))),
{
    lemma_directory_kept(storage, disk, path, directory);
    let i = lemma_entry_source(path, directory.listing, entry);
    lemma_kept_at(storage, disk, path, directory.listing, i);
    lemma_child_parts(storage, disk, path, directory.listing[i]->Ok_0);
}

/// The hash of a stored directory is that of its tree.
pub proof fn directory_has_the_hash_of_its_tree<E>(
    storage: Storage,
    disk: Disk,
    path: Seq<u8>,
    directory: Directory<E>,
)
    requires
        directory_trace(path, directory).outcome is Ok,
        answered_by(
            storage,
            disk,
            directory_trace(path, directory).asked,
            directory_trace(path, directory).replies,
        ),
    ensures
        directory_trace(path, directory).outcome->Ok_0 == (storage.hash)(
            Object::Tree(in_order(listed_entries(path, directory.listing))),
        ),
{
    let trace = directory_trace(path, directory);
    tree_lists_the_children(path, directory);
    lemma_listing_lengths(path, true, seq![], directory.listing, directory.tree);
    let last = trace.asked.len() - 1;
    assert(trace.asked[last] == trace.asked.last());
    assert(trace.replies[last] == ReplyView::<E>::Stored(trace.outcome->Ok_0));
}

/// Content decides what a directory is stored as. Two directories that agree,
/// at every depth, on the names below them, on what is a file, a link or a
/// directory, on the content of files and whether they are executable, and on
/// the targets of links, become the same tree with the same hash. Where they
/// stand, in which order they are listed, and all other permissions play no
/// part. Unless hashes collide, only directories that agree have the same hash.
pub proof fn content_decides_the_tree<E>(
    storage: Storage,
    disk: Disk,
    path: Seq<u8>,
    directory: Directory<E>,
    other_disk: Disk,
    other_path: Seq<u8>,
    other: Directory<E>,
)
    requires
        directory_trace(path, directory).outcome is Ok,
        answered_by(
            storage,
            disk,
            directory_trace(path, directory).asked,
            directory_trace(path, directory).replies,
        ),
        names_differ(path, directory),
        directory_trace(other_path, other).outcome is Ok,
        answered_by(
            storage,
            other_disk,
            directory_trace(other_path, other).asked,
            directory_trace(other_path, other).replies,
        ),
        names_differ(other_path, other),
    ensures
        ({
            let one = directory_trace(path, directory);
            let two = directory_trace(other_path, other);
            let agree = directory_content(disk, path, directory) == directory_content(
                other_disk,
                other_path,
                other,
            );
            &&& agree ==> one.asked.last() == two.asked.last() && one.outcome == two.outcome
            &&& no_collisions(storage) && one.outcome == two.outcome ==> agree
        }),
{
    lemma_directory_kept(storage, disk, path, directory);
    lemma_directory_kept(storage, other_disk, other_path, other);
    tree_lists_the_children(path, directory);
    tree_lists_the_children(other_path, other);
    lemma_directories_agree(storage, disk, path, directory, other_disk, other_path, other);
}

/// A file stands at the path that is added.
pub open spec fn adds_file<E>(replies: PathReplies<E>) -> bool {
    replies.metadata matches Ok(metadata) && metadata.file_type == FileType::File
}

/// A directory stands at the path that is added.
pub open spec fn adds_directory<E>(replies: PathReplies<E>) -> bool {
    replies.metadata matches Ok(metadata) && metadata.file_type == FileType::Directory
}

/// The hash of an added file is that of its content as a blob.
pub proof fn added_file_has_the_hash_of_its_content<E>(
    storage: Storage,
    disk: Disk,
    path: Seq<u8>,
    replies: PathReplies<E>,
)
    requires
        add_path_trace(path, replies).outcome is Ok,
        answered_by(
            storage,
            disk,
            add_path_trace(path, replies).asked,
            add_path_trace(path, replies).replies,
        ),
        adds_file(replies),
    ensures
        add_path_trace(path, replies).outcome->Ok_0 == (storage.hash)(
            Object::Blob((disk.files)(path)),
        ),
        storage.objects.contains(Object::Blob((disk.files)(path))),
{
    let trace = add_path_trace(path, replies);
    assert(trace.asked[2] == (RequestView::StoreFile { path }));
    assert(trace.replies[2] == ReplyView::<E>::Stored(replies.blob->Ok_0));
}

/// The hash of added input is that of what was read as a blob.
pub proof fn added_stdin_has_the_hash_of_its_content<E>(
    storage: Storage,
    disk: Disk,
    replies: StdinReplies<E>,
)
    requires
        add_stdin_trace(replies).outcome is Ok,
        answered_by(
            storage,
            disk,
            add_stdin_trace(replies).asked,
            add_stdin_trace(replies).replies,
        ),
    ensures
        add_stdin_trace(replies).outcome->Ok_0 == (storage.hash)(Object::Blob(disk.input)),
        storage.objects.contains(Object::Blob(disk.input)),
{
    let trace = add_stdin_trace(replies);
    assert(trace.asked[0] == RequestView::StoreInput);
    assert(trace.replies[0] == ReplyView::<E>::Stored(replies.blob->Ok_0));
}

proof fn lemma_added_directory<E>(
    storage: Storage,
    disk: Disk,
    path: Seq<u8>,
    replies: PathReplies<E>,
)
    requires
        add_path_trace(path, replies).outcome is Ok,
        answered_by(
            storage,
            disk,
            add_path_trace(path, replies).asked,
            add_path_trace(path, replies).replies,
        ),
        adds_directory(replies),
    ensures
        directory_trace(path, replies.directory).outcome == add_path_trace(path, replies).outcome,
        answered_by(
            storage,
            disk,
            directory_trace(path, replies.directory).asked,
            directory_trace(path, replies.directory).replies,
        ),
{
    let trace = add_path_trace(path, replies);
    let walk = directory_trace(path, replies.directory);
    let first_asked = seq![RequestView::Exists { path }, RequestView::Metadata { path }];
    let first_replies = seq![
        ReplyView::<E>::Exists(true),
        ReplyView::<E>::Metadata(replies.metadata->Ok_0),
    ];
    let later = directory_recorded_trace(path, walk.outcome->Ok_0, replies);
    assert(trace.asked =~= first_asked + (walk.asked + later.asked));
    assert(trace.replies =~= first_replies + (walk.replies + later.replies));
    lemma_answered_parts(
        storage,
        disk,
        first_asked,
        first_replies,
        walk.asked + later.asked,
        walk.replies + later.replies,
    );
    lemma_listing_lengths(
        path,
        true,
        seq![],
        replies.directory.listing,
        replies.directory.tree,
    );
    lemma_answered_parts(
        storage,
        disk,
        walk.asked,
        walk.replies,
        later.asked,
        later.replies,
    );
}

/// Content decides the hash of what is added. Two files with the same bytes, or
/// two directories with the same content, are added under the same hash, at
/// whatever paths they stand. Unless hashes collide, only those are.
pub proof fn content_decides_the_hash<E>(
    storage: Storage,
    disk: Disk,
    path: Seq<u8>,
    replies: PathReplies<E>,
    other_disk: Disk,
    other_path: Seq<u8>,
    other: PathReplies<E>,
)
    requires
        add_path_trace(path, replies).outcome is Ok,
        answered_by(
            storage,
            disk,
            add_path_trace(path, replies).asked,
            add_path_trace(path, replies).replies,
        ),
        adds_directory(replies) ==> names_differ(path, replies.directory),
        add_path_trace(other_path, other).outcome is Ok,
        answered_by(
            storage,
            other_disk,
            add_path_trace(other_path, other).asked,
            add_path_trace(other_path, other).replies,
        ),
        adds_directory(other) ==> names_differ(other_path, other.directory),
    ensures
        ({
            let one = add_path_trace(path, replies).outcome;
            let two = add_path_trace(other_path, other).outcome;
            let same_bytes = (disk.files)(path) == (other_disk.files)(other_path);
            let agree = directory_content(disk, path, replies.directory) == directory_content(
                other_disk,
                other_path,
                other.directory,
            );
            &&& adds_file(replies) && adds_file(other) ==> {
                &&& same_bytes ==> one == two
                &&& no_collisions(storage) && one == two ==> same_bytes
            }
            &&& adds_directory(replies) && adds_directory(other) ==> {
                &&& agree ==> one == two
                &&& no_collisions(storage) && one == two ==> agree
            }
        }),
{
    if adds_file(replies) && adds_file(other) {
        added_file_has_the_hash_of_its_content(storage, disk, path, replies);
        added_file_has_the_hash_of_its_content(storage, other_disk, other_path, other);
    }
    if adds_directory(replies) && adds_directory(other) {
        lemma_added_directory(storage, disk, path, replies);
        lemma_added_directory(storage, other_disk, other_path, other);
        content_decides_the_tree(
            storage,
            disk,
            path,
            replies.directory,
            other_disk,
            other_path,
            other.directory,
        );
    }
}

/// A link that is added itself gives the hash of what it leads to: what is said
/// of a followed link is what is said of its target, and the paths play no part.
pub proof fn added_link_has_the_hash_of_its_target<E>(
    storage: Storage,
    disk: Disk,
    link: Seq<u8>,
    of_link: PathReplies<E>,
    target: Seq<u8>,
    of_target: PathReplies<E>,
)
    requires
        add_path_trace(link, of_link).outcome is Ok,
        answered_by(
            storage,
            disk,
            add_path_trace(link, of_link).asked,
            add_path_trace(link, of_link).replies,
        ),
        adds_directory(of_link) ==> names_differ(link, of_link.directory),
        add_path_trace(target, of_target).outcome is Ok,
        answered_by(
            storage,
            disk,
            add_path_trace(target, of_target).asked,
            add_path_trace(target, of_target).replies,
        ),
        adds_directory(of_target) ==> names_differ(target, of_target.directory),
        of_link.metadata == of_target.metadata,
        adds_file(of_link) ==> (disk.files)(link) == (disk.files)(target),
        adds_directory(of_link) ==> directory_content(disk, link, of_link.directory)
            == directory_content(disk, target, of_target.directory),
    ensures
        add_path_trace(link, of_link).outcome == add_path_trace(target, of_target).outcome,
{
    content_decides_the_hash(storage, disk, link, of_link, disk, target, of_target);
}

/// One of the requests asks to store the object.
pub open spec fn asks_to_store(disk: Disk, asked: Seq<RequestView>, object: Object) -> bool {
    exists|i: int| 0 <= i < asked.len() && object_of(disk, #[trigger] asked[i]) == Some(object)
}

proof fn lemma_parts_store(
    disk: Disk,
    first: Seq<RequestView>,
    rest: Seq<RequestView>,
    object: Object,
)
    ensures
        asks_to_store(disk, first + rest, object) <==> asks_to_store(disk, first, object)
            || asks_to_store(disk, rest, object),
{
    let all = first + rest;
    if asks_to_store(disk, all, object) {
        let i = choose|i: int|
            0 <= i < all.len() && object_of(disk, #[trigger] all[i]) == Some(object);
        if i < first.len() {
            assert(first[i] == all[i]);
        } else {
            assert(rest[i - first.len()] == all[i]);
        }
    }
    if asks_to_store(disk, first, object) {
        let i = choose|i: int|
            0 <= i < first.len() && object_of(disk, #[trigger] first[i]) == Some(object);
        assert(all[i] == first[i]);
    }
    if asks_to_store(disk, rest, object) {
        let i = choose|i: int|
            0 <= i < rest.len() && object_of(disk, #[trigger] rest[i]) == Some(object);
        assert(all[first.len() + i] == rest[i]);
    }
}

proof fn lemma_first_stores(
    disk: Disk,
    request: RequestView,
    rest: Seq<RequestView>,
    object: Object,
)
    ensures
        asks_to_store(disk, seq![request] + rest, object) <==> object_of(disk, request) == Some(
            object,
        ) || asks_to_store(disk, rest, object),
{
    lemma_parts_store(disk, seq![request], rest, object);
    let one = seq![request];
    assert(one[0] == request);
}

/// The path of a list asks to store the object.
spec fn listed_stores<E>(
    disk: Disk,
    path: Seq<u8>,
    listed: Result<Child<E>, E>,
    object: Object,
) -> bool {
    listed matches Ok(child) && asks_to_store(disk, child_trace(path, child).asked, object)
}

/// What the walk through a list asks to store: what its paths do, and the tree.
proof fn lemma_listing_stores<E>(
    disk: Disk,
    path: Seq<u8>,
    opening: bool,
    entries: Seq<TreeEntryView>,
    listing: Seq<Result<Child<E>, E>>,
    tree: Result<crate::hash::Hash, E>,
    object: Object,
)
    requires
        listing_trace(path, opening, entries, listing, tree).outcome is Ok,
    ensures
        asks_to_store(
            disk,
            listing_trace(path, opening, entries, listing, tree).asked,
            object,
        ) <==> {
            ||| exists|i: int|
                0 <= i < listing.len() && listed_stores(disk, path, #[trigger] listing[i], object)
            ||| object == Object::Tree(in_order(entries + listed_entries(path, listing)))
        },
        forall|i: int|
            0 <= i < listing.len() ==> (#[trigger] listing[i] matches Ok(child) && child_trace(
                path,
                child,
            ).outcome is Ok),
    decreases listing.len(),
{
    let trace = listing_trace(path, opening, entries, listing, tree);
    let listed = listed_entries(path, listing);
    if listing.len() == 0 {
        assert(entries + listed =~= entries);
        let store = RequestView::StoreTree { entries: in_order(entries) };
        let none = Seq::<RequestView>::empty();
        assert(!asks_to_store(disk, none, object));
        lemma_first_stores(disk, store, none, object);
        lemma_first_stores(disk, trace.asked[0], seq![store] + none, object);
    } else {
        let child = listing[0]->Ok_0;
        let first = child_trace(path, child);
        let found = first.outcome->Ok_0;
        let remaining = listing.drop_first();
        let rest = listing_trace(path, false, with_found(entries, found), remaining, tree);
        lemma_first_stores(disk, trace.asked[0], first.asked + rest.asked, object);
        lemma_parts_store(disk, first.asked, rest.asked, object);
        lemma_listing_stores(
            disk,
            path,
            false,
            with_found(entries, found),
            remaining,
            tree,
            object,
        );
        lemma_child_outcome(path, child);
        lemma_listed_entries_front(path, listing);
        assert(with_found(entries, found) + listed_entries(path, remaining) =~= entries + listed);
        assert forall|i: int| 0 <= i < listing.len() implies (#[trigger] listing[i] matches Ok(c)
            && child_trace(path, c).outcome is Ok) by {
            if i > 0 {
                assert(remaining[i - 1] == listing[i]);
            }
        }
        if exists|i: int|
            0 <= i < listing.len() && listed_stores(disk, path, #[trigger] listing[i], object) {
            let i = choose|i: int|
                0 <= i < listing.len() && listed_stores(disk, path, #[trigger] listing[i], object);
            if i > 0 {
                assert(remaining[i - 1] == listing[i]);
            }
        }
        if exists|i: int|
            0 <= i < remaining.len() && listed_stores(
                disk,
                path,
                #[trigger] remaining[i],
                object,
            ) {
            let i = choose|i: int|
                0 <= i < remaining.len() && listed_stores(
                    disk,
                    path,
                    #[trigger] remaining[i],
                    object,
                );
            assert(listing[i + 1] == remaining[i]);
        }
        if asks_to_store(disk, first.asked, object) {
            assert(listed_stores(disk, path, listing[0], object));
        }
    }
}

/// What a directory asks to store: what the paths of its list do, and its tree.
proof fn lemma_directory_stores<E>(
    disk: Disk,
    path: Seq<u8>,
    directory: Directory<E>,
    object: Object,
)
    requires
        directory_trace(path, directory).outcome is Ok,
    ensures
        asks_to_store(disk, directory_trace(path, directory).asked, object) <==> {
            ||| exists|i: int|
                0 <= i < directory.listing.len() && listed_stores(
                    disk,
                    path,
                    #[trigger] directory.listing[i],
                    object,
                )
            ||| object == Object::Tree(in_order(listed_entries(path, directory.listing)))
        },
        forall|i: int|
            0 <= i < directory.listing.len() ==> (#[trigger] directory.listing[i] matches Ok(child)
                && child_trace(path, child).outcome is Ok),
{
    lemma_listing_stores(
        disk,
        path,
        true,
        seq![],
        directory.listing,
        directory.tree,
        object,
    );
    let listed = listed_entries(path, directory.listing);
    assert(Seq::<TreeEntryView>::empty() + listed =~= listed);
}

/// What a path of a list asks to store.
proof fn lemma_child_stores<E>(disk: Disk, dir: Seq<u8>, child: Child<E>, object: Object)
    requires
        child_trace(dir, child).outcome is Ok,
    ensures
        ({
            let stores = asks_to_store(disk, child_trace(dir, child).asked, object);
            match child_content(disk, dir, child) {
                None => !stores,
                Some(Content::File { bytes, .. }) => stores <==> object == Object::Blob(bytes),
                Some(Content::Link { target }) => stores <==> object == Object::Blob(target),
                Some(Content::Directory { .. }) => {
                    &&& directory_trace(child.path, child.directory).outcome is Ok
                    &&& stores <==> asks_to_store(
                        disk,
                        directory_trace(child.path, child.directory).asked,
                        object,
                    )
                },
            }
        }),
{
    let trace = child_trace(dir, child);
    let none = Seq::<RequestView>::empty();
    assert(!asks_to_store(disk, none, object));
    if !same_path(child.path, dir) {
        let inspect = RequestView::SymlinkMetadata { path: child.path };
        lemma_first_stores(disk, inspect, none, object);
        match child.metadata->Ok_0.file_type {
            FileType::File => {
                let store = RequestView::StoreFile { path: child.path };
                lemma_first_stores(disk, store, none, object);
                lemma_first_stores(disk, inspect, seq![store] + none, object);
            },
            FileType::Symlink => {
                let read = RequestView::ReadLink { path: child.path };
                let store = RequestView::StoreBytes { bytes: child.target->Ok_0 };
                lemma_first_stores(disk, store, none, object);
                lemma_first_stores(disk, read, seq![store] + none, object);
                lemma_first_stores(disk, inspect, seq![read] + (seq![store] + none), object);
            },
            FileType::Directory => {
                let below = directory_trace(child.path, child.directory);
                assert(below.asked + none =~= below.asked);
                lemma_first_stores(disk, inspect, below.asked, object);
            },
            FileType::Other => {},
        }
    }
}

/// What a directory asks to store, another one with the same content asks to
/// store as well.
proof fn lemma_directories_store_alike<E>(
    storage: Storage,
    disk: Disk,
    path: Seq<u8>,
    directory: Directory<E>,
    other_disk: Disk,
    other_path: Seq<u8>,
    other: Directory<E>,
    object: Object,
)
    requires
        directory_trace(path, directory).outcome is Ok,
        directory_kept(storage, disk, path, directory),
        names_differ(path, directory),
        directory_trace(other_path, other).outcome is Ok,
        directory_kept(storage, other_disk, other_path, other),
        names_differ(other_path, other),
        directory_content(disk, path, directory) == directory_content(
            other_disk,
            other_path,
            other,
        ),
        asks_to_store(disk, directory_trace(path, directory).asked, object),
    ensures
        asks_to_store(other_disk, directory_trace(other_path, other).asked, object),
    decreases directory,
{
    let (one, two) = (directory.listing, other.listing);
    lemma_directory_stores(disk, path, directory, object);
    lemma_directory_stores(other_disk, other_path, other, object);
    lemma_directories_agree(storage, disk, path, directory, other_disk, other_path, other);
    if object != Object::Tree(in_order(listed_entries(path, one))) {
        let i = choose|i: int|
            0 <= i < one.len() && listed_stores(disk, path, #[trigger] one[i], object);
        let child = one[i]->Ok_0;
        lemma_kept_at(storage, disk, path, one, i);
        lemma_child_parts(storage, disk, path, child);
        lemma_child_stores(disk, path, child, object);
        let entry = child_entry(path, child)->Some_0;
        assert(gives(path, one, i, entry));
        lemma_content_found(storage, disk, path, one, i, entry);
        let (j, same) = lemma_content_source(storage, other_disk, other_path, two, entry.name);
        lemma_content_found(storage, other_disk, other_path, two, j, same);
        let counterpart = two[j]->Ok_0;
        lemma_child_stores(other_disk, other_path, counterpart, object);
        if child_content(disk, path, child)->Some_0 is Directory {
            lemma_directories_store_alike(
                storage,
                disk,
                child.path,
                child.directory,
                other_disk,
                counterpart.path,
                counterpart.directory,
                object,
            );
        }
        assert(listed_stores(other_disk, other_path, two[j], object));
    }
}

/// Content decides what is stored for a directory: two directories with the
/// same content, wherever they stand and in whatever order they are listed,
/// have the same blobs and trees stored, at every depth.
pub proof fn content_decides_the_objects<E>(
    storage: Storage,
    disk: Disk,
    path: Seq<u8>,
    directory: Directory<E>,
    other_disk: Disk,
    other_path: Seq<u8>,
    other: Directory<E>,
)
    requires
        directory_trace(path, directory).outcome is Ok,
        answered_by(
            storage,
            disk,
            directory_trace(path, directory).asked,
            directory_trace(path, directory).replies,
        ),
        names_differ(path, directory),
        directory_trace(other_path, other).outcome is Ok,
        answered_by(
            storage,
            other_disk,
            directory_trace(other_path, other).asked,
            directory_trace(other_path, other).replies,
        ),
        names_differ(other_path, other),
        directory_content(disk, path, directory) == directory_content(
            other_disk,
            other_path,
            other,
        ),
    ensures
        forall|object: Object|
            #![trigger asks_to_store(disk, directory_trace(path, directory).asked, object)]
            #![trigger asks_to_store(other_disk, directory_trace(other_path, other).asked, object)]
            asks_to_store(disk, directory_trace(path, directory).asked, object) <==> asks_to_store(
                other_disk,
                directory_trace(other_path, other).asked,
                object,
            ),
{
    lemma_directory_kept(storage, disk, path, directory);
    lemma_directory_kept(storage, other_disk, other_path, other);
    assert forall|object: Object|
        #![trigger asks_to_store(disk, directory_trace(path, directory).asked, object)]
        #![trigger asks_to_store(other_disk, directory_trace(other_path, other).asked, object)]
        asks_to_store(disk, directory_trace(path, directory).asked, object) <==> asks_to_store(
            other_disk,
            directory_trace(other_path, other).asked,
            object,
        ) by {
        if asks_to_store(disk, directory_trace(path, directory).asked, object) {
            lemma_directories_store_alike(
                storage,
                disk,
                path,
                directory,
                other_disk,
                other_path,
                other,
                object,
            );
        }
        if asks_to_store(other_disk, directory_trace(other_path, other).asked, object) {
            lemma_directories_store_alike(
                storage,
                other_disk,
                other_path,
                other,
                disk,
                path,
                directory,
                object,
            );
        }
    }
}

/// What the adding of a path asks to store: the file, or what the directory
/// does. Reading back and recording store nothing.
proof fn lemma_path_stores<E>(
    disk: Disk,
    path: Seq<u8>,
    replies: PathReplies<E>,
    object: Object,
)
    requires
        add_path_trace(path, replies).outcome is Ok,
    ensures
        adds_file(replies) || adds_directory(replies),
        asks_to_store(disk, add_path_trace(path, replies).asked, object) <==> if adds_file(
            replies,
        ) {
            object == Object::Blob((disk.files)(path))
        } else {
            asks_to_store(disk, directory_trace(path, replies.directory).asked, object)
        },
{
    let trace = add_path_trace(path, replies);
    let first = seq![RequestView::Exists { path }, RequestView::Metadata { path }];
    let middle = if adds_file(replies) {
        seq![RequestView::StoreFile { path }]
    } else {
        directory_trace(path, replies.directory).asked
    };
    let hash = trace.outcome->Ok_0;
    let last = if adds_file(replies) {
        file_recorded_trace(path, hash, replies.metadata->Ok_0.len, replies).asked
    } else {
        directory_recorded_trace(path, hash, replies).asked
    };
    assert(trace.asked =~= first + (middle + last));
    lemma_parts_store(disk, first, middle + last, object);
    lemma_parts_store(disk, middle, last, object);
    assert(!asks_to_store(disk, first, object));
    assert(!asks_to_store(disk, last, object));
    if adds_file(replies) {
        assert(middle[0] == (RequestView::StoreFile { path }));
    }
}

/// A path that is added again, with nothing changed there, gives the same hash.
/// The second adding asks to store the same objects as the first, and so none
/// that the store does not have, even if directories are listed in another
/// order; and it writes one line of the journal, for the same hash.
pub proof fn adding_again_stores_nothing_new<E>(
    storage: Storage,
    disk: Disk,
    path: Seq<u8>,
    first: PathReplies<E>,
    second: PathReplies<E>,
)
    requires
        add_path_trace(path, first).outcome is Ok,
        answered_by(
            storage,
            disk,
            add_path_trace(path, first).asked,
            add_path_trace(path, first).replies,
        ),
        add_path_trace(path, second).outcome is Ok,
        answered_by(
            storage,
            disk,
            add_path_trace(path, second).asked,
            add_path_trace(path, second).replies,
        ),
        adds_directory(first) <==> adds_directory(second),
        adds_directory(first) ==> {
            &&& names_differ(path, first.directory)
            &&& names_differ(path, second.directory)
            &&& directory_content(disk, path, first.directory) == directory_content(
                disk,
                path,
                second.directory,
            )
        },
    ensures
        ({
            let one = add_path_trace(path, first);
            let two = add_path_trace(path, second);
            &&& one.outcome == two.outcome
            &&& forall|object: Object|
                #![trigger asks_to_store(disk, one.asked, object)]
                #![trigger asks_to_store(disk, two.asked, object)]
                asks_to_store(disk, two.asked, object) <==> asks_to_store(disk, one.asked, object)
            &&& two.asked.last() matches RequestView::AppendJournal { entry }
            &&& entry.operation == "add"@
            &&& entry.hash == one.outcome->Ok_0
            &&& forall|i: int|
                0 <= i < two.asked.len() - 1 ==> !(#[trigger] two.asked[i] is AppendJournal)
        }),
{
    let one = add_path_trace(path, first);
    let two = add_path_trace(path, second);
    lemma_path_stores(disk, path, first, Object::Blob(seq![]));
    lemma_path_stores(disk, path, second, Object::Blob(seq![]));
    content_decides_the_hash(storage, disk, path, first, disk, path, second);
    if adds_directory(first) {
        lemma_added_directory(storage, disk, path, first);
        lemma_added_directory(storage, disk, path, second);
        content_decides_the_objects(
            storage,
            disk,
            path,
            first.directory,
            disk,
            path,
            second.directory,
        );
    }
    assert forall|object: Object|
        #![trigger asks_to_store(disk, one.asked, object)]
        #![trigger asks_to_store(disk, two.asked, object)]
        asks_to_store(disk, two.asked, object) <==> asks_to_store(disk, one.asked, object) by {
        lemma_path_stores(disk, path, first, object);
        lemma_path_stores(disk, path, second, object);
    }
    added_path_is_recorded(path, second);
    nothing_follows_the_record(path, second);
}

} // verus!
