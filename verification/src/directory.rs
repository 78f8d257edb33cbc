//! Adding a directory, with everything below it, as trees.

use vstd::pervasive::unreached;
use vstd::prelude::*;
use vstd::slice::*;

use crate::error::invalid_file_name;
use crate::error::Error;
use crate::error::ErrorView;
use crate::file_modes;
use crate::metadata::file_mode;
use crate::metadata::get_file_mode;
use crate::metadata::symlink_target_bytes;
use crate::metadata::FileType;
use crate::metadata::Metadata;
use crate::order::in_order;
use crate::order::sort_entries;
use crate::path::entry_name;
use crate::path::path_display;
use crate::path::path_entry_name;
use crate::path::paths_equal;
use crate::path::same_path;
use crate::protocol::directory_options;
use crate::protocol::ListOptions;
use crate::protocol::Reply;
use crate::protocol::ReplyView;
use crate::protocol::Request;
use crate::protocol::RequestView;
use crate::protocol::Step;
use crate::protocol::StepView;
use crate::text::lossy_text;
use crate::tree::entries_view;
use crate::tree::tree_entry;
use crate::tree::EntryType;
use crate::tree::TreeEntry;
use crate::tree::TreeEntryView;

verus! {

/// What the walk waits for in one directory.
enum Stage {
    /// The next path of the list.
    Entry,
    /// What stands at a path of the list.
    Inspecting { child: Vec<u8> },
    /// The target of the link `name`.
    ReadingLink { name: String },
    /// The hash of the target of the link `name`.
    StoringLink { name: String },
    /// The hash of the content of the file `name`.
    StoringFile { name: String, mode: u32 },
    /// The hash of the directory `name`, which is walked meanwhile.
    Below { name: String },
    /// The hash of this directory's tree.
    StoringTree,
}

/// A stage with its bytes and texts as sequences.
pub enum StageView {
    Entry,
    Inspecting { child: Seq<u8> },
    ReadingLink { name: Seq<char> },
    StoringLink { name: Seq<char> },
    StoringFile { name: Seq<char>, mode: u32 },
    Below { name: Seq<char> },
    StoringTree,
}

impl View for Stage {
    type V = StageView;

    closed spec fn view(&self) -> StageView {
        match self {
            Stage::Entry => StageView::Entry,
            Stage::Inspecting { child } => StageView::Inspecting { child: child@ },
            Stage::ReadingLink { name } => StageView::ReadingLink { name: name@ },
            Stage::StoringLink { name } => StageView::StoringLink { name: name@ },
            Stage::StoringFile { name, mode } => StageView::StoringFile {
                name: name@,
                mode: *mode,
            },
            Stage::Below { name } => StageView::Below { name: name@ },
            Stage::StoringTree => StageView::StoringTree,
        }
    }
}

/// A directory that is being walked: its path, the entries found so far, and
/// what the walk waits for in it.
struct Frame {
    path: Vec<u8>,
    entries: Vec<TreeEntry>,
    stage: Stage,
}

/// A directory that is being walked, with its parts as sequences.
pub struct FrameView {
    pub path: Seq<u8>,
    pub entries: Seq<TreeEntryView>,
    pub stage: StageView,
}

impl View for Frame {
    type V = FrameView;

    closed spec fn view(&self) -> FrameView {
        FrameView { path: self.path@, entries: entries_view(self.entries@), stage: self.stage@ }
    }
}

spec fn frames_view(frames: Seq<Frame>) -> Seq<FrameView> {
    frames.map_values(|frame: Frame| frame@)
}

/// All directories but the innermost wait for one below them.
pub open spec fn nested(frames: Seq<FrameView>) -> bool {
    &&& forall|i: int| 0 <= i < frames.len() - 1 ==> (#[trigger] frames[i]).stage is Below
    &&& frames.len() > 0 ==> !(frames.last().stage is Below)
}

/// A directory of which nothing has been listed yet.
pub open spec fn fresh_frame(path: Seq<u8>) -> FrameView {
    FrameView { path, entries: seq![], stage: StageView::Entry }
}

/// The request that opens a directory.
pub open spec fn open_request(path: Seq<u8>) -> RequestView {
    RequestView::OpenDirectory { path, options: directory_options() }
}

/// The walk, in which `frames` are under way, can take `reply`.
pub open spec fn walk_accepts<E>(frames: Seq<FrameView>, reply: ReplyView<E>) -> bool {
    frames.len() > 0 && match frames.last().stage {
        StageView::Entry => reply is Entry || reply is NoMoreEntries || reply is Failed,
        StageView::Inspecting { .. } => reply is Metadata || reply is Failed,
        StageView::ReadingLink { .. } => reply is LinkTarget || reply is Failed,
        StageView::StoringLink { .. } => reply is Stored || reply is Failed,
        StageView::StoringFile { .. } => reply is Stored || reply is Failed,
        StageView::Below { .. } => false,
        StageView::StoringTree => reply is Stored || reply is Failed,
    }
}

/// The walk is over, without a tree.
pub open spec fn walk_fails<E>(error: ErrorView<E>) -> (Seq<FrameView>, StepView<E>) {
    (seq![], StepView::Done(Err(error)))
}

/// The innermost directory waits for something else.
pub open spec fn waiting(frames: Seq<FrameView>, stage: StageView) -> Seq<FrameView> {
    let frame = frames.last();
    frames.drop_last().push(FrameView { path: frame.path, entries: frame.entries, stage })
}

/// The innermost directory gets one more entry, unless the name is too long,
/// and its list goes on.
pub open spec fn entry_added<E>(
    frames: Seq<FrameView>,
    entry_type: EntryType,
    mode: u32,
    hash: crate::hash::Hash,
    name: Seq<char>,
) -> (Seq<FrameView>, StepView<E>) {
    let frame = frames.last();
    match tree_entry::<E>(entry_type, mode, hash, name) {
        Err(error) => walk_fails(error),
        Ok(entry) => (
            frames.drop_last().push(
                FrameView {
                    path: frame.path,
                    entries: frame.entries.push(entry),
                    stage: StageView::Entry,
                },
            ),
            StepView::Ask(RequestView::NextEntry),
        ),
    }
}

/// The innermost directory has become the tree `hash`. `around` are the
/// directories around it: the innermost of them gets an entry for it, or, if
/// there is none, the walk is over.
pub open spec fn directory_stored<E>(around: Seq<FrameView>, hash: crate::hash::Hash) -> (
    Seq<FrameView>,
    StepView<E>,
) {
    if around.len() == 0 {
        (seq![], StepView::Done(Ok(hash)))
    } else {
        match around.last().stage {
            StageView::Below { name } => entry_added(
                around,
                EntryType::Tree,
                file_modes::DIRECTORY,
                hash,
                name,
            ),
            _ => (seq![], StepView::Done(Ok(hash))),
        }
    }
}

/// How the walk goes on when it has learned what stands at `child`.
pub open spec fn child_inspected<E>(
    frames: Seq<FrameView>,
    child: Seq<u8>,
    metadata: Metadata,
) -> (Seq<FrameView>, StepView<E>) {
    match entry_name(child) {
        None => walk_fails(invalid_file_name::<E>(lossy_text(child))),
        Some(name) => match metadata.file_type {
            FileType::Symlink => (
                waiting(frames, StageView::ReadingLink { name }),
                StepView::Ask(RequestView::ReadLink { path: child }),
            ),
            FileType::File => (
                waiting(frames, StageView::StoringFile { name, mode: file_mode(metadata) }),
                StepView::Ask(RequestView::StoreFile { path: child }),
            ),
            FileType::Directory => (
                waiting(frames, StageView::Below { name }).push(fresh_frame(child)),
                StepView::Ask(open_request(child)),
            ),
            FileType::Other => (
                waiting(frames, StageView::Entry),
                StepView::Ask(RequestView::NextEntry),
            ),
        },
    }
}

/// How the walk, in which `frames` are under way, goes on after a reply that it
/// can take.
pub open spec fn walk_step<E>(frames: Seq<FrameView>, reply: ReplyView<E>) -> (
    Seq<FrameView>,
    StepView<E>,
) {
    let frame = frames.last();
    match (frame.stage, reply) {
        (_, ReplyView::Failed(e)) => walk_fails(ErrorView::Outside(e)),
        (StageView::Entry, ReplyView::Entry(child)) => if same_path(child, frame.path) {
            (frames, StepView::Ask(RequestView::NextEntry))
        } else {
            (
                waiting(frames, StageView::Inspecting { child }),
                StepView::Ask(RequestView::SymlinkMetadata { path: child }),
            )
        },
        (StageView::Entry, ReplyView::NoMoreEntries) => (
            frames.drop_last().push(
                FrameView { path: frame.path, entries: seq![], stage: StageView::StoringTree },
            ),
            StepView::Ask(RequestView::StoreTree { entries: in_order(frame.entries) }),
        ),
        (StageView::Inspecting { child }, ReplyView::Metadata(metadata)) => child_inspected(
            frames,
            child,
            metadata,
        ),
        (StageView::ReadingLink { name }, ReplyView::LinkTarget(target)) => (
            waiting(frames, StageView::StoringLink { name }),
            StepView::Ask(RequestView::StoreBytes { bytes: target }),
        ),
        (StageView::StoringLink { name }, ReplyView::Stored(hash)) => entry_added(
            frames,
            EntryType::Symlink,
            file_modes::SYMLINK,
            hash,
            name,
        ),
        (StageView::StoringFile { name, mode }, ReplyView::Stored(hash)) => entry_added(
            frames,
            EntryType::Blob,
            mode,
            hash,
            name,
        ),
        (StageView::StoringTree, ReplyView::Stored(hash)) => directory_stored(
            frames.drop_last(),
            hash,
        ),
        _ => (frames, StepView::Ask(RequestView::NextEntry)),
    }
}

/// A walk through a directory and everything below it. Every directory is
/// listed and stored as a tree once all its entries are stored.
pub struct DirectoryWalk {
    frames: Vec<Frame>,
}

impl View for DirectoryWalk {
    type V = Seq<FrameView>;

    closed spec fn view(&self) -> Seq<FrameView> {
        frames_view(self.frames@)
    }
}

impl DirectoryWalk {
    #[verifier::type_invariant]
    spec fn well_formed(self) -> bool {
        nested(self@)
    }

    /// Starts to walk the directory at `path`.
    pub(crate) fn start(path: Vec<u8>) -> (result: (DirectoryWalk, Request))
        ensures
            result.0@ == seq![fresh_frame(path@)],
            result.1@ == open_request(path@),
    {
        let request = open_directory(slice_to_vec(path.as_slice()));
        let frame = Frame { path, entries: Vec::new(), stage: Stage::Entry };
        assert(frame@.entries =~= seq![]);
        let mut frames: Vec<Frame> = Vec::new();
        frames.push(frame);
        assert(frames_view(frames@) =~= seq![frame@]);
        (DirectoryWalk { frames }, request)
    }

    /// Whether the walk can take the reply.
    pub fn accepts<E>(&self, reply: &Reply<E>) -> (accepted: bool)
        ensures
            accepted == walk_accepts(self@, reply@),
    {
        if self.frames.len() == 0 {
            return false;
        }
        let last = &self.frames[self.frames.len() - 1];
        assert(self@.last() == last@);
        match (&last.stage, reply) {
            (Stage::Below { .. }, _) => false,
            (_, Reply::Failed(_)) => true,
            (Stage::Entry, Reply::Entry(_)) => true,
            (Stage::Entry, Reply::NoMoreEntries) => true,
            (Stage::Inspecting { .. }, Reply::Metadata(_)) => true,
            (Stage::ReadingLink { .. }, Reply::LinkTarget(_)) => true,
            (Stage::StoringLink { .. }, Reply::Stored(_)) => true,
            (Stage::StoringFile { .. }, Reply::Stored(_)) => true,
            (Stage::StoringTree, Reply::Stored(_)) => true,
            _ => false,
        }
    }

    /// Takes the reply to the last request and goes on.
    pub fn step<E>(&mut self, reply: Reply<E>) -> (step: Step<E>)
        requires
            walk_accepts(old(self)@, reply@),
        ensures
            (final(self)@, step@) == walk_step(old(self)@, reply@),
            nested(final(self)@),
    {
        proof {
            use_type_invariant(&*self);
        }
        let mut frames: Vec<Frame> = Vec::new();
        assert(frames_view(frames@) =~= seq![]);
        std::mem::swap(&mut frames, &mut self.frames);
        let step = advance(&mut frames, reply);
        self.frames = frames;
        step
    }
}

fn open_directory(path: Vec<u8>) -> (request: Request)
    ensures
        request@ == open_request(path@),
        request@ == (RequestView::OpenDirectory {
            path: path@,
            options: ListOptions { max_depth: Some(1), hidden: false, git_ignore: true },
        }),
{
    Request::OpenDirectory {
        path,
        options: ListOptions { max_depth: Some(1), hidden: false, git_ignore: true },
    }
}

/// Puts a directory on top of the others.
fn resume(frames: &mut Vec<Frame>, path: Vec<u8>, entries: Vec<TreeEntry>, stage: Stage)
    ensures
        frames_view(final(frames)@) == frames_view(old(frames)@).push(
            FrameView { path: path@, entries: entries_view(entries@), stage: stage@ },
        ),
{
    let ghost before = frames_view(frames@);
    let frame = Frame { path, entries, stage };
    frames.push(frame);
    assert(frames_view(frames@) =~= before.push(frame@));
}

/// Puts a directory back, with one more entry, on top of the others.
fn resume_with<E>(
    frames: &mut Vec<Frame>,
    path: Vec<u8>,
    entries: Vec<TreeEntry>,
    entry_type: EntryType,
    mode: u32,
    hash: crate::hash::Hash,
    name: String,
) -> (step: Step<E>)
    requires
        forall|i: int|
            0 <= i < old(frames)@.len() ==> (#[trigger] frames_view(
                old(frames)@,
            )[i]).stage is Below,
    ensures
        nested(frames_view(final(frames)@)),
        forall|stage: StageView|
            (frames_view(final(frames)@), step@) == entry_added::<E>(
                #[trigger] frames_view(old(frames)@).push(
                    FrameView { path: path@, entries: entries_view(entries@), stage },
                ),
                entry_type,
                mode,
                hash,
                name@,
            ),
{
    let ghost base = frames_view(frames@);
    let ghost found = entries_view(entries@);
    assert forall|stage: StageView|
        (#[trigger] base.push(
            FrameView { path: path@, entries: found, stage },
        )).drop_last() == base by {
        assert(base.push(FrameView { path: path@, entries: found, stage }).drop_last() =~= base);
    }
    match TreeEntry::new(entry_type, mode, hash, name) {
        Err(error) => {
            frames.clear();
            assert(frames_view(frames@) =~= seq![]);
            Step::Done(Err(error))
        },
        Ok(entry) => {
            let mut entries = entries;
            entries.push(entry);
            assert(entries_view(entries@) =~= found.push(entry@));
            resume(frames, path, entries, Stage::Entry);
            Step::Ask(Request::NextEntry)
        },
    }
}

/// Takes a reply in the innermost of `frames`.
fn advance<E>(frames: &mut Vec<Frame>, reply: Reply<E>) -> (step: Step<E>)
    requires
        nested(frames_view(old(frames)@)),
        walk_accepts(frames_view(old(frames)@), reply@),
    ensures
        nested(frames_view(final(frames)@)),
        (frames_view(final(frames)@), step@) == walk_step(frames_view(old(frames)@), reply@),
{
    let ghost all = frames_view(frames@);
    let top = frames.pop();
    let Frame { path, entries, stage } = match top {
        Some(frame) => frame,
        None => unreached(),
    };
    let ghost base = frames_view(frames@);
    let ghost frame = FrameView { path: path@, entries: entries_view(entries@), stage: stage@ };
    assert(all =~= base.push(frame));
    assert(all.drop_last() =~= base);
    match (stage, reply) {
        (_, Reply::Failed(e)) => {
            frames.clear();
            assert(frames_view(frames@) =~= seq![]);
            Step::Done(Err(Error::Outside(e)))
        },
        (Stage::Entry, Reply::Entry(child)) => {
            if paths_equal(child.as_slice(), path.as_slice()) {
                resume(frames, path, entries, Stage::Entry);
                Step::Ask(Request::NextEntry)
            } else {
                let request = Request::SymlinkMetadata { path: slice_to_vec(child.as_slice()) };
                resume(frames, path, entries, Stage::Inspecting { child });
                Step::Ask(request)
            }
        },
        (Stage::Entry, Reply::NoMoreEntries) => {
            let sorted = sort_entries(entries);
            let none: Vec<TreeEntry> = Vec::new();
            assert(entries_view(none@) =~= seq![]);
            resume(frames, path, none, Stage::StoringTree);
            Step::Ask(Request::StoreTree { entries: sorted })
        },
        (Stage::Inspecting { child }, Reply::Metadata(metadata)) => {
            let name = match path_entry_name(child.as_slice()) {
                Some(name) => name,
                None => {
                    frames.clear();
                    assert(frames_view(frames@) =~= seq![]);
                    let shown = path_display(child.as_slice());
                    return Step::Done(Err(Error::invalid_file_name(shown.as_str())));
                },
            };
            match metadata.file_type {
                FileType::Symlink => {
                    resume(frames, path, entries, Stage::ReadingLink { name });
                    Step::Ask(add_symlink(child))
                },
                FileType::File => {
                    let mode = get_file_mode(&metadata);
                    resume(frames, path, entries, Stage::StoringFile { name, mode });
                    Step::Ask(add_file(child))
                },
                FileType::Directory => {
                    let request = open_directory(slice_to_vec(child.as_slice()));
                    let none: Vec<TreeEntry> = Vec::new();
                    assert(entries_view(none@) =~= seq![]);
                    resume(frames, path, entries, Stage::Below { name });
                    resume(frames, child, none, Stage::Entry);
                    Step::Ask(request)
                },
                FileType::Other => {
                    resume(frames, path, entries, Stage::Entry);
                    Step::Ask(Request::NextEntry)
                },
            }
        },
        (Stage::ReadingLink { name }, Reply::LinkTarget(target)) => {
            let bytes = symlink_target_bytes(target.as_slice());
            resume(frames, path, entries, Stage::StoringLink { name });
            Step::Ask(Request::StoreBytes { bytes })
        },
        (Stage::StoringLink { name }, Reply::Stored(hash)) => {
            resume_with(
                frames,
                path,
                entries,
                EntryType::Symlink,
                file_modes::SYMLINK,
                hash,
                name,
            )
        },
        (Stage::StoringFile { name, mode }, Reply::Stored(hash)) => {
            resume_with(frames, path, entries, EntryType::Blob, mode, hash, name)
        },
        (Stage::StoringTree, Reply::Stored(hash)) => {
            let around = frames.pop();
            match around {
                None => Step::Done(Ok(hash)),
                Some(Frame { path, entries, stage }) => {
                    let ghost outer = frames_view(frames@);
                    let ghost parent = FrameView {
                        path: path@,
                        entries: entries_view(entries@),
                        stage: stage@,
                    };
                    assert(base =~= outer.push(parent));
                    assert(base.last().stage is Below) by {
                        assert(all[base.len() - 1].stage is Below);
                    }
                    assert forall|i: int| 0 <= i < outer.len() implies (
                    #[trigger] outer[i]).stage is Below by {
                        assert(outer[i] == all[i]);
                    }
                    match stage {
                        Stage::Below { name } => resume_with(
                            frames,
                            path,
                            entries,
                            EntryType::Tree,
                            file_modes::DIRECTORY,
                            hash,
                            name,
                        ),
                        _ => unreached(),
                    }
                },
            }
        },
        _ => unreached(),
    }
}

/// What is asked in order to store a file: its content as a blob.
pub fn add_file(path: Vec<u8>) -> (request: Request)
    ensures
        request@ == (RequestView::StoreFile { path: path@ }),
{
    Request::StoreFile { path }
}

/// What is asked first in order to store a symbolic link: where it leads.
pub fn add_symlink(path: Vec<u8>) -> (request: Request)
    ensures
        request@ == (RequestView::ReadLink { path: path@ }),
{
    Request::ReadLink { path }
}

} // verus!
