//! Adds files, directories and standard input of a world in memory.

use casq_core::directory::add_file;
use casq_core::directory::add_symlink;
use casq_core::directory::DirectoryWalk;
use casq_core::error::Error;
use casq_core::file_modes;
use casq_core::journal::JournalEntry;
use casq_core::metadata::FileType;
use casq_core::metadata::Metadata;
use casq_core::protocol::ListOptions;
use casq_core::protocol::Reply;
use casq_core::protocol::Request;
use casq_core::protocol::Step;
use casq_core::tree::EntryType;
use casq_core::tree::TreeEntry;
use casq_core::walk::AddPath;
use casq_core::walk::AddStdin;
use casq_core::walk::Store;

/// What stands at a path of the world.
enum Node {
    File(Vec<u8>, u32),
    Dir(Vec<(Vec<u8>, Node)>),
    Link(Vec<u8>),
    Socket,
}

fn file(content: &[u8]) -> Node {
    Node::File(content.to_vec(), 0o644)
}

fn link(target: &str) -> Node {
    Node::Link(target.as_bytes().to_vec())
}

fn dir(entries: Vec<(&str, Node)>) -> Node {
    Node::Dir(entries.into_iter().map(|(name, node)| (name.as_bytes().to_vec(), node)).collect())
}

/// A content hash for the store in memory.
fn hash_bytes(content: &[u8]) -> casq_core::hash::Hash {
    let mut bytes = [0u8; 32];
    for lane in 0..4 {
        let mut state: u64 = 0xcbf2_9ce4_8422_2325 ^ (lane as u64);
        for byte in content {
            state = (state ^ (*byte as u64)).wrapping_mul(0x0000_0100_0000_01b3);
        }
        bytes[lane * 8..lane * 8 + 8].copy_from_slice(&state.to_be_bytes());
    }
    casq_core::hash::Hash { bytes }
}

fn tree_bytes(entries: &Vec<TreeEntry>) -> Vec<u8> {
    let mut bytes = b"tree".to_vec();
    for entry in entries {
        bytes.push(entry.entry_type.code());
        bytes.extend(entry.mode.to_be_bytes());
        bytes.extend(entry.hash.bytes);
        bytes.push(entry.name.len() as u8);
        bytes.extend(entry.name.as_bytes());
    }
    bytes
}

/// Files, a store and a journal in memory.
struct World {
    root: Node,
    input: Vec<u8>,
    blobs: Vec<(casq_core::hash::Hash, Vec<u8>)>,
    trees: Vec<(casq_core::hash::Hash, Vec<TreeEntry>)>,
    journal: Vec<JournalEntry>,
    lists: Vec<Vec<Vec<u8>>>,
    asked: Vec<Request>,
    fail_at: Option<usize>,
}

impl World {
    fn new(root: Node) -> World {
        World {
            root,
            input: Vec::new(),
            blobs: Vec::new(),
            trees: Vec::new(),
            journal: Vec::new(),
            lists: Vec::new(),
            asked: Vec::new(),
            fail_at: None,
        }
    }

    fn with_input(input: &[u8]) -> World {
        let mut world = World::new(dir(vec![]));
        world.input = input.to_vec();
        world
    }

    /// The node at a path; a link there is followed if `follow`, links on the
    /// way always are.
    fn find(&self, path: &[u8], follow: bool) -> Option<&Node> {
        let mut node = &self.root;
        for name in path.split(|byte| *byte == b'/').filter(|name| !name.is_empty()) {
            match self.followed(node)? {
                Node::Dir(entries) => {
                    node = &entries.iter().find(|(entry, _)| entry == name)?.1;
                }
                _ => return None,
            }
        }
        if follow {
            self.followed(node)
        } else {
            Some(node)
        }
    }

    /// What a link leads to, from the root of the world.
    fn followed<'a>(&'a self, node: &'a Node) -> Option<&'a Node> {
        match node {
            Node::Link(target) => self.find(target, true),
            _ => Some(node),
        }
    }

    fn metadata(&self, path: &[u8], follow: bool) -> Reply<String> {
        match self.find(path, follow) {
            None => Reply::Failed(format!("no such file: {}", String::from_utf8_lossy(path))),
            Some(Node::File(content, mode)) => Reply::Metadata(Metadata {
                file_type: FileType::File,
                mode: *mode,
                len: content.len() as u64,
            }),
            Some(Node::Dir(_)) => Reply::Metadata(Metadata {
                file_type: FileType::Directory,
                mode: 0o755,
                len: 0,
            }),
            Some(Node::Link(target)) => Reply::Metadata(Metadata {
                file_type: FileType::Symlink,
                mode: 0o777,
                len: target.len() as u64,
            }),
            Some(Node::Socket) => Reply::Metadata(Metadata {
                file_type: FileType::Other,
                mode: 0o755,
                len: 0,
            }),
        }
    }

    fn put_blob(&mut self, content: Vec<u8>) -> Reply<String> {
        let hash = hash_bytes(&content);
        if !self.blobs.iter().any(|(known, _)| *known == hash) {
            self.blobs.push((hash, content));
        }
        Reply::Stored(hash)
    }

    fn next_entry(&mut self) -> Reply<String> {
        let list = self.lists.last_mut().unwrap();
        if list.is_empty() {
            Reply::NoMoreEntries
        } else {
            Reply::Entry(list.remove(0))
        }
    }

    /// Does what is asked.
    fn perform(&mut self, request: Request) -> Reply<String> {
        if self.fail_at == Some(self.asked.len()) {
            self.asked.push(request);
            return Reply::Failed("disk on fire".to_string());
        }
        let reply = match &request {
            Request::Exists { path } => Reply::Exists(self.find(path, true).is_some()),
            Request::Metadata { path } => self.metadata(path, true),
            Request::SymlinkMetadata { path } => self.metadata(path, false),
            Request::OpenDirectory { path, options } => {
                assert_eq!(
                    *options,
                    ListOptions { max_depth: Some(1), hidden: false, git_ignore: true }
                );
                let mut list = vec![path.clone()];
                match self.find(path, true) {
                    Some(Node::Dir(entries)) => {
                        for (name, _) in entries {
                            let mut child = path.clone();
                            child.push(b'/');
                            child.extend(name);
                            list.push(child);
                        }
                    }
                    _ => panic!("not a directory"),
                }
                self.lists.push(list);
                self.next_entry()
            }
            Request::NextEntry => self.next_entry(),
            Request::ReadLink { path } => match self.find(path, false) {
                Some(Node::Link(target)) => Reply::LinkTarget(target.clone()),
                _ => panic!("not a link"),
            },
            Request::StoreFile { path } => match self.find(path, true) {
                Some(Node::File(content, _)) => {
                    let content = content.clone();
                    self.put_blob(content)
                }
                _ => panic!("not a file"),
            },
            Request::StoreBytes { bytes } => self.put_blob(bytes.clone()),
            Request::StoreInput => {
                let input = self.input.clone();
                self.put_blob(input)
            }
            Request::StoreTree { entries } => {
                self.lists.pop();
                let hash = hash_bytes(&tree_bytes(entries));
                self.trees.push((hash, entries.clone()));
                Reply::Stored(hash)
            }
            Request::ReadTree { hash } => Reply::Tree(self.get_tree(hash)),
            Request::ObjectSize { hash } => Reply::Size(self.object_size(hash)),
            Request::Clock => Reply::Seconds(1_700_000_000),
            Request::AppendJournal { entry } => {
                self.journal.push(JournalEntry::new(
                    entry.timestamp,
                    entry.operation.clone(),
                    entry.hash,
                    entry.path.clone(),
                    entry.metadata.clone(),
                ));
                Reply::Appended
            }
        };
        self.asked.push(request);
        reply
    }

    fn get_tree(&self, hash: &casq_core::hash::Hash) -> Vec<TreeEntry> {
        self.trees.iter().find(|(known, _)| known == hash).unwrap().1.clone()
    }

    fn get_blob(&self, hash: &casq_core::hash::Hash) -> Vec<u8> {
        self.blobs.iter().find(|(known, _)| known == hash).unwrap().1.clone()
    }

    /// Objects have a header of sixteen bytes.
    fn object_size(&self, hash: &casq_core::hash::Hash) -> u64 {
        let blob = self.blobs.iter().find(|(known, _)| known == hash);
        let len = match blob {
            Some((_, content)) => content.len(),
            None => tree_bytes(&self.get_tree(hash)).len(),
        };
        len as u64 + 16
    }

    /// The node that was stored as `hash`.
    fn materialize(&self, hash: &casq_core::hash::Hash, entry_type: EntryType, mode: u32) -> Node {
        match entry_type {
            EntryType::Blob => Node::File(self.get_blob(hash), mode),
            EntryType::Symlink => Node::Link(self.get_blob(hash)),
            EntryType::Tree => Node::Dir(
                self.get_tree(hash)
                    .iter()
                    .map(|entry| {
                        let node = self.materialize(&entry.hash, entry.entry_type, entry.mode);
                        (entry.name.as_bytes().to_vec(), node)
                    })
                    .collect(),
            ),
        }
    }

    fn add_path(&mut self, path: &str) -> Result<casq_core::hash::Hash, Error<String>> {
        self.add_path_bytes(path.as_bytes())
    }

    fn add_path_bytes(&mut self, path: &[u8]) -> Result<casq_core::hash::Hash, Error<String>> {
        let (mut operation, mut request): (AddPath, Request) = Store {}.add_path(path.to_vec());
        loop {
            let reply = self.perform(request);
            assert!(operation.accepts(&reply));
            match operation.step(reply) {
                Step::Ask(next) => request = next,
                Step::Done(result) => {
                    assert!(!operation.accepts(&Reply::<String>::Appended));
                    return result;
                }
            }
        }
    }

    fn add_stdin(&mut self) -> Result<casq_core::hash::Hash, Error<String>> {
        let (mut operation, mut request): (AddStdin, Request) = Store {}.add_stdin();
        loop {
            let reply = self.perform(request);
            assert!(operation.accepts(&reply));
            match operation.step(reply) {
                Step::Ask(next) => request = next,
                Step::Done(result) => return result,
            }
        }
    }

    fn add_directory(&mut self, path: &str) -> Result<casq_core::hash::Hash, Error<String>> {
        let (mut walk, mut request): (DirectoryWalk, Request) =
            Store {}.add_directory(path.as_bytes().to_vec());
        loop {
            let reply = self.perform(request);
            assert!(walk.accepts(&reply));
            match walk.step(reply) {
                Step::Ask(next) => request = next,
                Step::Done(result) => return result,
            }
        }
    }
}

#[test]
fn test_add_single_file() {
    let mut world = World::new(dir(vec![("test.txt", file(b"hello world"))]));
    let hash = world.add_path("/test.txt").unwrap();
    let expected = hash_bytes(b"hello world");
    assert_eq!(hash, expected);
}

#[test]
fn test_add_empty_file() {
    let mut world = World::new(dir(vec![("empty.txt", file(b""))]));
    let hash = world.add_path("/empty.txt").unwrap();
    let expected = hash_bytes(b"");
    assert_eq!(hash, expected);
}

#[test]
fn test_add_empty_directory() {
    let mut world = World::new(dir(vec![("empty_dir", dir(vec![]))]));
    let hash = world.add_path("/empty_dir").unwrap();
    let tree = world.get_tree(&hash);
    assert_eq!(tree.len(), 0);
}

#[test]
fn test_add_directory_with_files() {
    let mut world = World::new(dir(vec![(
        "test_dir",
        dir(vec![("file2.txt", file(b"content2")), ("file1.txt", file(b"content1"))]),
    )]));
    let hash = world.add_path("/test_dir").unwrap();
    let tree = world.get_tree(&hash);

    assert_eq!(tree.len(), 2);
    assert_eq!(tree[0].name, "file1.txt");
    assert_eq!(tree[1].name, "file2.txt");
}

#[test]
fn test_add_nested_directories() {
    let mut world = World::new(dir(vec![(
        "parent",
        dir(vec![
            ("root_file.txt", file(b"root")),
            ("subdir", dir(vec![("sub_file.txt", file(b"sub"))])),
        ]),
    )]));
    let hash = world.add_path("/parent").unwrap();
    let tree = world.get_tree(&hash);

    assert_eq!(tree.len(), 2);

    let subdir_entry = tree.iter().find(|e| e.name == "subdir").unwrap();
    assert_eq!(subdir_entry.entry_type, EntryType::Tree);
    assert_eq!(subdir_entry.mode, file_modes::DIRECTORY);

    let subtree = world.get_tree(&subdir_entry.hash);
    assert_eq!(subtree.len(), 1);
    assert_eq!(subtree[0].name, "sub_file.txt");
}

#[test]
fn test_add_nonexistent_path() {
    let mut world = World::new(dir(vec![]));
    let result = world.add_path("/nonexistent");
    assert!(result.is_err());
    assert_eq!(
        result,
        Err(Error::NotFound { message: "Path does not exist: /nonexistent".to_string() })
    );
    assert!(world.journal.is_empty());
    assert_eq!(world.asked.len(), 1);
}

#[test]
fn test_executable_file_mode() {
    let script = Node::File(b"#!/bin/bash\necho hello".to_vec(), 0o755);
    let mut world = World::new(dir(vec![("test_dir", dir(vec![("script.sh", script)]))]));
    let hash = world.add_path("/test_dir").unwrap();
    let tree = world.get_tree(&hash);

    assert_eq!(tree.len(), 1);
    assert_eq!(tree[0].mode, file_modes::EXECUTABLE);
}

#[test]
fn test_add_stdin_basic() {
    let input = b"hello from stdin";
    let mut world = World::with_input(input);
    let hash = world.add_stdin().unwrap();
    let expected = hash_bytes(input);
    assert_eq!(hash, expected);

    let blob = world.get_blob(&hash);
    assert_eq!(blob, input);
}

#[test]
fn test_add_stdin_empty() {
    let input = b"";
    let mut world = World::with_input(input);
    let hash = world.add_stdin().unwrap();
    let expected = hash_bytes(input);
    assert_eq!(hash, expected);

    let blob = world.get_blob(&hash);
    assert_eq!(blob.len(), 0);
}

#[test]
fn test_add_stdin_very_large_triggers_chunking() {
    let input = vec![b'B'; 2 * 1024 * 1024];
    let mut world = World::with_input(&input);
    let hash = world.add_stdin().unwrap();
    let expected = hash_bytes(&input);
    assert_eq!(hash, expected);

    let blob = world.get_blob(&hash);
    assert_eq!(blob.len(), input.len());
    assert_eq!(blob, input);
}

#[test]
fn test_add_directory_with_symlink_to_file() {
    let mut world = World::new(dir(vec![(
        "d",
        dir(vec![("real.txt", file(b"hello")), ("link.txt", link("real.txt"))]),
    )]));
    let hash = world.add_path("/d").unwrap();
    let tree = world.get_tree(&hash);
    assert_eq!(tree.len(), 2);

    let link = tree.iter().find(|e| e.name == "link.txt").unwrap();
    assert_eq!(link.entry_type, EntryType::Symlink);
    assert_eq!(link.mode, file_modes::SYMLINK);

    let target_bytes = world.get_blob(&link.hash);
    assert_eq!(target_bytes, b"real.txt");
}

#[test]
fn test_add_directory_with_broken_symlink() {
    let mut world = World::new(dir(vec![(
        "d",
        dir(vec![("dangling", link("/no/such/path/anywhere"))]),
    )]));
    let hash = world.add_path("/d").unwrap();
    let tree = world.get_tree(&hash);
    assert_eq!(tree.len(), 1);
    assert_eq!(tree[0].entry_type, EntryType::Symlink);

    let target = world.get_blob(&tree[0].hash);
    assert_eq!(target, b"/no/such/path/anywhere");
}

#[test]
fn test_symlink_roundtrip_via_materialize() {
    let mut world = World::new(dir(vec![(
        "src",
        dir(vec![
            ("payload", file(b"the goods")),
            ("alias", link("payload")),
            ("orphan", link("/absolute/dangling")),
        ]),
    )]));
    let hash = world.add_path("/src").unwrap();
    let restored = World::new(world.materialize(&hash, EntryType::Tree, file_modes::DIRECTORY));

    match restored.find(b"/alias", false) {
        Some(Node::Link(target)) => assert_eq!(target, b"payload"),
        _ => panic!("alias is a link"),
    }
    match restored.find(b"/alias", true) {
        Some(Node::File(content, _)) => assert_eq!(content, b"the goods"),
        _ => panic!("alias leads to the file"),
    }
    match restored.find(b"/orphan", false) {
        Some(Node::Link(target)) => assert_eq!(target, b"/absolute/dangling"),
        _ => panic!("orphan is a link"),
    }
    assert!(restored.find(b"/orphan", true).is_none());
}

#[test]
fn test_symlink_targets_dedup_via_cas() {
    let mut world = World::new(dir(vec![(
        "d",
        dir(vec![("a", link("same/target")), ("b", link("same/target"))]),
    )]));
    let hash = world.add_path("/d").unwrap();
    let tree = world.get_tree(&hash);
    assert_eq!(tree.len(), 2);
    assert_eq!(tree[0].hash, tree[1].hash, "identical targets must dedup");
    assert_eq!(world.blobs.len(), 1);
}

#[test]
fn test_add_stdin_journal_entry() {
    let input = b"test content";
    let mut world = World::with_input(input);
    let hash = world.add_stdin().unwrap();

    let entries = &world.journal;
    assert_eq!(entries.len(), 1);

    let entry = &entries[0];
    assert_eq!(entry.operation, "add");
    assert_eq!(entry.hash, hash);
    assert_eq!(entry.path, "(stdin)");
    assert!(entry.metadata.contains("entries=1"));
    assert!(entry.metadata.contains("size="));
    assert_eq!(entry.metadata, "entries=1,size=28");
    assert_eq!(entry.timestamp, 1_700_000_000);
}

#[test]
fn file_is_journaled_with_its_length() {
    let mut world = World::new(dir(vec![("test.txt", file(b"hello world"))]));
    let hash = world.add_path("/test.txt").unwrap();
    assert_eq!(world.journal.len(), 1);
    let entry = &world.journal[0];
    assert_eq!(entry.operation, "add");
    assert_eq!(entry.hash, hash);
    assert_eq!(entry.path, "/test.txt");
    assert_eq!(entry.metadata, "entries=1,size=11");
    assert_eq!(
        world.asked[..4],
        [
            Request::Exists { path: b"/test.txt".to_vec() },
            Request::Metadata { path: b"/test.txt".to_vec() },
            Request::StoreFile { path: b"/test.txt".to_vec() },
            Request::Clock,
        ]
    );
    assert_eq!(world.asked.len(), 5);
}

#[test]
fn directory_is_journaled_with_its_entries_and_object_size() {
    let mut world = World::new(dir(vec![(
        "d",
        dir(vec![("b", file(b"1")), ("a", link("x")), ("s", Node::Socket)]),
    )]));
    let hash = world.add_path("/d").unwrap();
    assert_eq!(world.journal.len(), 1);
    let size = world.object_size(&hash);
    assert_eq!(world.journal[0].metadata, format!("entries=2,size={}", size));
    assert_eq!(size, 4 + 2 * (1 + 4 + 32 + 1 + 1) + 16);
}

#[test]
fn link_at_the_top_is_followed() {
    let mut world = World::new(dir(vec![
        ("real.txt", file(b"hello")),
        ("real_dir", dir(vec![("x", file(b"x"))])),
        ("to_file", link("real.txt")),
        ("to_dir", link("real_dir")),
        ("broken", link("nowhere")),
    ]));
    assert_eq!(world.add_path("/to_file"), Ok(hash_bytes(b"hello")));
    let direct = world.add_path("/real_dir").unwrap();
    assert_eq!(world.add_path("/to_dir"), Ok(direct));
    assert_eq!(world.journal[2].path, "/to_dir");
    assert_eq!(world.get_tree(&direct).len(), 1);
    assert_eq!(
        world.add_path("/broken"),
        Err(Error::NotFound { message: "Path does not exist: /broken".to_string() })
    );
}

#[test]
fn links_below_are_not_followed() {
    let mut world = World::new(dir(vec![
        ("target", dir(vec![("inside", file(b"inside"))])),
        ("d", dir(vec![("to_dir", link("target"))])),
    ]));
    let hash = world.add_path("/d").unwrap();
    let tree = world.get_tree(&hash);
    assert_eq!(tree.len(), 1);
    assert_eq!(tree[0].entry_type, EntryType::Symlink);
    assert_eq!(world.trees.len(), 1);
    let followed = world
        .asked
        .iter()
        .filter(|request| matches!(request, Request::Metadata { .. } | Request::Exists { .. }))
        .count();
    assert_eq!(followed, 2);
}

#[test]
fn link_target_need_not_be_text() {
    let mut world = World::new(dir(vec![(
        "d",
        dir(vec![("odd", Node::Link(vec![0xff, 0xfe, b'/', 0x80]))]),
    )]));
    let hash = world.add_path("/d").unwrap();
    let tree = world.get_tree(&hash);
    assert_eq!(world.get_blob(&tree[0].hash), vec![0xff, 0xfe, b'/', 0x80]);
}

#[test]
fn sockets_below_are_passed_over() {
    let with = dir(vec![("a", file(b"a")), ("sock", Node::Socket), ("b", file(b"b"))]);
    let without = dir(vec![("a", file(b"a")), ("b", file(b"b"))]);
    let mut world = World::new(dir(vec![("with", with), ("without", without)]));
    let first = world.add_directory("/with").unwrap();
    let second = world.add_directory("/without").unwrap();
    assert_eq!(first, second);
    assert!(world.journal.is_empty());
}

#[test]
fn socket_at_the_top_is_refused() {
    let mut world = World::new(dir(vec![("sock", Node::Socket)]));
    assert_eq!(
        world.add_path("/sock"),
        Err(Error::InvalidHash { message: "Unsupported file type: /sock".to_string() })
    );
    assert!(world.journal.is_empty());
    assert_eq!(world.asked.len(), 2);
}

#[test]
fn name_that_is_not_text_is_refused() {
    let mut world = World::new(Node::Dir(vec![(
        b"d".to_vec(),
        Node::Dir(vec![(vec![b'n', 0xff], file(b"x"))]),
    )]));
    assert_eq!(
        world.add_path("/d"),
        Err(Error::InvalidHash { message: "Invalid filename: /d/n\u{fffd}".to_string() })
    );
    assert!(world.blobs.is_empty());
    assert!(world.journal.is_empty());
}

#[test]
fn directory_whose_path_is_not_text_is_added() {
    let mut world = World::new(Node::Dir(vec![(
        vec![b'd', 0xff],
        dir(vec![("x", file(b"x"))]),
    )]));
    let hash = world.add_path_bytes(&[b'/', b'd', 0xff]).unwrap();
    assert_eq!(world.get_tree(&hash)[0].name, "x");
    assert_eq!(world.journal[0].path, "/d\u{fffd}");
}

#[test]
fn name_that_is_too_long_is_refused_after_storing() {
    let fits = "n".repeat(255);
    let long = "n".repeat(256);
    let mut world = World::new(dir(vec![
        ("fits", dir(vec![(fits.as_str(), file(b"x"))])),
        ("long", dir(vec![(long.as_str(), file(b"y"))])),
    ]));
    let hash = world.add_path("/fits").unwrap();
    assert_eq!(world.get_tree(&hash)[0].name, fits);
    assert_eq!(world.add_path("/long"), Err(Error::NameTooLong { name: long.clone() }));
    assert_eq!(world.get_blob(&hash_bytes(b"y")), b"y");
    assert_eq!(world.journal.len(), 1);
}

#[test]
fn order_of_the_list_does_not_matter() {
    let one = dir(vec![("b", file(b"1")), ("a", file(b"2")), ("c", link("x"))]);
    let other = dir(vec![("c", link("x")), ("a", file(b"2")), ("b", file(b"1"))]);
    let mut world = World::new(dir(vec![("one", one), ("other", other)]));
    let first = world.add_path("/one").unwrap();
    let second = world.add_path("/other").unwrap();
    assert_eq!(first, second);
}

#[test]
fn every_failure_ends_the_operation() {
    let root = || {
        dir(vec![(
            "d",
            dir(vec![
                ("f", file(b"f")),
                ("l", link("t")),
                ("sub", dir(vec![("g", file(b"g"))])),
            ]),
        )])
    };
    let mut whole = World::new(root());
    whole.add_path("/d").unwrap();
    for place in 1..whole.asked.len() {
        if whole.asked[place] == Request::Clock {
            continue;
        }
        let mut world = World::new(root());
        world.fail_at = Some(place);
        assert_eq!(world.add_path("/d"), Err(Error::Outside("disk on fire".to_string())));
        assert_eq!(world.asked.len(), place + 1);
        assert_eq!(world.asked[..], whole.asked[..place + 1]);
        assert!(world.journal.is_empty());
    }
}

#[test]
fn trees_are_stored_from_the_inside_out() {
    let mut world = World::new(dir(vec![(
        "d",
        dir(vec![
            ("x", dir(vec![("y", dir(vec![("z", file(b"z"))]))])),
            ("a", file(b"a")),
        ]),
    )]));
    let hash = world.add_path("/d").unwrap();
    assert_eq!(world.trees.len(), 3);
    assert_eq!(world.trees[0].1[0].name, "z");
    assert_eq!(world.trees[1].1[0].hash, world.trees[0].0);
    assert_eq!(world.trees[2].1[1].hash, world.trees[1].0);
    assert_eq!(world.trees[2].0, hash);
}

#[test]
fn failing_stdin_is_not_recorded() {
    for place in [0, 1, 3] {
        let mut world = World::with_input(b"input");
        world.fail_at = Some(place);
        assert_eq!(world.add_stdin(), Err(Error::Outside("disk on fire".to_string())));
        assert_eq!(world.asked.len(), place + 1);
        assert!(world.journal.is_empty());
    }
}

#[test]
fn replies_to_other_questions_are_not_accepted() {
    let (mut operation, request) = Store {}.add_path(b"/x".to_vec());
    assert_eq!(request, Request::Exists { path: b"/x".to_vec() });
    assert!(!operation.accepts(&Reply::<String>::Seconds(1)));
    assert!(!operation.accepts(&Reply::Failed("no".to_string())));
    assert!(operation.accepts(&Reply::<String>::Exists(true)));
    let step: Step<String> = operation.step(Reply::Exists(true));
    assert_eq!(step, Step::Ask(Request::Metadata { path: b"/x".to_vec() }));
    assert!(operation.accepts(&Reply::Failed("no".to_string())));
    assert!(!operation.accepts(&Reply::<String>::Exists(true)));

    let (walk, request) = Store {}.add_directory(b"/d".to_vec());
    assert!(matches!(request, Request::OpenDirectory { .. }));
    assert!(walk.accepts(&Reply::<String>::NoMoreEntries));
    assert!(walk.accepts(&Reply::<String>::Entry(b"/d".to_vec())));
    assert!(!walk.accepts(&Reply::<String>::Appended));

    let (stdin, request) = Store {}.add_stdin();
    assert_eq!(request, Request::StoreInput);
    assert!(!stdin.accepts(&Reply::<String>::Size(1)));
}

/// A directory of which every part of the content can be varied.
fn sample(bytes: &[u8], mode: u32, target: &str, name: &str) -> Node {
    dir(vec![
        ("sub", dir(vec![("f", Node::File(bytes.to_vec(), mode)), (name, link(target))])),
        ("g", file(b"g")),
    ])
}

#[test]
fn content_alone_decides_the_hash() {
    let turned = dir(vec![
        ("g", Node::File(b"g".to_vec(), 0o600)),
        ("sub", dir(vec![("l", link("t")), ("f", Node::File(b"f".to_vec(), 0o701))])),
    ]);
    let mut world = World::new(dir(vec![
        ("one", sample(b"f", 0o744, "t", "l")),
        ("deep", dir(vec![("other", turned)])),
        ("bytes", sample(b"F", 0o744, "t", "l")),
        ("mode", sample(b"f", 0o644, "t", "l")),
        ("target", sample(b"f", 0o744, "T", "l")),
        ("name", sample(b"f", 0o744, "t", "m")),
    ]));
    let one = world.add_path("/one").unwrap();
    assert_eq!(world.add_path("/deep/other").unwrap(), one);
    assert_eq!(world.add_directory("/one").unwrap(), one);
    for differing in ["/bytes", "/mode", "/target", "/name"] {
        assert_ne!(world.add_path(differing).unwrap(), one);
    }
}

#[test]
fn kinds_with_the_same_bytes_make_different_trees() {
    let mut world = World::new(dir(vec![
        ("file", dir(vec![("x", file(b"same"))])),
        ("link", dir(vec![("x", link("same"))])),
    ]));
    let of_file = world.add_path("/file").unwrap();
    let of_link = world.add_path("/link").unwrap();
    assert_ne!(of_file, of_link);
    assert_eq!(world.get_tree(&of_file)[0].hash, world.get_tree(&of_link)[0].hash);
}

#[test]
fn equal_bytes_share_one_blob() {
    let mut world = World::new(dir(vec![
        ("here", dir(vec![("l", link("same")), ("f", Node::File(b"same".to_vec(), 0o755))])),
        ("there", dir(vec![("m", link("same"))])),
        ("alone", file(b"same")),
    ]));
    world.input = b"same".to_vec();
    let here = world.add_path("/here").unwrap();
    let there = world.add_path("/there").unwrap();
    let alone = world.add_path("/alone").unwrap();
    let input = world.add_stdin().unwrap();
    assert_eq!(alone, hash_bytes(b"same"));
    assert_eq!(input, alone);
    for entry in world.get_tree(&here).iter().chain(world.get_tree(&there).iter()) {
        assert_eq!(entry.hash, alone);
    }
    assert_eq!(world.blobs.len(), 1);
}

#[test]
fn link_at_the_top_has_the_hash_of_its_target() {
    let mut world = World::new(dir(vec![
        ("d", dir(vec![("f", file(b"f")), ("l", link("/nowhere"))])),
        ("f", file(b"content")),
        ("to_d", link("/d")),
        ("to_f", link("/f")),
    ]));
    assert_eq!(world.add_path("/to_d").unwrap(), world.add_path("/d").unwrap());
    assert_eq!(world.add_path("/to_f").unwrap(), world.add_path("/f").unwrap());
}

#[test]
fn directory_alone_is_not_recorded() {
    let mut world = World::new(dir(vec![("d", dir(vec![("f", file(b"f"))]))]));
    world.add_directory("/d").unwrap();
    assert!(world.journal.is_empty());
    world.add_path("/d").unwrap();
    assert_eq!(world.journal.len(), 1);
}

#[test]
fn files_and_links_are_asked_for_by_path() {
    assert_eq!(add_file(b"/f".to_vec()), Request::StoreFile { path: b"/f".to_vec() });
    assert_eq!(add_symlink(b"/l".to_vec()), Request::ReadLink { path: b"/l".to_vec() });
}

#[test]
fn adding_again_stores_nothing_new_and_records_once_more() {
    let mut world = World::new(dir(vec![(
        "d",
        dir(vec![
            ("sub", dir(vec![("f", file(b"f")), ("l", link("t"))])),
            ("g", file(b"g")),
        ]),
    )]));
    let first = world.add_path("/d").unwrap();
    let (blobs, trees) = (world.blobs.len(), world.trees.len());
    assert_eq!((blobs, trees), (3, 2));

    world.root = dir(vec![(
        "d",
        dir(vec![
            ("g", file(b"g")),
            ("sub", dir(vec![("l", link("t")), ("f", file(b"f"))])),
        ]),
    )]);
    assert_eq!(world.add_path("/d").unwrap(), first);
    assert_eq!(world.blobs.len(), blobs);
    for (hash, entries) in &world.trees[trees..] {
        assert!(world.trees[..trees].iter().any(|known| known.0 == *hash && known.1 == *entries));
    }
    assert_eq!(world.journal.len(), 2);
    assert_eq!(world.journal[1].hash, first);
}
