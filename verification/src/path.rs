//! Paths as byte sequences, with `/` between their components. They are taken
//! apart and compared as `std::path::Path` does it on Unix.

use vstd::prelude::*;
use vstd::slice::*;
use vstd::utf8::*;

use crate::text::text_lossy;
use crate::text::text_of_utf8;

verus! {

/// `/`, which separates components.
pub const SLASH: u8 = 47;

/// `.`, of which the names `.` and `..` are made.
pub const DOT: u8 = 46;

/// The position of the first `/` at or after `from`, or the length of `path`.
pub open spec fn next_slash(path: Seq<u8>, from: int) -> int
    decreases path.len() - from,
{
    if from >= path.len() {
        path.len() as int
    } else if path[from] == SLASH {
        from
    } else {
        next_slash(path, from + 1)
    }
}

/// What a piece between two slashes contributes: nothing if it is empty or
/// `.`, itself otherwise.
pub open spec fn kept(piece: Seq<u8>) -> Seq<Seq<u8>> {
    if piece.len() == 0 || piece == seq![DOT] {
        seq![]
    } else {
        seq![piece]
    }
}

/// The names of which the part of `path` that starts at `from` consists.
pub open spec fn components_from(path: Seq<u8>, from: int) -> Seq<Seq<u8>>
    decreases path.len() - from,
{
    if 0 <= from <= path.len() {
        let end = next_slash(path, from);
        kept(path.subrange(from, end)) + if from <= end < path.len() {
            components_from(path, end + 1)
        } else {
            seq![]
        }
    } else {
        seq![]
    }
}

/// The names of which a path consists: its pieces between slashes, without the
/// empty ones and without `.`.
pub open spec fn components(path: Seq<u8>) -> Seq<Seq<u8>> {
    components_from(path, 0)
}

/// The path starts at the root of the file system.
pub open spec fn absolute(path: Seq<u8>) -> bool {
    path.len() > 0 && path[0] == SLASH
}

/// The path starts with the component `.`.
pub open spec fn leading_dot(path: Seq<u8>) -> bool {
    path.len() > 0 && path[0] == DOT && (path.len() == 1 || path[1] == SLASH)
}

/// Two paths are the same path when they start alike and consist of the same
/// names.
pub open spec fn same_path(a: Seq<u8>, b: Seq<u8>) -> bool {
    &&& absolute(a) == absolute(b)
    &&& leading_dot(a) == leading_dot(b)
    &&& components(a) == components(b)
}

/// The last name of a path, unless there is none or it is `..`.
pub open spec fn file_name(path: Seq<u8>) -> Option<Seq<u8>> {
    let names = components(path);
    if names.len() == 0 || names.last() == seq![DOT, DOT] {
        None
    } else {
        Some(names.last())
    }
}

/// The last name of a path as text, if the path has one and it is UTF-8.
pub open spec fn entry_name(path: Seq<u8>) -> Option<Seq<char>> {
    match file_name(path) {
        Some(name) if valid_utf8(name) => Some(decode_utf8(name)),
        _ => None,
    }
}

/// The views of a vector of byte vectors.
pub open spec fn names_view(names: Seq<Vec<u8>>) -> Seq<Seq<u8>> {
    names.map_values(|name: Vec<u8>| name@)
}

proof fn lemma_next_slash_bounds(path: Seq<u8>, from: int)
    requires
        0 <= from <= path.len(),
    ensures
        from <= next_slash(path, from) <= path.len(),
        next_slash(path, from) < path.len() ==> path[next_slash(path, from)] == SLASH,
        forall|i: int| from <= i < next_slash(path, from) ==> path[i] != SLASH,
    decreases path.len() - from,
{
    if from < path.len() && path[from] != SLASH {
        lemma_next_slash_bounds(path, from + 1);
    }
}

/// Splits a path into its names.
pub fn path_components(path: &[u8]) -> (names: Vec<Vec<u8>>)
    ensures
        names_view(names@) == components(path@),
{
    let mut names: Vec<Vec<u8>> = Vec::new();
    let mut start: usize = 0;
    let mut i: usize = 0;
    assert(names_view(names@) =~= seq![]);
    assert(names_view(names@) + components_from(path@, 0) =~= components(path@));
    while i < path.len()
        invariant
            start <= i <= path@.len(),
            next_slash(path@, start as int) == next_slash(path@, i as int),
            names_view(names@) + components_from(path@, start as int) == components(path@),
        decreases path@.len() - i,
    {
        if path[i] == SLASH {
            let ghost before = names_view(names@);
            if keeps(path, start, i) {
                let piece = slice_to_vec(slice_subrange(path, start, i));
                names.push(piece);
                assert(names_view(names@) =~= before.push(piece@));
            }
            assert(names_view(names@) =~= before + kept(path@.subrange(start as int, i as int)));
            assert(components_from(path@, start as int) == kept(
                path@.subrange(start as int, i as int),
            ) + components_from(path@, i + 1));
            assert(names_view(names@) + components_from(path@, i + 1) =~= before
                + components_from(path@, start as int));
            start = i + 1;
        }
        i = i + 1;
    }
    let ghost before = names_view(names@);
    if keeps(path, start, i) {
        let piece = slice_to_vec(slice_subrange(path, start, i));
        names.push(piece);
        assert(names_view(names@) =~= before.push(piece@));
    }
    assert(names_view(names@) =~= before + kept(path@.subrange(start as int, i as int)));
    assert(components_from(path@, start as int) =~= kept(path@.subrange(start as int, i as int)));
    names
}

/// Whether the piece of `path` from `start` to `end` is a name.
fn keeps(path: &[u8], start: usize, end: usize) -> (keep: bool)
    requires
        start <= end <= path@.len(),
    ensures
        keep ==> kept(path@.subrange(start as int, end as int)) == seq![
            path@.subrange(start as int, end as int),
        ],
        !keep ==> kept(path@.subrange(start as int, end as int)) == Seq::<Seq<u8>>::empty(),
{
    let ghost piece = path@.subrange(start as int, end as int);
    if start == end {
        return false;
    }
    assert(piece[0] == path@[start as int]);
    if end - start == 1 && path[start] == DOT {
        assert(piece =~= seq![DOT]);
        return false;
    }
    assert(piece != seq![DOT]) by {
        if piece == seq![DOT] {
            assert(piece.len() == 1 && piece[0] == DOT);
        }
    }
    true
}

/// Whether two byte sequences are the same.
fn same_bytes(a: &[u8], b: &[u8]) -> (same: bool)
    ensures
        same == (a@ == b@),
{
    if a.len() != b.len() {
        return false;
    }
    let mut i: usize = 0;
    while i < a.len()
        invariant
            i <= a@.len(),
            a@.len() == b@.len(),
            forall|j: int| 0 <= j < i ==> a@[j] == b@[j],
        decreases a@.len() - i,
    {
        if a[i] != b[i] {
            return false;
        }
        i = i + 1;
    }
    assert(a@ =~= b@);
    true
}

fn starts_absolute(path: &[u8]) -> (r: bool)
    ensures
        r == absolute(path@),
{
    path.len() > 0 && path[0] == SLASH
}

fn starts_with_dot(path: &[u8]) -> (r: bool)
    ensures
        r == leading_dot(path@),
{
    path.len() > 0 && path[0] == DOT && (path.len() == 1 || path[1] == SLASH)
}

/// Whether two paths are the same path.
pub fn paths_equal(a: &[u8], b: &[u8]) -> (same: bool)
    ensures
        same == same_path(a@, b@),
        a@ == b@ ==> same,
{
    if starts_absolute(a) != starts_absolute(b) || starts_with_dot(a) != starts_with_dot(b) {
        return false;
    }
    let left = path_components(a);
    let right = path_components(b);
    if left.len() != right.len() {
        assert(names_view(left@).len() != names_view(right@).len());
        return false;
    }
    let mut i: usize = 0;
    while i < left.len()
        invariant
            i <= left@.len(),
            left@.len() == right@.len(),
            names_view(left@) == components(a@),
            names_view(right@) == components(b@),
            forall|j: int| 0 <= j < i ==> names_view(left@)[j] == names_view(right@)[j],
        decreases left@.len() - i,
    {
        if !same_bytes(left[i].as_slice(), right[i].as_slice()) {
            assert(names_view(left@)[i as int] != names_view(right@)[i as int]);
            return false;
        }
        i = i + 1;
    }
    assert(names_view(left@) =~= names_view(right@));
    true
}

/// The last name of a path as text: `None` if the path has none or it is not
/// UTF-8.
pub fn path_entry_name(path: &[u8]) -> (name: Option<String>)
    ensures
        match name {
            Some(s) => entry_name(path@) == Some(s@),
            None => entry_name(path@) is None,
        },
{
    let mut names = path_components(path);
    let ghost view = names_view(names@);
    let last = names.pop();
    match last {
        None => None,
        Some(name) => {
            assert(view.last() == name@);
            if name.len() == 2 && name[0] == DOT && name[1] == DOT {
                assert(name@ =~= seq![DOT, DOT]);
                None
            } else {
                assert(name@ != seq![DOT, DOT]) by {
                    if name@ == seq![DOT, DOT] {
                        assert(name@.len() == 2 && name@[0] == DOT && name@[1] == DOT);
                    }
                }
                text_of_utf8(name)
            }
        },
    }
}

/// The path as it is shown to people: its bytes as text, with replacement
/// characters where they are not UTF-8.
pub fn path_display(path: &[u8]) -> (text: String)
    ensures
        text@ == crate::text::lossy_text(path@),
        valid_utf8(path@) ==> text@ == decode_utf8(path@),
{
    text_lossy(path)
}

/// The path of the entry `name` of the directory `dir`.
pub open spec fn child_path(dir: Seq<u8>, name: Seq<u8>) -> Seq<u8> {
    if dir.len() == 0 || dir.last() == SLASH {
        dir + name
    } else {
        dir.push(SLASH) + name
    }
}

/// A name that a directory can list.
pub open spec fn is_plain_name(name: Seq<u8>) -> bool {
    &&& name.len() > 0
    &&& !name.contains(SLASH)
    &&& name != seq![DOT]
    &&& name != seq![DOT, DOT]
}

proof fn lemma_next_slash_tail(head: Seq<u8>, tail: Seq<u8>, from: int)
    requires
        0 <= from <= tail.len(),
    ensures
        next_slash(head + tail, head.len() + from) == head.len() + next_slash(tail, from),
    decreases tail.len() - from,
{
    if from < tail.len() {
        assert((head + tail)[head.len() + from] == tail[from]);
        if tail[from] != SLASH {
            lemma_next_slash_tail(head, tail, from + 1);
        }
    }
}

proof fn lemma_components_tail(head: Seq<u8>, tail: Seq<u8>, from: int)
    requires
        0 <= from <= tail.len(),
    ensures
        components_from(head + tail, head.len() + from) == components_from(tail, from),
    decreases tail.len() - from,
{
    lemma_next_slash_tail(head, tail, from);
    lemma_next_slash_bounds(tail, from);
    let end = next_slash(tail, from);
    assert((head + tail).subrange(head.len() + from, head.len() + end) =~= tail.subrange(from, end));
    if end < tail.len() {
        lemma_components_tail(head, tail, end + 1);
    }
}

proof fn lemma_next_slash_head(head: Seq<u8>, tail: Seq<u8>, from: int)
    requires
        0 <= from <= head.len(),
        tail.len() > 0,
        tail[0] == SLASH,
    ensures
        next_slash(head + tail, from) == next_slash(head, from),
    decreases head.len() - from,
{
    if from < head.len() {
        assert((head + tail)[from] == head[from]);
        if head[from] != SLASH {
            lemma_next_slash_head(head, tail, from + 1);
        }
    } else {
        assert((head + tail)[from] == tail[0]);
    }
}

proof fn lemma_components_join(head: Seq<u8>, tail: Seq<u8>, from: int)
    requires
        0 <= from <= head.len(),
    ensures
        components_from(head.push(SLASH) + tail, from) == components_from(head, from) + components(
            tail,
        ),
    decreases head.len() - from,
{
    let path = head.push(SLASH) + tail;
    let rest = seq![SLASH] + tail;
    assert(path =~= head + rest);
    lemma_next_slash_head(head, rest, from);
    lemma_next_slash_bounds(head, from);
    let end = next_slash(head, from);
    assert(path.subrange(from, end) =~= head.subrange(from, end));
    if end < head.len() {
        lemma_components_join(head, tail, end + 1);
        assert(components_from(path, from) =~= components_from(head, from) + components(tail));
    } else {
        lemma_components_tail(head.push(SLASH), tail, 0);
        assert(components_from(path, from) =~= components_from(head, from) + components(tail));
    }
}

proof fn lemma_plain_name(name: Seq<u8>)
    requires
        is_plain_name(name),
    ensures
        components(name) == seq![name],
{
    lemma_next_slash_bounds(name, 0);
    if next_slash(name, 0) < name.len() {
        assert(name.contains(SLASH));
    }
    assert(name.subrange(0, name.len() as int) =~= name);
    assert(components(name) =~= seq![name]);
}

/// An entry of a directory is called by its own name, whatever the directory's
/// path looks like, and its path is never taken for the directory's.
pub proof fn entry_keeps_its_name(dir: Seq<u8>, name: Seq<u8>)
    requires
        is_plain_name(name),
    ensures
        components(child_path(dir, name)) == components(dir).push(name),
        file_name(child_path(dir, name)) == Some(name),
        entry_name(child_path(dir, name)) == if valid_utf8(name) {
            Some(decode_utf8(name))
        } else {
            None
        },
        !same_path(child_path(dir, name), dir),
{
    lemma_plain_name(name);
    if dir.len() == 0 {
        assert(dir + name =~= name);
        assert(components(dir) =~= seq![]) by {
            assert(dir.subrange(0, 0).len() == 0);
        }
    } else if dir.last() == SLASH {
        let head = dir.drop_last();
        assert(head.push(SLASH) =~= dir);
        lemma_components_join(head, name, 0);
        lemma_components_join(head, Seq::<u8>::empty(), 0);
        assert(head.push(SLASH) + Seq::<u8>::empty() =~= dir);
        assert(components(Seq::<u8>::empty()) =~= seq![]) by {
            assert(Seq::<u8>::empty().subrange(0, 0).len() == 0);
        }
        assert(components(dir) =~= components(head));
    } else {
        lemma_components_join(dir, name, 0);
    }
    assert(components(child_path(dir, name)) =~= components(dir).push(name));
    assert(components(child_path(dir, name)).len() == components(dir).len() + 1);
}

/// The names of two paths with a `/` between them are the names of the one and
/// then those of the other.
pub proof fn slash_parts_names(head: Seq<u8>, tail: Seq<u8>)
    ensures
        components(head + seq![47u8] + tail) == components(head) + components(tail),
{
    assert(head + seq![47u8] + tail =~= head.push(SLASH) + tail);
    lemma_components_join(head, tail, 0);
}

/// A path without a `/` is one name, unless it is empty or `.`, which is none.
pub proof fn piece_without_slash_is_one_name(piece: Seq<u8>)
    requires
        forall|i: int| 0 <= i < piece.len() ==> piece[i] != 47,
    ensures
        piece.len() == 0 || piece == seq![46u8] ==> components(piece).len() == 0,
        piece.len() > 0 && piece != seq![46u8] ==> components(piece) == seq![piece],
{
    lemma_next_slash_bounds(piece, 0);
    assert(piece.subrange(0, piece.len() as int) =~= piece);
    assert(components(piece) =~= kept(piece));
}

/// Every path is the same path as itself, however many names it has.
pub proof fn path_is_itself(path: Seq<u8>)
    ensures
        same_path(path, path),
{
}

/// Two paths are the same exactly when both start at the root or neither does,
/// both start with `.` as a name of its own or neither does, and they have the
/// same names in the same order.
pub proof fn same_path_has_same_names(a: Seq<u8>, b: Seq<u8>)
    ensures
        same_path(a, b) <==> {
            &&& (a.len() > 0 && a[0] == 47) == (b.len() > 0 && b[0] == 47)
            &&& (a == seq![46u8] || (a.len() > 1 && a[0] == 46 && a[1] == 47)) == (b == seq![46u8]
                || (b.len() > 1 && b[0] == 46 && b[1] == 47))
            &&& components(a) == components(b)
        },
{
    assert(a.len() == 1 && a[0] == 46 ==> a =~= seq![46u8]);
    assert(b.len() == 1 && b[0] == 46 ==> b =~= seq![46u8]);
    assert(a == seq![46u8] ==> a.len() == 1 && a[0] == 46);
    assert(b == seq![46u8] ==> b.len() == 1 && b[0] == 46);
}

/// Doubled slashes, a slash at the end, and `.` behind a slash make no other
/// path.
pub proof fn spelling_makes_no_other_path(head: Seq<u8>, tail: Seq<u8>)
    ensures
        same_path(head + seq![47u8, 47u8] + tail, head + seq![47u8] + tail),
        same_path(head + seq![47u8, 46u8, 47u8] + tail, head + seq![47u8] + tail),
        head.len() > 0 ==> same_path(head + seq![47u8], head),
        head.len() > 0 ==> same_path(head + seq![47u8, 46u8], head),
{
    let none = Seq::<u8>::empty();
    let dot = seq![46u8];
    piece_without_slash_is_one_name(none);
    piece_without_slash_is_one_name(dot);
    slash_parts_names(head, tail);

    let doubled = head + seq![47u8, 47u8] + tail;
    assert(doubled =~= head + seq![47u8] + (none + seq![47u8] + tail));
    slash_parts_names(head, none + seq![47u8] + tail);
    slash_parts_names(none, tail);
    assert(components(none) + components(tail) =~= components(tail));

    let dotted = head + seq![47u8, 46u8, 47u8] + tail;
    assert(dotted =~= head + seq![47u8] + (dot + seq![47u8] + tail));
    slash_parts_names(head, dot + seq![47u8] + tail);
    slash_parts_names(dot, tail);
    assert(components(dot) + components(tail) =~= components(tail));

    let ended = head + seq![47u8];
    assert(ended =~= head + seq![47u8] + none);
    slash_parts_names(head, none);
    assert(components(head) + components(none) =~= components(head));

    let dot_ended = head + seq![47u8, 46u8];
    assert(dot_ended =~= head + seq![47u8] + dot);
    slash_parts_names(head, dot);
    assert(components(head) + components(dot) =~= components(head));
}

/// Two entries of a directory are the same path exactly when they have the same
/// name, and neither is the directory.
pub proof fn entries_of_a_directory_differ(dir: Seq<u8>, one: Seq<u8>, other: Seq<u8>)
    requires
        one.len() > 0,
        one != seq![46u8],
        forall|i: int| 0 <= i < one.len() ==> one[i] != 47,
        other.len() > 0,
        other != seq![46u8],
        forall|i: int| 0 <= i < other.len() ==> other[i] != 47,
    ensures
        same_path(dir + seq![47u8] + one, dir + seq![47u8] + other) <==> one == other,
        !same_path(dir + seq![47u8] + one, dir),
        !same_path(dir + seq![47u8] + one, dir + seq![47u8]),
{
    let none = Seq::<u8>::empty();
    let (a, b) = (dir + seq![47u8] + one, dir + seq![47u8] + other);
    piece_without_slash_is_one_name(one);
    piece_without_slash_is_one_name(other);
    piece_without_slash_is_one_name(none);
    slash_parts_names(dir, one);
    slash_parts_names(dir, other);
    slash_parts_names(dir, none);
    assert(dir + seq![47u8] + none =~= dir + seq![47u8]);
    assert(components(a).last() == one);
    assert(components(b).last() == other);
    assert(components(a).len() == components(dir).len() + 1);
}

/// The file name is the last of the names, unless that is `..`.
pub proof fn file_name_is_the_last_name(path: Seq<u8>)
    ensures
        match file_name(path) {
            Some(name) => {
                &&& components(path).len() > 0
                &&& name == components(path)[components(path).len() - 1]
                &&& name != seq![46u8, 46u8]
            },
            None => components(path).len() == 0 || components(path)[components(path).len() - 1]
                == seq![46u8, 46u8],
        },
{
}

/// The name of a directory's entry is what stands behind the last `/`, be it
/// followed by another or not; `..` is no name. As text it has the same bytes.
pub proof fn entry_is_called_by_its_last_name(dir: Seq<u8>, name: Seq<u8>)
    requires
        name.len() > 0,
        name != seq![46u8],
        forall|i: int| 0 <= i < name.len() ==> name[i] != 47,
    ensures
        name != seq![46u8, 46u8] ==> {
            &&& file_name(name) == Some(name)
            &&& file_name(dir + seq![47u8] + name) == Some(name)
            &&& file_name(dir + seq![47u8] + name + seq![47u8]) == Some(name)
            &&& entry_name(dir + seq![47u8] + name) is Some <==> valid_utf8(name)
            &&& entry_name(dir + seq![47u8] + name) matches Some(text) ==> encode_utf8(text)
                == name
        },
        name == seq![46u8, 46u8] ==> {
            &&& file_name(dir + seq![47u8] + name) is None
            &&& entry_name(dir + seq![47u8] + name) is None
        },
{
    let none = Seq::<u8>::empty();
    let path = dir + seq![47u8] + name;
    piece_without_slash_is_one_name(name);
    piece_without_slash_is_one_name(none);
    slash_parts_names(dir, name);
    assert(path + seq![47u8] =~= path + seq![47u8] + none);
    slash_parts_names(path, none);
    assert(components(path) + components(none) =~= components(path));
    assert(components(path).last() == name);
    if valid_utf8(name) {
        decode_utf8_encode_utf8(name);
    }
}

/// The name of an entry as text exists exactly if the file name does and is
/// UTF-8, and it is what those bytes say.
pub proof fn entry_name_is_the_file_name_as_text(path: Seq<u8>)
    ensures
        match entry_name(path) {
            Some(text) => file_name(path) matches Some(name) && valid_utf8(name) && text
                == decode_utf8(name),
            None => file_name(path) matches Some(name) ==> !valid_utf8(name),
        },
{
}

} // verus!
