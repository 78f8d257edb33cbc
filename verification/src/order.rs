//! The order of the entries of a tree.

use vstd::prelude::*;
use vstd::utf8::*;

use crate::tree::entries_view;
use crate::tree::name_bytes;
use crate::tree::TreeEntry;
use crate::tree::TreeEntryView;

verus! {

/// `a` comes before `b`, or is `b`, in the order of a dictionary whose letters
/// are bytes.
pub open spec fn bytes_le(a: Seq<u8>, b: Seq<u8>) -> bool
    decreases a.len(),
{
    if a.len() == 0 {
        true
    } else if b.len() == 0 {
        false
    } else {
        a[0] < b[0] || (a[0] == b[0] && bytes_le(a.skip(1), b.skip(1)))
    }
}

/// The order of tree entries: by the bytes of their names.
pub open spec fn entry_le(a: TreeEntryView, b: TreeEntryView) -> bool {
    bytes_le(name_bytes(a.name), name_bytes(b.name))
}

/// No entry comes before an earlier one.
pub open spec fn is_sorted(entries: Seq<TreeEntryView>) -> bool {
    forall|i: int, j: int| 0 <= i <= j < entries.len() ==> entry_le(entries[i], entries[j])
}

/// No two entries have the same name.
pub open spec fn distinct_names(entries: Seq<TreeEntryView>) -> bool {
    forall|i: int, j: int|
        0 <= i < entries.len() && 0 <= j < entries.len() && i != j ==> entries[i].name
            != entries[j].name
}

/// A sorted list with one more entry, behind those that it does not precede.
pub open spec fn placed(entries: Seq<TreeEntryView>, entry: TreeEntryView) -> Seq<TreeEntryView>
    decreases entries.len(),
{
    if entries.len() == 0 || entry_le(entries.last(), entry) {
        entries.push(entry)
    } else {
        placed(entries.drop_last(), entry).push(entries.last())
    }
}

/// The entries in the order in which a tree lists them: by name, and those of
/// one name as they came.
pub open spec fn in_order(entries: Seq<TreeEntryView>) -> Seq<TreeEntryView>
    decreases entries.len(),
{
    if entries.len() == 0 {
        seq![]
    } else {
        placed(in_order(entries.drop_last()), entries.last())
    }
}

/// Two sorted lists in one; of two entries with one name, that of `a` is first.
spec fn merged(a: Seq<TreeEntryView>, b: Seq<TreeEntryView>) -> Seq<TreeEntryView>
    decreases a.len() + b.len(),
{
    if b.len() == 0 {
        a
    } else if a.len() == 0 {
        b
    } else if entry_le(a.last(), b.last()) {
        merged(a, b.drop_last()).push(b.last())
    } else {
        merged(a.drop_last(), b).push(a.last())
    }
}

proof fn lemma_bytes_le_total(a: Seq<u8>, b: Seq<u8>)
    ensures
        bytes_le(a, b) || bytes_le(b, a),
    decreases a.len(),
{
    if a.len() > 0 && b.len() > 0 {
        lemma_bytes_le_total(a.skip(1), b.skip(1));
    }
}

proof fn lemma_bytes_le_transitive(a: Seq<u8>, b: Seq<u8>, c: Seq<u8>)
    requires
        bytes_le(a, b),
        bytes_le(b, c),
    ensures
        bytes_le(a, c),
    decreases a.len(),
{
    if a.len() > 0 && a[0] == b[0] && b[0] == c[0] {
        lemma_bytes_le_transitive(a.skip(1), b.skip(1), c.skip(1));
    }
}

proof fn lemma_bytes_le_antisymmetric(a: Seq<u8>, b: Seq<u8>)
    requires
        bytes_le(a, b),
        bytes_le(b, a),
    ensures
        a == b,
    decreases a.len(),
{
    if a.len() > 0 {
        lemma_bytes_le_antisymmetric(a.skip(1), b.skip(1));
        assert(a =~= seq![a[0]] + a.skip(1));
        assert(b =~= seq![b[0]] + b.skip(1));
    } else {
        assert(a =~= b);
    }
}

/// Names are ordered totally: any two compare, one way if they differ, and the
/// order carries over from one pair to the next.
pub proof fn names_are_ordered(a: TreeEntryView, b: TreeEntryView, c: TreeEntryView)
    ensures
        entry_le(a, b) || entry_le(b, a),
        entry_le(a, b) && entry_le(b, a) ==> a.name == b.name,
        entry_le(a, b) && entry_le(b, c) ==> entry_le(a, c),
{
    let (x, y, z) = (name_bytes(a.name), name_bytes(b.name), name_bytes(c.name));
    lemma_bytes_le_total(x, y);
    if entry_le(a, b) && entry_le(b, a) {
        lemma_bytes_le_antisymmetric(x, y);
        encode_utf8_decode_utf8(a.name);
        encode_utf8_decode_utf8(b.name);
    }
    if entry_le(a, b) && entry_le(b, c) {
        lemma_bytes_le_transitive(x, y, z);
    }
}

proof fn lemma_placed_last(entries: Seq<TreeEntryView>, entry: TreeEntryView)
    ensures
        placed(entries, entry).len() == entries.len() + 1,
        entries.len() > 0 && !entry_le(entries.last(), entry) ==> placed(entries, entry).last()
            == entries.last(),
        entries.len() == 0 || entry_le(entries.last(), entry) ==> placed(entries, entry).last()
            == entry,
    decreases entries.len(),
{
    if entries.len() > 0 && !entry_le(entries.last(), entry) {
        lemma_placed_last(entries.drop_last(), entry);
    }
}

proof fn lemma_placed_in_merged(
    a: Seq<TreeEntryView>,
    b: Seq<TreeEntryView>,
    entry: TreeEntryView,
)
    ensures
        placed(merged(a, b), entry) == merged(a, placed(b, entry)),
    decreases a.len() + b.len(),
{
    lemma_placed_last(b, entry);
    if a.len() == 0 {
        assert(merged(a, b) =~= b);
    } else if b.len() == 0 {
        let single = placed(b, entry);
        assert(single =~= seq![entry]);
        assert(single.drop_last() =~= b);
        if !entry_le(a.last(), entry) {
            lemma_placed_in_merged(a.drop_last(), b, entry);
        }
    } else {
        let (x, y) = (a.last(), b.last());
        names_are_ordered(x, y, entry);
        names_are_ordered(y, x, entry);
        names_are_ordered(entry, x, y);
        if entry_le(x, y) {
            let rest = merged(a, b.drop_last());
            assert(rest.push(y).drop_last() =~= rest);
            if entry_le(y, entry) {
                assert(b.push(entry).drop_last() =~= b);
            } else {
                lemma_placed_in_merged(a, b.drop_last(), entry);
                let inner = placed(b.drop_last(), entry);
                assert(inner.push(y).drop_last() =~= inner);
            }
        } else {
            let rest = merged(a.drop_last(), b);
            assert(rest.push(x).drop_last() =~= rest);
            if entry_le(x, entry) {
                assert(b.push(entry).drop_last() =~= b);
            } else {
                lemma_placed_in_merged(a.drop_last(), b, entry);
            }
        }
    }
}

proof fn lemma_in_order_of_concatenation(a: Seq<TreeEntryView>, b: Seq<TreeEntryView>)
    ensures
        in_order(a + b) == merged(in_order(a), in_order(b)),
    decreases b.len(),
{
    if b.len() == 0 {
        assert(a + b =~= a);
    } else {
        assert((a + b).drop_last() =~= a + b.drop_last());
        lemma_in_order_of_concatenation(a, b.drop_last());
        lemma_placed_in_merged(in_order(a), in_order(b.drop_last()), b.last());
    }
}

/// Whether the name `a` comes before the name `b` or is the same.
fn name_le(a: &str, b: &str) -> (le: bool)
    ensures
        le == bytes_le(name_bytes(a@), name_bytes(b@)),
{
    let left = a.as_bytes();
    let right = b.as_bytes();
    let mut i: usize = 0;
    assert(left@.skip(0) =~= left@);
    assert(right@.skip(0) =~= right@);
    while i < left.len() && i < right.len()
        invariant
            i <= left@.len(),
            i <= right@.len(),
            left@ == name_bytes(a@),
            right@ == name_bytes(b@),
            bytes_le(left@, right@) == bytes_le(left@.skip(i as int), right@.skip(i as int)),
        decreases left@.len() - i,
    {
        if left[i] != right[i] {
            return left[i] < right[i];
        }
        assert(left@.skip(i as int).skip(1) =~= left@.skip(i + 1));
        assert(right@.skip(i as int).skip(1) =~= right@.skip(i + 1));
        i = i + 1;
    }
    i == left.len()
}

/// Turns a list of entries around.
fn turned(entries: Vec<TreeEntry>) -> (result: Vec<TreeEntry>)
    ensures
        result@ == entries@.reverse(),
{
    let mut rest = entries;
    let mut result: Vec<TreeEntry> = Vec::new();
    while rest.len() > 0
        invariant
            result@.len() + rest@.len() == entries@.len(),
            rest@ == entries@.take(rest@.len() as int),
            forall|i: int|
                0 <= i < result@.len() ==> result@[i] == entries@[entries@.len() - 1 - i],
        decreases rest@.len(),
    {
        let last = rest.pop();
        match last {
            Some(entry) => result.push(entry),
            None => {},
        }
    }
    assert(result@ =~= entries@.reverse());
    result
}

fn merge_entries(a: Vec<TreeEntry>, b: Vec<TreeEntry>) -> (result: Vec<TreeEntry>)
    ensures
        entries_view(result@) == merged(entries_view(a@), entries_view(b@)),
{
    let mut left = a;
    let mut right = b;
    let mut backwards: Vec<TreeEntry> = Vec::new();
    assert(entries_view(backwards@.reverse()) =~= seq![]);
    while left.len() > 0 || right.len() > 0
        invariant
            merged(entries_view(left@), entries_view(right@)) + entries_view(backwards@.reverse())
                == merged(entries_view(a@), entries_view(b@)),
        decreases left@.len() + right@.len(),
    {
        let ghost (l, r) = (entries_view(left@), entries_view(right@));
        let ghost old_backwards = backwards@;
        let from_right = if left.len() == 0 {
            true
        } else if right.len() == 0 {
            false
        } else {
            name_le(left[left.len() - 1].name.as_str(), right[right.len() - 1].name.as_str())
        };
        let last = if from_right {
            right.pop()
        } else {
            left.pop()
        };
        match last {
            Some(entry) => {
                backwards.push(entry);
                proof {
                    let (l2, r2) = (entries_view(left@), entries_view(right@));
                    lemma_merged_empty(l2);
                    lemma_merged_empty(r2);
                    lemma_merged_empty(l);
                    lemma_merged_empty(r);
                    if from_right {
                        assert(r2 =~= r.drop_last());
                        assert(l2 =~= l);
                    } else {
                        assert(l2 =~= l.drop_last());
                        assert(r2 =~= r);
                    }
                    assert(merged(l, r) =~= merged(l2, r2).push(entry@));
                    assert(entries_view(backwards@.reverse()) =~= seq![entry@] + entries_view(
                        old_backwards.reverse(),
                    ));
                    assert(merged(l2, r2) + entries_view(backwards@.reverse()) =~= merged(l, r)
                        + entries_view(old_backwards.reverse()));
                }
            },
            None => {},
        }
    }
    assert(merged(entries_view(left@), entries_view(right@)) =~= seq![]);
    turned(backwards)
}

proof fn lemma_merged_empty(s: Seq<TreeEntryView>)
    ensures
        merged(s, seq![]) == s,
        merged(seq![], s) == s,
{
    if s.len() == 0 {
        assert(s =~= seq![]);
    }
}

/// Brings the entries of a tree in order.
pub fn sort_entries(entries: Vec<TreeEntry>) -> (result: Vec<TreeEntry>)
    ensures
        entries_view(result@) == in_order(entries_view(entries@)),
    decreases entries@.len(),
{
    let ghost all = entries_view(entries@);
    if entries.len() < 2 {
        proof {
            if all.len() == 1 {
                assert(all.drop_last() =~= seq![]);
                assert(in_order(all.drop_last()) =~= seq![]);
                assert(in_order(all) =~= all);
            } else {
                assert(in_order(all) =~= all);
            }
        }
        return entries;
    }
    let mut first = entries;
    let half = first.len() / 2;
    let second = first.split_off(half);
    proof {
        let (x, y) = (entries_view(first@), entries_view(second@));
        assert(x + y =~= all);
        lemma_in_order_of_concatenation(x, y);
    }
    merge_entries(sort_entries(first), sort_entries(second))
}

proof fn lemma_placed(entries: Seq<TreeEntryView>, entry: TreeEntryView)
    requires
        is_sorted(entries),
    ensures
        is_sorted(placed(entries, entry)),
        placed(entries, entry).to_multiset() == entries.to_multiset().insert(entry),
    decreases entries.len(),
{
    broadcast use vstd::seq_lib::group_to_multiset_ensures;

    let result = placed(entries, entry);
    if entries.len() == 0 || entry_le(entries.last(), entry) {
        assert forall|i: int, j: int| 0 <= i <= j < result.len() implies entry_le(
            result[i],
            result[j],
        ) by {
            names_are_ordered(entry, entry, entry);
            if i < entries.len() && j == entries.len() {
                names_are_ordered(entries[i], entries.last(), entry);
            }
        }
    } else {
        let front = entries.drop_last();
        let last = entries.last();
        lemma_placed(front, entry);
        let inner = placed(front, entry);
        assert(entries =~= front.push(last));
        assert(result.to_multiset() =~= entries.to_multiset().insert(entry));
        assert forall|i: int, j: int| 0 <= i <= j < result.len() implies entry_le(
            result[i],
            result[j],
        ) by {
            names_are_ordered(last, last, entry);
            names_are_ordered(last, entry, entry);
            if i < inner.len() && j == inner.len() {
                assert(inner.to_multiset().contains(inner[i]));
                assert(front.to_multiset().contains(inner[i]) || inner[i] == entry);
                if inner[i] != entry {
                    assert(front.contains(inner[i]));
                    let k = choose|k: int| 0 <= k < front.len() && front[k] == inner[i];
                    assert(entry_le(entries[k], entries[entries.len() - 1]));
                }
            }
        }
    }
}

/// A tree lists exactly the entries that were found, sorted by name.
pub proof fn ordering_keeps_entries(entries: Seq<TreeEntryView>)
    ensures
        is_sorted(in_order(entries)),
        in_order(entries).to_multiset() == entries.to_multiset(),
        in_order(entries).len() == entries.len(),
    decreases entries.len(),
{
    broadcast use vstd::seq_lib::group_to_multiset_ensures;

    if entries.len() == 0 {
        assert(in_order(entries) =~= entries);
    } else {
        let front = entries.drop_last();
        ordering_keeps_entries(front);
        lemma_placed(in_order(front), entries.last());
        lemma_placed_last(in_order(front), entries.last());
        assert(entries =~= front.push(entries.last()));
    }
}

proof fn lemma_sorted_unique(a: Seq<TreeEntryView>, b: Seq<TreeEntryView>)
    requires
        is_sorted(a),
        is_sorted(b),
        distinct_names(a),
        a.to_multiset() == b.to_multiset(),
    ensures
        a == b,
    decreases a.len(),
{
    broadcast use vstd::seq_lib::group_to_multiset_ensures;

    vstd::seq_lib::to_multiset_len(a);
    vstd::seq_lib::to_multiset_len(b);
    if a.len() == 0 {
        assert(a =~= b);
    } else {
        let (x, y) = (a.last(), b.last());
        assert(a.to_multiset().contains(x)) by {
            assert(a.contains(x));
        }
        assert(b.to_multiset().contains(y)) by {
            assert(b.contains(y));
        }
        assert(b.contains(x));
        assert(a.contains(y));
        let i = choose|i: int| 0 <= i < b.len() && b[i] == x;
        let j = choose|j: int| 0 <= j < a.len() && a[j] == y;
        assert(entry_le(b[i], b[b.len() - 1]));
        assert(entry_le(a[j], a[a.len() - 1]));
        names_are_ordered(x, y, x);
        assert(a[j].name == a[a.len() - 1].name);
        assert(x == y);
        let (front_a, front_b) = (a.drop_last(), b.drop_last());
        assert(a =~= front_a.push(x));
        assert(b =~= front_b.push(x));
        assert(front_a.to_multiset() =~= a.to_multiset().remove(x));
        assert(front_b.to_multiset() =~= b.to_multiset().remove(x));
        lemma_sorted_unique(front_a, front_b);
    }
}

/// The same entries make the same tree, in whatever order they were found.
pub proof fn finding_order_does_not_matter(a: Seq<TreeEntryView>, b: Seq<TreeEntryView>)
    requires
        a.to_multiset() == b.to_multiset(),
        distinct_names(a),
    ensures
        in_order(a) == in_order(b),
{
    ordering_keeps_entries(a);
    ordering_keeps_entries(b);
    lemma_distinct_names_kept(a, in_order(a));
    lemma_sorted_unique(in_order(a), in_order(b));
}

proof fn lemma_distinct_names_kept(a: Seq<TreeEntryView>, b: Seq<TreeEntryView>)
    requires
        distinct_names(a),
        a.to_multiset() == b.to_multiset(),
    ensures
        distinct_names(b),
{
    broadcast use vstd::seq_lib::group_to_multiset_ensures;

    assert(a.no_duplicates());
    a.lemma_multiset_has_no_duplicates();
    b.lemma_multiset_has_no_duplicates_conv();
    assert forall|i: int, j: int|
        0 <= i < b.len() && 0 <= j < b.len() && i != j implies b[i].name != b[j].name by {
        assert(b.contains(b[i]) && b.contains(b[j]));
        assert(a.to_multiset().contains(b[i]) && a.to_multiset().contains(b[j]));
        assert(a.contains(b[i]) && a.contains(b[j]));
        let p = choose|p: int| 0 <= p < a.len() && a[p] == b[i];
        let q = choose|q: int| 0 <= q < a.len() && a[q] == b[j];
        assert(b[i] != b[j]);
        assert(p != q);
    }
}

/// Names compare as in a dictionary: one comes before the other, or is it, if it
/// is a beginning of the other, or if it has the smaller byte at the first place
/// at which they differ.
pub proof fn bytes_compare_as_in_a_dictionary(a: Seq<u8>, b: Seq<u8>)
    ensures
        bytes_le(a, b) <==> {
            ||| a.is_prefix_of(b)
            ||| exists|k: int|
                0 <= k < a.len() && k < b.len() && #[trigger] a.take(k) == b.take(k) && a[k] < b[k]
        },
    decreases a.len(),
{
    if a.len() == 0 {
        assert(a =~= b.take(0));
    } else if b.len() == 0 {
    } else {
        let (s, t) = (a.skip(1), b.skip(1));
        bytes_compare_as_in_a_dictionary(s, t);
        if a[0] < b[0] {
            assert(a.take(0) =~= b.take(0));
        } else if a[0] == b[0] {
            if bytes_le(s, t) {
                if s.is_prefix_of(t) {
                    assert(a =~= b.take(a.len() as int)) by {
                        assert forall|i: int| 0 <= i < a.len() implies a[i] == b[i] by {
                            if i > 0 {
                                assert(s[i - 1] == t[i - 1]);
                            }
                        }
                    }
                } else {
                    let k = choose|k: int|
                        0 <= k < s.len() && k < t.len() && #[trigger] s.take(k) == t.take(k) && s[k]
                            < t[k];
                    assert(a.take(k + 1) =~= b.take(k + 1)) by {
                        assert forall|i: int| 0 <= i < k + 1 implies a[i] == b[i] by {
                            if i > 0 {
                                assert(s.take(k)[i - 1] == t.take(k)[i - 1]);
                            }
                        }
                    }
                }
            }
            if a.is_prefix_of(b) {
                assert(s =~= t.take(s.len() as int));
            }
            if exists|k: int|
                0 <= k < a.len() && k < b.len() && #[trigger] a.take(k) == b.take(k) && a[k] < b[k] {
                let k = choose|k: int|
                    0 <= k < a.len() && k < b.len() && #[trigger] a.take(k) == b.take(k) && a[k]
                        < b[k];
                assert(k > 0);
                assert(s.take(k - 1) =~= t.take(k - 1)) by {
                    assert forall|i: int| 0 <= i < k - 1 implies s[i] == t[i] by {
                        assert(a.take(k)[i + 1] == b.take(k)[i + 1]);
                    }
                }
                assert(s[k - 1] < t[k - 1]);
            }
        } else {
            if a.is_prefix_of(b) {
                assert(a[0] == b.subrange(0, a.len() as int)[0]);
            }
            if exists|k: int|
                0 <= k < a.len() && k < b.len() && #[trigger] a.take(k) == b.take(k) && a[k] < b[k] {
                let k = choose|k: int|
                    0 <= k < a.len() && k < b.len() && #[trigger] a.take(k) == b.take(k) && a[k]
                        < b[k];
                if k > 0 {
                    assert(a.take(k)[0] == b.take(k)[0]);
                }
            }
        }
    }
}

/// A tree lists the entries that it is given, each as often as it was given,
/// and in the order of a dictionary of the bytes of their names.
pub proof fn trees_are_dictionaries(entries: Seq<TreeEntryView>)
    ensures
        in_order(entries).to_multiset() == entries.to_multiset(),
        in_order(entries).len() == entries.len(),
        forall|i: int, j: int|
            #![trigger in_order(entries)[i], in_order(entries)[j]]
            0 <= i < j < in_order(entries).len() ==> {
                let a = encode_utf8(in_order(entries)[i].name);
                let b = encode_utf8(in_order(entries)[j].name);
                ||| a.is_prefix_of(b)
                ||| exists|k: int|
                    0 <= k < a.len() && k < b.len() && #[trigger] a.take(k) == b.take(k) && a[k]
                        < b[k]
            },
{
    ordering_keeps_entries(entries);
    let sorted = in_order(entries);
    assert forall|i: int, j: int|
        #![trigger in_order(entries)[i], in_order(entries)[j]]
        0 <= i < j < in_order(entries).len() implies {
        let a = encode_utf8(in_order(entries)[i].name);
        let b = encode_utf8(in_order(entries)[j].name);
        ||| a.is_prefix_of(b)
        ||| exists|k: int|
            0 <= k < a.len() && k < b.len() && #[trigger] a.take(k) == b.take(k) && a[k] < b[k]
    } by {
        assert(entry_le(sorted[i], sorted[j]));
        bytes_compare_as_in_a_dictionary(
            encode_utf8(sorted[i].name),
            encode_utf8(sorted[j].name),
        );
    }
}

proof fn lemma_placed_filter(
    entries: Seq<TreeEntryView>,
    entry: TreeEntryView,
    name: Seq<char>,
    called: spec_fn(TreeEntryView) -> bool,
)
    requires
        forall|e: TreeEntryView| #[trigger] called(e) <==> e.name == name,
    ensures
        placed(entries, entry).filter(called) == if called(entry) {
            entries.filter(called).push(entry)
        } else {
            entries.filter(called)
        },
    decreases entries.len(),
{
    reveal(Seq::filter);
    if entries.len() == 0 || entry_le(entries.last(), entry) {
        assert(entries.push(entry).drop_last() =~= entries);
    } else {
        let (front, last) = (entries.drop_last(), entries.last());
        lemma_placed_filter(front, entry, name, called);
        let inner = placed(front, entry);
        assert(inner.push(last).drop_last() =~= inner);
        names_are_ordered(last, entry, entry);
        names_are_ordered(entry, entry, entry);
        assert(!(called(entry) && called(last)));
    }
}

/// Entries of one name stay in the order in which they came.
pub proof fn entries_of_one_name_stay_as_they_came(entries: Seq<TreeEntryView>, name: Seq<char>)
    ensures
        in_order(entries).filter(|entry: TreeEntryView| entry.name == name) == entries.filter(
            |entry: TreeEntryView| entry.name == name,
        ),
    decreases entries.len(),
{
    reveal(Seq::filter);
    let called = |entry: TreeEntryView| entry.name == name;
    if entries.len() > 0 {
        entries_of_one_name_stay_as_they_came(entries.drop_last(), name);
        lemma_placed_filter(in_order(entries.drop_last()), entries.last(), name, called);
    }
}

} // verus!
