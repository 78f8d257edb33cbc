//! What the journal records of an operation.

use vstd::prelude::*;
use vstd::string::*;

use crate::text::decimal;
use crate::text::decimal_is_plain;
use crate::text::decimal_reads_back;
use crate::text::decimal_text;
use crate::text::decimal_value;
use crate::text::joined;

verus! {

/// One line of the journal.
#[derive(Debug, PartialEq, Eq)]
pub struct JournalEntry {
    /// Seconds since 1970.
    pub timestamp: i64,
    pub operation: String,
    pub hash: crate::hash::Hash,
    pub path: String,
    pub metadata: String,
}

/// A line of the journal with its texts as sequences of characters.
pub struct JournalEntryView {
    pub timestamp: i64,
    pub operation: Seq<char>,
    pub hash: crate::hash::Hash,
    pub path: Seq<char>,
    pub metadata: Seq<char>,
}

impl View for JournalEntry {
    type V = JournalEntryView;

    open spec fn view(&self) -> JournalEntryView {
        JournalEntryView {
            timestamp: self.timestamp,
            operation: self.operation@,
            hash: self.hash,
            path: self.path@,
            metadata: self.metadata@,
        }
    }
}

/// How the journal words the number of entries and the size of what was added.
pub open spec fn journal_metadata(entries: nat, size: nat) -> Seq<char> {
    "entries="@ + decimal(entries) + ",size="@ + decimal(size)
}

/// The path under which the journal records standard input.
pub open spec fn stdin_path() -> Seq<char> {
    "(stdin)"@
}

/// The line for an object that was added at `seconds` since 1970. Seconds that
/// a signed number cannot hold wrap around.
pub open spec fn add_record(
    seconds: u64,
    hash: crate::hash::Hash,
    path: Seq<char>,
    entries: nat,
    size: nat,
) -> JournalEntryView {
    JournalEntryView {
        timestamp: seconds as i64,
        operation: "add"@,
        hash,
        path,
        metadata: journal_metadata(entries, size),
    }
}

impl JournalEntry {
    /// A line of the journal.
    pub fn new(
        timestamp: i64,
        operation: String,
        hash: crate::hash::Hash,
        path: String,
        metadata: String,
    ) -> (entry: Self)
        ensures
            entry@ == (JournalEntryView {
                timestamp,
                operation: operation@,
                hash,
                path: path@,
                metadata: metadata@,
            }),
    {
        JournalEntry { timestamp, operation, hash, path, metadata }
    }

    /// The line for an object that was added.
    pub fn added(
        seconds: u64,
        hash: crate::hash::Hash,
        path: String,
        entries: usize,
        size: u64,
    ) -> (entry: Self)
        ensures
            entry@ == add_record(seconds, hash, path@, entries as nat, size as nat),
    {
        JournalEntry::new(
            seconds as i64,
            "add".to_owned(),
            hash,
            path,
            journal_metadata_text(entries, size),
        )
    }
}

/// Words the number of entries and the size of what was added.
pub fn journal_metadata_text(entries: usize, size: u64) -> (text: String)
    ensures
        text@ == journal_metadata(entries as nat, size as nat),
{
    let mut text = joined("entries=", decimal_text(entries as u64).as_str());
    text.append(",size=");
    text.append(decimal_text(size).as_str());
    text
}

/// The number of entries and the size can be read off the text: each stands
/// there in decimal, behind its word, with its exact value.
pub proof fn extent_reads_back(entries: nat, size: nat)
    ensures
        exists|count: Seq<char>, extent: Seq<char>|
            {
                &&& journal_metadata(entries, size) == #[trigger] ("entries="@ + count + ",size="@
                    + extent)
                &&& count.len() > 0
                &&& extent.len() > 0
                &&& forall|i: int|
                    0 <= i < count.len() ==> 48 <= (#[trigger] count[i]) as int && count[i] as int
                        <= 57
                &&& forall|i: int|
                    0 <= i < extent.len() ==> 48 <= (#[trigger] extent[i]) as int && extent[i] as int
                        <= 57
                &&& count.len() > 1 ==> count[0] as int != 48
                &&& extent.len() > 1 ==> extent[0] as int != 48
                &&& decimal_value(count) == entries
                &&& decimal_value(extent) == size
            },
{
    decimal_reads_back(entries);
    decimal_reads_back(size);
    decimal_is_plain(entries);
    decimal_is_plain(size);
    let (count, extent) = (decimal(entries), decimal(size));
    assert(journal_metadata(entries, size) == "entries="@ + count + ",size="@ + extent);
}

/// Different numbers of entries, and different sizes, are worded differently.
pub proof fn different_extents_are_worded_differently(
    entries: nat,
    size: nat,
    other_entries: nat,
    other_size: nat,
)
    requires
        journal_metadata(entries, size) == journal_metadata(other_entries, other_size),
    ensures
        entries == other_entries,
        size == other_size,
{
    decimal_reads_back(entries);
    decimal_reads_back(size);
    decimal_reads_back(other_entries);
    decimal_reads_back(other_size);
    decimal_is_plain(entries);
    decimal_is_plain(other_entries);
    reveal_strlit(",size=");
    let (word, middle) = ("entries="@, ",size="@);
    let (a, b) = (decimal(entries), decimal(size));
    let (c, d) = (decimal(other_entries), decimal(other_size));
    let text = journal_metadata(entries, size);
    let other = journal_metadata(other_entries, other_size);
    assert(middle[0] as int == 44);
    assert(text[(word.len() + a.len()) as int] == middle[0]);
    assert(other[(word.len() + c.len()) as int] == middle[0]);
    if a.len() < c.len() {
        assert(other[(word.len() + a.len()) as int] == c[a.len() as int]);
    }
    if c.len() < a.len() {
        assert(text[(word.len() + c.len()) as int] == a[c.len() as int]);
    }
    assert forall|i: int| 0 <= i < a.len() implies a[i] == c[i] by {
        assert(text[word.len() + i] == a[i]);
        assert(other[word.len() + i] == c[i]);
    }
    assert(a =~= c);
    assert(text.len() == word.len() + a.len() + middle.len() + b.len());
    assert(other.len() == word.len() + c.len() + middle.len() + d.len());
    assert(b.len() == d.len());
    assert forall|i: int| 0 <= i < b.len() implies b[i] == d[i] by {
        assert(text[word.len() + a.len() + middle.len() + i] == b[i]);
        assert(other[word.len() + a.len() + middle.len() + i] == d[i]);
    }
    assert(b =~= d);
}

/// The time of a line is the one that it is given; only a time that a signed
/// number cannot hold comes out smaller, by a full turn.
pub proof fn record_keeps_the_time(
    seconds: u64,
    hash: crate::hash::Hash,
    path: Seq<char>,
    entries: nat,
    size: nat,
)
    ensures
        seconds <= 0x7fff_ffff_ffff_ffff ==> add_record(
            seconds,
            hash,
            path,
            entries,
            size,
        ).timestamp as int == seconds as int,
        seconds > 0x7fff_ffff_ffff_ffff ==> add_record(
            seconds,
            hash,
            path,
            entries,
            size,
        ).timestamp as int == seconds as int - 0x1_0000_0000_0000_0000,
{
    assert(seconds > 0x7fff_ffff_ffff_ffff ==> (seconds as i64) as int == seconds as int
        - 0x1_0000_0000_0000_0000) by (bit_vector);
}

/// A line says what was done, to which object, and under which path.
pub proof fn record_says_what_was_added(
    seconds: u64,
    hash: crate::hash::Hash,
    path: Seq<char>,
    entries: nat,
    size: nat,
)
    ensures
        add_record(seconds, hash, path, entries, size).operation == "add"@,
        add_record(seconds, hash, path, entries, size).hash == hash,
        add_record(seconds, hash, path, entries, size).path == path,
        add_record(seconds, hash, path, entries, size).metadata == journal_metadata(
            entries,
            size,
        ),
        stdin_path() == "(stdin)"@,
{
}

} // verus!
