//! The entries of one STEP file, held in memory together with the range of
//! their ids.

use std::ops::Range;
use vstd::prelude::*;
use crate::entry::{maps_to, references, references_fit, with_references, EntryView, StepEntry};
use crate::error::Error;
use crate::parser::{entries_from, is_item, ParserView, STEPParser};
use crate::reader::{reports, ReadError, ReaderState, Step};
use vstd::string::*;

verus! {

/// The range of ids after an entry with the id `id` is added to entries with
/// the range `start..end`.
pub open spec fn range_with(start: u64, end: u64, id: u64) -> (u64, u64) {
    if start >= end {
        (id, (id + 1) as u64)
    } else {
        (if id < start { id } else { start }, if id + 1 > end { (id + 1) as u64 } else { end })
    }
}

/// The smallest id among the entries (0 where there is none).
pub open spec fn least_id(entries: Seq<EntryView>) -> u64
    decreases entries.len(),
{
    if entries.len() == 0 {
        0
    } else if entries.len() == 1 {
        entries[0].id
    } else {
        let rest = least_id(entries.drop_last());
        if entries.last().id < rest {
            entries.last().id
        } else {
            rest
        }
    }
}

/// The greatest id among the entries (0 where there is none).
pub open spec fn greatest_id(entries: Seq<EntryView>) -> u64
    decreases entries.len(),
{
    if entries.len() == 0 {
        0
    } else {
        let rest = greatest_id(entries.drop_last());
        if entries.last().id > rest {
            entries.last().id
        } else {
            rest
        }
    }
}

/// The range of ids that the entries span: empty where there is no entry,
/// else from the smallest id up to and including the greatest.
pub open spec fn range_of(entries: Seq<EntryView>) -> (u64, u64) {
    if entries.len() == 0 {
        (0, 0)
    } else {
        (least_id(entries), (greatest_id(entries) + 1) as u64)
    }
}

/// The views of the entries, in order.
pub open spec fn views(entries: Seq<StepEntry>) -> Seq<EntryView> {
    entries.map_values(|e: StepEntry| e@)
}

/// Whether `after` is `before` with its id and its references replaced by
/// what `f` returns for them.
pub open spec fn rewritten_by<F: Fn(u64) -> u64>(f: F, before: EntryView, after: EntryView) -> bool {
    &&& call_ensures(f, (before.id,), after.id)
    &&& exists|ids: Seq<u64>|
        maps_to(f, references(before.definition), ids) && after.definition == with_references(
            before.definition,
            ids,
        )
}

/// Whether `f` can rewrite the entry: the references of its definition fit
/// into 64 bits, and `f` can be called for its id and for each of them.
pub open spec fn can_rewrite<F: Fn(u64) -> u64>(f: F, entry: EntryView) -> bool {
    &&& references_fit(entry.definition)
    &&& call_requires(f, (entry.id,))
    &&& forall|k: int|
        0 <= k < references(entry.definition).len() ==> call_requires(
            f,
            (#[trigger] references(entry.definition)[k],),
        )
}

/// What a STEP file holds.
pub enum FileEntries {
    /// The file does not begin as a STEP file begins, up to its data
    /// section, or one of its elements before the data section is greater
    /// than the greatest buffer.
    NoData(ReadError),
    /// The items of the data section: its entries, and last the error of an
    /// entry that cannot be read, where there is one.
    Data(Seq<Result<EntryView, ReadError>>),
}

/// What the STEP file with the given bytes holds.
pub open spec fn file_entries(bytes: Seq<u8>) -> FileEntries {
    let start = ParserView { state: ReaderState::Start, rest: bytes };
    if start.too_long(true) {
        FileEntries::NoData(ReadError::TooLong)
    } else {
        match start.seeks().found {
            Step::Failed(error) => FileEntries::NoData(error),
            _ => FileEntries::Data(
                entries_from(start.after(start.seeks().state, start.seeks().taken)),
            ),
        }
    }
}

/// Whether the item is an entry whose id is not the greatest that 64 bits
/// hold.
pub open spec fn usable(item: Result<EntryView, ReadError>) -> bool {
    item matches Ok(entry) && entry.id < u64::MAX
}

/// The index of the first item that is not usable, if there is one.
pub open spec fn first_unusable(items: Seq<Result<EntryView, ReadError>>) -> Option<int> {
    if exists|k: int| 0 <= k < items.len() && !usable(#[trigger] items[k]) {
        Some(choose|k: int| is_first_unusable(items, k))
    } else {
        None
    }
}

/// Whether the item at `k` is the first that is not usable.
pub open spec fn is_first_unusable(items: Seq<Result<EntryView, ReadError>>, k: int) -> bool {
    &&& 0 <= k < items.len()
    &&& !usable(items[k])
    &&& forall|j: int| 0 <= j < k ==> usable(#[trigger] items[j])
}

/// The entries that the items hold.
pub open spec fn entries_of(items: Seq<Result<EntryView, ReadError>>) -> Seq<EntryView> {
    items.map_values(|item: Result<EntryView, ReadError>| item->Ok_0)
}

/// The first item that is not usable is the one behind usable items.
pub proof fn lemma_first_unusable(items: Seq<Result<EntryView, ReadError>>, k: int)
    requires
        is_first_unusable(items, k),
    ensures
        first_unusable(items) == Some(k),
{
    let found = choose|j: int| is_first_unusable(items, j);
    assert(is_first_unusable(items, found));
    if found < k {
        assert(usable(items[found]));
    } else if k < found {
        assert(usable(items[k]));
    }
}

/// Where all items are usable, none is the first that is not.
pub proof fn lemma_all_usable(items: Seq<Result<EntryView, ReadError>>)
    requires
        forall|j: int| 0 <= j < items.len() ==> usable(#[trigger] items[j]),
    ensures
        first_unusable(items) is None,
{
}

/// What STEP data is to a reader of the crate.
pub struct StepDataView {
    pub entries: Seq<EntryView>,
    pub id_range: (u64, u64),
}

/// The entries of a STEP file and the range that their ids span.
pub struct StepData {
    /// The entries, in the order of the file.
    entries: Vec<StepEntry>,
    /// The range of the ids.
    id_range: Range<u64>,
}

impl View for StepData {
    type V = StepDataView;

    closed spec fn view(&self) -> StepDataView {
        StepDataView {
            entries: views(self.entries@),
            id_range: (self.id_range.start, self.id_range.end),
        }
    }
}

impl StepData {
    /// Data without entries; the range of its ids is `0..0`.
    pub fn new() -> (data: StepData)
        ensures
            data@.entries.len() == 0,
            data@.id_range == (0u64, 0u64),
    {
        StepData { entries: Vec::new(), id_range: 0..0 }
    }

    /// The entries of the STEP file with the text `s`. The result is the
    /// first error of the file, where it has one; an entry with the greatest
    /// id that 64 bits hold is an error too.
    pub fn from_str(s: &str) -> (result: Result<StepData, Error>)
        ensures
            match file_entries(s.spec_bytes()) {
                FileEntries::NoData(error) => result matches Err(e) && reports(error, e),
                FileEntries::Data(items) => match first_unusable(items) {
                    Some(k) => result matches Err(e) && match items[k] {
                        Ok(_) => e is InvalidNumber,
                        Err(error) => reports(error, e),
                    },
                    None => result matches Ok(data) && data@.entries == entries_of(items)
                        && data@.id_range == range_of(entries_of(items)),
                },
            },
    {
        let ghost found = file_entries(s.spec_bytes());
        let parser = match STEPParser::new(s.as_bytes()) {
            Ok(parser) => parser,
            Err(e) => {
                return Err(e);
            },
        };
        let ghost wanted = found->Data_0;
        let items = parser.read_all();
        let mut entries: Vec<StepEntry> = Vec::new();
        let mut i: usize = 0;
        while i < items.len()
            invariant
                i <= items.len(),
                items@.len() == wanted.len(),
                found == file_entries(s.spec_bytes()),
                found == FileEntries::Data(wanted),
                forall|j: int| 0 <= j < items@.len() ==> is_item(wanted[j], #[trigger] items@[j]),
                forall|j: int| 0 <= j < i ==> usable(#[trigger] wanted[j]),
                entries@.len() == i,
                forall|j: int| 0 <= j < i ==> (#[trigger] entries@[j])@ == wanted[j]->Ok_0,
                forall|j: int| 0 <= j < entries@.len() ==> (#[trigger] entries@[j])@.id < u64::MAX,
            decreases items.len() - i,
        {
            assert(is_item(wanted[i as int], items@[i as int]));
            match &items[i] {
                Ok(entry) => {
                    if entry.get_id() == u64::MAX {
                        proof {
                            lemma_first_unusable(wanted, i as int);
                        }
                        return Err(
                            Error::InvalidNumber("the id of an entry is too great".to_owned()),
                        );
                    }
                    entries.push(entry.clone());
                },
                Err(e) => {
                    proof {
                        lemma_first_unusable(wanted, i as int);
                    }
                    return Err(e.clone());
                },
            }
            i += 1;
        }
        proof {
            lemma_all_usable(wanted);
            assert(views(entries@) =~= entries_of(wanted));
        }
        let mut data = StepData::new();
        data.set_entries(entries);
        Ok(data)
    }

    /// Rewrites every entry by `f`, as `StepEntry::update_references` does, and
    /// maps both ends of the id range by `f`.
    pub fn update_reference<F: Fn(u64) -> u64>(&mut self, f: F)
        requires
            call_requires(f, (old(self)@.id_range.0,)),
            call_requires(f, (old(self)@.id_range.1,)),
            forall|i: int|
                0 <= i < old(self)@.entries.len() ==> can_rewrite(
                    f,
                    #[trigger] old(self)@.entries[i],
                ),
        ensures
            final(self)@.entries.len() == old(self)@.entries.len(),
            forall|i: int|
                0 <= i < old(self)@.entries.len() ==> rewritten_by(
                    f,
                    old(self)@.entries[i],
                    #[trigger] final(self)@.entries[i],
                ),
            call_ensures(f, (old(self)@.id_range.0,), final(self)@.id_range.0),
            call_ensures(f, (old(self)@.id_range.1,), final(self)@.id_range.1),
    {
        let mut updated: Vec<StepEntry> = Vec::new();
        let mut i: usize = 0;
        proof {
            assert forall|j: int| 0 <= j < self.entries@.len() implies can_rewrite(
                f,
                (#[trigger] self.entries@[j])@,
            ) by {
                assert(self@.entries[j] == self.entries@[j]@);
            }
        }
        while i < self.entries.len()
            invariant
                i <= self.entries.len(),
                *self == *old(self),
                updated@.len() == i,
                call_requires(f, (self@.id_range.0,)),
                call_requires(f, (self@.id_range.1,)),
                forall|j: int|
                    0 <= j < self.entries@.len() ==> can_rewrite(
                        f,
                        (#[trigger] self.entries@[j])@,
                    ),
                forall|j: int|
                    0 <= j < i ==> rewritten_by(f, self.entries@[j]@, (#[trigger] updated@[j])@),
            decreases self.entries.len() - i,
        {
            let mut entry = self.entries[i].clone();
            let ghost done = updated@;
            assert(can_rewrite(f, self.entries@[i as int]@));
            entry.update_references_by(&f);
            assert(rewritten_by(f, self.entries@[i as int]@, entry@));
            updated.push(entry);
            proof {
                assert forall|j: int| 0 <= j < i + 1 implies rewritten_by(
                    f,
                    self.entries@[j]@,
                    (#[trigger] updated@[j])@,
                ) by {
                    if j < i {
                        assert(updated@[j] == done[j]);
                    } else {
                        assert(updated@[j] == entry);
                    }
                }
            }
            i += 1;
        }
        let start = f(self.id_range.start);
        let end = f(self.id_range.end);
        self.entries = updated;
        self.id_range = start..end;
        proof {
            assert forall|j: int| 0 <= j < old(self)@.entries.len() implies rewritten_by(
                f,
                old(self)@.entries[j],
                #[trigger] self@.entries[j],
            ) by {
                assert(self.entries@[j]@ == self@.entries[j]);
                assert(old(self).entries@[j]@ == old(self)@.entries[j]);
            }
        }
    }

    /// Adds an entry at the end and widens the id range to hold its id.
    pub fn add_entry(&mut self, entry: StepEntry)
        requires
            entry@.id < u64::MAX,
        ensures
            final(self)@.entries == old(self)@.entries.push(entry@),
            final(self)@.id_range == range_with(
                old(self)@.id_range.0,
                old(self)@.id_range.1,
                entry@.id,
            ),
    {
        let id = entry.get_id();
        if self.id_range.start >= self.id_range.end {
            self.id_range = id..(id + 1);
        } else {
            let start = if id < self.id_range.start {
                id
            } else {
                self.id_range.start
            };
            let end = if id + 1 > self.id_range.end {
                id + 1
            } else {
                self.id_range.end
            };
            self.id_range = start..end;
        }
        self.entries.push(entry);
        assert(views(self.entries@) =~= views(old(self).entries@).push(entry@));
    }

    /// Replaces the entries and sets the id range to the range that they span.
    pub fn set_entries(&mut self, entries: Vec<StepEntry>)
        requires
            forall|i: int| 0 <= i < entries@.len() ==> (#[trigger] entries@[i])@.id < u64::MAX,
        ensures
            final(self)@.entries == views(entries@),
            final(self)@.id_range == range_of(views(entries@)),
    {
        if entries.len() == 0 {
            self.id_range = 0..0;
        } else {
            let mut least = entries[0].get_id();
            let mut greatest = entries[0].get_id();
            let mut i: usize = 1;
            let ghost all = views(entries@);
            assert(all.take(1).drop_last() =~= Seq::<EntryView>::empty());
            assert(greatest_id(all.take(1).drop_last()) == 0);
            while i < entries.len()
                invariant
                    1 <= i <= entries.len(),
                    all == views(entries@),
                    least == least_id(all.take(i as int)),
                    greatest == greatest_id(all.take(i as int)),
                    forall|j: int| 0 <= j < entries@.len() ==> (#[trigger] entries@[j])@.id < u64::MAX,
                    greatest < u64::MAX,
                decreases entries.len() - i,
            {
                let id = entries[i].get_id();
                proof {
                    assert(all.take(i + 1).drop_last() =~= all.take(i as int));
                    assert(all.take(i + 1).last() == entries@[i as int]@);
                }
                if id < least {
                    least = id;
                }
                if id > greatest {
                    greatest = id;
                }
                i += 1;
            }
            assert(all.take(i as int) =~= all);
            self.id_range = least..(greatest + 1);
        }
        self.entries = entries;
    }

    /// The entries, in order.
    pub fn get_entries(&self) -> (entries: &[StepEntry])
        ensures
            views(entries@) == self@.entries,
    {
        self.entries.as_slice()
    }

    /// The range of the ids.
    pub fn get_id_range(&self) -> (range: Range<u64>)
        ensures
            (range.start, range.end) == self@.id_range,
    {
        self.id_range.start..self.id_range.end
    }
}

} // verus!
