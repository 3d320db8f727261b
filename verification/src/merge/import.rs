//! The import of a part file: its entries are taken in with shifted ids,
//! its presentation items are collected, and its root nodes are found.

use vstd::prelude::*;
use vstd::std_specs::iter::IteratorSpec;
use vstd::string::*;
use crate::buffered_iterator::BufferedIterator;
use crate::entry::{maps_to, references, references_fit, with_references, EntryView, StepEntry};
use crate::error::Error;
use crate::root_nodes::{no_roots, roots_of, with_entry, FindRootNodes, RootsView};
use crate::text::{begins_with, definition_begins_with, skip_whitespace};
use crate::utils::{get_ids_from_mechanical_part, mechanical_part_ids, NodeStepIds};
use crate::writer::WriterView;
use crate::merge::entries::{at, entry};
use crate::merge::{MergerView, StepMerger};

verus! {

/// `Result::clone` of std: the copy of an `Ok` is an `Ok` of a copy of its
/// value, and the copy of an `Err` is an `Err` of a copy of its error.
pub assume_specification<T: Clone, E: Clone>[ <Result<T, E> as Clone>::clone ](
    r: &Result<T, E>,
) -> (res: Result<T, E>)
    ensures
        match (*r, res) {
            (Ok(a), Ok(b)) => cloned::<T>(a, b),
            (Err(a), Err(b)) => cloned::<E>(a, b),
            _ => false,
        },
;

/// The id that an id of a part file gets in the merged file: 1 for the id of
/// the application context of the part file, which thereby becomes the
/// context of the merged file, and `offset` more than it was for any other.
pub open spec fn shift(id: u64, offset: u64, context: u64) -> int {
    if id == context {
        1
    } else {
        id + offset
    }
}

/// The ids shifted, in order.
pub open spec fn shifted_ids(ids: Seq<u64>, offset: u64, context: u64) -> Seq<u64> {
    ids.map_values(|id: u64| shift(id, offset, context) as u64)
}

/// Whether the id of the entry and each of its references fit into 64 bits
/// as they are and after the shift.
pub open spec fn can_shift(entry: EntryView, offset: u64, context: u64) -> bool {
    &&& references_fit(entry.definition)
    &&& shift(entry.id, offset, context) <= u64::MAX
    &&& forall|i: int|
        0 <= i < references(entry.definition).len() ==> shift(
            #[trigger] references(entry.definition)[i],
            offset,
            context,
        ) <= u64::MAX
}

/// The entry with its id and its references shifted.
pub open spec fn shifted(entry: EntryView, offset: u64, context: u64) -> EntryView {
    EntryView {
        id: shift(entry.id, offset, context) as u64,
        definition: with_references(
            entry.definition,
            shifted_ids(references(entry.definition), offset, context),
        ),
    }
}

/// Whether the definition is that of an application context.
pub open spec fn is_context(definition: Seq<char>) -> bool {
    begins_with(skip_whitespace(definition), "APPLICATION_CONTEXT"@)
}

/// Whether the definition is one of the two that a merge leaves out: the
/// merged file has its own application context and protocol definition.
pub open spec fn is_left_out(definition: Seq<char>) -> bool {
    is_context(definition) || begins_with(
        skip_whitespace(definition),
        "APPLICATION_PROTOCOL_DEFINITION"@,
    )
}

/// Whether the definition lists presentation items.
pub open spec fn is_presentation(definition: Seq<char>) -> bool {
    begins_with(
        skip_whitespace(definition),
        "MECHANICAL_DESIGN_GEOMETRIC_PRESENTATION_REPRESENTATION"@,
    )
}

/// What the import of a part file has done so far.
pub struct ImportView {
    /// The entries that were written, with their new ids.
    pub written: Seq<EntryView>,
    /// The presentation items that were collected, with their new ids.
    pub collected: Seq<u64>,
    /// The greatest new id so far, and at least the id that was given out
    /// last before the import.
    pub max_id: u64,
    /// The record of the search for root nodes.
    pub roots: RootsView,
}

/// The state of an import that has met no entry.
pub open spec fn import_start(offset: u64) -> ImportView {
    ImportView { written: seq![], collected: seq![], max_id: offset, roots: no_roots() }
}

/// The state after one more entry of the part file. An application context
/// or protocol definition is left out. Any other entry gets its id and
/// references shifted; one that lists presentation items is not written: all
/// its references but the last are collected. Every other entry is written
/// and shown to the search for root nodes.
pub open spec fn import_entry(
    state: ImportView,
    entry: EntryView,
    offset: u64,
    context: u64,
) -> ImportView {
    if is_left_out(entry.definition) {
        state
    } else {
        let new = shifted(entry, offset, context);
        let max_id = if new.id > state.max_id {
            new.id
        } else {
            state.max_id
        };
        if is_presentation(entry.definition) {
            ImportView {
                collected: state.collected + mechanical_part_ids(new.definition),
                max_id,
                ..state
            }
        } else {
            ImportView {
                written: state.written.push(new),
                roots: with_entry(state.roots, new),
                max_id,
                ..state
            }
        }
    }
}

/// The entry that the item holds.
pub open spec fn item_entry(item: Result<StepEntry, Error>) -> EntryView {
    item->Ok_0@
}

/// The state after the first `count` items of the part file.
pub open spec fn import_items(
    items: Seq<Result<StepEntry, Error>>,
    count: int,
    offset: u64,
    context: u64,
) -> ImportView
    decreases count,
{
    if count <= 0 {
        import_start(offset)
    } else {
        import_entry(
            import_items(items, count - 1, offset, context),
            item_entry(items[count - 1]),
            offset,
            context,
        )
    }
}

/// Whether the item can be taken in: it is an entry, and one that is left
/// out or whose ids can be shifted.
pub open spec fn importable(item: Result<StepEntry, Error>, offset: u64, context: u64) -> bool {
    item matches Ok(e) && (is_left_out(e@.definition) || can_shift(e@, offset, context))
}

/// Whether `position` is where the search for the application context
/// ends: at the first item that is an error or an application context, or
/// behind the last item where there is none.
pub open spec fn context_position(items: Seq<Result<StepEntry, Error>>, position: int) -> bool {
    &&& 0 <= position <= items.len()
    &&& forall|j: int|
        0 <= j < position ==> (#[trigger] items[j]) is Ok && !is_context(
            item_entry(items[j]).definition,
        )
    &&& position < items.len() ==> items[position] is Err || is_context(
        item_entry(items[position]).definition,
    )
}

/// Whether `position` is where the import ends: at the first item that
/// cannot be taken in, or behind the last item.
pub open spec fn import_end(
    items: Seq<Result<StepEntry, Error>>,
    position: int,
    offset: u64,
    context: u64,
) -> bool {
    &&& 0 <= position <= items.len()
    &&& forall|j: int| 0 <= j < position ==> importable(#[trigger] items[j], offset, context)
    &&& position < items.len() ==> !importable(items[position], offset, context)
}

/// What the search for the application context of a part file leaves: the
/// items up to and including the context are kept for a second pass, and the
/// id of the context is found; or the items have come to an end, all of them
/// are kept, and the id that is found is 0; or an item is an error, which is
/// then the result.
pub open spec fn context_search(
    items: Seq<Result<StepEntry, Error>>,
    position: int,
    kept: Seq<Result<StepEntry, Error>>,
    left: Seq<Result<StepEntry, Error>>,
    found: Result<u64, Error>,
) -> bool {
    &&& context_position(items, position)
    &&& if position == items.len() {
        found == Ok::<u64, Error>(0) && kept == items && left.len() == 0
    } else if items[position] is Err {
        found == Err::<u64, Error>(items[position]->Err_0)
    } else {
        &&& found == Ok::<u64, Error>(item_entry(items[position]).id)
        &&& kept == items.take(position + 1)
        &&& left == items.skip(position + 1)
    }
}

/// What the import of the part file `filename` with the given items does to
/// a merger, where the search for the application context ends at
/// `position` and the import itself at `end`.
///
/// Without an application context, or with one whose id is 0, the import
/// fails and changes nothing; so it does where an error precedes the
/// context. Else the items before `end` are taken in, one by one, with their
/// ids shifted by the id that was given out last. Where `end` lies behind the
/// last item the result holds the root nodes of the part file, and the id
/// that is given out last is from now on the greatest new id. Where the item
/// at `end` is an error, that error is the result; where it is an entry
/// whose ids cannot be shifted, the result is `InvalidNumber`.
pub open spec fn import_outcome(
    items: Seq<Result<StepEntry, Error>>,
    filename: Seq<char>,
    before: MergerView,
    after: MergerView,
    result: Result<Vec<NodeStepIds>, Error>,
    position: int,
    end: int,
) -> bool {
    &&& context_position(items, position)
    &&& if position == items.len() || (items[position] is Ok && item_entry(items[position]).id
        == 0) {
        &&& after == before
        &&& result matches Err(Error::AppContextMissing(name))
        &&& name@ == filename
    } else if items[position] is Err {
        &&& after == before
        &&& result == Err::<Vec<NodeStepIds>, Error>(items[position]->Err_0)
    } else {
        let offset = before.id_counter;
        let context = item_entry(items[position]).id;
        let state = import_items(items, end, offset, context);
        &&& import_end(items, end, offset, context)
        &&& after.writer == (WriterView {
            entries: before.writer.entries + state.written,
            ..before.writer
        })
        &&& after.mechanical_design_ids == before.mechanical_design_ids + state.collected
        &&& after.default_coordinate_system == before.default_coordinate_system
        &&& if end == items.len() {
            &&& after.id_counter == state.max_id
            &&& result matches Ok(roots)
            &&& roots@ == roots_of(state.roots)
        } else {
            &&& after.id_counter == before.id_counter
            &&& match items[end] {
                Err(e) => result == Err::<Vec<NodeStepIds>, Error>(e),
                Ok(_) => result matches Err(e) && e is InvalidNumber,
            }
        }
    }
}

/// A copy of an item is the item.
proof fn lemma_copy_is_exact(item: Result<StepEntry, Error>, copy: Result<StepEntry, Error>)
    requires
        cloned(item, copy),
    ensures
        copy == item,
{
}

/// Whether `id` fits into 64 bits after the shift.
fn id_can_shift(id: u64, offset: u64, context: u64) -> (ok: bool)
    ensures
        ok == (shift(id, offset, context) <= u64::MAX),
{
    id == context || id <= u64::MAX - offset
}

/// Whether the ids of `entry` can be shifted.
fn entry_can_shift(entry: &StepEntry, offset: u64, context: u64) -> (ok: bool)
    ensures
        ok == can_shift(entry@, offset, context),
{
    if !entry.has_valid_references() {
        return false;
    }
    if !id_can_shift(entry.get_id(), offset, context) {
        return false;
    }
    let found = entry.get_references();
    let mut i: usize = 0;
    while i < found.len()
        invariant
            i <= found.len(),
            found@ == references(entry@.definition),
            references_fit(entry@.definition),
            shift(entry@.id, offset, context) <= u64::MAX,
            forall|j: int| 0 <= j < i ==> shift(#[trigger] found@[j], offset, context) <= u64::MAX,
        decreases found.len() - i,
    {
        if !id_can_shift(found[i], offset, context) {
            return false;
        }
        i += 1;
    }
    true
}

/// Draws items until one is an error or an application context, and keeps
/// them for a second pass.
fn find_context<I: Iterator<Item = Result<StepEntry, Error>>>(
    entries: &mut BufferedIterator<Result<StepEntry, Error>, I>,
) -> (found: Result<u64, Error>)
    requires
        old(entries).mode() is FillBuffer,
        old(entries).buffered().len() == 0,
        old(entries).inner().obeys_prophetic_iter_laws(),
        old(entries).inner().decrease() is Some,
    ensures
        final(entries).mode() is FillBuffer,
        final(entries).inner().obeys_prophetic_iter_laws(),
        final(entries).inner().decrease() is Some,
        exists|position: int| #[trigger]
            context_search(
                old(entries).inner().remaining(),
                position,
                final(entries).buffered(),
                final(entries).inner().remaining(),
                found,
            ),
{
    let ghost items = entries.inner().remaining();
    let ghost mut k: int = 0;
    assert(items.take(0) =~= entries.buffered());
    assert(items.skip(0) =~= items);
    loop
        invariant
            entries.mode() is FillBuffer,
            entries.inner().obeys_prophetic_iter_laws(),
            entries.inner().decrease() is Some,
            items == old(entries).inner().remaining(),
            0 <= k <= items.len(),
            entries.buffered() == items.take(k),
            entries.inner().remaining() == items.skip(k),
            forall|j: int|
                0 <= j < k ==> (#[trigger] items[j]) is Ok && !is_context(
                    item_entry(items[j]).definition,
                ),
        decreases entries.inner().decrease()->0,
    {
        let ghost kept = entries.buffered();
        let item = entries.next();
        assert(k < items.len() ==> item == Some(items[k]) && entries.buffered() == items.take(
            k + 1,
        ) && entries.inner().remaining() == items.skip(k + 1)) by {
            if k < items.len() {
                assert(items.skip(k)[0] == items[k]);
                assert(items.skip(k).drop_first() =~= items.skip(k + 1));
                lemma_copy_is_exact(items[k], entries.buffered().last());
                assert(entries.buffered() =~= kept.push(items[k]));
                assert(items.take(k + 1) =~= items.take(k).push(items[k]));
            }
        }
        assert(k == items.len() ==> item is None && entries.buffered() == items) by {
            if k == items.len() {
                assert(items.take(k) =~= items);
            }
        }
        match item {
            None => {
                assert(context_search(
                    items,
                    k,
                    entries.buffered(),
                    entries.inner().remaining(),
                    Ok::<u64, Error>(0),
                ));
                return Ok(0);
            },
            Some(Err(e)) => {
                assert(context_search(
                    items,
                    k,
                    entries.buffered(),
                    entries.inner().remaining(),
                    Err::<u64, Error>(e),
                ));
                return Err(e);
            },
            Some(Ok(entry)) => {
                if definition_begins_with(entry.get_definition(), "APPLICATION_CONTEXT") {
                    assert(context_search(
                        items,
                        k,
                        entries.buffered(),
                        entries.inner().remaining(),
                        Ok::<u64, Error>(entry@.id),
                    ));
                    return Ok(entry.get_id());
                }
                proof {
                    k = k + 1;
                }
            },
        }
    }
}

/// An import leaves the header and the default coordinate system as they
/// are, and the entries that were written before it stay where they are.
pub proof fn lemma_import_appends(
    items: Seq<Result<StepEntry, Error>>,
    filename: Seq<char>,
    before: MergerView,
    after: MergerView,
    result: Result<Vec<NodeStepIds>, Error>,
    position: int,
    end: int,
)
    requires
        import_outcome(items, filename, before, after, result, position, end),
    ensures
        after.writer.header == before.writer.header,
        after.writer.is_finalized == before.writer.is_finalized,
        after.default_coordinate_system == before.default_coordinate_system,
        exists|more: Seq<EntryView>| after.writer.entries == before.writer.entries + more,
{
    if position == items.len() || (items[position] is Ok && item_entry(items[position]).id == 0)
        || items[position] is Err {
        assert(after.writer.entries =~= before.writer.entries + Seq::<EntryView>::empty());
    } else {
        let state = import_items(
            items,
            end,
            before.id_counter,
            item_entry(items[position]).id,
        );
        assert(after.writer.entries == before.writer.entries + state.written);
    }
}

impl StepMerger {
    /// Takes the entries of the part file `filename` in.
    ///
    /// A first pass draws entries until it meets the application context of
    /// the part file. A second pass goes over all entries from the first one
    /// on, shifts their ids by the id that was given out last (the id of the
    /// application context becomes 1), leaves the application context and
    /// the protocol definition out, collects the presentation items, and
    /// writes every other entry. The result holds the root nodes of the part
    /// file.
    pub fn load_and_add_step_entries<I: Iterator<Item = Result<StepEntry, Error>>>(
        &mut self,
        entries: I,
        filename: &str,
    ) -> (result: Result<Vec<NodeStepIds>, Error>)
        requires
            !old(self)@.writer.is_finalized,
            entries.obeys_prophetic_iter_laws(),
            entries.decrease() is Some,
        ensures
            !final(self)@.writer.is_finalized,
            exists|position: int, end: int| #[trigger]
                import_outcome(
                    entries.remaining(),
                    filename@,
                    old(self)@,
                    final(self)@,
                    result,
                    position,
                    end,
                ),
    {
        let ghost items = entries.remaining();
        let mut stream = BufferedIterator::new(entries);
        stream.set_buffering_mode();
        let found = find_context(&mut stream);
        let ghost position = choose|position: int| #[trigger]
            context_search(
                items,
                position,
                stream.buffered(),
                stream.inner().remaining(),
                found,
            );
        let app_context_id = match found {
            Ok(id) => id,
            Err(e) => {
                assert(import_outcome(items, filename@, old(self)@, self@, Err(e), position, 0));
                return Err(e);
            },
        };
        if app_context_id == 0 {
            let result = Err(Error::AppContextMissing(filename.to_owned()));
            assert(import_outcome(items, filename@, old(self)@, self@, result, position, 0));
            return result;
        }
        stream.reset();

        let id_offset = self.id_counter;
        let update_id = |id: u64| -> (new_id: u64)
            requires
                shift(id, id_offset, app_context_id) <= u64::MAX,
            ensures
                new_id == shift(id, id_offset, app_context_id),
            {
                if id == app_context_id {
                    1
                } else {
                    id + id_offset
                }
            };
        let mut max_id = id_offset;
        let mut find_root_nodes = FindRootNodes::new();
        let ghost mut n: int = 0;
        assert(stream.replay() + stream.inner().remaining() =~= items.skip(0)) by {
            assert(items.take(position + 1) + items.skip(position + 1) =~= items);
            assert(items.skip(0) =~= items);
        }
        assert(self@.writer.entries + Seq::<EntryView>::empty() =~= self@.writer.entries);
        assert(self@.mechanical_design_ids + Seq::<u64>::empty() =~= self@.mechanical_design_ids);
        loop
            invariant
                items == entries.remaining(),
                0 <= n <= items.len(),
                0 <= position < items.len(),
                context_position(items, position),
                items[position] is Ok,
                item_entry(items[position]).id == app_context_id,
                app_context_id != 0,
                id_offset == old(self)@.id_counter,
                !(stream.mode() is FillBuffer),
                stream.inner().obeys_prophetic_iter_laws(),
                stream.inner().decrease() is Some,
                stream.replay() + stream.inner().remaining() == items.skip(n),
                forall|j: int|
                    0 <= j < n ==> importable(#[trigger] items[j], id_offset, app_context_id),
                forall|id: u64|
                    shift(id, id_offset, app_context_id) <= u64::MAX ==> call_requires(
                        update_id,
                        (id,),
                    ),
                forall|id: u64, new_id: u64|
                    call_ensures(update_id, (id,), new_id) ==> new_id == shift(
                        id,
                        id_offset,
                        app_context_id,
                    ),
                !self@.writer.is_finalized,
                self@.writer == (WriterView {
                    entries: old(self)@.writer.entries + import_items(
                        items,
                        n,
                        id_offset,
                        app_context_id,
                    ).written,
                    ..old(self)@.writer
                }),
                self@.mechanical_design_ids == old(self)@.mechanical_design_ids + import_items(
                    items,
                    n,
                    id_offset,
                    app_context_id,
                ).collected,
                self@.default_coordinate_system == old(self)@.default_coordinate_system,
                self@.id_counter == old(self)@.id_counter,
                max_id == import_items(items, n, id_offset, app_context_id).max_id,
                find_root_nodes@ == import_items(items, n, id_offset, app_context_id).roots,
            decreases stream.replay().len(), stream.inner().decrease()->0,
        {
            let ghost state = import_items(items, n, id_offset, app_context_id);
            let ghost replay = stream.replay();
            let ghost left = stream.inner().remaining();
            let item = stream.next();
            assert(n < items.len() ==> item == Some(items[n]) && stream.replay()
                + stream.inner().remaining() == items.skip(n + 1)) by {
                if n < items.len() {
                    assert(items.skip(n)[0] == items[n]);
                    assert(items.skip(n).drop_first() =~= items.skip(n + 1));
                    if replay.len() > 0 {
                        assert((replay + left)[0] == replay[0]);
                        lemma_copy_is_exact(replay[0], item->0);
                        assert(replay.drop_first() + left =~= (replay + left).drop_first());
                    } else {
                        assert(replay + left =~= left);
                        assert(stream.replay() + stream.inner().remaining()
                            =~= stream.inner().remaining());
                    }
                }
            }
            assert(n == items.len() ==> item is None) by {
                if n == items.len() {
                    assert((replay + left).len() == 0);
                }
            }
            let entry = match item {
                None => {
                    self.id_counter = max_id;
                    let roots = find_root_nodes.get_root_nodes();
                    assert(import_outcome(
                        items,
                        filename@,
                        old(self)@,
                        self@,
                        Ok(roots),
                        position,
                        n,
                    ));
                    return Ok(roots);
                },
                Some(Err(e)) => {
                    assert(import_outcome(
                        items,
                        filename@,
                        old(self)@,
                        self@,
                        Err(e),
                        position,
                        n,
                    ));
                    return Err(e);
                },
                Some(Ok(entry)) => entry,
            };
            let left_out = definition_begins_with(entry.get_definition(), "APPLICATION_CONTEXT")
                || definition_begins_with(
                entry.get_definition(),
                "APPLICATION_PROTOCOL_DEFINITION",
            );
            if !left_out {
                if !entry_can_shift(&entry, id_offset, app_context_id) {
                    let result = Err(Self::out_of_ids());
                    assert(import_outcome(
                        items,
                        filename@,
                        old(self)@,
                        self@,
                        result,
                        position,
                        n,
                    ));
                    return result;
                }
                let presentation = definition_begins_with(
                    entry.get_definition(),
                    "MECHANICAL_DESIGN_GEOMETRIC_PRESENTATION_REPRESENTATION",
                );
                let mut new_entry = entry;
                new_entry.update_references_by(&update_id);
                proof {
                    let found = references(entry@.definition);
                    let ids = choose|ids: Seq<u64>|
                        maps_to(update_id, found, ids) && new_entry@.definition == with_references(
                            entry@.definition,
                            ids,
                        );
                    assert(ids =~= shifted_ids(found, id_offset, app_context_id));
                    assert(new_entry@ == shifted(entry@, id_offset, app_context_id));
                }
                if new_entry.get_id() > max_id {
                    max_id = new_entry.get_id();
                }
                if presentation {
                    let ghost before = self.mechanical_design_ids@;
                    get_ids_from_mechanical_part(&new_entry, &mut self.mechanical_design_ids);
                    assert(old(self)@.mechanical_design_ids + (state.collected
                        + mechanical_part_ids(new_entry@.definition)) =~= before
                        + mechanical_part_ids(new_entry@.definition));
                } else {
                    find_root_nodes.add_entry(&new_entry);
                    let _ = self.writer.write_entry(&new_entry);
                    assert(old(self)@.writer.entries + state.written.push(new_entry@)
                        =~= self@.writer.entries);
                }
            }
            proof {
                n = n + 1;
            }
        }
    }
}

} // verus!
