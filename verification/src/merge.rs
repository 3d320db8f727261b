//! The merge driver: it writes the entries that stand for the assembly
//! tree, takes the entries of the part files in with shifted ids, ties the
//! roots of each part file to the node that links to it, and closes with the
//! entry that lists all presentation items.

pub mod entries;
pub mod import;
pub mod laws;
pub mod references;
pub mod structure;
pub mod unlinked;

use vstd::prelude::*;
use vstd::string::*;
use crate::assembly::{Assembly, NodeView};
use vstd::std_specs::iter::IteratorSpec;
use crate::entry::{references, EntryView, StepEntry};
use crate::error::Error;
use crate::template::{decimals, fill, fill_ids, filled};
use crate::writer::{texts, StepWriter, WriterView};
use crate::merge::entries::{at, closing_entries, entry, origin_entries};
use crate::merge::import::{shifted};
use crate::merge::structure::{all_node_ids, lemma_structure_len, structure_entries, structure_size};
use crate::merge::references::{
    ReferenceView,
    all_root_relations,
    holds_links,
    lemma_no_root_relations,
    names_link,
    parts_taken,
    roots_count,
    taken_of,
    tied_state,
    ReferenceMap,
    Resolved,
};

verus! {

/// The entries of a merge, from the id 1 on: those of the assembly tree;
/// the entries `added` that were taken in from the part files, after which
/// `offset` is the id that was given out last; the entries that tie the root
/// nodes of the part files, which `map` holds, to the nodes; and the entries
/// that close the data section, with the presentation items `items`.
pub open spec fn merged_entries(
    nodes: Seq<NodeView>,
    added: Seq<EntryView>,
    map: Seq<ReferenceView>,
    offset: u64,
    items: Seq<u64>,
) -> Seq<EntryView> {
    structure_entries(nodes) + added + all_root_relations(
        nodes,
        all_node_ids(nodes, nodes.len() as int, 7),
        map,
        nodes.len() as int,
        at(offset, 1),
        6,
    ) + closing_entries(
        at(offset, 9 * roots_count(nodes, map, nodes.len() as int) + 1),
        items,
    )
}

/// The entries of a merge without part files, from the id 1 on: those of the
/// assembly tree and those that close the data section, with no presentation
/// item.
pub open spec fn plain_entries(nodes: Seq<NodeView>) -> Seq<EntryView> {
    structure_entries(nodes) + closing_entries(at(0, structure_size(nodes) + 1), seq![])
}

/// The state of a merger that started as `start` after the entries of the
/// assembly tree are written.
pub open spec fn structured(start: MergerView, nodes: Seq<NodeView>) -> MergerView {
    MergerView { default_coordinate_system: 6, ..start.wrote(structure_entries(nodes)) }
}

/// The state with the writer not yet closed.
pub open spec fn opened(view: MergerView) -> MergerView {
    MergerView { writer: WriterView { is_finalized: false, ..view.writer }, ..view }
}

/// Whether `after` and `result` are what a merge with part files makes of
/// `start`, before the writer is closed, where `resolved` holds what the
/// resolver has made of the links. The entries of the assembly tree are
/// written first. Then the part files are taken in and their root nodes are
/// tied to the nodes, as `parts_taken` says; where that fails, its error is
/// the result and nothing more is written. Else the entries that close the
/// data section are written; where the ids run out for them, the result is
/// `InvalidNumber`.
pub open spec fn merged_with(
    resolved: Seq<Resolved>,
    nodes: Seq<NodeView>,
    start: MergerView,
    after: MergerView,
    result: Result<(), Error>,
) -> bool {
    exists|linked: MergerView, tied: Result<Seq<ReferenceView>, Error>|
        {
            &&& #[trigger] parts_taken(
                resolved,
                nodes,
                all_node_ids(nodes, nodes.len() as int, 7),
                structured(start, nodes),
                linked,
                tied,
            )
            &&& match tied {
                Err(e) => result == Err::<(), Error>(e) && after == linked,
                Ok(_) => if linked.id_counter + 9 > u64::MAX {
                    &&& after == linked
                    &&& result matches Err(e) && e is InvalidNumber
                } else {
                    &&& result is Ok
                    &&& after == linked.wrote(
                        closing_entries(at(linked.id_counter, 1), linked.mechanical_design_ids),
                    )
                },
            }
        }
}

/// What a merger is to a reader of the crate.
pub struct MergerView {
    /// The state of the writer.
    pub writer: WriterView,
    /// The id of the placement that all transformations start from.
    pub default_coordinate_system: u64,
    /// The id that was given out last.
    pub id_counter: u64,
    /// The presentation items that were collected from the part files.
    pub mechanical_design_ids: Seq<u64>,
}

impl MergerView {
    /// The state after the entries are written that use up the ids that
    /// follow the last one given out.
    pub open spec fn wrote(self, entries: Seq<EntryView>) -> MergerView {
        MergerView {
            writer: WriterView { entries: self.writer.entries + entries, ..self.writer },
            id_counter: at(self.id_counter, entries.len() as int),
            ..self
        }
    }
}

/// The merger: a writer together with the counter that gives out ids.
pub struct StepMerger {
    /// The writer of the merged file.
    writer: StepWriter,
    /// The id of the entry of the default coordinate system.
    default_coordinate_system: u64,
    /// The id counter for the entries.
    id_counter: u64,
    /// The list of the collected presentation items.
    mechanical_design_ids: Vec<u64>,
}

impl View for StepMerger {
    type V = MergerView;

    closed spec fn view(&self) -> MergerView {
        MergerView {
            writer: self.writer@,
            default_coordinate_system: self.default_coordinate_system,
            id_counter: self.id_counter,
            mechanical_design_ids: self.mechanical_design_ids@,
        }
    }
}

impl StepMerger {
    /// Whether `count` more ids can be given out.
    fn has_room(&self, count: u64) -> (room: bool)
        ensures
            room == (self@.id_counter + count <= u64::MAX),
    {
        self.id_counter <= u64::MAX - count
    }

    /// Writes an entry with the next id and the given definition.
    fn add_entry(&mut self, definition: &str) -> (id: u64)
        requires
            !old(self)@.writer.is_finalized,
            old(self)@.id_counter < u64::MAX,
        ensures
            id == old(self)@.id_counter + 1,
            final(self)@ == old(self)@.wrote(seq![entry(id, definition@)]),
    {
        self.id_counter = self.id_counter + 1;
        let id = self.id_counter;
        let new_entry = StepEntry::new(id, definition);
        let _ = self.writer.write_entry(&new_entry);
        assert(self@.writer.entries =~= old(self)@.writer.entries + seq![entry(id, definition@)]);
        id
    }

    /// Writes an entry with the next id and the definition that `pattern`
    /// makes of the ids.
    fn add_entry_with_ids(&mut self, pattern: &str, ids: &[u64]) -> (id: u64)
        requires
            !old(self)@.writer.is_finalized,
            old(self)@.id_counter < u64::MAX,
        ensures
            id == old(self)@.id_counter + 1,
            final(self)@ == old(self)@.wrote(seq![entry(id, filled(pattern@, decimals(ids@)))]),
    {
        let definition = fill_ids(pattern, ids);
        self.add_entry(definition.as_str())
    }

    /// Writes an entry with the next id and the definition that `pattern`
    /// makes of the texts.
    fn add_entry_with(&mut self, pattern: &str, args: &Vec<String>) -> (id: u64)
        requires
            !old(self)@.writer.is_finalized,
            old(self)@.id_counter < u64::MAX,
        ensures
            id == old(self)@.id_counter + 1,
            final(self)@ == old(self)@.wrote(seq![entry(id, filled(pattern@, texts(args@)))]),
    {
        let definition = fill(pattern, args);
        self.add_entry(definition.as_str())
    }

    /// Writes the four entries of a placement at the origin and returns the
    /// id of the first.
    fn add_origin(&mut self) -> (first: u64)
        requires
            !old(self)@.writer.is_finalized,
            old(self)@.id_counter + 4 <= u64::MAX,
        ensures
            first == old(self)@.id_counter + 1,
            final(self)@ == old(self)@.wrote(origin_entries(first)),
    {
        let first = self.add_entry("CARTESIAN_POINT('',(0.,0.,0.))");
        self.add_entry("DIRECTION('',(0.,0.,1.))");
        self.add_entry("DIRECTION('',(1.,0.,0.))");
        let ids = [first, first + 1, first + 2];
        assert(ids@ =~= seq![first, at(first, 1), at(first, 2)]);
        self.add_entry_with_ids("AXIS2_PLACEMENT_3D('',#{},#{},#{})", ids.as_slice());
        assert(self@.writer.entries =~= old(self)@.writer.entries + origin_entries(first));
        first
    }

    /// A merger whose writer holds the header for the current time and has
    /// written no entry.
    pub fn new() -> (merger: Result<Self, Error>)
        ensures
            merger matches Ok(m) && m@.id_counter == 0 && m@.mechanical_design_ids.len() == 0
                && m@.default_coordinate_system == 0 && !m@.writer.is_finalized
                && m@.writer.entries.len() == 0 && exists|
                timestamp: Seq<char>,
            |
                crate::text::no_quote(timestamp) && m@.writer.header
                    == #[trigger] crate::writer::header_text(
                    crate::writer::implementation_level(),
                    ""@,
                    timestamp,
                    seq![crate::writer::protocol_name()],
                ),
    {
        let protocol = Self::protocol();
        let writer = StepWriter::new("2;1", "", protocol.as_slice());
        assert(crate::writer::implementation_level() == "2;1"@);
        match writer {
            Ok(writer) => Ok(
                StepMerger {
                    writer,
                    default_coordinate_system: 0,
                    id_counter: 0,
                    mechanical_design_ids: Vec::new(),
                },
            ),
            Err(e) => Err(e),
        }
    }

    /// A merger whose writer holds the header for the given time stamp and
    /// has written no entry.
    pub fn with_timestamp(timestamp: &str) -> (merger: Self)
        ensures
            merger@.id_counter == 0,
            merger@.mechanical_design_ids.len() == 0,
            merger@.default_coordinate_system == 0,
            !merger@.writer.is_finalized,
            merger@.writer.entries.len() == 0,
            merger@.writer.header == crate::writer::header_text(
                crate::writer::implementation_level(),
                ""@,
                timestamp@,
                seq![crate::writer::protocol_name()],
            ),
    {
        let protocol = Self::protocol();
        StepMerger {
            writer: StepWriter::with_timestamp("2;1", "", timestamp, protocol.as_slice()),
            default_coordinate_system: 0,
            id_counter: 0,
            mechanical_design_ids: Vec::new(),
        }
    }

    /// The protocols that the header names.
    fn protocol() -> (protocol: Vec<String>)
        ensures
            texts(protocol@) == seq![crate::writer::protocol_name()],
    {
        let mut protocol: Vec<String> = Vec::new();
        protocol.push(
            "AP203_CONFIGURATION_CONTROLLED_3D_DESIGN_OF_MECHANICAL_PARTS_AND_ASSEMBLIES_MIM_LF { 1 0 10303 403 1 1 4 }".to_owned(),
        );
        assert(texts(protocol@) =~= seq![crate::writer::protocol_name()]);
        protocol
    }

    /// The error of a merge that has run out of ids.
    fn out_of_ids() -> (e: Error)
        ensures
            e is InvalidNumber,
    {
        Error::InvalidNumber("no id is left for a further entry".to_owned())
    }

    /// The writer of the merged file.
    pub fn writer(&self) -> (writer: &StepWriter)
        ensures
            writer@ == self@.writer,
    {
        &self.writer
    }

    /// The id that was given out last.
    pub fn id_counter(&self) -> (id: u64)
        ensures
            id == self@.id_counter,
    {
        self.id_counter
    }

    /// Closes the file and hands out its text.
    pub fn into_output(self) -> (output: String)
        ensures
            output@ == (WriterView { is_finalized: true, ..self@.writer }).text(),
    {
        self.writer.into_output()
    }

    /// The steps of a merge, without the closing of the writer.
    #[verifier::rlimit(60)]
    fn run<I: Iterator<Item = Result<StepEntry, Error>>, R: Fn(&str) -> Result<I, Error>>(
        &mut self,
        assembly: &Assembly,
        load_references: bool,
        resolver: &R,
    ) -> (result: Result<(), Error>)
        requires
            !old(self)@.writer.is_finalized,
            old(self)@.id_counter == 0,
            old(self)@.mechanical_design_ids.len() == 0,
            assembly.valid(),
            forall|link: &str| call_requires(*resolver, (link,)),
            forall|link: &str, outcome: Result<I, Error>|
                #![trigger call_ensures(*resolver, (link,), outcome)]
                call_ensures(*resolver, (link,), outcome) ==> (outcome matches Ok(entries)
                    ==> entries.obeys_prophetic_iter_laws() && entries.decrease() is Some),
        ensures
            !final(self)@.writer.is_finalized,
            final(self)@.writer.header == old(self)@.writer.header,
            structure_size(assembly.views()) > u64::MAX ==> result is Err,
            structure_size(assembly.views()) <= u64::MAX ==> exists|rest: Seq<EntryView>|
                final(self)@.writer.entries == old(self)@.writer.entries + structure_entries(
                    assembly.views(),
                ) + rest,
            result is Ok ==> exists|added: Seq<EntryView>, map: Seq<ReferenceView>, offset: u64|
                {
                    &&& final(self)@.writer.entries == old(self)@.writer.entries
                        + #[trigger] merged_entries(
                        assembly.views(),
                        added,
                        map,
                        offset,
                        final(self)@.mechanical_design_ids,
                    )
                    &&& load_references ==> holds_links(assembly.views(), map)
                    &&& !load_references ==> added.len() == 0 && map.len() == 0
                },
            !load_references || (forall|link: &str, outcome: Result<I, Error>|
                #![trigger call_ensures(*resolver, (link,), outcome)]
                names_link(assembly.views(), assembly.nodes@.len() as int, link@) && call_ensures(
                    *resolver,
                    (link,),
                    outcome,
                ) ==> outcome is Err) ==> {
                &&& result is Ok <==> structure_size(assembly.views()) + 9 <= u64::MAX
                &&& result is Ok ==> final(self)@.writer.entries == old(self)@.writer.entries
                    + plain_entries(assembly.views())
                &&& result matches Err(e) ==> e is InvalidNumber
            },
            load_references && structure_size(assembly.views()) <= u64::MAX ==> exists|
                resolved: Seq<Resolved>,
            |
                {
                    &&& #[trigger] merged_with(
                        resolved,
                        assembly.views(),
                        old(self)@,
                        final(self)@,
                        result,
                    )
                    &&& forall|k: int|
                        #![trigger resolved[k]]
                        0 <= k < resolved.len() ==> exists|name: &str, outcome: Result<I, Error>|
                            #![trigger call_ensures(*resolver, (name,), outcome)]
                            {
                                &&& name@ == resolved[k].link
                                &&& call_ensures(*resolver, (name,), outcome)
                                &&& match outcome {
                                    Ok(entries) => resolved[k].items == Some(entries.remaining()),
                                    Err(_) => resolved[k].items is None,
                                }
                            }
                },
    {
        let ghost start = self@;
        let ghost nodes = assembly.views();
        let ghost plain = !load_references || (forall|link: &str, outcome: Result<I, Error>|
            #![trigger call_ensures(*resolver, (link,), outcome)]
            names_link(assembly.views(), assembly.nodes@.len() as int, link@) && call_ensures(
                *resolver,
                (link,),
                outcome,
            ) ==> outcome is Err);
        let node_step_ids = match self.write_structure(assembly) {
            Ok(ids) => ids,
            Err(e) => {
                return Err(e);
            },
        };
        let ghost built = self@;
        let ghost mut shape: (Seq<EntryView>, Seq<ReferenceView>, u64) = (
            Seq::empty(),
            Seq::empty(),
            0,
        );
        proof {
            lemma_structure_len(nodes);
            assert(built == structured(start, nodes));
            assert(built.writer.entries == start.writer.entries + structure_entries(nodes));
            assert(built.id_counter == structure_size(nodes));
        }
        if load_references {
            let map = match self.take_parts(assembly, &node_step_ids, resolver) {
                Ok(map) => map,
                Err(e) => {
                    proof {
                        let more = choose|more: Seq<EntryView>|
                            self@.writer.entries == built.writer.entries + more;
                        assert(self@.writer.entries =~= start.writer.entries + structure_entries(
                            nodes,
                        ) + more);
                        let resolved = choose|resolved: Seq<Resolved>|
                            {
                                &&& #[trigger] parts_taken(
                                    resolved,
                                    nodes,
                                    node_step_ids@,
                                    built,
                                    self@,
                                    taken_of(Err::<ReferenceMap, Error>(e)),
                                )
                                &&& forall|k: int|
                                    #![trigger resolved[k]]
                                    0 <= k < resolved.len() ==> exists|name: &str, outcome: Result<I, Error>|
                                        #![trigger call_ensures(*resolver, (name,), outcome)]
                                        {
                                            &&& name@ == resolved[k].link
                                            &&& call_ensures(*resolver, (name,), outcome)
                                            &&& match outcome {
                                                Ok(entries) => resolved[k].items == Some(entries.remaining()),
                                                Err(_) => resolved[k].items is None,
                                            }
                                        }
                            };
                        assert(parts_taken(
                            resolved,
                            nodes,
                            all_node_ids(nodes, nodes.len() as int, 7),
                            structured(start, nodes),
                            self@,
                            Err::<Seq<ReferenceView>, Error>(e),
                        ));
                        assert(merged_with(resolved, nodes, start, self@, Err::<(), Error>(e)));
                    }
                    return Err(e);
                },
            };
            proof {
                let (added, offset) = choose|added: Seq<EntryView>, offset: u64|
                    {
                        &&& self@ == #[trigger] tied_state(
                            built,
                            added,
                            offset,
                            self@.mechanical_design_ids,
                            nodes,
                            node_step_ids@,
                            map@,
                        )
                        &&& 0 <= roots_count(nodes, map@, nodes.len() as int)
                        &&& offset + 9 * roots_count(nodes, map@, nodes.len() as int) <= u64::MAX
                    };
                shape = (added, map@, offset);
                let resolved = choose|resolved: Seq<Resolved>|
                    {
                        &&& #[trigger] parts_taken(
                            resolved,
                            nodes,
                            node_step_ids@,
                            built,
                            self@,
                            taken_of(Ok::<ReferenceMap, Error>(map)),
                        )
                        &&& forall|k: int|
                            #![trigger resolved[k]]
                            0 <= k < resolved.len() ==> exists|name: &str, outcome: Result<I, Error>|
                                #![trigger call_ensures(*resolver, (name,), outcome)]
                                {
                                    &&& name@ == resolved[k].link
                                    &&& call_ensures(*resolver, (name,), outcome)
                                    &&& match outcome {
                                        Ok(entries) => resolved[k].items == Some(entries.remaining()),
                                        Err(_) => resolved[k].items is None,
                                    }
                                }
                    };
                assert(parts_taken(
                    resolved,
                    nodes,
                    all_node_ids(nodes, nodes.len() as int, 7),
                    structured(start, nodes),
                    self@,
                    Ok::<Seq<ReferenceView>, Error>(shape.1),
                ));
                if plain {
                    assert(self@ == built);
                    lemma_no_root_relations(
                        nodes,
                        node_step_ids@,
                        map@,
                        nodes.len() as int,
                        at(offset, 1),
                        6,
                    );
                }
            }
        } else {
            proof {
                shape = (Seq::empty(), Seq::empty(), built.id_counter);
                lemma_no_root_relations(
                    nodes,
                    all_node_ids(nodes, nodes.len() as int, 7),
                    shape.1,
                    nodes.len() as int,
                    at(built.id_counter, 1),
                    6,
                );
            }
        }
        let ghost before = self@;
        proof {
            let tied = all_root_relations(
                nodes,
                all_node_ids(nodes, nodes.len() as int, 7),
                shape.1,
                nodes.len() as int,
                at(shape.2, 1),
                6,
            );
            assert(load_references ==> holds_links(nodes, shape.1));
            assert(load_references ==> before == tied_state(
                built,
                shape.0,
                shape.2,
                before.mechanical_design_ids,
                nodes,
                all_node_ids(nodes, nodes.len() as int, 7),
                shape.1,
            ));
            if !load_references {
                assert(tied =~= Seq::<EntryView>::empty());
            }
            if plain {
                assert(before == built);
            }
            assert(before.writer.entries =~= start.writer.entries + structure_entries(nodes)
                + shape.0 + tied);
            assert(before.writer.entries =~= start.writer.entries + structure_entries(nodes) + (
            shape.0 + tied));
            assert(before.id_counter == at(
                shape.2,
                9 * roots_count(nodes, shape.1, nodes.len() as int),
            ));
            assert(shape.2 + 9 * roots_count(nodes, shape.1, nodes.len() as int) <= u64::MAX);
            if load_references {
                assert(exists|resolved: Seq<Resolved>|
                    {
                        &&& #[trigger] parts_taken(
                            resolved,
                            nodes,
                            all_node_ids(nodes, nodes.len() as int, 7),
                            structured(start, nodes),
                            before,
                            Ok::<Seq<ReferenceView>, Error>(shape.1),
                        )
                        &&& forall|k: int|
                            #![trigger resolved[k]]
                            0 <= k < resolved.len() ==> exists|name: &str, outcome: Result<I, Error>|
                                #![trigger call_ensures(*resolver, (name,), outcome)]
                                {
                                    &&& name@ == resolved[k].link
                                    &&& call_ensures(*resolver, (name,), outcome)
                                    &&& match outcome {
                                        Ok(entries) => resolved[k].items == Some(entries.remaining()),
                                        Err(_) => resolved[k].items is None,
                                    }
                                }
                    });
            }
        }
        match self.write_mechanical_part_entries() {
            Ok(_) => {},
            Err(e) => {
                proof {
                    if load_references {
                        let resolved = choose|resolved: Seq<Resolved>|
                            {
                                &&& #[trigger] parts_taken(
                                    resolved,
                                    nodes,
                                    all_node_ids(nodes, nodes.len() as int, 7),
                                    structured(start, nodes),
                                    before,
                                    Ok::<Seq<ReferenceView>, Error>(shape.1),
                                )
                                &&& forall|k: int|
                                    #![trigger resolved[k]]
                                    0 <= k < resolved.len() ==> exists|name: &str, outcome: Result<I, Error>|
                                        #![trigger call_ensures(*resolver, (name,), outcome)]
                                        {
                                            &&& name@ == resolved[k].link
                                            &&& call_ensures(*resolver, (name,), outcome)
                                            &&& match outcome {
                                                Ok(entries) => resolved[k].items == Some(entries.remaining()),
                                                Err(_) => resolved[k].items is None,
                                            }
                                        }
                            };
                        assert(merged_with(resolved, nodes, start, self@, Err::<(), Error>(e)));
                    }
                }
                return Err(e);
            },
        }
        proof {
            let closing = closing_entries(at(before.id_counter, 1), before.mechanical_design_ids);
            assert(self@.writer.entries =~= start.writer.entries + structure_entries(nodes) + (
            shape.0 + all_root_relations(
                nodes,
                all_node_ids(nodes, nodes.len() as int, 7),
                shape.1,
                nodes.len() as int,
                at(shape.2, 1),
                6,
            ) + closing));
            if plain {
                assert(before.mechanical_design_ids =~= Seq::<u64>::empty());
                assert(self@.writer.entries =~= start.writer.entries + plain_entries(nodes));
            }
            assert(self@.writer.entries =~= start.writer.entries + merged_entries(
                nodes,
                shape.0,
                shape.1,
                shape.2,
                self@.mechanical_design_ids,
            ));
            if load_references {
                let resolved = choose|resolved: Seq<Resolved>|
                    {
                        &&& #[trigger] parts_taken(
                            resolved,
                            nodes,
                            all_node_ids(nodes, nodes.len() as int, 7),
                            structured(start, nodes),
                            before,
                            Ok::<Seq<ReferenceView>, Error>(shape.1),
                        )
                        &&& forall|k: int|
                            #![trigger resolved[k]]
                            0 <= k < resolved.len() ==> exists|name: &str, outcome: Result<I, Error>|
                                #![trigger call_ensures(*resolver, (name,), outcome)]
                                {
                                    &&& name@ == resolved[k].link
                                    &&& call_ensures(*resolver, (name,), outcome)
                                    &&& match outcome {
                                        Ok(entries) => resolved[k].items == Some(entries.remaining()),
                                        Err(_) => resolved[k].items is None,
                                    }
                                }
                    };
                assert(merged_with(resolved, nodes, start, self@, Ok::<(), Error>(())));
            }
        }
        Ok(())
    }

    /// Merges the assembly into one file: writes the entries that stand for
    /// the assembly tree; then, if `load_references` is set, takes in the
    /// part file of each link, which `resolver` hands out, and ties the root
    /// nodes of each part file to the nodes that link to it; and closes with
    /// the entry that lists the presentation items of all part files. The
    /// writer is closed whether the merge succeeds or fails.
    pub fn merge<I: Iterator<Item = Result<StepEntry, Error>>, R: Fn(&str) -> Result<I, Error>>(
        &mut self,
        assembly: &Assembly,
        load_references: bool,
        resolver: &R,
    ) -> (result: Result<(), Error>)
        requires
            !old(self)@.writer.is_finalized,
            old(self)@.id_counter == 0,
            old(self)@.mechanical_design_ids.len() == 0,
            assembly.valid(),
            forall|link: &str| call_requires(*resolver, (link,)),
            forall|link: &str, outcome: Result<I, Error>|
                #![trigger call_ensures(*resolver, (link,), outcome)]
                call_ensures(*resolver, (link,), outcome) ==> (outcome matches Ok(entries)
                    ==> entries.obeys_prophetic_iter_laws() && entries.decrease() is Some),
        ensures
            final(self)@.writer.is_finalized,
            final(self)@.writer.header == old(self)@.writer.header,
            structure_size(assembly.views()) > u64::MAX ==> result is Err,
            structure_size(assembly.views()) <= u64::MAX ==> exists|rest: Seq<EntryView>|
                final(self)@.writer.entries == old(self)@.writer.entries + structure_entries(
                    assembly.views(),
                ) + rest,
            result is Ok ==> exists|added: Seq<EntryView>, map: Seq<ReferenceView>, offset: u64|
                {
                    &&& final(self)@.writer.entries == old(self)@.writer.entries
                        + #[trigger] merged_entries(
                        assembly.views(),
                        added,
                        map,
                        offset,
                        final(self)@.mechanical_design_ids,
                    )
                    &&& load_references ==> holds_links(assembly.views(), map)
                    &&& !load_references ==> added.len() == 0 && map.len() == 0
                },
            !load_references || (forall|link: &str, outcome: Result<I, Error>|
                #![trigger call_ensures(*resolver, (link,), outcome)]
                names_link(assembly.views(), assembly.nodes@.len() as int, link@) && call_ensures(
                    *resolver,
                    (link,),
                    outcome,
                ) ==> outcome is Err) ==> {
                &&& result is Ok <==> structure_size(assembly.views()) + 9 <= u64::MAX
                &&& result is Ok ==> final(self)@.writer.entries == old(self)@.writer.entries
                    + plain_entries(assembly.views())
                &&& result matches Err(e) ==> e is InvalidNumber
            },
            load_references && structure_size(assembly.views()) <= u64::MAX ==> exists|
                resolved: Seq<Resolved>,
            |
                {
                    &&& #[trigger] merged_with(
                        resolved,
                        assembly.views(),
                        old(self)@,
                        opened(final(self)@),
                        result,
                    )
                    &&& forall|k: int|
                        #![trigger resolved[k]]
                        0 <= k < resolved.len() ==> exists|name: &str, outcome: Result<I, Error>|
                            #![trigger call_ensures(*resolver, (name,), outcome)]
                            {
                                &&& name@ == resolved[k].link
                                &&& call_ensures(*resolver, (name,), outcome)
                                &&& match outcome {
                                    Ok(entries) => resolved[k].items == Some(entries.remaining()),
                                    Err(_) => resolved[k].items is None,
                                }
                            }
                },
    {
        let result = self.run(assembly, load_references, resolver);
        let ghost ran = self@;
        let _ = self.writer.finalize();
        proof {
            assert(opened(self@) == ran);
            if result is Ok {
                let (added, map, offset) = choose|
                    added: Seq<EntryView>,
                    map: Seq<ReferenceView>,
                    offset: u64,
                |
                    {
                        &&& ran.writer.entries == old(self)@.writer.entries
                            + #[trigger] merged_entries(
                            assembly.views(),
                            added,
                            map,
                            offset,
                            ran.mechanical_design_ids,
                        )
                        &&& load_references ==> holds_links(assembly.views(), map)
                        &&& !load_references ==> added.len() == 0 && map.len() == 0
                    };
                assert(self@.writer.entries == old(self)@.writer.entries + merged_entries(
                    assembly.views(),
                    added,
                    map,
                    offset,
                    self@.mechanical_design_ids,
                ));
            }
        }
        result
    }
}

/// Merges the assembly into one STEP file and appends its text to `writer`.
/// The part file of each link is what `resolver` hands out for the link; a
/// link that cannot be resolved is passed over. With `load_references` unset
/// no part file is asked for. The header bears the current time. The text is
/// that of a closed file also where the merge fails.
pub fn merge_assembly_structure_to_step_with_resolver<
    I: Iterator<Item = Result<StepEntry, Error>>,
    R: Fn(&str) -> Result<I, Error>,
>(assembly: &Assembly, load_references: bool, writer: &mut String, resolver: R) -> (result: Result<
    (),
    Error,
>)
    requires
        assembly.valid(),
        forall|link: &str| call_requires(resolver, (link,)),
        forall|link: &str, outcome: Result<I, Error>|
            #![trigger call_ensures(resolver, (link,), outcome)]
            call_ensures(resolver, (link,), outcome) ==> (outcome matches Ok(entries)
                ==> entries.obeys_prophetic_iter_laws() && entries.decrease() is Some),
    ensures
        structure_size(assembly.views()) > u64::MAX ==> result is Err,
        exists|timestamp: Seq<char>, entries: Seq<EntryView>|
            {
                &&& crate::text::no_quote(timestamp)
                &&& final(writer)@ == old(writer)@ + (#[trigger] merged_file(
                    timestamp,
                    entries,
                )).text()
                &&& structure_size(assembly.views()) <= u64::MAX ==> exists|rest: Seq<EntryView>|
                    entries == structure_entries(assembly.views()) + rest
                &&& result is Ok ==> exists|
                    added: Seq<EntryView>,
                    map: Seq<ReferenceView>,
                    offset: u64,
                    items: Seq<u64>,
                |
                    {
                        &&& entries == #[trigger] merged_entries(
                            assembly.views(),
                            added,
                            map,
                            offset,
                            items,
                        )
                        &&& load_references ==> holds_links(assembly.views(), map)
                        &&& !load_references ==> added.len() == 0 && map.len() == 0
                    }
                &&& !load_references || (forall|link: &str, outcome: Result<I, Error>|
                    #![trigger call_ensures(resolver, (link,), outcome)]
                    names_link(assembly.views(), assembly.nodes@.len() as int, link@)
                        && call_ensures(resolver, (link,), outcome) ==> outcome is Err) ==> {
                    &&& result is Ok <==> structure_size(assembly.views()) + 9 <= u64::MAX
                    &&& result is Ok ==> entries == plain_entries(assembly.views())
                    &&& result matches Err(e) ==> e is InvalidNumber
                }
                &&& load_references && structure_size(assembly.views()) <= u64::MAX ==> exists|
                    resolved: Seq<Resolved>,
                    ran: MergerView,
                |
                    {
                        &&& #[trigger] merged_with(
                            resolved,
                            assembly.views(),
                            fresh(timestamp),
                            ran,
                            result,
                        )
                        &&& ran.writer.entries == entries
                        &&& forall|k: int|
                            #![trigger resolved[k]]
                            0 <= k < resolved.len() ==> exists|name: &str, outcome: Result<I, Error>|
                                #![trigger call_ensures(resolver, (name,), outcome)]
                                {
                                    &&& name@ == resolved[k].link
                                    &&& call_ensures(resolver, (name,), outcome)
                                    &&& match outcome {
                                        Ok(entries) => resolved[k].items == Some(entries.remaining()),
                                        Err(_) => resolved[k].items is None,
                                    }
                                }
                    }
            },
{
    let mut merger = match StepMerger::new() {
        Ok(merger) => merger,
        Err(e) => {
            return Err(e);
        },
    };
    let ghost header = merger@.writer.header;
    let ghost timestamp = choose|timestamp: Seq<char>|
        crate::text::no_quote(timestamp) && header == #[trigger] crate::writer::header_text(
            crate::writer::implementation_level(),
            ""@,
            timestamp,
            seq![crate::writer::protocol_name()],
        );
    assert(merger@.writer.entries =~= Seq::<EntryView>::empty());
    assert(merger@.mechanical_design_ids =~= Seq::<u64>::empty());
    assert(merger@ == fresh(timestamp));
    let result = merger.merge(assembly, load_references, &resolver);
    proof {
        let entries = merger@.writer.entries;
        assert(opened(merger@).writer.entries == entries);
        assert(merger@.writer == merged_file(timestamp, entries));
        assert forall|rest: Seq<EntryView>|
            entries == Seq::<EntryView>::empty() + structure_entries(assembly.views())
                + rest implies entries == structure_entries(assembly.views()) + rest by {
            assert(Seq::<EntryView>::empty() + structure_entries(assembly.views())
                =~= structure_entries(assembly.views()));
        }
        assert(Seq::<EntryView>::empty() + plain_entries(assembly.views()) =~= plain_entries(
            assembly.views(),
        ));
        if result is Ok {
            let (added, map, offset) = choose|
                added: Seq<EntryView>,
                map: Seq<ReferenceView>,
                offset: u64,
            |
                {
                    &&& entries == Seq::<EntryView>::empty() + #[trigger] merged_entries(
                        assembly.views(),
                        added,
                        map,
                        offset,
                        merger@.mechanical_design_ids,
                    )
                    &&& load_references ==> holds_links(assembly.views(), map)
                    &&& !load_references ==> added.len() == 0 && map.len() == 0
                };
            assert(entries =~= merged_entries(
                assembly.views(),
                added,
                map,
                offset,
                merger@.mechanical_design_ids,
            ));
        }
    }
    writer.append(merger.writer.get_output());
    result
}

/// The state of a merger that has written the header for the given time
/// stamp and nothing else.
pub open spec fn fresh(timestamp: Seq<char>) -> MergerView {
    MergerView {
        writer: WriterView {
            is_finalized: false,
            ..merged_file(timestamp, Seq::<EntryView>::empty())
        },
        default_coordinate_system: 0,
        id_counter: 0,
        mechanical_design_ids: Seq::<u64>::empty(),
    }
}

/// The state of the writer of a merged file: the header for the given time
/// stamp, the entries, and the closing lines.
pub open spec fn merged_file(timestamp: Seq<char>, entries: Seq<EntryView>) -> WriterView {
    WriterView {
        header: crate::writer::header_text(
            crate::writer::implementation_level(),
            ""@,
            timestamp,
            seq![crate::writer::protocol_name()],
        ),
        entries,
        is_finalized: true,
    }
}

} // verus!
