//! The part files that the nodes of an assembly link to, and the entries
//! that tie the root nodes of those files to the nodes.

use vstd::prelude::*;
use vstd::std_specs::iter::IteratorSpec;
use vstd::string::*;
use crate::assembly::{identity_placement, Assembly, NodeView};
use crate::entry::{references, EntryView, StepEntry};
use crate::error::Error;
use crate::utils::NodeStepIds;
use crate::writer::WriterView;
use crate::merge::entries::{at, node_ids, relation_entries};
use crate::merge::import::{import_outcome, lemma_import_appends};
use crate::merge::{MergerView, StepMerger};

verus! {

/// The part files that a merge has asked for: each link with the root nodes
/// of its file, in the order in which the links were first met. A link that
/// could not be resolved has no root nodes.
pub struct ReferenceMap {
    entries: Vec<(String, Vec<NodeStepIds>)>,
}

/// A link with the root nodes of its file.
pub struct ReferenceView {
    pub link: Seq<char>,
    pub roots: Seq<NodeStepIds>,
}

impl View for ReferenceMap {
    type V = Seq<ReferenceView>;

    closed spec fn view(&self) -> Seq<ReferenceView> {
        self.entries@.map_values(
            |e: (String, Vec<NodeStepIds>)| ReferenceView { link: e.0@, roots: e.1@ },
        )
    }
}

/// Whether one of the first `count` references has the given link.
pub open spec fn has_link(map: Seq<ReferenceView>, count: int, link: Seq<char>) -> bool {
    exists|i: int| 0 <= i < count && (#[trigger] map[i]).link == link
}

/// Whether no link occurs twice.
pub open spec fn links_distinct(map: Seq<ReferenceView>) -> bool {
    forall|i: int, j: int|
        0 <= i < j < map.len() ==> (#[trigger] map[i]).link != (#[trigger] map[j]).link
}

/// The root nodes that belong to the link: those of the first reference with
/// that link among the first `count`, and none where there is no such
/// reference.
pub open spec fn roots_for(map: Seq<ReferenceView>, count: int, link: Seq<char>) -> Seq<
    NodeStepIds,
>
    decreases count,
{
    if count <= 0 {
        seq![]
    } else if has_link(map, count - 1, link) {
        roots_for(map, count - 1, link)
    } else if map[count - 1].link == link {
        map[count - 1].roots
    } else {
        seq![]
    }
}

impl ReferenceMap {
    /// A map without references.
    pub fn new() -> (map: Self)
        ensures
            map@.len() == 0,
    {
        let map = ReferenceMap { entries: Vec::new() };
        assert(map@ =~= Seq::<ReferenceView>::empty());
        map
    }

    /// The index of the reference with the given link.
    pub fn find(&self, link: &str) -> (index: Option<usize>)
        ensures
            index is Some <==> has_link(self@, self@.len() as int, link@),
            index matches Some(i) ==> i < self@.len() && self@[i as int].link == link@ && !has_link(
                self@,
                i as int,
                link@,
            ),
    {
        let mut i: usize = 0;
        while i < self.entries.len()
            invariant
                i <= self.entries.len(),
                !has_link(self@, i as int, link@),
            decreases self.entries.len() - i,
        {
            assert(self@[i as int].link == self.entries@[i as int].0@);
            if crate::text::same_text(self.entries[i].0.as_str(), link) {
                return Some(i);
            }
            i += 1;
        }
        None
    }

    /// Whether a reference has the given link.
    pub fn contains_key(&self, link: &str) -> (found: bool)
        ensures
            found == has_link(self@, self@.len() as int, link@),
    {
        self.find(link).is_some()
    }

    /// Adds a reference for a link that the map does not hold yet.
    pub fn insert(&mut self, link: &str, roots: Vec<NodeStepIds>)
        requires
            !has_link(old(self)@, old(self)@.len() as int, link@),
        ensures
            final(self)@ == old(self)@.push(ReferenceView { link: link@, roots: roots@ }),
    {
        self.entries.push((link.to_owned(), roots));
        assert(self@ =~= old(self)@.push(ReferenceView { link: link@, roots: roots@ }));
    }

    /// The root nodes that belong to the link; none where the map holds no
    /// reference with that link.
    pub fn get(&self, link: &str) -> (roots: Option<&Vec<NodeStepIds>>)
        ensures
            roots is Some <==> has_link(self@, self@.len() as int, link@),
            roots matches Some(r) ==> r@ == roots_for(self@, self@.len() as int, link@),
            roots is None ==> roots_for(self@, self@.len() as int, link@).len() == 0,
    {
        match self.find(link) {
            Some(i) => {
                proof {
                    lemma_roots_for(self@, self@.len() as int, link@, i as int);
                }
                assert(self@[i as int].roots == self.entries@[i as int].1@);
                Some(&self.entries[i].1)
            },
            None => {
                proof {
                    lemma_no_roots_for(self@, self@.len() as int, link@);
                }
                None
            },
        }
    }
}

/// The root nodes of a link are those of the first reference with it.
pub proof fn lemma_roots_for(map: Seq<ReferenceView>, count: int, link: Seq<char>, index: int)
    requires
        0 <= index < count <= map.len(),
        map[index].link == link,
        !has_link(map, index, link),
    ensures
        roots_for(map, count, link) == map[index].roots,
    decreases count,
{
    if count - 1 > index {
        assert(has_link(map, count - 1, link));
        lemma_roots_for(map, count - 1, link, index);
    }
}

/// A link without reference has no root nodes.
pub proof fn lemma_no_roots_for(map: Seq<ReferenceView>, count: int, link: Seq<char>)
    requires
        0 <= count <= map.len(),
        !has_link(map, count, link),
    ensures
        roots_for(map, count, link).len() == 0,
    decreases count,
{
    if count > 0 {
        assert(!has_link(map, count - 1, link)) by {
            if has_link(map, count - 1, link) {
                let i = choose|i: int| 0 <= i < count - 1 && (#[trigger] map[i]).link == link;
                assert(0 <= i < count && map[i].link == link);
            }
        }
        assert(map[count - 1].link != link) by {
            if map[count - 1].link == link {
                assert(0 <= count - 1 < count && map[count - 1].link == link);
            }
        }
    }
}

/// The root nodes that are tied to a node: those of the part file that the
/// node links to, and none for a node without link.
pub open spec fn node_roots(node: NodeView, map: Seq<ReferenceView>) -> Seq<NodeStepIds> {
    match node.link {
        Some(link) => roots_for(map, map.len() as int, link),
        None => seq![],
    }
}

/// The number of root nodes that are tied to the first `count` nodes.
pub open spec fn roots_count(nodes: Seq<NodeView>, map: Seq<ReferenceView>, count: int) -> int
    decreases count,
{
    if count <= 0 {
        0
    } else {
        roots_count(nodes, map, count - 1) + node_roots(nodes[count - 1], map).len()
    }
}

/// The entries that place the first `count` of the root nodes `roots` in the
/// node with the given label and ids, from the id `first` on. A root node
/// lies in its node unmoved and bears the label of the node.
pub open spec fn root_relations(
    label: Seq<char>,
    ids: NodeStepIds,
    roots: Seq<NodeStepIds>,
    count: int,
    first: u64,
    coordinate_system: u64,
) -> Seq<EntryView>
    decreases count,
{
    if count <= 0 {
        seq![]
    } else {
        root_relations(label, ids, roots, count - 1, first, coordinate_system) + relation_entries(
            at(first, 9 * (count - 1)),
            label,
            label,
            ids,
            roots[count - 1],
            crate::assembly::identity_placement(),
            coordinate_system,
        )
    }
}

/// The entries that tie the root nodes of the part files to the first
/// `count` nodes, node by node, from the id `first` on.
pub open spec fn all_root_relations(
    nodes: Seq<NodeView>,
    ids: Seq<NodeStepIds>,
    map: Seq<ReferenceView>,
    count: int,
    first: u64,
    coordinate_system: u64,
) -> Seq<EntryView>
    decreases count,
{
    if count <= 0 {
        seq![]
    } else {
        all_root_relations(nodes, ids, map, count - 1, first, coordinate_system) + root_relations(
            nodes[count - 1].label,
            ids[count - 1],
            node_roots(nodes[count - 1], map),
            node_roots(nodes[count - 1], map).len() as int,
            at(first, 9 * roots_count(nodes, map, count - 1)),
            coordinate_system,
        )
    }
}

/// The root nodes count up, and each takes nine entries.
pub proof fn lemma_root_relations(
    nodes: Seq<NodeView>,
    ids: Seq<NodeStepIds>,
    map: Seq<ReferenceView>,
    count: int,
    first: u64,
    coordinate_system: u64,
)
    requires
        0 <= count,
    ensures
        0 <= roots_count(nodes, map, count),
        count > 0 ==> roots_count(nodes, map, count - 1) <= roots_count(nodes, map, count),
        all_root_relations(nodes, ids, map, count, first, coordinate_system).len() == 9
            * roots_count(nodes, map, count),
    decreases count,
{
    if count > 0 {
        lemma_root_relations(nodes, ids, map, count - 1, first, coordinate_system);
        lemma_root_relations_len(
            nodes[count - 1].label,
            ids[count - 1],
            node_roots(nodes[count - 1], map),
            node_roots(nodes[count - 1], map).len() as int,
            at(first, 9 * roots_count(nodes, map, count - 1)),
            coordinate_system,
        );
    }
}

/// Each root node takes nine entries.
pub proof fn lemma_root_relations_len(
    label: Seq<char>,
    ids: NodeStepIds,
    roots: Seq<NodeStepIds>,
    count: int,
    first: u64,
    coordinate_system: u64,
)
    requires
        0 <= count,
    ensures
        root_relations(label, ids, roots, count, first, coordinate_system).len() == 9 * count,
    decreases count,
{
    if count > 0 {
        lemma_root_relations_len(label, ids, roots, count - 1, first, coordinate_system);
    }
}

/// The root nodes of the first nodes are no more than those of all.
pub proof fn lemma_roots_grow(
    nodes: Seq<NodeView>,
    map: Seq<ReferenceView>,
    count: int,
    total: int,
)
    requires
        0 <= count <= total,
    ensures
        roots_count(nodes, map, count) <= roots_count(nodes, map, total),
    decreases total - count,
{
    if count < total {
        lemma_roots_grow(nodes, map, count, total - 1);
    }
}

/// Where no reference has root nodes, no link has any.
pub proof fn lemma_no_roots(map: Seq<ReferenceView>, count: int, link: Seq<char>)
    requires
        0 <= count <= map.len(),
        forall|k: int| 0 <= k < map.len() ==> (#[trigger] map[k]).roots.len() == 0,
    ensures
        roots_for(map, count, link).len() == 0,
    decreases count,
{
    if count > 0 {
        lemma_no_roots(map, count - 1, link);
    }
}

/// Where no reference has root nodes, nothing is tied to the nodes.
pub proof fn lemma_no_root_relations(
    nodes: Seq<NodeView>,
    ids: Seq<NodeStepIds>,
    map: Seq<ReferenceView>,
    count: int,
    first: u64,
    coordinate_system: u64,
)
    requires
        0 <= count,
        forall|k: int| 0 <= k < map.len() ==> (#[trigger] map[k]).roots.len() == 0,
    ensures
        roots_count(nodes, map, count) == 0,
        all_root_relations(nodes, ids, map, count, first, coordinate_system).len() == 0,
    decreases count,
{
    if count > 0 {
        lemma_no_root_relations(nodes, ids, map, count - 1, first, coordinate_system);
        match nodes[count - 1].link {
            Some(link) => {
                lemma_no_roots(map, map.len() as int, link);
            },
            None => {},
        }
    }
}

/// Whether `map` holds the links of the nodes, each once.
pub open spec fn holds_links(nodes: Seq<NodeView>, map: Seq<ReferenceView>) -> bool {
    &&& links_distinct(map)
    &&& forall|i: int|
        0 <= i < nodes.len() ==> ((#[trigger] nodes[i]).link matches Some(link) ==> has_link(
            map,
            map.len() as int,
            link,
        ))
    &&& forall|k: int|
        0 <= k < map.len() ==> names_link(nodes, nodes.len() as int, (#[trigger] map[k]).link)
}

/// Whether one of the first `count` nodes has the given link.
pub open spec fn names_link(nodes: Seq<NodeView>, count: int, link: Seq<char>) -> bool {
    exists|j: int| 0 <= j < count && (#[trigger] nodes[j]).link == Some(link)
}

/// A link that one of the first nodes has is a link of one of the first
/// nodes and the next.
pub proof fn lemma_names_link_grows(nodes: Seq<NodeView>, count: int, link: Seq<char>)
    requires
        names_link(nodes, count, link),
    ensures
        names_link(nodes, count + 1, link),
{
    let j = choose|j: int| 0 <= j < count && (#[trigger] nodes[j]).link == Some(link);
    assert(0 <= j < count + 1 && nodes[j].link == Some(link));
}

/// What the resolver has made of a link: the items of the part file, or
/// nothing where the link could not be resolved.
pub struct Resolved {
    pub link: Seq<char>,
    pub items: Option<Seq<Result<StepEntry, Error>>>,
}

/// The links of the first `count` nodes, each once, in the order in which
/// the nodes name them first.
pub open spec fn link_order(nodes: Seq<NodeView>, count: int) -> Seq<Seq<char>>
    decreases count,
{
    if count <= 0 {
        seq![]
    } else {
        match nodes[count - 1].link {
            Some(link) => if names_link(nodes, count - 1, link) {
                link_order(nodes, count - 1)
            } else {
                link_order(nodes, count - 1).push(link)
            },
            None => link_order(nodes, count - 1),
        }
    }
}

/// Whether `after` and `map` are what becomes of `before` and `known` where
/// the link is taken in: a link that could not be resolved is recorded
/// without root nodes, and nothing else changes; the items of a link that
/// was resolved are taken in as `import_outcome` says, and the link is
/// recorded with the root nodes of its file, or, where the import fails,
/// `failed` holds its error and the link is not recorded.
pub open spec fn link_taken(
    resolved: Resolved,
    before: MergerView,
    known: Seq<ReferenceView>,
    after: MergerView,
    map: Seq<ReferenceView>,
    failed: Option<Error>,
) -> bool {
    match resolved.items {
        None => {
            &&& after == before
            &&& failed is None
            &&& map == known.push(ReferenceView { link: resolved.link, roots: seq![] })
        },
        Some(items) => exists|position: int, end: int, imported: Result<Vec<NodeStepIds>, Error>|
            {
                &&& #[trigger] import_outcome(
                    items,
                    resolved.link,
                    before,
                    after,
                    imported,
                    position,
                    end,
                )
                &&& match imported {
                    Ok(roots) => failed is None && map == known.push(
                        ReferenceView { link: resolved.link, roots: roots@ },
                    ),
                    Err(e) => failed == Some(e) && map == known,
                }
            },
    }
}

/// Whether `after` and `map` are what becomes of `start` and of a map
/// without references where the first `count` links are taken in, one after
/// the other, and no import fails.
pub open spec fn links_taken(
    resolved: Seq<Resolved>,
    count: int,
    start: MergerView,
    after: MergerView,
    map: Seq<ReferenceView>,
) -> bool
    decreases count,
{
    if count <= 0 {
        after == start && map == Seq::<ReferenceView>::empty()
    } else {
        exists|before: MergerView, known: Seq<ReferenceView>|
            {
                &&& links_taken(resolved, count - 1, start, before, known)
                &&& #[trigger] link_taken(resolved[count - 1], before, known, after, map, None)
            }
    }
}

/// Whether `after` and `taken` are what becomes of `start` where the part
/// files of the links of the nodes are taken in: `resolved` holds what the
/// resolver has made of the links, in the order in which the nodes name
/// them first. Where no import fails, all links are taken in and `taken` is
/// the map of their root nodes. Where an import fails, it is the import of
/// the last link of `resolved`, the links before it are taken in, and
/// `taken` is the error.
pub open spec fn references_taken(
    resolved: Seq<Resolved>,
    nodes: Seq<NodeView>,
    start: MergerView,
    after: MergerView,
    taken: Result<Seq<ReferenceView>, Error>,
) -> bool {
    let order = link_order(nodes, nodes.len() as int);
    &&& resolved.len() <= order.len()
    &&& forall|k: int| 0 <= k < resolved.len() ==> (#[trigger] resolved[k]).link == order[k]
    &&& match taken {
        Ok(map) => resolved.len() == order.len() && links_taken(
            resolved,
            resolved.len() as int,
            start,
            after,
            map,
        ),
        Err(e) => resolved.len() >= 1 && exists|before: MergerView, known: Seq<ReferenceView>|
            {
                &&& links_taken(resolved, resolved.len() - 1, start, before, known)
                &&& #[trigger] link_taken(
                    resolved[resolved.len() - 1],
                    before,
                    known,
                    after,
                    known,
                    Some(e),
                )
            },
    }
}

/// The state of a merger that was `start` after the entries `added` of the
/// part files are written, after which `offset` is the id that was given out
/// last and `items` are the presentation items, and after the root nodes of
/// `map` are tied to the nodes.
pub open spec fn tied_state(
    start: MergerView,
    added: Seq<EntryView>,
    offset: u64,
    items: Seq<u64>,
    nodes: Seq<NodeView>,
    ids: Seq<NodeStepIds>,
    map: Seq<ReferenceView>,
) -> MergerView {
    MergerView {
        writer: WriterView {
            entries: start.writer.entries + added + all_root_relations(
                nodes,
                ids,
                map,
                nodes.len() as int,
                at(offset, 1),
                start.default_coordinate_system,
            ),
            ..start.writer
        },
        id_counter: at(offset, 9 * roots_count(nodes, map, nodes.len() as int)),
        mechanical_design_ids: items,
        ..start
    }
}

/// Whether `after` and `tied` are what becomes of `start` where the part
/// files of the links of the nodes are taken in, as `references_taken` says,
/// and their root nodes are then tied to the nodes, whose ids are `ids`.
/// Where an import fails, its error is the result and nothing is tied. Where
/// the ids run out for the entries that tie the root nodes, the result is
/// `InvalidNumber`.
pub open spec fn parts_taken(
    resolved: Seq<Resolved>,
    nodes: Seq<NodeView>,
    ids: Seq<NodeStepIds>,
    start: MergerView,
    after: MergerView,
    tied: Result<Seq<ReferenceView>, Error>,
) -> bool {
    exists|mid: MergerView, taken: Result<Seq<ReferenceView>, Error>|
        {
            &&& #[trigger] references_taken(resolved, nodes, start, mid, taken)
            &&& match taken {
                Err(e) => tied == Err::<Seq<ReferenceView>, Error>(e) && after == mid,
                Ok(map) => if mid.id_counter + 9 * roots_count(nodes, map, nodes.len() as int)
                    > u64::MAX {
                    tied matches Err(e) && e is InvalidNumber
                } else {
                    &&& tied == Ok::<Seq<ReferenceView>, Error>(map)
                    &&& after == mid.wrote(
                        all_root_relations(
                            nodes,
                            ids,
                            map,
                            nodes.len() as int,
                            at(mid.id_counter, 1),
                            mid.default_coordinate_system,
                        ),
                    )
                },
            }
        }
}

/// The references of the map, or the error.
pub open spec fn taken_of(result: Result<ReferenceMap, Error>) -> Result<
    Seq<ReferenceView>,
    Error,
> {
    match result {
        Ok(map) => Ok(map@),
        Err(e) => Err(e),
    }
}

/// Whether `resolved` holds what was asked for the links of the first
/// `count` nodes, and `after` and `map` are what has become of `start`.
pub open spec fn asked_so_far(
    resolved: Seq<Resolved>,
    nodes: Seq<NodeView>,
    count: int,
    start: MergerView,
    after: MergerView,
    map: Seq<ReferenceView>,
) -> bool {
    &&& resolved.len() == map.len()
    &&& link_order(nodes, count).len() == map.len()
    &&& forall|k: int|
        0 <= k < resolved.len() ==> (#[trigger] resolved[k]).link == link_order(nodes, count)[k]
    &&& links_taken(resolved, resolved.len() as int, start, after, map)
}

/// What the first links have become does not depend on the links behind
/// them.
pub proof fn lemma_links_taken_push(
    resolved: Seq<Resolved>,
    one: Resolved,
    count: int,
    start: MergerView,
    after: MergerView,
    map: Seq<ReferenceView>,
)
    requires
        count <= resolved.len(),
        links_taken(resolved, count, start, after, map),
    ensures
        links_taken(resolved.push(one), count, start, after, map),
    decreases count,
{
    if count > 0 {
        let (before, known) = choose|before: MergerView, known: Seq<ReferenceView>|
            {
                &&& links_taken(resolved, count - 1, start, before, known)
                &&& #[trigger] link_taken(resolved[count - 1], before, known, after, map, None)
            };
        lemma_links_taken_push(resolved, one, count - 1, start, before, known);
        assert(resolved.push(one)[count - 1] == resolved[count - 1]);
        assert(link_taken(resolved.push(one)[count - 1], before, known, after, map, None));
    }
}

/// The links of the first nodes stand first among the links of more nodes.
pub proof fn lemma_link_order_grows(nodes: Seq<NodeView>, count: int, total: int)
    requires
        0 <= count <= total,
    ensures
        link_order(nodes, count).len() <= link_order(nodes, total).len(),
        forall|k: int|
            0 <= k < link_order(nodes, count).len() ==> (#[trigger] link_order(nodes, total)[k])
                == link_order(nodes, count)[k],
    decreases total - count,
{
    if count < total {
        lemma_link_order_grows(nodes, count, total - 1);
    }
}

/// Where a map holds the links of the first `count` nodes and no others, the
/// links of one node more are those of the first `count`, followed by the
/// link of that node where it has one that the map does not hold.
pub proof fn lemma_known_links(nodes: Seq<NodeView>, count: int, known: Seq<ReferenceView>)
    requires
        0 <= count < nodes.len(),
        forall|j: int|
            0 <= j < count ==> ((#[trigger] nodes[j]).link matches Some(link) ==> has_link(
                known,
                known.len() as int,
                link,
            )),
        forall|k: int| 0 <= k < known.len() ==> names_link(nodes, count, (#[trigger] known[k]).link),
    ensures
        link_order(nodes, count + 1) == match nodes[count].link {
            Some(link) => if has_link(known, known.len() as int, link) {
                link_order(nodes, count)
            } else {
                link_order(nodes, count).push(link)
            },
            None => link_order(nodes, count),
        },
{
    match nodes[count].link {
        Some(link) => {
            if has_link(known, known.len() as int, link) {
                let k = choose|k: int| 0 <= k < known.len() && (#[trigger] known[k]).link == link;
                assert(names_link(nodes, count, known[k].link));
            } else if names_link(nodes, count, link) {
                let j = choose|j: int| 0 <= j < count && (#[trigger] nodes[j]).link == Some(link);
                assert(has_link(known, known.len() as int, link));
            }
        },
        None => {},
    }
}

impl StepMerger {
    /// Ties the root nodes of the part files to the nodes that link to them:
    /// for each node with a link and each root node of its part file, the
    /// nine entries that place the root node, unmoved, in the node.
    pub fn link_roots(
        &mut self,
        assembly: &Assembly,
        node_step_ids: &Vec<NodeStepIds>,
        map: &ReferenceMap,
    ) -> (result: Result<(), Error>)
        requires
            !old(self)@.writer.is_finalized,
            node_step_ids@.len() == assembly.nodes@.len(),
        ensures
            !final(self)@.writer.is_finalized,
            final(self)@.writer.header == old(self)@.writer.header,
            exists|more: Seq<EntryView>|
                final(self)@.writer.entries == old(self)@.writer.entries + more,
            result is Ok <==> old(self)@.id_counter + 9 * roots_count(
                assembly.views(),
                map@,
                assembly.nodes@.len() as int,
            ) <= u64::MAX,
            result is Ok ==> final(self)@ == old(self)@.wrote(
                all_root_relations(
                    assembly.views(),
                    node_step_ids@,
                    map@,
                    assembly.nodes@.len() as int,
                    at(old(self)@.id_counter, 1),
                    old(self)@.default_coordinate_system,
                ),
            ),
            result matches Err(e) ==> e is InvalidNumber,
    {
        let ghost start = self@;
        let ghost nodes = assembly.views();
        let ghost total = assembly.nodes@.len() as int;
        let ghost first = at(start.id_counter, 1);
        let ghost cs = start.default_coordinate_system;
        let identity = crate::assembly::identity_matrix();
        let mut i: usize = 0;
        assert(self@.writer.entries =~= start.writer.entries + all_root_relations(
            nodes,
            node_step_ids@,
            map@,
            0,
            first,
            cs,
        ));
        while i < assembly.nodes.len()
            invariant
                i <= assembly.nodes.len(),
                start == old(self)@,
                nodes == assembly.views(),
                total == assembly.nodes@.len(),
                node_step_ids@.len() == total,
                first == at(start.id_counter, 1),
                cs == start.default_coordinate_system,
                identity@ == crate::assembly::identity_placement(),
                !self@.writer.is_finalized,
                0 <= roots_count(nodes, map@, i as int),
                self@.id_counter == start.id_counter + 9 * roots_count(nodes, map@, i as int),
                self@ == (MergerView {
                    writer: WriterView {
                        entries: start.writer.entries + all_root_relations(
                            nodes,
                            node_step_ids@,
                            map@,
                            i as int,
                            first,
                            cs,
                        ),
                        ..start.writer
                    },
                    id_counter: self@.id_counter,
                    ..start
                }),
            decreases assembly.nodes.len() - i,
        {
            let node = &assembly.nodes[i];
            let node_ids = node_step_ids[i];
            assert(nodes[i as int] == node@);
            let ghost done = all_root_relations(nodes, node_step_ids@, map@, i as int, first, cs);
            let ghost from = at(first, 9 * roots_count(nodes, map@, i as int));
            let ghost tied = node_roots(nodes[i as int], map@);
            let roots = match node.get_link() {
                Some(link) => map.get(link),
                None => None,
            };
            match roots {
                Some(roots) => {
                    let mut j: usize = 0;
                    assert(self@.writer.entries =~= start.writer.entries + (done + root_relations(
                        nodes[i as int].label,
                        node_ids,
                        tied,
                        0,
                        from,
                        cs,
                    )));
                    while j < roots.len()
                        invariant
                            j <= roots.len(),
                            i < assembly.nodes.len(),
                            start == old(self)@,
                            nodes == assembly.views(),
                            total == assembly.nodes@.len(),
                            node == &assembly.nodes@[i as int],
                            nodes[i as int] == node@,
                            roots@ == tied,
                            tied == node_roots(nodes[i as int], map@),
                            from == at(first, 9 * roots_count(nodes, map@, i as int)),
                            first == at(start.id_counter, 1),
                            cs == start.default_coordinate_system,
                            identity@ == crate::assembly::identity_placement(),
                            !self@.writer.is_finalized,
                            0 <= roots_count(nodes, map@, i as int),
                            self@.id_counter == start.id_counter + 9 * roots_count(
                                nodes,
                                map@,
                                i as int,
                            ) + 9 * j,
                            self@ == (MergerView {
                                writer: WriterView {
                                    entries: start.writer.entries + (done + root_relations(
                                        nodes[i as int].label,
                                        node_ids,
                                        tied,
                                        j as int,
                                        from,
                                        cs,
                                    )),
                                    ..start.writer
                                },
                                id_counter: self@.id_counter,
                                ..start
                            }),
                        decreases roots.len() - j,
                    {
                        let ghost before = self@.writer.entries;
                        match self.create_parent_child_relation(
                            node.get_label(),
                            node.get_label(),
                            node_ids,
                            roots[j],
                            &identity,
                        ) {
                            Ok(_) => {},
                            Err(e) => {
                                proof {
                                    lemma_roots_grow(nodes, map@, i + 1, total);
                                    assert(roots_count(nodes, map@, i + 1) == roots_count(
                                        nodes,
                                        map@,
                                        i as int,
                                    ) + tied.len());
                                }
                                return Err(e);
                            },
                        }
                        proof {
                            let block = relation_entries(
                                at(from, 9 * j),
                                nodes[i as int].label,
                                nodes[i as int].label,
                                node_ids,
                                tied[j as int],
                                crate::assembly::identity_placement(),
                                cs,
                            );
                            assert(self@.writer.entries =~= before + block);
                            assert(self@.writer.entries =~= start.writer.entries + (done
                                + root_relations(
                                nodes[i as int].label,
                                node_ids,
                                tied,
                                j + 1,
                                from,
                                cs,
                            )));
                        }
                        j += 1;
                    }
                },
                None => {
                    assert(tied.len() == 0);
                    assert(self@.writer.entries =~= start.writer.entries + (done + root_relations(
                        nodes[i as int].label,
                        node_ids,
                        tied,
                        0,
                        from,
                        cs,
                    )));
                },
            }
            i += 1;
        }
        proof {
            lemma_root_relations(nodes, node_step_ids@, map@, total, first, cs);
        }
        Ok(())
    }

    /// Takes in what the resolver has made of `link`, and records it in
    /// `map`. A link that could not be resolved is recorded without root
    /// nodes, and nothing else happens. A link that was resolved has its
    /// entries taken in as `load_and_add_step_entries` does, and is recorded
    /// with the root nodes of its file; where that import fails, its error is
    /// the result and the link is not recorded.
    pub fn import_link<I: Iterator<Item = Result<StepEntry, Error>>>(
        &mut self,
        link: &str,
        outcome: Result<I, Error>,
        map: &mut ReferenceMap,
    ) -> (result: Result<(), Error>)
        requires
            !old(self)@.writer.is_finalized,
            !has_link(old(map)@, old(map)@.len() as int, link@),
            outcome matches Ok(entries) ==> entries.obeys_prophetic_iter_laws()
                && entries.decrease() is Some,
        ensures
            !final(self)@.writer.is_finalized,
            match outcome {
                Err(_) => {
                    &&& result is Ok
                    &&& final(self)@ == old(self)@
                    &&& final(map)@ == old(map)@.push(ReferenceView { link: link@, roots: seq![] })
                },
                Ok(entries) => exists|
                    position: int,
                    end: int,
                    imported: Result<Vec<NodeStepIds>, Error>,
                |
                    {
                        &&& #[trigger] import_outcome(
                            entries.remaining(),
                            link@,
                            old(self)@,
                            final(self)@,
                            imported,
                            position,
                            end,
                        )
                        &&& match imported {
                            Ok(roots) => result is Ok && final(map)@ == old(map)@.push(
                                ReferenceView { link: link@, roots: roots@ },
                            ),
                            Err(e) => result == Err::<(), Error>(e) && final(map)@ == old(map)@,
                        }
                    },
            },
            link_taken(
                Resolved {
                    link: link@,
                    items: match outcome {
                        Ok(entries) => Some(entries.remaining()),
                        Err(_) => None,
                    },
                },
                old(self)@,
                old(map)@,
                final(self)@,
                final(map)@,
                match result {
                    Ok(_) => None,
                    Err(e) => Some(e),
                },
            ),
    {
        match outcome {
            Err(_) => {
                let none: Vec<NodeStepIds> = Vec::new();
                assert(none@ =~= Seq::<NodeStepIds>::empty());
                map.insert(link, none);
                assert(link_taken(
                    Resolved { link: link@, items: None },
                    old(self)@,
                    old(map)@,
                    self@,
                    map@,
                    None,
                ));
                Ok(())
            },
            Ok(entries) => {
                let ghost one = Resolved { link: link@, items: Some(entries.remaining()) };
                let imported = self.load_and_add_step_entries(entries, link);
                let ghost (position, end) = choose|position: int, end: int| #[trigger]
                    import_outcome(
                        entries.remaining(),
                        link@,
                        old(self)@,
                        self@,
                        imported,
                        position,
                        end,
                    );
                match imported {
                    Ok(roots) => {
                        let ghost kept = roots@;
                        assert(import_outcome(
                            entries.remaining(),
                            link@,
                            old(self)@,
                            self@,
                            Ok::<Vec<NodeStepIds>, Error>(roots),
                            position,
                            end,
                        ));
                        map.insert(link, roots);
                        assert(one.items == Some(entries.remaining()));
                        assert(map@ == old(map)@.push(ReferenceView { link: one.link, roots: kept }));
                        let ghost took = Ok::<Vec<NodeStepIds>, Error>(roots);
                        assert(import_outcome(
                            entries.remaining(),
                            one.link,
                            old(self)@,
                            self@,
                            took,
                            position,
                            end,
                        ));
                        assert(one.items->0 == entries.remaining());
                        assert(link_taken(one, old(self)@, old(map)@, self@, map@, None));
                        Ok(())
                    },
                    Err(e) => {
                        assert(import_outcome(
                            entries.remaining(),
                            link@,
                            old(self)@,
                            self@,
                            Err::<Vec<NodeStepIds>, Error>(e),
                            position,
                            end,
                        ));
                        let ghost took = Err::<Vec<NodeStepIds>, Error>(e);
                        assert(import_outcome(
                            entries.remaining(),
                            one.link,
                            old(self)@,
                            self@,
                            took,
                            position,
                            end,
                        ));
                        assert(one.items->0 == entries.remaining());
                        assert(link_taken(one, old(self)@, old(map)@, self@, map@, Some(e)));
                        Err(e)
                    },
                }
            },
        }
    }

    /// Asks the resolver for the part file of each link of the assembly, once
    /// for each link in the order in which the nodes name them, and takes in
    /// what the resolver hands back as `import_link` does. A link that cannot
    /// be resolved is passed over; an import that fails ends the call with
    /// its error.
    pub fn import_references<I: Iterator<Item = Result<StepEntry, Error>>, R: Fn(&str) -> Result<
        I,
        Error,
    >>(&mut self, assembly: &Assembly, resolver: &R) -> (result: Result<ReferenceMap, Error>)
        requires
            !old(self)@.writer.is_finalized,
            forall|link: &str| call_requires(*resolver, (link,)),
            forall|link: &str, outcome: Result<I, Error>|
                #![trigger call_ensures(*resolver, (link,), outcome)]
                call_ensures(*resolver, (link,), outcome) ==> (outcome matches Ok(entries)
                    ==> entries.obeys_prophetic_iter_laws() && entries.decrease() is Some),
        ensures
            !final(self)@.writer.is_finalized,
            final(self)@.writer.header == old(self)@.writer.header,
            final(self)@.default_coordinate_system == old(self)@.default_coordinate_system,
            exists|added: Seq<EntryView>|
                final(self)@.writer.entries == old(self)@.writer.entries + added,
            result matches Ok(map) ==> {
                &&& links_distinct(map@)
                &&& forall|i: int|
                    0 <= i < assembly.nodes@.len() ==> ((#[trigger] assembly.views()[i]).link matches Some(
                        link,
                    ) ==> has_link(map@, map@.len() as int, link))
                &&& forall|k: int|
                    0 <= k < map@.len() ==> names_link(
                        assembly.views(),
                        assembly.nodes@.len() as int,
                        (#[trigger] map@[k]).link,
                    )
            },
            (forall|link: &str, outcome: Result<I, Error>|
                #![trigger call_ensures(*resolver, (link,), outcome)]
                names_link(assembly.views(), assembly.nodes@.len() as int, link@) && call_ensures(
                    *resolver,
                    (link,),
                    outcome,
                ) ==> outcome is Err) ==> {
                &&& result matches Ok(map)
                &&& final(self)@ == old(self)@
                &&& forall|k: int| 0 <= k < map@.len() ==> (#[trigger] map@[k]).roots.len() == 0
            },
            exists|resolved: Seq<Resolved>|
                {
                    &&& #[trigger] references_taken(
                        resolved,
                        assembly.views(),
                        old(self)@,
                        final(self)@,
                        taken_of(result),
                    )
                    &&& forall|k: int|
                        #![trigger resolved[k]]
                        0 <= k < resolved.len() ==> exists|name: &str, outcome: Result<I, Error>|
                            #![trigger call_ensures(*resolver, (name,), outcome)]
                            {
                                &&& name@ == resolved[k].link
                                &&& call_ensures(*resolver, (name,), outcome)
                                &&& match outcome {
                                    Ok(entries) => resolved[k].items == Some(entries.remaining()),
                                    Err(_) => resolved[k].items is None,
                                }
                            }
                },
    {
        let ghost start = self@;
        let ghost nodes = assembly.views();
        let ghost all_fail = forall|link: &str, outcome: Result<I, Error>|
            #![trigger call_ensures(*resolver, (link,), outcome)]
            names_link(assembly.views(), assembly.nodes@.len() as int, link@) && call_ensures(
                *resolver,
                (link,),
                outcome,
            ) ==> outcome is Err;
        let ghost mut added: Seq<EntryView> = Seq::empty();
        let mut map = ReferenceMap::new();
        let mut i: usize = 0;
        assert(self@.writer.entries =~= start.writer.entries + added);
        assert(map@ =~= Seq::<ReferenceView>::empty());
        assert(asked_so_far(Seq::<Resolved>::empty(), nodes, 0, start, self@, map@));
        while i < assembly.nodes.len()
            invariant
                i <= assembly.nodes.len(),
                start == old(self)@,
                nodes == assembly.views(),
                all_fail == (forall|link: &str, outcome: Result<I, Error>|
                    #![trigger call_ensures(*resolver, (link,), outcome)]
                    names_link(assembly.views(), assembly.nodes@.len() as int, link@)
                        && call_ensures(*resolver, (link,), outcome) ==> outcome is Err),
                forall|link: &str| call_requires(*resolver, (link,)),
                forall|link: &str, outcome: Result<I, Error>|
                    #![trigger call_ensures(*resolver, (link,), outcome)]
                    call_ensures(*resolver, (link,), outcome) ==> (outcome matches Ok(entries)
                        ==> entries.obeys_prophetic_iter_laws() && entries.decrease() is Some),
                !self@.writer.is_finalized,
                self@.writer.header == start.writer.header,
                self@.default_coordinate_system == start.default_coordinate_system,
                self@.writer.entries == start.writer.entries + added,
                links_distinct(map@),
                forall|j: int|
                    0 <= j < i ==> ((#[trigger] nodes[j]).link matches Some(link) ==> has_link(
                        map@,
                        map@.len() as int,
                        link,
                    )),
                forall|k: int|
                    0 <= k < map@.len() ==> names_link(nodes, i as int, (#[trigger] map@[k]).link),
                all_fail ==> self@ == start && forall|k: int|
                    0 <= k < map@.len() ==> (#[trigger] map@[k]).roots.len() == 0,
                exists|resolved: Seq<Resolved>|
                    {
                        &&& #[trigger] asked_so_far(resolved, nodes, i as int, start, self@, map@)
                        &&& forall|k: int|
                            #![trigger resolved[k]]
                            0 <= k < resolved.len() ==> exists|name: &str, outcome: Result<I, Error>|
                                #![trigger call_ensures(*resolver, (name,), outcome)]
                                {
                                    &&& name@ == resolved[k].link
                                    &&& call_ensures(*resolver, (name,), outcome)
                                    &&& match outcome {
                                        Ok(entries) => resolved[k].items == Some(entries.remaining()),
                                        Err(_) => resolved[k].items is None,
                                    }
                                }
                    },
            decreases assembly.nodes.len() - i,
        {
            let node = &assembly.nodes[i];
            assert(nodes[i as int] == node@);
            let ghost before = self@;
            let ghost known = map@;
            let ghost asked = choose|resolved: Seq<Resolved>|
                {
                    &&& #[trigger] asked_so_far(resolved, nodes, i as int, start, self@, map@)
                    &&& forall|k: int|
                        #![trigger resolved[k]]
                        0 <= k < resolved.len() ==> exists|name: &str, outcome: Result<I, Error>|
                            #![trigger call_ensures(*resolver, (name,), outcome)]
                            {
                                &&& name@ == resolved[k].link
                                &&& call_ensures(*resolver, (name,), outcome)
                                &&& match outcome {
                                    Ok(entries) => resolved[k].items == Some(entries.remaining()),
                                    Err(_) => resolved[k].items is None,
                                }
                            }
                };
            proof {
                lemma_known_links(nodes, i as int, known);
            }
            proof {
                assert forall|k: int| 0 <= k < known.len() implies names_link(
                    nodes,
                    i + 1,
                    (#[trigger] known[k]).link,
                ) by {
                    lemma_names_link_grows(nodes, i as int, known[k].link);
                }
            }
            match node.get_link() {
                Some(link) => {
                    if !map.contains_key(link) {
                        let outcome = resolver(link);
                        let ghost handed = outcome;
                        let ghost one = Resolved {
                            link: link@,
                            items: match handed {
                                Ok(entries) => Some(entries.remaining()),
                                Err(_) => None,
                            },
                        };
                        assert(names_link(nodes, nodes.len() as int, link@)) by {
                            assert(nodes[i as int].link == Some(link@));
                        }
                        let ghost next = asked.push(one);
                        proof {
                            lemma_links_taken_push(
                                asked,
                                one,
                                asked.len() as int,
                                start,
                                before,
                                known,
                            );
                            lemma_link_order_grows(nodes, i + 1, nodes.len() as int);
                            assert(link_order(nodes, i + 1) == link_order(nodes, i as int).push(
                                link@,
                            ));
                            assert forall|k: int|
                                #![trigger next[k]]
                                0 <= k < next.len() implies exists|
                                name: &str,
                                outcome: Result<I, Error>,
                            |
                                #![trigger call_ensures(*resolver, (name,), outcome)]
                                {
                                    &&& name@ == next[k].link
                                    &&& call_ensures(*resolver, (name,), outcome)
                                    &&& match outcome {
                                        Ok(entries) => next[k].items == Some(
                                            entries.remaining(),
                                        ),
                                        Err(_) => next[k].items is None,
                                    }
                                } by {
                                if k < asked.len() {
                                    assert(next[k] == asked[k]);
                                } else {
                                    assert(next[k] == one);
                                    assert(call_ensures(*resolver, (link,), handed));
                                }
                            }
                            assert forall|k: int| 0 <= k < next.len() implies (
                            #[trigger] next[k]).link == link_order(nodes, i + 1)[k] by {
                                if k < asked.len() {
                                    assert(next[k] == asked[k]);
                                }
                            }
                        }
                        match self.import_link(link, outcome, &mut map) {
                            Ok(_) => {},
                            Err(e) => {
                                proof {
                                    let (position, end, imported) = choose|
                                        position: int,
                                        end: int,
                                        imported: Result<Vec<NodeStepIds>, Error>,
                                    | #[trigger]
                                        import_outcome(
                                            handed->Ok_0.remaining(),
                                            link@,
                                            before,
                                            self@,
                                            imported,
                                            position,
                                            end,
                                        );
                                    lemma_import_appends(
                                        handed->Ok_0.remaining(),
                                        link@,
                                        before,
                                        self@,
                                        imported,
                                        position,
                                        end,
                                    );
                                    let more = choose|more: Seq<EntryView>|
                                        self@.writer.entries == before.writer.entries + more;
                                    assert(self@.writer.entries =~= start.writer.entries + (added
                                        + more));
                                    assert(map@ == known);
                                    assert(link_taken(
                                        next[next.len() - 1],
                                        before,
                                        known,
                                        self@,
                                        known,
                                        Some(e),
                                    ));
                                    assert(references_taken(
                                        next,
                                        nodes,
                                        start,
                                        self@,
                                        Err::<Seq<ReferenceView>, Error>(e),
                                    ));
                                }
                                return Err(e);
                            },
                        }
                        proof {
                            assert(link_taken(
                                next[next.len() - 1],
                                before,
                                known,
                                self@,
                                map@,
                                None,
                            ));
                            assert(links_taken(next, next.len() as int, start, self@, map@));
                            assert(map@.len() == known.len() + 1);
                            assert(map@.last().link == link@);
                            assert forall|k: int| 0 <= k < known.len() implies map@[k] == known[k] by {}
                            if handed is Ok {
                                let (position, end, imported) = choose|
                                    position: int,
                                    end: int,
                                    imported: Result<Vec<NodeStepIds>, Error>,
                                | #[trigger]
                                    import_outcome(
                                        handed->Ok_0.remaining(),
                                        link@,
                                        before,
                                        self@,
                                        imported,
                                        position,
                                        end,
                                    ) && match imported {
                                        Ok(roots) => map@ == known.push(
                                            ReferenceView { link: link@, roots: roots@ },
                                        ),
                                        Err(e) => map@ == known,
                                    };
                                lemma_import_appends(
                                    handed->Ok_0.remaining(),
                                    link@,
                                    before,
                                    self@,
                                    imported,
                                    position,
                                    end,
                                );
                                let more = choose|more: Seq<EntryView>|
                                    self@.writer.entries == before.writer.entries + more;
                                assert(self@.writer.entries =~= start.writer.entries + (added
                                    + more));
                                added = added + more;
                            }
                            assert(links_distinct(map@)) by {
                                assert forall|a: int, b: int| 0 <= a < b < map@.len() implies (
                                #[trigger] map@[a]).link != (#[trigger] map@[b]).link by {
                                    if b == known.len() {
                                        if map@[a].link == link@ {
                                            assert(known[a].link == link@);
                                            assert(has_link(known, known.len() as int, link@));
                                        }
                                    } else {
                                        assert(known[a].link != known[b].link);
                                    }
                                }
                            }
                            assert(has_link(map@, map@.len() as int, link@)) by {
                                assert(map@[map@.len() - 1].link == link@);
                            }
                            assert forall|j: int| 0 <= j < i + 1 implies ((
                            #[trigger] nodes[j]).link matches Some(other) ==> has_link(
                                map@,
                                map@.len() as int,
                                other,
                            )) by {
                                if j < i && nodes[j].link is Some {
                                    let other = nodes[j].link->0;
                                    assert(has_link(known, known.len() as int, other));
                                    let k = choose|k: int|
                                        0 <= k < known.len() && (#[trigger] known[k]).link == other;
                                    assert(map@[k].link == other);
                                }
                            }
                            assert forall|k: int| 0 <= k < map@.len() implies names_link(
                                nodes,
                                i + 1,
                                (#[trigger] map@[k]).link,
                            ) by {
                                if k < known.len() {
                                    assert(map@[k] == known[k]);
                                } else {
                                    assert(nodes[i as int].link == Some(map@[k].link));
                                }
                            }
                            assert(asked_so_far(next, nodes, i + 1, start, self@, map@));
                        }
                    }
                },
                None => {},
            }
            proof {
                if self@ == before && map@ == known {
                    assert(asked_so_far(asked, nodes, i + 1, start, self@, map@));
                }
            }
            i += 1;
        }
        let ghost resolved = choose|resolved: Seq<Resolved>|
            {
                &&& #[trigger] asked_so_far(resolved, nodes, i as int, start, self@, map@)
                &&& forall|k: int|
                    #![trigger resolved[k]]
                    0 <= k < resolved.len() ==> exists|name: &str, outcome: Result<I, Error>|
                        #![trigger call_ensures(*resolver, (name,), outcome)]
                        {
                            &&& name@ == resolved[k].link
                            &&& call_ensures(*resolver, (name,), outcome)
                            &&& match outcome {
                                Ok(entries) => resolved[k].items == Some(entries.remaining()),
                                Err(_) => resolved[k].items is None,
                            }
                        }
            };
        proof {
            assert forall|j: int| 0 <= j < assembly.nodes@.len() implies ((
            #[trigger] assembly.views()[j]).link matches Some(link) ==> has_link(
                map@,
                map@.len() as int,
                link,
            )) by {
                assert(nodes[j] == assembly.views()[j]);
            }
            assert(references_taken(
                resolved,
                nodes,
                start,
                self@,
                Ok::<Seq<ReferenceView>, Error>(map@),
            ));
        }
        Ok(map)
    }

    /// Takes the part files of the links of the assembly in, as
    /// `import_references` does, and ties the root nodes of each part file
    /// to the nodes that link to it, as `link_roots` does.
    pub fn take_parts<I: Iterator<Item = Result<StepEntry, Error>>, R: Fn(&str) -> Result<I, Error>>(
        &mut self,
        assembly: &Assembly,
        node_step_ids: &Vec<NodeStepIds>,
        resolver: &R,
    ) -> (result: Result<ReferenceMap, Error>)
        requires
            !old(self)@.writer.is_finalized,
            node_step_ids@.len() == assembly.nodes@.len(),
            forall|link: &str| call_requires(*resolver, (link,)),
            forall|link: &str, outcome: Result<I, Error>|
                #![trigger call_ensures(*resolver, (link,), outcome)]
                call_ensures(*resolver, (link,), outcome) ==> (outcome matches Ok(entries)
                    ==> entries.obeys_prophetic_iter_laws() && entries.decrease() is Some),
        ensures
            !final(self)@.writer.is_finalized,
            final(self)@.writer.header == old(self)@.writer.header,
            exists|more: Seq<EntryView>|
                final(self)@.writer.entries == old(self)@.writer.entries + more,
            result matches Ok(map) ==> holds_links(assembly.views(), map@) && exists|
                added: Seq<EntryView>,
                offset: u64,
            |
                {
                    &&& final(self)@ == #[trigger] tied_state(
                        old(self)@,
                        added,
                        offset,
                        final(self)@.mechanical_design_ids,
                        assembly.views(),
                        node_step_ids@,
                        map@,
                    )
                    &&& 0 <= roots_count(assembly.views(), map@, assembly.nodes@.len() as int)
                    &&& offset + 9 * roots_count(
                        assembly.views(),
                        map@,
                        assembly.nodes@.len() as int,
                    ) <= u64::MAX
                },
            (forall|link: &str, outcome: Result<I, Error>|
                #![trigger call_ensures(*resolver, (link,), outcome)]
                names_link(assembly.views(), assembly.nodes@.len() as int, link@) && call_ensures(
                    *resolver,
                    (link,),
                    outcome,
                ) ==> outcome is Err) ==> {
                &&& result matches Ok(map)
                &&& final(self)@ == old(self)@
                &&& forall|k: int| 0 <= k < map@.len() ==> (#[trigger] map@[k]).roots.len() == 0
            },
            exists|resolved: Seq<Resolved>|
                {
                    &&& #[trigger] parts_taken(
                        resolved,
                        assembly.views(),
                        node_step_ids@,
                        old(self)@,
                        final(self)@,
                        taken_of(result),
                    )
                    &&& forall|k: int|
                        #![trigger resolved[k]]
                        0 <= k < resolved.len() ==> exists|name: &str, outcome: Result<I, Error>|
                            #![trigger call_ensures(*resolver, (name,), outcome)]
                            {
                                &&& name@ == resolved[k].link
                                &&& call_ensures(*resolver, (name,), outcome)
                                &&& match outcome {
                                    Ok(entries) => resolved[k].items == Some(entries.remaining()),
                                    Err(_) => resolved[k].items is None,
                                }
                            }
                },
    {
        let ghost start = self@;
        let ghost nodes = assembly.views();
        let ghost total = assembly.nodes@.len() as int;
        let ghost all_fail = forall|link: &str, outcome: Result<I, Error>|
            #![trigger call_ensures(*resolver, (link,), outcome)]
            names_link(assembly.views(), assembly.nodes@.len() as int, link@) && call_ensures(
                *resolver,
                (link,),
                outcome,
            ) ==> outcome is Err;
        let map = match self.import_references(assembly, resolver) {
            Ok(map) => map,
            Err(e) => {
                proof {
                    let resolved = choose|resolved: Seq<Resolved>|
                        {
                            &&& #[trigger] references_taken(
                                resolved,
                                nodes,
                                start,
                                self@,
                                taken_of(Err::<ReferenceMap, Error>(e)),
                            )
                            &&& forall|k: int|
                                #![trigger resolved[k]]
                                0 <= k < resolved.len() ==> exists|name: &str, outcome: Result<I, Error>|
                                    #![trigger call_ensures(*resolver, (name,), outcome)]
                                    {
                                        &&& name@ == resolved[k].link
                                        &&& call_ensures(*resolver, (name,), outcome)
                                        &&& match outcome {
                                            Ok(entries) => resolved[k].items == Some(entries.remaining()),
                                            Err(_) => resolved[k].items is None,
                                        }
                                    }
                        };
                    assert(parts_taken(
                        resolved,
                        nodes,
                        node_step_ids@,
                        start,
                        self@,
                        Err::<Seq<ReferenceView>, Error>(e),
                    ));
                }
                return Err(e);
            },
        };
        let ghost imported = self@;
        let ghost resolved = choose|resolved: Seq<Resolved>|
            {
                &&& #[trigger] references_taken(
                    resolved,
                    nodes,
                    start,
                    imported,
                    taken_of(Ok::<ReferenceMap, Error>(map)),
                )
                &&& forall|k: int|
                    #![trigger resolved[k]]
                    0 <= k < resolved.len() ==> exists|name: &str, outcome: Result<I, Error>|
                        #![trigger call_ensures(*resolver, (name,), outcome)]
                        {
                            &&& name@ == resolved[k].link
                            &&& call_ensures(*resolver, (name,), outcome)
                            &&& match outcome {
                                Ok(entries) => resolved[k].items == Some(entries.remaining()),
                                Err(_) => resolved[k].items is None,
                            }
                        }
            };
        let ghost added = choose|added: Seq<EntryView>|
            self@.writer.entries == start.writer.entries + added;
        let ghost first = at(imported.id_counter, 1);
        let ghost cs = imported.default_coordinate_system;
        proof {
            assert(references_taken(
                resolved,
                nodes,
                start,
                imported,
                Ok::<Seq<ReferenceView>, Error>(map@),
            ));
            lemma_root_relations(nodes, node_step_ids@, map@, total, first, cs);
            if all_fail {
                lemma_no_root_relations(nodes, node_step_ids@, map@, total, first, cs);
            }
        }
        match self.link_roots(assembly, node_step_ids, &map) {
            Ok(_) => {},
            Err(e) => {
                proof {
                    let more = choose|more: Seq<EntryView>|
                        self@.writer.entries == imported.writer.entries + more;
                    assert(self@.writer.entries =~= start.writer.entries + (added + more));
                    assert(parts_taken(
                        resolved,
                        nodes,
                        node_step_ids@,
                        start,
                        self@,
                        Err::<Seq<ReferenceView>, Error>(e),
                    ));
                }
                return Err(e);
            },
        }
        proof {
            let tied = all_root_relations(nodes, node_step_ids@, map@, total, first, cs);
            assert(self@ == imported.wrote(tied));
            assert(self@.writer.entries =~= start.writer.entries + (added + tied));
            assert(self@.writer.entries =~= start.writer.entries + added + tied);
            assert(self@ == tied_state(
                start,
                added,
                imported.id_counter,
                self@.mechanical_design_ids,
                nodes,
                node_step_ids@,
                map@,
            ));
            if all_fail {
                assert(tied =~= Seq::<EntryView>::empty());
                assert(imported.writer.entries + tied =~= imported.writer.entries);
                assert(self@ == start);
            }
            assert(parts_taken(
                resolved,
                nodes,
                node_step_ids@,
                start,
                self@,
                Ok::<Seq<ReferenceView>, Error>(map@),
            ));
        }
        Ok(map)
    }
}

} // verus!
