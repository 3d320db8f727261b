//! What holds of the ids that a merge gives out.

use vstd::prelude::*;
use crate::assembly::{NodeView, TransformView};
use crate::entry::EntryView;
use crate::utils::NodeStepIds;
use crate::merge::entries::{
    all_metadata_entries,
    at,
    closing_entries,
    context_entries,
    full_node_entries,
    lemma_metadata_entries_len,
    metadata_entries,
    node_entries,
    node_ids,
    node_size,
    origin_entries,
    relation_entries,
};
use crate::merge::structure::{
    all_child_relations,
    all_node_entries,
    child_relations,
    children_count,
    lemma_all_child_relations_len,
    lemma_child_relations_len,
    lemma_node_entries_len,
    lemma_structure_len,
    lemma_structure_sizes,
    node_first,
    nodes_size,
    structure_entries,
    structure_size,
};
use crate::merge::{plain_entries};

verus! {

/// Whether the ids of the entries count up by one from `first` on.
pub open spec fn consecutive(entries: Seq<EntryView>, first: int) -> bool {
    forall|k: int| 0 <= k < entries.len() ==> (#[trigger] entries[k]).id == first + k
}

/// Entries that count up, followed by entries that count up from where the
/// first stop, count up.
pub proof fn lemma_consecutive_concat(a: Seq<EntryView>, b: Seq<EntryView>, first: int)
    requires
        consecutive(a, first),
        consecutive(b, first + a.len()),
    ensures
        consecutive(a + b, first),
{
    assert forall|k: int| 0 <= k < (a + b).len() implies (#[trigger] (a + b)[k]).id == first + k by {
        if k < a.len() {
            assert((a + b)[k] == a[k]);
        } else {
            assert((a + b)[k] == b[k - a.len()]);
        }
    }
}

/// The entries of a node count up.
proof fn lemma_node_consecutive(first: u64, node: NodeView)
    requires
        first + node_size(node) <= u64::MAX + 1,
    ensures
        consecutive(full_node_entries(first, node), first as int),
        full_node_entries(first, node).len() == node_size(node),
{
    let own = node_entries(first, node.label);
    assert(own.len() == 18);
    assert(consecutive(origin_entries(first), first as int));
    assert(consecutive(own, first as int)) by {
        assert forall|k: int| 0 <= k < own.len() implies (#[trigger] own[k]).id == first + k by {
            if k < 4 {
                assert(own[k] == origin_entries(first)[k]);
            }
        }
    }
    lemma_metadata_consecutive(first, node.metadata, node.metadata.len() as int);
    lemma_consecutive_concat(
        own,
        all_metadata_entries(first, node.metadata, node.metadata.len() as int),
        first as int,
    );
}

/// The entries of the metadata of a node count up from behind the entries
/// of the node itself.
proof fn lemma_metadata_consecutive(
    first: u64,
    metadata: Seq<(Seq<char>, Seq<char>)>,
    count: int,
)
    requires
        0 <= count,
        first + 18 + 4 * count <= u64::MAX + 1,
    ensures
        consecutive(all_metadata_entries(first, metadata, count), first + 18),
        all_metadata_entries(first, metadata, count).len() == 4 * count,
    decreases count,
{
    lemma_metadata_entries_len(first, metadata, count);
    if count > 0 {
        lemma_metadata_consecutive(first, metadata, count - 1);
        let block = metadata_entries(
            at(first, 18 + 4 * (count - 1)),
            metadata[count - 1].0,
            metadata[count - 1].1,
            at(first, 11),
        );
        assert(consecutive(block, first + 18 + 4 * (count - 1)));
        lemma_consecutive_concat(
            all_metadata_entries(first, metadata, count - 1),
            block,
            first + 18,
        );
    }
}

/// The entries of the nodes count up.
proof fn lemma_nodes_consecutive(nodes: Seq<NodeView>, count: int, base: u64)
    requires
        0 <= count,
        base + nodes_size(nodes, count) <= u64::MAX + 1,
    ensures
        consecutive(all_node_entries(nodes, count, base), base as int),
    decreases count,
{
    lemma_node_entries_len(nodes, count, base);
    if count > 0 {
        lemma_structure_sizes(nodes, count);
        lemma_structure_sizes(nodes, count - 1);
        lemma_node_entries_len(nodes, count - 1, base);
        lemma_nodes_consecutive(nodes, count - 1, base);
        lemma_node_consecutive(node_first(nodes, count - 1, base), nodes[count - 1]);
        lemma_consecutive_concat(
            all_node_entries(nodes, count - 1, base),
            full_node_entries(node_first(nodes, count - 1, base), nodes[count - 1]),
            base as int,
        );
    }
}

/// The entries that place a child count up.
proof fn lemma_relation_consecutive(
    first: u64,
    parent_label: Seq<char>,
    child_label: Seq<char>,
    parent: NodeStepIds,
    child: NodeStepIds,
    placement: TransformView,
    coordinate_system: u64,
)
    requires
        first + 9 <= u64::MAX + 1,
    ensures
        consecutive(
            relation_entries(
                first,
                parent_label,
                child_label,
                parent,
                child,
                placement,
                coordinate_system,
            ),
            first as int,
        ),
{
}

/// The entries that place the children of a node count up.
proof fn lemma_child_relations_consecutive(
    nodes: Seq<NodeView>,
    parent: int,
    count: int,
    first: u64,
    base: u64,
    coordinate_system: u64,
)
    requires
        0 <= count,
        first + 9 * count <= u64::MAX + 1,
    ensures
        consecutive(
            child_relations(nodes, parent, count, first, base, coordinate_system),
            first as int,
        ),
    decreases count,
{
    lemma_child_relations_len(nodes, parent, count, first, base, coordinate_system);
    if count > 0 {
        lemma_child_relations_len(nodes, parent, count - 1, first, base, coordinate_system);
        lemma_child_relations_consecutive(nodes, parent, count - 1, first, base, coordinate_system);
        let child = nodes[parent].children[count - 1] as int;
        let block = relation_entries(
            at(first, 9 * (count - 1)),
            nodes[parent].label,
            nodes[child].label,
            node_ids(node_first(nodes, parent, base)),
            node_ids(node_first(nodes, child, base)),
            nodes[child].transform,
            coordinate_system,
        );
        lemma_relation_consecutive(
            at(first, 9 * (count - 1)),
            nodes[parent].label,
            nodes[child].label,
            node_ids(node_first(nodes, parent, base)),
            node_ids(node_first(nodes, child, base)),
            nodes[child].transform,
            coordinate_system,
        );
        lemma_consecutive_concat(
            child_relations(nodes, parent, count - 1, first, base, coordinate_system),
            block,
            first as int,
        );
    }
}

/// The entries that place the children of the nodes count up.
proof fn lemma_all_child_relations_consecutive(
    nodes: Seq<NodeView>,
    count: int,
    first: u64,
    base: u64,
    coordinate_system: u64,
)
    requires
        0 <= count,
        first + 9 * children_count(nodes, count) <= u64::MAX + 1,
    ensures
        consecutive(
            all_child_relations(nodes, count, first, base, coordinate_system),
            first as int,
        ),
    decreases count,
{
    lemma_all_child_relations_len(nodes, count, first, base, coordinate_system);
    if count > 0 {
        lemma_structure_sizes(nodes, count);
        lemma_structure_sizes(nodes, count - 1);
        lemma_all_child_relations_len(nodes, count - 1, first, base, coordinate_system);
        lemma_all_child_relations_consecutive(nodes, count - 1, first, base, coordinate_system);
        lemma_child_relations_consecutive(
            nodes,
            count - 1,
            nodes[count - 1].children.len() as int,
            at(first, 9 * children_count(nodes, count - 1)),
            base,
            coordinate_system,
        );
        lemma_consecutive_concat(
            all_child_relations(nodes, count - 1, first, base, coordinate_system),
            child_relations(
                nodes,
                count - 1,
                nodes[count - 1].children.len() as int,
                at(first, 9 * children_count(nodes, count - 1)),
                base,
                coordinate_system,
            ),
            first as int,
        );
    }
}

/// The ids of the entries that stand for the assembly tree count up by one
/// from 1 on.
pub proof fn lemma_structure_ids(nodes: Seq<NodeView>)
    requires
        structure_size(nodes) <= u64::MAX,
    ensures
        consecutive(structure_entries(nodes), 1),
        structure_entries(nodes).len() == structure_size(nodes),
{
    let total = nodes.len() as int;
    lemma_structure_len(nodes);
    lemma_structure_sizes(nodes, total);
    lemma_node_entries_len(nodes, total, 7);
    let head = context_entries() + origin_entries(3);
    assert(consecutive(head, 1)) by {
        assert(consecutive(context_entries(), 1));
        assert(consecutive(origin_entries(3), 3));
        lemma_consecutive_concat(context_entries(), origin_entries(3), 1);
    }
    lemma_nodes_consecutive(nodes, total, 7);
    lemma_consecutive_concat(head, all_node_entries(nodes, total, 7), 1);
    lemma_all_child_relations_consecutive(nodes, total, at(7, nodes_size(nodes, total)), 7, 6);
    lemma_consecutive_concat(
        head + all_node_entries(nodes, total, 7),
        all_child_relations(nodes, total, at(7, nodes_size(nodes, total)), 7, 6),
        1,
    );
}

/// Id monotonicity: in a merge that takes no part file in, the ids of the
/// entries that are written count up by one from 1 on, without a gap. (The
/// entries of a part file keep the order and the gaps of their file.)
pub proof fn lemma_ids_count_up(nodes: Seq<NodeView>, k: int)
    requires
        structure_size(nodes) + 9 <= u64::MAX,
        0 <= k < plain_entries(nodes).len(),
    ensures
        plain_entries(nodes)[k].id == k + 1,
        plain_entries(nodes).len() == structure_size(nodes) + 9,
{
    lemma_structure_ids(nodes);
    let closing = closing_entries(at(0, structure_size(nodes) + 1), seq![]);
    assert(consecutive(closing, structure_size(nodes) + 1));
    lemma_consecutive_concat(structure_entries(nodes), closing, 1);
}

} // verus!
