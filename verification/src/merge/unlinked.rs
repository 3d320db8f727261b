//! A link that cannot be resolved is like no link: the merge of an assembly
//! in which one node has a link that the resolver fails on writes what the
//! merge of the same assembly without that link writes.

use vstd::prelude::*;
use crate::assembly::NodeView;
use crate::error::Error;
use crate::utils::NodeStepIds;
use crate::merge::entries::at;
use crate::merge::references::{
    all_root_relations, has_link, link_order, link_taken, links_taken, names_link, node_roots,
    parts_taken, references_taken, roots_count, roots_for, ReferenceView, Resolved,
};
use crate::merge::structure::{
    all_child_relations, all_node_entries, all_node_ids, child_relations, children_count,
    node_first, nodes_size, structure_entries, structure_size,
};
use crate::merge::{merged_with, structured, MergerView};

verus! {

/// Whether the nodes are the same but for their links.
pub open spec fn same_but_links(a: Seq<NodeView>, b: Seq<NodeView>) -> bool {
    &&& a.len() == b.len()
    &&& forall|i: int|
        0 <= i < a.len() ==> (#[trigger] a[i]).label == b[i].label && a[i].metadata
            == b[i].metadata && a[i].transform == b[i].transform && a[i].children == b[i].children
}

/// The entries of the nodes do not depend on the links.
proof fn lemma_nodes_without_links(a: Seq<NodeView>, b: Seq<NodeView>, count: int, base: u64)
    requires
        same_but_links(a, b),
        0 <= count <= a.len(),
    ensures
        nodes_size(a, count) == nodes_size(b, count),
        children_count(a, count) == children_count(b, count),
        all_node_entries(a, count, base) == all_node_entries(b, count, base),
    decreases count,
{
    if count > 0 {
        lemma_nodes_without_links(a, b, count - 1, base);
        assert(a[count - 1].label == b[count - 1].label);
    }
}

/// The entries that place the children of a node do not depend on the
/// links.
proof fn lemma_children_without_links(
    a: Seq<NodeView>,
    b: Seq<NodeView>,
    parent: int,
    count: int,
    first: u64,
    base: u64,
    coordinate_system: u64,
)
    requires
        same_but_links(a, b),
        0 <= parent < a.len(),
        0 <= count <= a[parent].children.len(),
        forall|k: int| 0 <= k < a[parent].children.len() ==> (#[trigger] a[parent].children[k])
            < a.len(),
    ensures
        child_relations(a, parent, count, first, base, coordinate_system) == child_relations(
            b,
            parent,
            count,
            first,
            base,
            coordinate_system,
        ),
    decreases count,
{
    if count > 0 {
        lemma_children_without_links(a, b, parent, count - 1, first, base, coordinate_system);
        let child = a[parent].children[count - 1] as int;
        assert(a[parent].label == b[parent].label);
        assert(a[child].label == b[child].label);
        lemma_nodes_without_links(a, b, parent, base);
        lemma_nodes_without_links(a, b, child, base);
    }
}

/// The entries that place the children of the nodes do not depend on the
/// links.
proof fn lemma_all_children_without_links(
    a: Seq<NodeView>,
    b: Seq<NodeView>,
    count: int,
    first: u64,
    base: u64,
    coordinate_system: u64,
)
    requires
        same_but_links(a, b),
        0 <= count <= a.len(),
        crate::assembly::children_valid(a, a.len() as int),
    ensures
        all_child_relations(a, count, first, base, coordinate_system) == all_child_relations(
            b,
            count,
            first,
            base,
            coordinate_system,
        ),
    decreases count,
{
    if count > 0 {
        lemma_all_children_without_links(a, b, count - 1, first, base, coordinate_system);
        lemma_nodes_without_links(a, b, count - 1, base);
        assert(a[count - 1].children == b[count - 1].children);
        lemma_children_without_links(
            a,
            b,
            count - 1,
            a[count - 1].children.len() as int,
            at(first, 9 * children_count(a, count - 1)),
            base,
            coordinate_system,
        );
    }
}

/// The entries that stand for the assembly tree, and the ids of the nodes,
/// do not depend on the links.
pub proof fn lemma_structure_without_links(a: Seq<NodeView>, b: Seq<NodeView>)
    requires
        same_but_links(a, b),
        crate::assembly::children_valid(a, a.len() as int),
    ensures
        structure_entries(a) == structure_entries(b),
        structure_size(a) == structure_size(b),
        all_node_ids(a, a.len() as int, 7) == all_node_ids(b, b.len() as int, 7),
{
    let n = a.len() as int;
    lemma_nodes_without_links(a, b, n, 7);
    lemma_all_children_without_links(a, b, n, at(7, nodes_size(a, n)), 7, 6);
    assert forall|i: int| 0 <= i < n implies node_first(a, i, 7) == node_first(b, i, 7) by {
        lemma_nodes_without_links(a, b, i, 7);
    }
    assert(all_node_ids(a, n, 7) =~= all_node_ids(b, n, 7));
}

/// The map of links that were taken in holds them in their order, and no
/// root node for a link that could not be resolved.
pub proof fn lemma_links_taken_map(
    resolved: Seq<Resolved>,
    count: int,
    start: MergerView,
    after: MergerView,
    map: Seq<ReferenceView>,
)
    requires
        0 <= count <= resolved.len(),
        links_taken(resolved, count, start, after, map),
    ensures
        map.len() == count,
        forall|k: int| 0 <= k < count ==> (#[trigger] map[k]).link == resolved[k].link,
        forall|k: int|
            0 <= k < count && resolved[k].items is None ==> (#[trigger] map[k]).roots.len() == 0,
    decreases count,
{
    if count > 0 {
        let (before, known) = choose|before: MergerView, known: Seq<ReferenceView>|
            {
                &&& links_taken(resolved, count - 1, start, before, known)
                &&& #[trigger] link_taken(resolved[count - 1], before, known, after, map, None)
            };
        lemma_links_taken_map(resolved, count - 1, start, before, known);
        assert(map.len() == count);
        assert forall|k: int| 0 <= k < count implies (#[trigger] map[k]).link
            == resolved[k].link by {
            if k < count - 1 {
                assert(map[k] == known[k]);
            }
        }
        assert forall|k: int| 0 <= k < count && resolved[k].items is None implies (
        #[trigger] map[k]).roots.len() == 0 by {
            if k < count - 1 {
                assert(map[k] == known[k]);
            }
        }
    }
}

/// What the first links have become depends on those links only.
pub proof fn lemma_links_taken_agree(
    first: Seq<Resolved>,
    second: Seq<Resolved>,
    count: int,
    start: MergerView,
    after: MergerView,
    map: Seq<ReferenceView>,
)
    requires
        count <= first.len(),
        count <= second.len(),
        forall|k: int| 0 <= k < count ==> first[k] == second[k],
        links_taken(first, count, start, after, map),
    ensures
        links_taken(second, count, start, after, map),
    decreases count,
{
    if count > 0 {
        let (before, known) = choose|before: MergerView, known: Seq<ReferenceView>|
            {
                &&& links_taken(first, count - 1, start, before, known)
                &&& #[trigger] link_taken(first[count - 1], before, known, after, map, None)
            };
        lemma_links_taken_agree(first, second, count - 1, start, before, known);
        assert(link_taken(second[count - 1], before, known, after, map, None));
    }
}

/// Where a link is taken in behind a map, it is taken in behind that map
/// without one of its references in the same way, and leaves the map that
/// it left without that reference.
proof fn lemma_link_taken_without(
    one: Resolved,
    before: MergerView,
    known: Seq<ReferenceView>,
    after: MergerView,
    map: Seq<ReferenceView>,
    failed: Option<Error>,
    p: int,
)
    requires
        0 <= p < known.len(),
        link_taken(one, before, known, after, map, failed),
    ensures
        link_taken(one, before, known.remove(p), after, if failed is None {
            map.remove(p)
        } else {
            known.remove(p)
        }, failed),
{
    match one.items {
        None => {
            assert(map.remove(p) =~= known.remove(p).push(
                ReferenceView { link: one.link, roots: seq![] },
            ));
        },
        Some(items) => {
            let (position, end, imported) = choose|
                position: int,
                end: int,
                imported: Result<Vec<NodeStepIds>, Error>,
            |
                {
                    &&& #[trigger] crate::merge::import::import_outcome(
                        items,
                        one.link,
                        before,
                        after,
                        imported,
                        position,
                        end,
                    )
                    &&& match imported {
                        Ok(roots) => failed is None && map == known.push(
                            ReferenceView { link: one.link, roots: roots@ },
                        ),
                        Err(e) => failed == Some(e) && map == known,
                    }
                };
            match imported {
                Ok(roots) => {
                    assert(map.remove(p) =~= known.remove(p).push(
                        ReferenceView { link: one.link, roots: roots@ },
                    ));
                },
                Err(e) => {},
            }
        },
    }
}

/// Where one of the links that were taken in could not be resolved, the
/// other links are taken in in the same way without it, and leave the same
/// map without its reference.
pub proof fn lemma_links_taken_without(
    resolved: Seq<Resolved>,
    count: int,
    start: MergerView,
    after: MergerView,
    map: Seq<ReferenceView>,
    p: int,
)
    requires
        0 <= p < count <= resolved.len(),
        resolved[p].items is None,
        links_taken(resolved, count, start, after, map),
    ensures
        links_taken(resolved.remove(p), count - 1, start, after, map.remove(p)),
    decreases count,
{
    let (before, known) = choose|before: MergerView, known: Seq<ReferenceView>|
        {
            &&& links_taken(resolved, count - 1, start, before, known)
            &&& #[trigger] link_taken(resolved[count - 1], before, known, after, map, None)
        };
    lemma_links_taken_map(resolved, count - 1, start, before, known);
    if count - 1 == p {
        assert(map.remove(p) =~= known);
        lemma_links_taken_agree(resolved, resolved.remove(p), p, start, before, known);
    } else {
        lemma_links_taken_without(resolved, count - 1, start, before, known, p);
        lemma_link_taken_without(resolved[count - 1], before, known, after, map, None, p);
        assert(resolved.remove(p)[count - 2] == resolved[count - 1]);
        assert(link_taken(
            resolved.remove(p)[count - 2],
            before,
            known.remove(p),
            after,
            map.remove(p),
            None,
        ));
    }
}

/// The nodes without the link of the node `j`.
pub open spec fn without_link(nodes: Seq<NodeView>, j: int) -> Seq<NodeView> {
    nodes.update(j, NodeView { link: None, ..nodes[j] })
}

/// Whether the node `j` has the link and no other node has it.
pub open spec fn names_alone(nodes: Seq<NodeView>, j: int, link: Seq<char>) -> bool {
    &&& 0 <= j < nodes.len()
    &&& nodes[j].link == Some(link)
    &&& forall|i: int| 0 <= i < nodes.len() && i != j ==> (#[trigger] nodes[i]).link != Some(link)
}

/// The nodes name another link with and without the link of the node `j`.
proof fn lemma_names_without(
    nodes: Seq<NodeView>,
    j: int,
    link: Seq<char>,
    count: int,
    other: Seq<char>,
)
    requires
        names_alone(nodes, j, link),
        0 <= count <= nodes.len(),
        other != link,
    ensures
        names_link(without_link(nodes, j), count, other) == names_link(nodes, count, other),
{
    let less = without_link(nodes, j);
    if names_link(nodes, count, other) {
        let i = choose|i: int| 0 <= i < count && (#[trigger] nodes[i]).link == Some(other);
        assert(less[i].link == Some(other));
    }
    if names_link(less, count, other) {
        let i = choose|i: int| 0 <= i < count && (#[trigger] less[i]).link == Some(other);
        assert(nodes[i].link == Some(other));
    }
}

/// The links of the nodes without the link of the node `j`, which no other
/// node has, are the links of the nodes without that link.
pub proof fn lemma_order_without(nodes: Seq<NodeView>, j: int, link: Seq<char>, count: int)
    requires
        names_alone(nodes, j, link),
        0 <= count <= nodes.len(),
    ensures
        count <= j ==> link_order(without_link(nodes, j), count) == link_order(nodes, count),
        count > j ==> {
            let p = link_order(nodes, j).len() as int;
            &&& p < link_order(nodes, count).len()
            &&& link_order(nodes, count)[p] == link
            &&& link_order(without_link(nodes, j), count) == link_order(nodes, count).remove(p)
        },
    decreases count,
{
    let less = without_link(nodes, j);
    let p = link_order(nodes, j).len() as int;
    if count > 0 {
        lemma_order_without(nodes, j, link, count - 1);
        let before = link_order(nodes, count - 1);
        if count - 1 == j {
            assert(!names_link(nodes, j, link)) by {
                if names_link(nodes, j, link) {
                    let i = choose|i: int| 0 <= i < j && (#[trigger] nodes[i]).link == Some(link);
                    assert(false);
                }
            }
            assert(before.push(link).remove(p) =~= before);
        } else {
            assert(less[count - 1] == nodes[count - 1]);
            match nodes[count - 1].link {
                Some(other) => {
                    lemma_names_without(nodes, j, link, count - 1, other);
                    if count - 1 > j && !names_link(nodes, count - 1, other) {
                        assert(before.push(other).remove(p) =~= before.remove(p).push(other));
                    }
                },
                None => {},
            }
        }
    }
}

/// The first reference with the link, where there is one.
proof fn lemma_first_with(map: Seq<ReferenceView>, count: int, link: Seq<char>) -> (f: int)
    requires
        has_link(map, count, link),
    ensures
        0 <= f < count,
        map[f].link == link,
        forall|k: int| 0 <= k < f ==> (#[trigger] map[k]).link != link,
    decreases count,
{
    let i = choose|i: int| 0 <= i < count && (#[trigger] map[i]).link == link;
    if has_link(map, count - 1, link) {
        lemma_first_with(map, count - 1, link)
    } else {
        assert forall|k: int| 0 <= k < count - 1 implies (#[trigger] map[k]).link != link by {
            if map[k].link == link {
                assert(has_link(map, count - 1, link));
            }
        }
        count - 1
    }
}

/// The root nodes that belong to a link are those of the first reference
/// with that link.
proof fn lemma_roots_of_first(map: Seq<ReferenceView>, count: int, link: Seq<char>, f: int)
    requires
        0 <= f < count,
        map[f].link == link,
        forall|k: int| 0 <= k < f ==> (#[trigger] map[k]).link != link,
    ensures
        roots_for(map, count, link) == map[f].roots,
    decreases count,
{
    if count - 1 > f {
        assert(has_link(map, count - 1, link));
        lemma_roots_of_first(map, count - 1, link, f);
    } else {
        assert(!has_link(map, count - 1, link));
    }
}

/// No root nodes belong to a link that no reference has.
proof fn lemma_roots_of_none(map: Seq<ReferenceView>, count: int, link: Seq<char>)
    requires
        !has_link(map, count, link),
    ensures
        roots_for(map, count, link) == Seq::<NodeStepIds>::empty(),
    decreases count,
{
    if count > 0 {
        assert(!has_link(map, count - 1, link)) by {
            if has_link(map, count - 1, link) {
                let i = choose|i: int| 0 <= i < count - 1 && (#[trigger] map[i]).link == link;
                assert(has_link(map, count, link));
            }
        }
        assert(map[count - 1].link != link) by {
            if map[count - 1].link == link {
                assert(has_link(map, count, link));
            }
        }
    }
}

/// The root nodes that belong to a link are the same without the reference
/// of another link.
proof fn lemma_roots_without(map: Seq<ReferenceView>, p: int, other: Seq<char>)
    requires
        0 <= p < map.len(),
        map[p].link != other,
    ensures
        roots_for(map.remove(p), map.len() - 1, other) == roots_for(
            map,
            map.len() as int,
            other,
        ),
{
    let less = map.remove(p);
    let n = map.len() as int;
    if has_link(map, n, other) {
        let f = lemma_first_with(map, n, other);
        let g = if f < p {
            f
        } else {
            f - 1
        };
        assert(less[g] == map[f]);
        assert forall|k: int| 0 <= k < g implies (#[trigger] less[k]).link != other by {
            if k < p {
                assert(less[k] == map[k]);
            } else {
                assert(less[k] == map[k + 1]);
            }
        }
        lemma_roots_of_first(map, n, other, f);
        lemma_roots_of_first(less, n - 1, other, g);
    } else {
        assert(!has_link(less, n - 1, other)) by {
            if has_link(less, n - 1, other) {
                let i = choose|i: int| 0 <= i < n - 1 && (#[trigger] less[i]).link == other;
                if i < p {
                    assert(map[i].link == other);
                } else {
                    assert(map[i + 1].link == other);
                }
                assert(has_link(map, n, other));
            }
        }
        lemma_roots_of_none(map, n, other);
        lemma_roots_of_none(less, n - 1, other);
    }
}

/// Where the reference of the link of the node `j`, which no other node
/// has, holds no root node, the same root nodes are tied to the nodes with
/// and without that link and its reference.
pub proof fn lemma_tied_without(
    nodes: Seq<NodeView>,
    j: int,
    link: Seq<char>,
    ids: Seq<NodeStepIds>,
    map: Seq<ReferenceView>,
    p: int,
    count: int,
    first: u64,
    coordinate_system: u64,
)
    requires
        names_alone(nodes, j, link),
        0 <= count <= nodes.len(),
        0 <= p < map.len(),
        map[p].link == link,
        map[p].roots.len() == 0,
        forall|k: int| 0 <= k < p ==> (#[trigger] map[k]).link != link,
    ensures
        roots_count(without_link(nodes, j), map.remove(p), count) == roots_count(
            nodes,
            map,
            count,
        ),
        all_root_relations(
            without_link(nodes, j),
            ids,
            map.remove(p),
            count,
            first,
            coordinate_system,
        ) == all_root_relations(nodes, ids, map, count, first, coordinate_system),
    decreases count,
{
    if count > 0 {
        let less = without_link(nodes, j);
        lemma_tied_without(nodes, j, link, ids, map, p, count - 1, first, coordinate_system);
        assert(node_roots(less[count - 1], map.remove(p)) == node_roots(nodes[count - 1], map))
            by {
            if count - 1 == j {
                lemma_roots_of_first(map, map.len() as int, link, p);
                assert(map[p].roots =~= Seq::<NodeStepIds>::empty());
            } else {
                assert(less[count - 1] == nodes[count - 1]);
                match nodes[count - 1].link {
                    Some(other) => {
                        lemma_roots_without(map, p, other);
                    },
                    None => {},
                }
            }
        }
        assert(less[count - 1].label == nodes[count - 1].label);
    }
}

/// No link stands twice among the links of the nodes, and each of them is
/// the link of a node.
proof fn lemma_order_distinct(nodes: Seq<NodeView>, count: int)
    requires
        0 <= count,
    ensures
        forall|a: int, b: int|
            0 <= a < b < link_order(nodes, count).len() ==> (#[trigger] link_order(nodes, count)[a])
                != (#[trigger] link_order(nodes, count)[b]),
        forall|k: int|
            0 <= k < link_order(nodes, count).len() ==> names_link(
                nodes,
                count,
                #[trigger] link_order(nodes, count)[k],
            ),
    decreases count,
{
    if count > 0 {
        lemma_order_distinct(nodes, count - 1);
        let before = link_order(nodes, count - 1);
        let now = link_order(nodes, count);
        assert forall|k: int| 0 <= k < now.len() implies names_link(
            nodes,
            count,
            #[trigger] now[k],
        ) by {
            if k < before.len() {
                assert(now[k] == before[k]);
                crate::merge::references::lemma_names_link_grows(nodes, count - 1, before[k]);
            } else {
                assert(nodes[count - 1].link == Some(now[k]));
            }
        }
        assert forall|a: int, b: int| 0 <= a < b < now.len() implies (#[trigger] now[a]) != (
        #[trigger] now[b]) by {
            assert(now[a] == before[a]);
            if b < before.len() {
                assert(now[b] == before[b]);
            } else {
                assert(names_link(nodes, count - 1, before[a]));
            }
        }
    }
}

/// What is asked for without the link at `p`, where that was asked for.
pub open spec fn without_resolved(resolved: Seq<Resolved>, p: int) -> Seq<Resolved> {
    if 0 <= p < resolved.len() {
        resolved.remove(p)
    } else {
        resolved
    }
}

/// The map without the reference at `p`, or the error.
pub open spec fn without_reference(taken: Result<Seq<ReferenceView>, Error>, p: int) -> Result<
    Seq<ReferenceView>,
    Error,
> {
    match taken {
        Ok(map) => Ok(map.remove(p)),
        Err(e) => Err(e),
    }
}

/// Where the link of the node `j`, which no other node has, could not be
/// resolved, the part files are taken in in the same way without that
/// link, and the map is the same without its reference, which holds no
/// root node.
pub proof fn lemma_references_without(
    resolved: Seq<Resolved>,
    nodes: Seq<NodeView>,
    j: int,
    link: Seq<char>,
    start: MergerView,
    mid: MergerView,
    taken: Result<Seq<ReferenceView>, Error>,
)
    requires
        names_alone(nodes, j, link),
        references_taken(resolved, nodes, start, mid, taken),
        link_order(nodes, j).len() < resolved.len() ==> resolved[link_order(
            nodes,
            j,
        ).len() as int].items is None,
    ensures
        references_taken(
            without_resolved(resolved, link_order(nodes, j).len() as int),
            without_link(nodes, j),
            start,
            mid,
            without_reference(taken, link_order(nodes, j).len() as int),
        ),
        taken matches Ok(map) ==> {
            let p = link_order(nodes, j).len() as int;
            &&& p < map.len()
            &&& map[p].link == link
            &&& map[p].roots.len() == 0
            &&& forall|k: int| 0 <= k < p ==> (#[trigger] map[k]).link != link
        },
{
    let n = nodes.len() as int;
    let less = without_link(nodes, j);
    let p = link_order(nodes, j).len() as int;
    let order = link_order(nodes, n);
    let fewer = without_resolved(resolved, p);
    lemma_order_without(nodes, j, link, n);
    lemma_order_distinct(nodes, n);
    let m = resolved.len() as int;
    assert forall|k: int| 0 <= k < fewer.len() implies (#[trigger] fewer[k]).link == link_order(
        less,
        n,
    )[k] by {
        if p < m {
            if k < p {
                assert(fewer[k] == resolved[k]);
            } else {
                assert(fewer[k] == resolved[k + 1]);
            }
        } else {
            assert(fewer[k] == resolved[k]);
        }
    }
    match taken {
        Ok(map) => {
            lemma_links_taken_map(resolved, m, start, mid, map);
            lemma_links_taken_without(resolved, m, start, mid, map, p);
            assert forall|k: int| 0 <= k < p implies (#[trigger] map[k]).link != link by {
                assert(resolved[k].link == order[k]);
                assert(order[k] != order[p]);
            }
            assert(resolved[p].link == order[p]);
        },
        Err(e) => {
            let (before, known) = choose|before: MergerView, known: Seq<ReferenceView>|
                {
                    &&& links_taken(resolved, m - 1, start, before, known)
                    &&& #[trigger] link_taken(resolved[m - 1], before, known, mid, known, Some(e))
                };
            lemma_links_taken_map(resolved, m - 1, start, before, known);
            if p < m {
                assert(p != m - 1);
                lemma_links_taken_without(resolved, m - 1, start, before, known, p);
                lemma_link_taken_without(resolved[m - 1], before, known, mid, known, Some(e), p);
                assert(fewer[m - 2] == resolved[m - 1]);
                assert(links_taken(fewer, m - 2, start, before, known.remove(p)));
                assert(link_taken(
                    fewer[fewer.len() - 1],
                    before,
                    known.remove(p),
                    mid,
                    known.remove(p),
                    Some(e),
                ));
            } else {
                assert(link_taken(fewer[fewer.len() - 1], before, known, mid, known, Some(e)));
            }
        },
    }
}

/// Where the link of the node `j`, which no other node has, could not be
/// resolved, the part files are taken in and their root nodes are tied to
/// the nodes in the same way without that link.
pub proof fn lemma_parts_without(
    resolved: Seq<Resolved>,
    nodes: Seq<NodeView>,
    j: int,
    link: Seq<char>,
    ids: Seq<NodeStepIds>,
    start: MergerView,
    after: MergerView,
    tied: Result<Seq<ReferenceView>, Error>,
)
    requires
        names_alone(nodes, j, link),
        parts_taken(resolved, nodes, ids, start, after, tied),
        link_order(nodes, j).len() < resolved.len() ==> resolved[link_order(
            nodes,
            j,
        ).len() as int].items is None,
    ensures
        parts_taken(
            without_resolved(resolved, link_order(nodes, j).len() as int),
            without_link(nodes, j),
            ids,
            start,
            after,
            without_reference(tied, link_order(nodes, j).len() as int),
        ),
{
    let n = nodes.len() as int;
    let less = without_link(nodes, j);
    let p = link_order(nodes, j).len() as int;
    let (mid, taken) = choose|mid: MergerView, taken: Result<Seq<ReferenceView>, Error>|
        {
            &&& #[trigger] references_taken(resolved, nodes, start, mid, taken)
            &&& match taken {
                Err(e) => tied == Err::<Seq<ReferenceView>, Error>(e) && after == mid,
                Ok(map) => if mid.id_counter + 9 * roots_count(nodes, map, nodes.len() as int)
                    > u64::MAX {
                    tied matches Err(e) && e is InvalidNumber
                } else {
                    &&& tied == Ok::<Seq<ReferenceView>, Error>(map)
                    &&& after == mid.wrote(
                        all_root_relations(
                            nodes,
                            ids,
                            map,
                            nodes.len() as int,
                            at(mid.id_counter, 1),
                            mid.default_coordinate_system,
                        ),
                    )
                },
            }
        };
    lemma_references_without(resolved, nodes, j, link, start, mid, taken);
    match taken {
        Ok(map) => {
            lemma_tied_without(
                nodes,
                j,
                link,
                ids,
                map,
                p,
                n,
                at(mid.id_counter, 1),
                mid.default_coordinate_system,
            );
        },
        Err(e) => {},
    }
    assert(references_taken(
        without_resolved(resolved, p),
        less,
        start,
        mid,
        without_reference(taken, p),
    ));
}

/// A link that cannot be resolved is like no link: where the link of the
/// node `j`, which no other node has, could not be resolved, what the merge
/// writes and whether it succeeds is what the merge of the assembly without
/// that link writes and whether that succeeds, where the resolver makes the
/// same of the other links.
pub proof fn lemma_failed_link_is_no_link(
    resolved: Seq<Resolved>,
    nodes: Seq<NodeView>,
    j: int,
    link: Seq<char>,
    start: MergerView,
    after: MergerView,
    result: Result<(), Error>,
)
    requires
        names_alone(nodes, j, link),
        crate::assembly::children_valid(nodes, nodes.len() as int),
        merged_with(resolved, nodes, start, after, result),
        link_order(nodes, j).len() < resolved.len() ==> resolved[link_order(
            nodes,
            j,
        ).len() as int].items is None,
    ensures
        structure_entries(without_link(nodes, j)) == structure_entries(nodes),
        merged_with(
            without_resolved(resolved, link_order(nodes, j).len() as int),
            without_link(nodes, j),
            start,
            after,
            result,
        ),
{
    let n = nodes.len() as int;
    let less = without_link(nodes, j);
    let p = link_order(nodes, j).len() as int;
    lemma_structure_without_links(nodes, less);
    assert(structured(start, less) == structured(start, nodes));
    let ids = all_node_ids(nodes, n, 7);
    let (linked, tied) = choose|linked: MergerView, tied: Result<Seq<ReferenceView>, Error>|
        {
            &&& #[trigger] parts_taken(resolved, nodes, ids, structured(start, nodes), linked, tied)
            &&& match tied {
                Err(e) => result == Err::<(), Error>(e) && after == linked,
                Ok(_) => if linked.id_counter + 9 > u64::MAX {
                    &&& after == linked
                    &&& result matches Err(e) && e is InvalidNumber
                } else {
                    &&& result is Ok
                    &&& after == linked.wrote(
                        crate::merge::entries::closing_entries(
                            at(linked.id_counter, 1),
                            linked.mechanical_design_ids,
                        ),
                    )
                },
            }
        };
    lemma_parts_without(resolved, nodes, j, link, ids, structured(start, nodes), linked, tied);
    assert(parts_taken(
        without_resolved(resolved, p),
        less,
        all_node_ids(less, less.len() as int, 7),
        structured(start, less),
        linked,
        without_reference(tied, p),
    ));
}

} // verus!
