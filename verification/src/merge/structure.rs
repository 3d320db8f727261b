//! The entries that stand for the assembly tree as a whole, and the
//! functions that write them.

use vstd::prelude::*;
use vstd::string::*;
use crate::assembly::{Assembly, Node, NodeView, Transform};
use crate::entry::EntryView;
use crate::error::Error;
use crate::template::decimal_string;
use crate::text::decimal_digits;
use crate::utils::NodeStepIds;
use crate::writer::{joined, texts, WriterView};
use crate::merge::entries::{
    all_metadata_entries,
    at,
    closing_entries,
    context_entries,
    entry,
    full_node_entries,
    lemma_metadata_entries_len,
    metadata_entries,
    node_entries,
    node_ids,
    node_size,
    origin_entries,
    reference_list,
    relation_entries,
};
use crate::merge::{MergerView, StepMerger};

verus! {

/// The number of entries that stand for the first `count` nodes.
pub open spec fn nodes_size(nodes: Seq<NodeView>, count: int) -> int
    decreases count,
{
    if count <= 0 {
        0
    } else {
        nodes_size(nodes, count - 1) + node_size(nodes[count - 1])
    }
}

/// The id of the first entry of the node `index`, where the entries of the
/// nodes begin at `base`.
pub open spec fn node_first(nodes: Seq<NodeView>, index: int, base: u64) -> u64 {
    at(base, nodes_size(nodes, index))
}

/// The entries of the first `count` nodes, one node after the other, from
/// the id `base` on.
pub open spec fn all_node_entries(nodes: Seq<NodeView>, count: int, base: u64) -> Seq<EntryView>
    decreases count,
{
    if count <= 0 {
        seq![]
    } else {
        all_node_entries(nodes, count - 1, base) + full_node_entries(
            node_first(nodes, count - 1, base),
            nodes[count - 1],
        )
    }
}

/// The ids that stand for the first `count` nodes.
pub open spec fn all_node_ids(nodes: Seq<NodeView>, count: int, base: u64) -> Seq<NodeStepIds> {
    Seq::new(count as nat, |i: int| node_ids(node_first(nodes, i, base)))
}

/// The number of children of the first `count` nodes.
pub open spec fn children_count(nodes: Seq<NodeView>, count: int) -> int
    decreases count,
{
    if count <= 0 {
        0
    } else {
        children_count(nodes, count - 1) + nodes[count - 1].children.len()
    }
}

/// The entries that place the first `count` children of the node `parent`,
/// from the id `first` on. Each child lies in its parent as its own
/// placement says.
pub open spec fn child_relations(
    nodes: Seq<NodeView>,
    parent: int,
    count: int,
    first: u64,
    base: u64,
    coordinate_system: u64,
) -> Seq<EntryView>
    decreases count,
{
    if count <= 0 {
        seq![]
    } else {
        let child = nodes[parent].children[count - 1] as int;
        child_relations(nodes, parent, count - 1, first, base, coordinate_system)
            + relation_entries(
            at(first, 9 * (count - 1)),
            nodes[parent].label,
            nodes[child].label,
            node_ids(node_first(nodes, parent, base)),
            node_ids(node_first(nodes, child, base)),
            nodes[child].transform,
            coordinate_system,
        )
    }
}

/// The entries that place the children of the first `count` nodes, node by
/// node and child by child, from the id `first` on.
pub open spec fn all_child_relations(
    nodes: Seq<NodeView>,
    count: int,
    first: u64,
    base: u64,
    coordinate_system: u64,
) -> Seq<EntryView>
    decreases count,
{
    if count <= 0 {
        seq![]
    } else {
        all_child_relations(nodes, count - 1, first, base, coordinate_system) + child_relations(
            nodes,
            count - 1,
            nodes[count - 1].children.len() as int,
            at(first, 9 * children_count(nodes, count - 1)),
            base,
            coordinate_system,
        )
    }
}

/// The number of entries that stand for the assembly tree: two for the
/// context, four for the default coordinate system, those of the nodes, and
/// nine for each child.
pub open spec fn structure_size(nodes: Seq<NodeView>) -> int {
    6 + nodes_size(nodes, nodes.len() as int) + 9 * children_count(nodes, nodes.len() as int)
}

/// The entries that stand for the assembly tree, from the id 1 on: the
/// context, the default coordinate system, the nodes in order, and the
/// placement of each child in its parent.
pub open spec fn structure_entries(nodes: Seq<NodeView>) -> Seq<EntryView> {
    context_entries() + origin_entries(3) + all_node_entries(nodes, nodes.len() as int, 7)
        + all_child_relations(
        nodes,
        nodes.len() as int,
        at(7, nodes_size(nodes, nodes.len() as int)),
        7,
        6,
    )
}

/// The sizes of the parts of the structure count up.
pub proof fn lemma_structure_sizes(nodes: Seq<NodeView>, count: int)
    requires
        0 <= count,
    ensures
        0 <= nodes_size(nodes, count),
        0 <= children_count(nodes, count),
        count > 0 ==> nodes_size(nodes, count - 1) <= nodes_size(nodes, count),
        count > 0 ==> children_count(nodes, count - 1) <= children_count(nodes, count),
    decreases count,
{
    if count > 0 {
        lemma_structure_sizes(nodes, count - 1);
    }
}

/// The nodes take as many entries as their sizes say.
pub proof fn lemma_node_entries_len(nodes: Seq<NodeView>, count: int, base: u64)
    requires
        0 <= count,
    ensures
        all_node_entries(nodes, count, base).len() == nodes_size(nodes, count),
    decreases count,
{
    if count > 0 {
        lemma_node_entries_len(nodes, count - 1, base);
        lemma_metadata_entries_len(
            node_first(nodes, count - 1, base),
            nodes[count - 1].metadata,
            nodes[count - 1].metadata.len() as int,
        );
    }
}

/// Each child takes nine entries.
pub proof fn lemma_child_relations_len(
    nodes: Seq<NodeView>,
    parent: int,
    count: int,
    first: u64,
    base: u64,
    coordinate_system: u64,
)
    requires
        0 <= count,
    ensures
        child_relations(nodes, parent, count, first, base, coordinate_system).len() == 9 * count,
    decreases count,
{
    if count > 0 {
        lemma_child_relations_len(nodes, parent, count - 1, first, base, coordinate_system);
    }
}

/// The children of the first `count` nodes take nine entries each.
pub proof fn lemma_all_child_relations_len(
    nodes: Seq<NodeView>,
    count: int,
    first: u64,
    base: u64,
    coordinate_system: u64,
)
    requires
        0 <= count,
    ensures
        all_child_relations(nodes, count, first, base, coordinate_system).len() == 9
            * children_count(nodes, count),
    decreases count,
{
    if count > 0 {
        lemma_all_child_relations_len(nodes, count - 1, first, base, coordinate_system);
        lemma_child_relations_len(
            nodes,
            count - 1,
            nodes[count - 1].children.len() as int,
            at(first, 9 * children_count(nodes, count - 1)),
            base,
            coordinate_system,
        );
    }
}

/// The assembly tree takes as many entries as its size says.
pub proof fn lemma_structure_len(nodes: Seq<NodeView>)
    ensures
        structure_entries(nodes).len() == structure_size(nodes),
        6 <= structure_size(nodes),
{
    let total = nodes.len() as int;
    lemma_node_entries_len(nodes, total, 7);
    lemma_all_child_relations_len(nodes, total, at(7, nodes_size(nodes, total)), 7, 6);
    lemma_structure_sizes(nodes, total);
}

/// The sizes of the first nodes are no more than the sizes of all.
pub proof fn lemma_sizes_grow(nodes: Seq<NodeView>, count: int, total: int)
    requires
        0 <= count <= total,
    ensures
        nodes_size(nodes, count) <= nodes_size(nodes, total),
    decreases total - count,
{
    if count < total {
        lemma_sizes_grow(nodes, count, total - 1);
        lemma_structure_sizes(nodes, total);
    }
}

/// The children of the first nodes are no more than the children of all.
pub proof fn lemma_children_grow(nodes: Seq<NodeView>, count: int, total: int)
    requires
        0 <= count <= total,
    ensures
        children_count(nodes, count) <= children_count(nodes, total),
    decreases total - count,
{
    if count < total {
        lemma_children_grow(nodes, count, total - 1);
        lemma_structure_sizes(nodes, total);
    }
}

impl StepMerger {
    /// Writes the application context, which gets the id 1, and the
    /// protocol definition that names it. This is the first thing a merger
    /// writes.
    pub fn create_app_context(&mut self) -> (result: Result<(), Error>)
        requires
            !old(self)@.writer.is_finalized,
            old(self)@.id_counter == 0,
        ensures
            result is Ok,
            final(self)@ == old(self)@.wrote(context_entries()),
    {
        self.add_entry(
            "APPLICATION_CONTEXT('Configuration controlled 3D designs of mechanical parts and assemblies')",
        );
        self.add_entry(
            "APPLICATION_PROTOCOL_DEFINITION('international standard', 'configuration_control_3d_design_ed2_mim',2004, #1)",
        );
        assert(self@.writer.entries =~= old(self)@.writer.entries + context_entries());
        Ok(())
    }

    /// Writes the placement that all transformations start from, and keeps
    /// its id.
    pub fn create_default_coordinate_system(&mut self) -> (result: Result<(), Error>)
        requires
            !old(self)@.writer.is_finalized,
        ensures
            match result {
                Ok(_) => old(self)@.id_counter + 4 <= u64::MAX && final(self)@ == (MergerView {
                    default_coordinate_system: at(old(self)@.id_counter, 4),
                    ..old(self)@.wrote(origin_entries(at(old(self)@.id_counter, 1)))
                }),
                Err(e) => old(self)@.id_counter + 4 > u64::MAX && e is InvalidNumber && final(self)@
                    == old(self)@,
            },
    {
        if !self.has_room(4) {
            return Err(Self::out_of_ids());
        }
        let first = self.add_origin();
        self.default_coordinate_system = first + 3;
        Ok(())
    }

    /// Writes the entries of `node`: those of the node itself and four for
    /// each metadata pair. The result holds the ids of its product
    /// definition and of its shape representation.
    pub fn create_node(&mut self, node: &Node) -> (result: Result<NodeStepIds, Error>)
        requires
            !old(self)@.writer.is_finalized,
        ensures
            match result {
                Ok(ids) => old(self)@.id_counter + node_size(node@) <= u64::MAX && final(self)@
                    == old(self)@.wrote(full_node_entries(at(old(self)@.id_counter, 1), node@))
                    && ids == node_ids(at(old(self)@.id_counter, 1)),
                Err(e) => old(self)@.id_counter + node_size(node@) > u64::MAX && e is InvalidNumber
                    && final(self)@ == old(self)@,
            },
    {
        let label = node.get_label();
        let metadata = node.get_metadata();
        let needed: u128 = 18 + 4 * (metadata.len() as u128);
        if self.id_counter as u128 + needed > u64::MAX as u128 {
            return Err(Self::out_of_ids());
        }
        let first = self.add_origin();
        self.add_entry("(NAMED_UNIT(*)SI_UNIT($,.STERADIAN.)SOLID_ANGLE_UNIT())");
        self.add_entry("(LENGTH_UNIT()NAMED_UNIT(*)SI_UNIT(.MILLI.,.METRE.))");
        self.add_entry("(NAMED_UNIT(*)PLANE_ANGLE_UNIT()SI_UNIT($,.RADIAN.))");
        self.add_entry("PRODUCT_CONTEXT('',#1,'mechanical')");
        let mut args: Vec<String> = Vec::new();
        args.push(label.to_owned());
        args.push(label.to_owned());
        args.push(decimal_string(first + 7));
        assert(texts(args@) =~= seq![label@, label@, decimal_digits(at(first, 7) as nat)]);
        self.add_entry_with("PRODUCT('{}','{}','',(#{}))", &args);
        self.add_entry("PRODUCT_DEFINITION_CONTEXT('part_definition',#1,'')");
        let ids = [first + 8];
        assert(ids@ =~= seq![at(first, 8)]);
        self.add_entry_with_ids("PRODUCT_DEFINITION_FORMATION('','',#{})", ids.as_slice());
        let ids = [first + 10, first + 9];
        assert(ids@ =~= seq![at(first, 10), at(first, 9)]);
        let product_definition_id = self.add_entry_with_ids(
            "PRODUCT_DEFINITION('','',#{},#{})",
            ids.as_slice(),
        );
        let ids = [first + 11];
        assert(ids@ =~= seq![at(first, 11)]);
        self.add_entry_with_ids("PRODUCT_DEFINITION_SHAPE('',$,#{})", ids.as_slice());
        let ids = [first + 8];
        assert(ids@ =~= seq![at(first, 8)]);
        self.add_entry_with_ids(
            "PRODUCT_RELATED_PRODUCT_CATEGORY('component','',(#{}))",
            ids.as_slice(),
        );
        let ids = [first + 5];
        assert(ids@ =~= seq![at(first, 5)]);
        self.add_entry_with_ids(
            "UNCERTAINTY_MEASURE_WITH_UNIT(LENGTH_MEASURE(0.1E-12),#{},'distance accuracy value','edge curve and vertex point accuracy')",
            ids.as_slice(),
        );
        let ids = [first + 14, first + 5, first + 6, first + 4];
        assert(ids@ =~= seq![at(first, 14), at(first, 5), at(first, 6), at(first, 4)]);
        self.add_entry_with_ids(
            "(GEOMETRIC_REPRESENTATION_CONTEXT(3)GLOBAL_UNCERTAINTY_ASSIGNED_CONTEXT((#{}))GLOBAL_UNIT_ASSIGNED_CONTEXT((#{},#{},#{}))REPRESENTATION_CONTEXT('',''))",
            ids.as_slice(),
        );
        let mut args: Vec<String> = Vec::new();
        args.push(label.to_owned());
        args.push(decimal_string(first + 3));
        args.push(decimal_string(first + 15));
        assert(texts(args@) =~= seq![
            label@,
            decimal_digits(at(first, 3) as nat),
            decimal_digits(at(first, 15) as nat),
        ]);
        let shape_representation_id = self.add_entry_with(
            "SHAPE_REPRESENTATION('{}',(#{}),#{})",
            &args,
        );
        let ids = [first + 12, first + 16];
        assert(ids@ =~= seq![at(first, 12), at(first, 16)]);
        self.add_entry_with_ids("SHAPE_DEFINITION_REPRESENTATION(#{},#{})", ids.as_slice());
        assert(self@.writer.entries =~= old(self)@.writer.entries + node_entries(first, label@));

        let mut k: usize = 0;
        assert(self@.writer.entries =~= old(self)@.writer.entries + (node_entries(first, label@)
            + all_metadata_entries(first, node@.metadata, 0)));
        while k < metadata.len()
            invariant
                k <= metadata.len(),
                !self@.writer.is_finalized,
                first == old(self)@.id_counter + 1,
                first + 17 + 4 * metadata.len() <= u64::MAX,
                product_definition_id == first + 11,
                label@ == node@.label,
                crate::assembly::metadata_texts(metadata@) == node@.metadata,
                self@.id_counter == first + 17 + 4 * k,
                self@ == (MergerView {
                    writer: WriterView {
                        entries: old(self)@.writer.entries + (node_entries(first, label@)
                            + all_metadata_entries(first, node@.metadata, k as int)),
                        ..old(self)@.writer
                    },
                    id_counter: self@.id_counter,
                    ..old(self)@
                }),
            decreases metadata.len() - k,
        {
            let ghost before = self@.writer.entries;
            let entry = &metadata[k];
            proof {
                assert(node@.metadata[k as int] == (entry.key@, entry.value@));
            }
            let mut args: Vec<String> = Vec::new();
            args.push(entry.key.clone());
            args.push(decimal_string(product_definition_id));
            assert(texts(args@) =~= seq![entry.key@, decimal_digits(at(first, 11) as nat)]);
            let prop_def_id = self.add_entry_with("PROPERTY_DEFINITION('{}','',#{})", &args);
            let mut args: Vec<String> = Vec::new();
            args.push(entry.key.clone());
            args.push(entry.value.clone());
            assert(texts(args@) =~= seq![entry.key@, entry.value@]);
            let desc_rep_item_id = self.add_entry_with(
                "DESCRIPTIVE_REPRESENTATION_ITEM('{}','{}')",
                &args,
            );
            let ids = [desc_rep_item_id];
            assert(ids@ =~= seq![at(prop_def_id, 1)]);
            let rep_id = self.add_entry_with_ids("REPRESENTATION('',(#{}),$)", ids.as_slice());
            let ids = [prop_def_id, rep_id];
            assert(ids@ =~= seq![prop_def_id, at(prop_def_id, 2)]);
            self.add_entry_with_ids("PROPERTY_DEFINITION_REPRESENTATION(#{},#{})", ids.as_slice());
            proof {
                let block = metadata_entries(
                    prop_def_id,
                    entry.key@,
                    entry.value@,
                    at(first, 11),
                );
                assert(prop_def_id == at(first, 18 + 4 * k));
                assert(self@.writer.entries =~= before + block);
                assert(all_metadata_entries(first, node@.metadata, k + 1)
                    == all_metadata_entries(first, node@.metadata, k as int) + block);
                assert(self@.writer.entries =~= old(self)@.writer.entries + (node_entries(
                    first,
                    label@,
                ) + all_metadata_entries(first, node@.metadata, k + 1)));
            }
            k += 1;
        }
        proof {
            lemma_metadata_entries_len(first, node@.metadata, node@.metadata.len() as int);
        }
        Ok(NodeStepIds { product_definition_id, shape_representation_id })
    }

    /// Writes the nine entries that place a child in its parent.
    pub fn create_parent_child_relation(
        &mut self,
        parent_label: &str,
        child_label: &str,
        parent_ids: NodeStepIds,
        child_ids: NodeStepIds,
        transform: &Transform,
    ) -> (result: Result<(), Error>)
        requires
            !old(self)@.writer.is_finalized,
        ensures
            match result {
                Ok(_) => old(self)@.id_counter + 9 <= u64::MAX && final(self)@ == old(self)@.wrote(
                    relation_entries(
                        at(old(self)@.id_counter, 1),
                        parent_label@,
                        child_label@,
                        parent_ids,
                        child_ids,
                        transform@,
                        old(self)@.default_coordinate_system,
                    ),
                ),
                Err(e) => old(self)@.id_counter + 9 > u64::MAX && e is InvalidNumber && final(self)@
                    == old(self)@,
            },
    {
        if !self.has_room(9) {
            return Err(Self::out_of_ids());
        }
        let mut args: Vec<String> = Vec::new();
        args.push(transform.position.x.clone());
        args.push(transform.position.y.clone());
        args.push(transform.position.z.clone());
        assert(texts(args@) =~= seq![
            transform@.position.x,
            transform@.position.y,
            transform@.position.z,
        ]);
        let first = self.add_entry_with("CARTESIAN_POINT('',({},{},{}))", &args);
        let mut args: Vec<String> = Vec::new();
        args.push(transform.z_axis.x.clone());
        args.push(transform.z_axis.y.clone());
        args.push(transform.z_axis.z.clone());
        assert(texts(args@) =~= seq![transform@.z_axis.x, transform@.z_axis.y, transform@.z_axis.z]);
        self.add_entry_with("DIRECTION('',({},{},{}))", &args);
        let mut args: Vec<String> = Vec::new();
        args.push(transform.x_axis.x.clone());
        args.push(transform.x_axis.y.clone());
        args.push(transform.x_axis.z.clone());
        assert(texts(args@) =~= seq![transform@.x_axis.x, transform@.x_axis.y, transform@.x_axis.z]);
        self.add_entry_with("DIRECTION('',({},{},{}))", &args);
        let ids = [first, first + 1, first + 2];
        assert(ids@ =~= seq![first, at(first, 1), at(first, 2)]);
        self.add_entry_with_ids("AXIS2_PLACEMENT_3D('',#{},#{},#{})", ids.as_slice());
        let ids = [self.default_coordinate_system, first + 3];
        assert(ids@ =~= seq![old(self)@.default_coordinate_system, at(first, 3)]);
        self.add_entry_with_ids("ITEM_DEFINED_TRANSFORMATION('','',#{},#{})", ids.as_slice());
        let mut args: Vec<String> = Vec::new();
        args.push(child_label.to_owned());
        args.push(parent_label.to_owned());
        args.push(decimal_string(child_ids.shape_representation_id));
        args.push(decimal_string(parent_ids.shape_representation_id));
        args.push(decimal_string(first + 4));
        assert(texts(args@) =~= seq![
            child_label@,
            parent_label@,
            decimal_digits(child_ids.shape_representation_id as nat),
            decimal_digits(parent_ids.shape_representation_id as nat),
            decimal_digits(at(first, 4) as nat),
        ]);
        self.add_entry_with(
            "(REPRESENTATION_RELATIONSHIP('Child > Parent','{} > {}',#{}, #{})REPRESENTATION_RELATIONSHIP_WITH_TRANSFORMATION(#{})SHAPE_REPRESENTATION_RELATIONSHIP())",
            &args,
        );
        let mut args: Vec<String> = Vec::new();
        args.push(child_label.to_owned());
        args.push(child_label.to_owned());
        args.push(decimal_string(parent_ids.product_definition_id));
        args.push(decimal_string(child_ids.product_definition_id));
        args.push(child_label.to_owned());
        assert(texts(args@) =~= seq![
            child_label@,
            child_label@,
            decimal_digits(parent_ids.product_definition_id as nat),
            decimal_digits(child_ids.product_definition_id as nat),
            child_label@,
        ]);
        self.add_entry_with("NEXT_ASSEMBLY_USAGE_OCCURRENCE('{}','','{}',#{},#{},'{}')", &args);
        let mut args: Vec<String> = Vec::new();
        args.push(child_label.to_owned());
        args.push(decimal_string(first + 6));
        assert(texts(args@) =~= seq![child_label@, decimal_digits(at(first, 6) as nat)]);
        self.add_entry_with("PRODUCT_DEFINITION_SHAPE('{}',$,#{})", &args);
        let ids = [first + 5, first + 7];
        assert(ids@ =~= seq![at(first, 5), at(first, 7)]);
        self.add_entry_with_ids("CONTEXT_DEPENDENT_SHAPE_REPRESENTATION(#{},#{})", ids.as_slice());
        assert(self@.writer.entries =~= old(self)@.writer.entries + relation_entries(
            first,
            parent_label@,
            child_label@,
            parent_ids,
            child_ids,
            transform@,
            old(self)@.default_coordinate_system,
        ));
        Ok(())
    }

    /// Writes the nine entries that close the data section: units, measures
    /// and the geometric context, and the entry that lists the collected
    /// presentation items under that context.
    pub fn write_mechanical_part_entries(&mut self) -> (result: Result<(), Error>)
        requires
            !old(self)@.writer.is_finalized,
        ensures
            match result {
                Ok(_) => old(self)@.id_counter + 9 <= u64::MAX && final(self)@ == old(self)@.wrote(
                    closing_entries(
                        at(old(self)@.id_counter, 1),
                        old(self)@.mechanical_design_ids,
                    ),
                ),
                Err(e) => old(self)@.id_counter + 9 > u64::MAX && e is InvalidNumber && final(self)@
                    == old(self)@,
            },
    {
        if !self.has_room(9) {
            return Err(Self::out_of_ids());
        }
        let length = self.add_entry("(LENGTH_UNIT()NAMED_UNIT(*)SI_UNIT(.MILLI.,.METRE.))");
        let angle_units = self.add_entry("(NAMED_UNIT(*)PLANE_ANGLE_UNIT()SI_UNIT($,.RADIAN.))");
        let ids = [angle_units];
        assert(ids@ =~= seq![at(length, 1)]);
        self.add_entry_with_ids(
            "PLANE_ANGLE_MEASURE_WITH_UNIT(PLANE_ANGLE_MEASURE(1.745329251994E-02),#{})",
            ids.as_slice(),
        );
        let dim_exp = self.add_entry("DIMENSIONAL_EXPONENTS(0.,0.,0.,0.,0.,0.,0.)");
        let ids = [dim_exp, dim_exp];
        assert(ids@ =~= seq![at(length, 3), at(length, 3)]);
        let angle = self.add_entry_with_ids(
            "(CONVERSION_BASED_UNIT('DEGREE',#{})NAMED_UNIT(#{})PLANE_ANGLE_UNIT())",
            ids.as_slice(),
        );
        let unit = self.add_entry("(NAMED_UNIT(*)SI_UNIT($,.STERADIAN.)SOLID_ANGLE_UNIT())");
        let ids = [length];
        assert(ids@ =~= seq![length]);
        let uncertain = self.add_entry_with_ids(
            "UNCERTAINTY_MEASURE_WITH_UNIT(LENGTH_MEASURE(10.E-03),#{},'distance_accuracy_value','Confusion accuracy')",
            ids.as_slice(),
        );
        let ids = [uncertain, length, angle, unit];
        assert(ids@ =~= seq![at(length, 6), length, at(length, 4), at(length, 5)]);
        let full = self.add_entry_with_ids(
            "(GEOMETRIC_REPRESENTATION_CONTEXT(3)GLOBAL_UNCERTAINTY_ASSIGNED_CONTEXT((#{}))GLOBAL_UNIT_ASSIGNED_CONTEXT((#{},#{},#{}))REPRESENTATION_CONTEXT('',''))",
            ids.as_slice(),
        );
        let mut list = String::new();
        let ghost parts = self.mechanical_design_ids@.map_values(
            |id: u64| "#"@ + decimal_digits(id as nat),
        );
        let mut i: usize = 0;
        assert(parts.take(0) =~= Seq::<Seq<char>>::empty());
        while i < self.mechanical_design_ids.len()
            invariant
                i <= self.mechanical_design_ids.len(),
                parts == self.mechanical_design_ids@.map_values(
                    |id: u64| "#"@ + decimal_digits(id as nat),
                ),
                list@ == joined(parts.take(i as int), ","@),
            decreases self.mechanical_design_ids.len() - i,
        {
            proof {
                assert(parts.take(i + 1).drop_last() =~= parts.take(i as int));
                assert(parts.take(i + 1).last() == "#"@ + decimal_digits(
                    self.mechanical_design_ids@[i as int] as nat,
                ));
            }
            let ghost before = list@;
            if i > 0 {
                list.append(",");
            }
            list.append("#");
            crate::text::push_decimal(&mut list, self.mechanical_design_ids[i]);
            proof {
                let part = "#"@ + decimal_digits(self.mechanical_design_ids@[i as int] as nat);
                if i > 0 {
                    assert(list@ =~= before + ","@ + part);
                } else {
                    assert(list@ =~= part);
                }
            }
            i += 1;
        }
        assert(parts.take(i as int) =~= parts);
        let mut args: Vec<String> = Vec::new();
        args.push(list);
        args.push(decimal_string(full));
        assert(texts(args@) =~= seq![
            reference_list(old(self)@.mechanical_design_ids),
            decimal_digits(at(length, 7) as nat),
        ]);
        self.add_entry_with(
            "MECHANICAL_DESIGN_GEOMETRIC_PRESENTATION_REPRESENTATION('',({}),#{})",
            &args,
        );
        assert(self@.writer.entries =~= old(self)@.writer.entries + closing_entries(
            length,
            old(self)@.mechanical_design_ids,
        ));
        Ok(())
    }

    /// Writes the entries that stand for the assembly tree: the application
    /// context, the default coordinate system, the nodes in order, and the
    /// placement of each child in its parent. The result holds, for each
    /// node, the ids of its product definition and of its shape
    /// representation.
    pub fn write_structure(&mut self, assembly: &Assembly) -> (result: Result<
        Vec<NodeStepIds>,
        Error,
    >)
        requires
            !old(self)@.writer.is_finalized,
            old(self)@.id_counter == 0,
            assembly.valid(),
        ensures
            !final(self)@.writer.is_finalized,
            final(self)@.writer.header == old(self)@.writer.header,
            result is Ok <==> structure_size(assembly.views()) <= u64::MAX,
            result matches Ok(ids) ==> ids@ == all_node_ids(
                assembly.views(),
                assembly.nodes@.len() as int,
                7,
            ) && final(self)@ == (MergerView {
                default_coordinate_system: 6,
                ..old(self)@.wrote(structure_entries(assembly.views()))
            }),
            result matches Err(e) ==> e is InvalidNumber,
    {
        let ghost start = self@;
        let ghost nodes = assembly.views();
        let ghost total = assembly.nodes@.len() as int;
        let _ = self.create_app_context();
        let _ = self.create_default_coordinate_system();
        let ghost head = context_entries() + origin_entries(3);
        assert(self@.writer.entries =~= start.writer.entries + head);

        let mut node_step_ids: Vec<NodeStepIds> = Vec::new();
        let mut i: usize = 0;
        assert(self@.writer.entries =~= start.writer.entries + (head + all_node_entries(
            nodes,
            0,
            7,
        )));
        while i < assembly.nodes.len()
            invariant
                i <= assembly.nodes.len(),
                start == old(self)@,
                nodes == assembly.views(),
                total == assembly.nodes@.len(),
                head == context_entries() + origin_entries(3),
                !self@.writer.is_finalized,
                self@.id_counter == 6 + nodes_size(nodes, i as int),
                self@ == (MergerView {
                    writer: WriterView {
                        entries: start.writer.entries + (head + all_node_entries(
                            nodes,
                            i as int,
                            7,
                        )),
                        ..start.writer
                    },
                    id_counter: self@.id_counter,
                    default_coordinate_system: 6,
                    ..start
                }),
                node_step_ids@ == all_node_ids(nodes, i as int, 7),
            decreases assembly.nodes.len() - i,
        {
            let ghost before = self@.writer.entries;
            let node = &assembly.nodes[i];
            assert(nodes[i as int] == node@);
            proof {
                lemma_structure_sizes(nodes, i as int);
            }
            match self.create_node(node) {
                Ok(ids) => {
                    node_step_ids.push(ids);
                },
                Err(e) => {
                    proof {
                        lemma_sizes_grow(nodes, i + 1, total);
                        lemma_structure_sizes(nodes, total);
                    }
                    return Err(e);
                },
            }
            proof {
                let block = full_node_entries(node_first(nodes, i as int, 7), nodes[i as int]);
                assert(self@.writer.entries =~= before + block);
                assert(self@.writer.entries =~= start.writer.entries + (head + all_node_entries(
                    nodes,
                    i + 1,
                    7,
                )));
                lemma_metadata_entries_len(
                    node_first(nodes, i as int, 7),
                    nodes[i as int].metadata,
                    nodes[i as int].metadata.len() as int,
                );
                assert(node_step_ids@ =~= all_node_ids(nodes, i + 1, 7));
            }
            i += 1;
        }

        let ghost body = head + all_node_entries(nodes, total, 7);
        let ghost first = at(7, nodes_size(nodes, total));
        let mut i: usize = 0;
        assert(self@.writer.entries =~= start.writer.entries + (body + all_child_relations(
            nodes,
            0,
            first,
            7,
            6,
        )));
        while i < assembly.nodes.len()
            invariant
                i <= assembly.nodes.len(),
                start == old(self)@,
                assembly.valid(),
                nodes == assembly.views(),
                total == assembly.nodes@.len(),
                body == head + all_node_entries(nodes, total, 7),
                first == at(7, nodes_size(nodes, total)),
                6 + nodes_size(nodes, total) <= u64::MAX,
                !self@.writer.is_finalized,
                self@.id_counter == 6 + nodes_size(nodes, total) + 9 * children_count(
                    nodes,
                    i as int,
                ),
                self@ == (MergerView {
                    writer: WriterView {
                        entries: start.writer.entries + (body + all_child_relations(
                            nodes,
                            i as int,
                            first,
                            7,
                            6,
                        )),
                        ..start.writer
                    },
                    id_counter: self@.id_counter,
                    default_coordinate_system: 6,
                    ..start
                }),
                node_step_ids@ == all_node_ids(nodes, total, 7),
            decreases assembly.nodes.len() - i,
        {
            let node = &assembly.nodes[i];
            let node_ids = node_step_ids[i];
            let children = node.get_children();
            assert(nodes[i as int] == node@);
            let ghost done = all_child_relations(nodes, i as int, first, 7, 6);
            let ghost from = at(first, 9 * children_count(nodes, i as int));
            let mut j: usize = 0;
            proof {
                lemma_structure_sizes(nodes, i as int);
                lemma_structure_sizes(nodes, total);
                assert(self@.writer.entries =~= start.writer.entries + (body + (done
                    + child_relations(nodes, i as int, 0, from, 7, 6))));
            }
            while j < children.len()
                invariant
                    j <= children.len(),
                    i < assembly.nodes.len(),
                    start == old(self)@,
                    assembly.valid(),
                    nodes == assembly.views(),
                    total == assembly.nodes@.len(),
                    node == &assembly.nodes@[i as int],
                    children@ == nodes[i as int].children,
                    node_ids == all_node_ids(nodes, total, 7)[i as int],
                    done == all_child_relations(nodes, i as int, first, 7, 6),
                    from == at(first, 9 * children_count(nodes, i as int)),
                    first == at(7, nodes_size(nodes, total)),
                    6 + nodes_size(nodes, total) <= u64::MAX,
                    0 <= children_count(nodes, i as int),
                    0 <= nodes_size(nodes, total),
                    !self@.writer.is_finalized,
                    self@.id_counter == 6 + nodes_size(nodes, total) + 9 * children_count(
                        nodes,
                        i as int,
                    ) + 9 * j,
                    self@ == (MergerView {
                        writer: WriterView {
                            entries: start.writer.entries + (body + (done + child_relations(
                                nodes,
                                i as int,
                                j as int,
                                from,
                                7,
                                6,
                            ))),
                            ..start.writer
                        },
                        id_counter: self@.id_counter,
                        default_coordinate_system: 6,
                        ..start
                    }),
                    node_step_ids@ == all_node_ids(nodes, total, 7),
                decreases children.len() - j,
            {
                let ghost before = self@.writer.entries;
                let child_index = children[j];
                assert(child_index < assembly.nodes.len()) by {
                    assert(nodes[i as int].children[j as int] < nodes.len());
                }
                let child_ids = node_step_ids[child_index];
                let child = &assembly.nodes[child_index];
                assert(nodes[child_index as int] == child@);
                match self.create_parent_child_relation(
                    node.get_label(),
                    child.get_label(),
                    node_ids,
                    child_ids,
                    child.get_transform(),
                ) {
                    Ok(_) => {},
                    Err(e) => {
                        proof {
                            lemma_children_grow(nodes, i + 1, total);
                            lemma_structure_sizes(nodes, i + 1);
                        }
                        return Err(e);
                    },
                }
                proof {
                    let block = relation_entries(
                        at(from, 9 * j),
                        nodes[i as int].label,
                        nodes[child_index as int].label,
                        node_ids,
                        child_ids,
                        nodes[child_index as int].transform,
                        6,
                    );
                    assert(self@.writer.entries =~= before + block);
                    assert(child_relations(nodes, i as int, j + 1, from, 7, 6) == child_relations(
                        nodes,
                        i as int,
                        j as int,
                        from,
                        7,
                        6,
                    ) + block);
                    assert(self@.writer.entries =~= start.writer.entries + (body + (done
                        + child_relations(nodes, i as int, j + 1, from, 7, 6))));
                }
                j += 1;
            }
            proof {
                assert(all_child_relations(nodes, i + 1, first, 7, 6) == done + child_relations(
                    nodes,
                    i as int,
                    children@.len() as int,
                    from,
                    7,
                    6,
                ));
            }
            i += 1;
        }
        proof {
            lemma_node_entries_len(nodes, total, 7);
            lemma_all_child_relations_len(nodes, total, first, 7, 6);
            assert(self@.writer.entries =~= start.writer.entries + structure_entries(nodes));
        }
        Ok(node_step_ids)
    }
}

} // verus!
