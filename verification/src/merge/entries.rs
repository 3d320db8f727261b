//! The entries that a merge writes for the assembly tree: what they hold
//! and which ids they bear.

use vstd::prelude::*;
use vstd::string::*;
use crate::assembly::{NodeView, TransformView};
use crate::entry::{references, EntryView};
use crate::template::{decimals, filled};
use crate::text::decimal_digits;
use crate::utils::NodeStepIds;
use crate::writer::joined;

verus! {

/// The id that lies `k` behind `first`.
pub open spec fn at(first: u64, k: int) -> u64 {
    (first + k) as u64
}

/// The entry with the given id and definition.
pub open spec fn entry(id: u64, definition: Seq<char>) -> EntryView {
    EntryView { id, definition }
}

/// The two entries that every output begins with: the application context,
/// which has the id 1, and the protocol definition that names it.
pub open spec fn context_entries() -> Seq<EntryView> {
    seq![
        entry(
            1,
            "APPLICATION_CONTEXT('Configuration controlled 3D designs of mechanical parts and assemblies')"@,
        ),
        entry(
            2,
            "APPLICATION_PROTOCOL_DEFINITION('international standard', 'configuration_control_3d_design_ed2_mim',2004, #1)"@,
        ),
    ]
}

/// The four entries of a placement at the origin, from the id `first` on: a
/// point, the z axis, the x axis, and the placement that names the three.
pub open spec fn origin_entries(first: u64) -> Seq<EntryView> {
    seq![
        entry(first, "CARTESIAN_POINT('',(0.,0.,0.))"@),
        entry(at(first, 1), "DIRECTION('',(0.,0.,1.))"@),
        entry(at(first, 2), "DIRECTION('',(1.,0.,0.))"@),
        entry(
            at(first, 3),
            filled(
                "AXIS2_PLACEMENT_3D('',#{},#{},#{})"@,
                decimals(seq![first, at(first, 1), at(first, 2)]),
            ),
        ),
    ]
}

/// The entries that stand for a node without metadata, from the id `first`
/// on: a placement at the origin, three units, the product with its context,
/// formation and definition, the shape of the product, its category, the
/// accuracy, the geometric context, the shape representation, and the entry
/// that ties shape and representation together.
pub open spec fn node_entries(first: u64, label: Seq<char>) -> Seq<EntryView> {
    origin_entries(first) + seq![
        entry(at(first, 4), "(NAMED_UNIT(*)SI_UNIT($,.STERADIAN.)SOLID_ANGLE_UNIT())"@),
        entry(at(first, 5), "(LENGTH_UNIT()NAMED_UNIT(*)SI_UNIT(.MILLI.,.METRE.))"@),
        entry(at(first, 6), "(NAMED_UNIT(*)PLANE_ANGLE_UNIT()SI_UNIT($,.RADIAN.))"@),
        entry(at(first, 7), "PRODUCT_CONTEXT('',#1,'mechanical')"@),
        entry(
            at(first, 8),
            filled(
                "PRODUCT('{}','{}','',(#{}))"@,
                seq![label, label, decimal_digits(at(first, 7) as nat)],
            ),
        ),
        entry(at(first, 9), "PRODUCT_DEFINITION_CONTEXT('part_definition',#1,'')"@),
        entry(
            at(first, 10),
            filled("PRODUCT_DEFINITION_FORMATION('','',#{})"@, decimals(seq![at(first, 8)])),
        ),
        entry(
            at(first, 11),
            filled(
                "PRODUCT_DEFINITION('','',#{},#{})"@,
                decimals(seq![at(first, 10), at(first, 9)]),
            ),
        ),
        entry(
            at(first, 12),
            filled("PRODUCT_DEFINITION_SHAPE('',$,#{})"@, decimals(seq![at(first, 11)])),
        ),
        entry(
            at(first, 13),
            filled(
                "PRODUCT_RELATED_PRODUCT_CATEGORY('component','',(#{}))"@,
                decimals(seq![at(first, 8)]),
            ),
        ),
        entry(
            at(first, 14),
            filled(
                "UNCERTAINTY_MEASURE_WITH_UNIT(LENGTH_MEASURE(0.1E-12),#{},'distance accuracy value','edge curve and vertex point accuracy')"@,
                decimals(seq![at(first, 5)]),
            ),
        ),
        entry(
            at(first, 15),
            filled(
                "(GEOMETRIC_REPRESENTATION_CONTEXT(3)GLOBAL_UNCERTAINTY_ASSIGNED_CONTEXT((#{}))GLOBAL_UNIT_ASSIGNED_CONTEXT((#{},#{},#{}))REPRESENTATION_CONTEXT('',''))"@,
                decimals(seq![at(first, 14), at(first, 5), at(first, 6), at(first, 4)]),
            ),
        ),
        entry(
            at(first, 16),
            filled(
                "SHAPE_REPRESENTATION('{}',(#{}),#{})"@,
                seq![
                    label,
                    decimal_digits(at(first, 3) as nat),
                    decimal_digits(at(first, 15) as nat),
                ],
            ),
        ),
        entry(
            at(first, 17),
            filled(
                "SHAPE_DEFINITION_REPRESENTATION(#{},#{})"@,
                decimals(seq![at(first, 12), at(first, 16)]),
            ),
        ),
    ]
}

/// The four entries that attach one key with its value to the product
/// definition `product_definition`, from the id `first` on.
pub open spec fn metadata_entries(
    first: u64,
    key: Seq<char>,
    value: Seq<char>,
    product_definition: u64,
) -> Seq<EntryView> {
    seq![
        entry(
            first,
            filled(
                "PROPERTY_DEFINITION('{}','',#{})"@,
                seq![key, decimal_digits(product_definition as nat)],
            ),
        ),
        entry(
            at(first, 1),
            filled("DESCRIPTIVE_REPRESENTATION_ITEM('{}','{}')"@, seq![key, value]),
        ),
        entry(at(first, 2), filled("REPRESENTATION('',(#{}),$)"@, decimals(seq![at(first, 1)]))),
        entry(
            at(first, 3),
            filled(
                "PROPERTY_DEFINITION_REPRESENTATION(#{},#{})"@,
                decimals(seq![first, at(first, 2)]),
            ),
        ),
    ]
}

/// The entries of the first `count` metadata pairs of a node whose own
/// entries begin at `first`.
pub open spec fn all_metadata_entries(
    first: u64,
    metadata: Seq<(Seq<char>, Seq<char>)>,
    count: int,
) -> Seq<EntryView>
    decreases count,
{
    if count <= 0 {
        seq![]
    } else {
        all_metadata_entries(first, metadata, count - 1) + metadata_entries(
            at(first, 18 + 4 * (count - 1)),
            metadata[count - 1].0,
            metadata[count - 1].1,
            at(first, 11),
        )
    }
}

/// Each metadata pair takes four entries.
pub proof fn lemma_metadata_entries_len(
    first: u64,
    metadata: Seq<(Seq<char>, Seq<char>)>,
    count: int,
)
    requires
        0 <= count,
    ensures
        all_metadata_entries(first, metadata, count).len() == 4 * count,
    decreases count,
{
    if count > 0 {
        lemma_metadata_entries_len(first, metadata, count - 1);
    }
}

/// The number of entries that stand for a node.
pub open spec fn node_size(node: NodeView) -> int {
    18 + 4 * (node.metadata.len() as int)
}

/// All entries of a node, from the id `first` on: those of the node itself
/// and four for each metadata pair.
pub open spec fn full_node_entries(first: u64, node: NodeView) -> Seq<EntryView> {
    node_entries(first, node.label) + all_metadata_entries(
        first,
        node.metadata,
        node.metadata.len() as int,
    )
}

/// The ids that stand for a node whose entries begin at `first`.
pub open spec fn node_ids(first: u64) -> NodeStepIds {
    NodeStepIds { product_definition_id: at(first, 11), shape_representation_id: at(first, 16) }
}

/// The nine entries that place a child in its parent, from the id `first`
/// on: the placement of the child (point, z axis, x axis, placement), the
/// transformation from the coordinate system `coordinate_system` to that
/// placement, the relationship of the two shape representations, the
/// assembly usage that names the parent first and the child second, the
/// shape of that usage, and the entry that ties relationship and shape
/// together.
pub open spec fn relation_entries(
    first: u64,
    parent_label: Seq<char>,
    child_label: Seq<char>,
    parent: NodeStepIds,
    child: NodeStepIds,
    placement: TransformView,
    coordinate_system: u64,
) -> Seq<EntryView> {
    seq![
        entry(
            first,
            filled(
                "CARTESIAN_POINT('',({},{},{}))"@,
                seq![placement.position.x, placement.position.y, placement.position.z],
            ),
        ),
        entry(
            at(first, 1),
            filled(
                "DIRECTION('',({},{},{}))"@,
                seq![placement.z_axis.x, placement.z_axis.y, placement.z_axis.z],
            ),
        ),
        entry(
            at(first, 2),
            filled(
                "DIRECTION('',({},{},{}))"@,
                seq![placement.x_axis.x, placement.x_axis.y, placement.x_axis.z],
            ),
        ),
        entry(
            at(first, 3),
            filled(
                "AXIS2_PLACEMENT_3D('',#{},#{},#{})"@,
                decimals(seq![first, at(first, 1), at(first, 2)]),
            ),
        ),
        entry(
            at(first, 4),
            filled(
                "ITEM_DEFINED_TRANSFORMATION('','',#{},#{})"@,
                decimals(seq![coordinate_system, at(first, 3)]),
            ),
        ),
        entry(
            at(first, 5),
            filled(
                "(REPRESENTATION_RELATIONSHIP('Child > Parent','{} > {}',#{}, #{})REPRESENTATION_RELATIONSHIP_WITH_TRANSFORMATION(#{})SHAPE_REPRESENTATION_RELATIONSHIP())"@,
                seq![
                    child_label,
                    parent_label,
                    decimal_digits(child.shape_representation_id as nat),
                    decimal_digits(parent.shape_representation_id as nat),
                    decimal_digits(at(first, 4) as nat),
                ],
            ),
        ),
        entry(
            at(first, 6),
            filled(
                "NEXT_ASSEMBLY_USAGE_OCCURRENCE('{}','','{}',#{},#{},'{}')"@,
                seq![
                    child_label,
                    child_label,
                    decimal_digits(parent.product_definition_id as nat),
                    decimal_digits(child.product_definition_id as nat),
                    child_label,
                ],
            ),
        ),
        entry(
            at(first, 7),
            filled(
                "PRODUCT_DEFINITION_SHAPE('{}',$,#{})"@,
                seq![child_label, decimal_digits(at(first, 6) as nat)],
            ),
        ),
        entry(
            at(first, 8),
            filled(
                "CONTEXT_DEPENDENT_SHAPE_REPRESENTATION(#{},#{})"@,
                decimals(seq![at(first, 5), at(first, 7)]),
            ),
        ),
    ]
}

/// The references `#a,#b,...` to the given ids.
pub open spec fn reference_list(ids: Seq<u64>) -> Seq<char> {
    joined(ids.map_values(|id: u64| "#"@ + decimal_digits(id as nat)), ","@)
}

/// The nine entries that close the data section, from the id `first` on:
/// the units and measures, the geometric context that names them, and the
/// entry that lists the presentation items `ids` under that context.
pub open spec fn closing_entries(first: u64, ids: Seq<u64>) -> Seq<EntryView> {
    seq![
        entry(first, "(LENGTH_UNIT()NAMED_UNIT(*)SI_UNIT(.MILLI.,.METRE.))"@),
        entry(at(first, 1), "(NAMED_UNIT(*)PLANE_ANGLE_UNIT()SI_UNIT($,.RADIAN.))"@),
        entry(
            at(first, 2),
            filled(
                "PLANE_ANGLE_MEASURE_WITH_UNIT(PLANE_ANGLE_MEASURE(1.745329251994E-02),#{})"@,
                decimals(seq![at(first, 1)]),
            ),
        ),
        entry(at(first, 3), "DIMENSIONAL_EXPONENTS(0.,0.,0.,0.,0.,0.,0.)"@),
        entry(
            at(first, 4),
            filled(
                "(CONVERSION_BASED_UNIT('DEGREE',#{})NAMED_UNIT(#{})PLANE_ANGLE_UNIT())"@,
                decimals(seq![at(first, 3), at(first, 3)]),
            ),
        ),
        entry(at(first, 5), "(NAMED_UNIT(*)SI_UNIT($,.STERADIAN.)SOLID_ANGLE_UNIT())"@),
        entry(
            at(first, 6),
            filled(
                "UNCERTAINTY_MEASURE_WITH_UNIT(LENGTH_MEASURE(10.E-03),#{},'distance_accuracy_value','Confusion accuracy')"@,
                decimals(seq![first]),
            ),
        ),
        entry(
            at(first, 7),
            filled(
                "(GEOMETRIC_REPRESENTATION_CONTEXT(3)GLOBAL_UNCERTAINTY_ASSIGNED_CONTEXT((#{}))GLOBAL_UNIT_ASSIGNED_CONTEXT((#{},#{},#{}))REPRESENTATION_CONTEXT('',''))"@,
                decimals(seq![at(first, 6), first, at(first, 4), at(first, 5)]),
            ),
        ),
        entry(
            at(first, 8),
            filled(
                "MECHANICAL_DESIGN_GEOMETRIC_PRESENTATION_REPRESENTATION('',({}),#{})"@,
                seq![reference_list(ids), decimal_digits(at(first, 7) as nat)],
            ),
        ),
    ]
}

} // verus!
