//! The ids that stand for a node, and the reading of the entry that lists
//! the presentation items of a part file.

use vstd::prelude::*;
use crate::entry::{references, references_fit, StepEntry};

verus! {

/// The two generated ids that stand for one assembly node, or for one root
/// of a part file, in the output.
#[derive(Debug, Clone, Copy, PartialEq, Eq)]
pub struct NodeStepIds {
    /// The id of the `PRODUCT_DEFINITION` entry.
    pub product_definition_id: u64,
    /// The id of the `SHAPE_REPRESENTATION` entry.
    pub shape_representation_id: u64,
}

/// The ids that a `MECHANICAL_DESIGN_GEOMETRIC_PRESENTATION_REPRESENTATION`
/// entry lists: all its references but the last, which names the context of
/// its file.
pub open spec fn mechanical_part_ids(definition: Seq<char>) -> Seq<u64> {
    if references(definition).len() == 0 {
        seq![]
    } else {
        references(definition).drop_last()
    }
}

/// Appends to `ids` the ids that the entry lists: all its references but the
/// last. An entry without references adds nothing.
pub fn get_ids_from_mechanical_part(entry: &StepEntry, ids: &mut Vec<u64>)
    requires
        references_fit(entry@.definition),
    ensures
        final(ids)@ == old(ids)@ + mechanical_part_ids(entry@.definition),
{
    let mut entry_ids = entry.get_references();
    if entry_ids.len() == 0 {
        assert(ids@ + Seq::<u64>::empty() =~= ids@);
        return ;
    }
    entry_ids.pop();
    ids.append(&mut entry_ids);
}

} // verus!
