//! The search for the root nodes of a part file: the product definitions
//! that no assembly usage names as a child.
//!
//! Three kinds of entries are followed:
//! * `SHAPE_DEFINITION_REPRESENTATION` names a `PRODUCT_DEFINITION_SHAPE` and a
//!   `SHAPE_REPRESENTATION`,
//! * `PRODUCT_DEFINITION_SHAPE` names, last, its `PRODUCT_DEFINITION`,
//! * `NEXT_ASSEMBLY_USAGE_OCCURRENCE` names a parent and, second, a child
//!   `PRODUCT_DEFINITION`.

use std::collections::{HashMap, HashSet};
use vstd::prelude::*;
use crate::entry::{references, references_fit, EntryView, StepEntry};
use crate::text::{extract_keyword_text, keyword_of, same_text};
use crate::utils::NodeStepIds;

verus! {

broadcast use vstd::std_specs::hash::group_hash_axioms;

/// What the search has recorded.
pub struct RootsView {
    /// From a `SHAPE_DEFINITION_REPRESENTATION` to its `SHAPE_REPRESENTATION`.
    pub shape_representations: Map<u64, u64>,
    /// From a `PRODUCT_DEFINITION_SHAPE` to its
    /// `SHAPE_DEFINITION_REPRESENTATION`.
    pub shape_definitions: Map<u64, u64>,
    /// Each `PRODUCT_DEFINITION` with its `PRODUCT_DEFINITION_SHAPE`, in the
    /// order in which the shapes were met.
    pub shapes: Seq<(u64, u64)>,
    /// The product definitions that an assembly usage names as a child.
    pub children: Set<u64>,
}

/// The record of a search that has met no entry.
pub open spec fn no_roots() -> RootsView {
    RootsView {
        shape_representations: Map::empty(),
        shape_definitions: Map::empty(),
        shapes: seq![],
        children: Set::empty(),
    }
}

/// Whether the entry is a `NEXT_ASSEMBLY_USAGE_OCCURRENCE` with the two
/// references that such an entry has.
pub open spec fn is_assembly_usage(entry: EntryView) -> bool {
    keyword_of(entry.definition) == "NEXT_ASSEMBLY_USAGE_OCCURRENCE"@ && references(
        entry.definition,
    ).len() == 2
}

/// The record after `entry` is met. An entry of another kind, or one of the
/// three kinds with a number of references that its kind does not have,
/// changes nothing.
pub open spec fn with_entry(record: RootsView, entry: EntryView) -> RootsView {
    let keyword = keyword_of(entry.definition);
    let found = references(entry.definition);
    if keyword == "SHAPE_DEFINITION_REPRESENTATION"@ {
        if found.len() == 2 {
            RootsView {
                shape_representations: record.shape_representations.insert(entry.id, found[1]),
                shape_definitions: record.shape_definitions.insert(found[0], entry.id),
                ..record
            }
        } else {
            record
        }
    } else if keyword == "PRODUCT_DEFINITION_SHAPE"@ {
        if found.len() >= 1 {
            RootsView { shapes: record.shapes.push((found.last(), entry.id)), ..record }
        } else {
            record
        }
    } else if keyword == "NEXT_ASSEMBLY_USAGE_OCCURRENCE"@ {
        if found.len() == 2 {
            RootsView { children: record.children.insert(found[1]), ..record }
        } else {
            record
        }
    } else {
        record
    }
}

/// The record after the entries are met in order.
pub open spec fn with_entries(record: RootsView, entries: Seq<EntryView>) -> RootsView
    decreases entries.len(),
{
    if entries.len() == 0 {
        record
    } else {
        with_entry(with_entries(record, entries.drop_last()), entries.last())
    }
}

/// Whether the shape at `index` belongs to a root with a complete chain: its
/// product definition is no child, and its shape leads over a shape
/// definition to a shape representation.
pub open spec fn is_root(record: RootsView, index: int) -> bool {
    let (product_definition, shape) = record.shapes[index];
    &&& !record.children.contains(product_definition)
    &&& record.shape_definitions.contains_key(shape)
    &&& record.shape_representations.contains_key(record.shape_definitions[shape])
}

/// The ids of the root at `index`.
pub open spec fn root_at(record: RootsView, index: int) -> NodeStepIds {
    let (product_definition, shape) = record.shapes[index];
    NodeStepIds {
        product_definition_id: product_definition,
        shape_representation_id: record.shape_representations[record.shape_definitions[shape]],
    }
}

/// The roots among the first `count` shapes of the record, in the order of
/// the shapes.
pub open spec fn roots_among(record: RootsView, count: int) -> Seq<NodeStepIds>
    decreases count,
{
    if count <= 0 {
        seq![]
    } else if is_root(record, count - 1) {
        roots_among(record, count - 1).push(root_at(record, count - 1))
    } else {
        roots_among(record, count - 1)
    }
}

/// The root nodes of the record.
pub open spec fn roots_of(record: RootsView) -> Seq<NodeStepIds> {
    roots_among(record, record.shapes.len() as int)
}

/// The search for root nodes, fed entry by entry.
pub struct FindRootNodes {
    shape_def_rep_to_shape_rep: HashMap<u64, u64>,
    prod_def_shape_to_shape_def_rep: HashMap<u64, u64>,
    prod_def_to_prod_def_shape: Vec<(u64, u64)>,
    prod_def_assembly_occurrences: HashSet<u64>,
}

impl View for FindRootNodes {
    type V = RootsView;

    closed spec fn view(&self) -> RootsView {
        RootsView {
            shape_representations: self.shape_def_rep_to_shape_rep@,
            shape_definitions: self.prod_def_shape_to_shape_def_rep@,
            shapes: self.prod_def_to_prod_def_shape@,
            children: self.prod_def_assembly_occurrences@,
        }
    }
}

impl FindRootNodes {
    /// A search that has met no entry.
    pub fn new() -> (search: Self)
        ensures
            search@ == no_roots(),
    {
        FindRootNodes {
            shape_def_rep_to_shape_rep: HashMap::new(),
            prod_def_shape_to_shape_def_rep: HashMap::new(),
            prod_def_to_prod_def_shape: Vec::new(),
            prod_def_assembly_occurrences: HashSet::new(),
        }
    }

    /// Records what `entry` says of shapes, products and assembly usages.
    pub fn add_entry(&mut self, entry: &StepEntry)
        requires
            references_fit(entry@.definition),
        ensures
            final(self)@ == with_entry(old(self)@, entry@),
    {
        let keyword = Self::extract_keyword(entry.get_definition());
        if same_text(keyword.as_str(), "SHAPE_DEFINITION_REPRESENTATION") {
            let shape_def_rep_id = entry.get_id();
            let found = entry.get_references();
            if found.len() != 2 {
                return ;
            }
            let prod_def_shape_id = found[0];
            let shape_rep_id = found[1];
            self.shape_def_rep_to_shape_rep.insert(shape_def_rep_id, shape_rep_id);
            self.prod_def_shape_to_shape_def_rep.insert(prod_def_shape_id, shape_def_rep_id);
        } else if same_text(keyword.as_str(), "PRODUCT_DEFINITION_SHAPE") {
            let prod_def_shape_id = entry.get_id();
            let found = entry.get_references();
            if found.len() == 0 {
                return ;
            }
            let prod_def_id = found[found.len() - 1];
            self.prod_def_to_prod_def_shape.push((prod_def_id, prod_def_shape_id));
        } else if same_text(keyword.as_str(), "NEXT_ASSEMBLY_USAGE_OCCURRENCE") {
            let found = entry.get_references();
            if found.len() != 2 {
                return ;
            }
            let prod_def_id = found[1];
            self.prod_def_assembly_occurrences.insert(prod_def_id);
        }
    }

    /// The root nodes: for each recorded product definition that no assembly
    /// usage names as a child and whose shape leads to a shape
    /// representation, the ids of the two, in the order in which the shapes
    /// were met.
    pub fn get_root_nodes(&self) -> (result: Vec<NodeStepIds>)
        ensures
            result@ == roots_of(self@),
    {
        let mut result: Vec<NodeStepIds> = Vec::new();
        let mut i: usize = 0;
        while i < self.prod_def_to_prod_def_shape.len()
            invariant
                i <= self.prod_def_to_prod_def_shape.len(),
                result@ == roots_among(self@, i as int),
            decreases self.prod_def_to_prod_def_shape.len() - i,
        {
            let (prod_def_id, prod_def_shape_id) = self.prod_def_to_prod_def_shape[i];
            i += 1;
            if self.prod_def_assembly_occurrences.contains(&prod_def_id) {
                continue ;
            }
            match self.prod_def_shape_to_shape_def_rep.get(&prod_def_shape_id) {
                Some(shape_def_rep_id) => {
                    match self.shape_def_rep_to_shape_rep.get(shape_def_rep_id) {
                        Some(shape_rep_id) => {
                            result.push(
                                NodeStepIds {
                                    product_definition_id: prod_def_id,
                                    shape_representation_id: *shape_rep_id,
                                },
                            );
                        },
                        None => {},
                    }
                },
                None => {},
            }
        }
        result
    }

    /// The keyword of a definition: the run of upper-case letters and
    /// underscores that follows the whitespace at its beginning.
    pub fn extract_keyword(definition: &str) -> (keyword: String)
        ensures
            keyword@ == keyword_of(definition@),
    {
        extract_keyword_text(definition)
    }
}

/// Meeting entries never removes a child.
proof fn lemma_children_stay(record: RootsView, entries: Seq<EntryView>, child: u64)
    requires
        record.children.contains(child),
    ensures
        with_entries(record, entries).children.contains(child),
    decreases entries.len(),
{
    if entries.len() > 0 {
        lemma_children_stay(record, entries.drop_last(), child);
    }
}

/// The child of an assembly usage among the entries is recorded.
proof fn lemma_child_recorded(record: RootsView, entries: Seq<EntryView>, k: int)
    requires
        0 <= k < entries.len(),
        is_assembly_usage(entries[k]),
    ensures
        with_entries(record, entries).children.contains(references(entries[k].definition)[1]),
    decreases entries.len(),
{
    let child = references(entries[k].definition)[1];
    if k == entries.len() - 1 {
        reveal_strlit("SHAPE_DEFINITION_REPRESENTATION");
        reveal_strlit("PRODUCT_DEFINITION_SHAPE");
        reveal_strlit("NEXT_ASSEMBLY_USAGE_OCCURRENCE");
        assert(with_entry(with_entries(record, entries.drop_last()), entries.last()).children
            == with_entries(record, entries.drop_last()).children.insert(child));
    } else {
        assert(entries.drop_last()[k] == entries[k]);
        lemma_child_recorded(record, entries.drop_last(), k);
    }
}

/// No root is a recorded child.
proof fn lemma_roots_are_no_children(record: RootsView, count: int, i: int)
    requires
        0 <= i < roots_among(record, count).len(),
    ensures
        !record.children.contains(roots_among(record, count)[i].product_definition_id),
    decreases count,
{
    if count > 0 {
        if is_root(record, count - 1) && i == roots_among(record, count - 1).len() {
        } else {
            lemma_roots_are_no_children(record, count - 1, i);
        }
    }
}

/// Root independence: whatever entries a search has met, none of its roots
/// is the child, that is the second reference, of a
/// `NEXT_ASSEMBLY_USAGE_OCCURRENCE` with two references among those entries.
pub proof fn lemma_root_independence(entries: Seq<EntryView>, i: int, k: int)
    requires
        0 <= i < roots_of(with_entries(no_roots(), entries)).len(),
        0 <= k < entries.len(),
        is_assembly_usage(entries[k]),
    ensures
        roots_of(with_entries(no_roots(), entries))[i].product_definition_id != references(
            entries[k].definition,
        )[1],
{
    let record = with_entries(no_roots(), entries);
    lemma_child_recorded(no_roots(), entries, k);
    lemma_roots_are_no_children(record, record.shapes.len() as int, i);
}

} // verus!
