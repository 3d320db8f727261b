//! The assembly tree that drives a merge: a list of nodes, each with a
//! label, an optional link to a part file, a placement, metadata and the
//! indices of its children.

use vstd::prelude::*;
use vstd::string::*;
use crate::error::Error;

verus! {

/// A key with its value.
#[derive(Debug, PartialEq, Eq)]
pub struct MetadataEntry {
    pub key: String,
    pub value: String,
}

impl Clone for MetadataEntry {
    fn clone(&self) -> (res: Self)
        ensures
            res == *self,
    {
        MetadataEntry { key: self.key.clone(), value: self.value.clone() }
    }
}

/// Three coordinates, each as the decimal text that is written into the
/// output.
#[derive(Debug, PartialEq, Eq)]
pub struct Vector {
    pub x: String,
    pub y: String,
    pub z: String,
}

impl Clone for Vector {
    fn clone(&self) -> (res: Self)
        ensures
            res == *self,
    {
        Vector { x: self.x.clone(), y: self.y.clone(), z: self.z.clone() }
    }
}

/// The placement of a node in its parent: what the merge reads of the 4x4
/// matrix of the node (the translation in millimetres, the x axis and the z
/// axis), each number as the decimal text that is written into the output.
#[derive(Debug, PartialEq, Eq)]
pub struct Transform {
    /// The translation, in millimetres.
    pub position: Vector,
    /// The direction of the x axis.
    pub x_axis: Vector,
    /// The direction of the z axis.
    pub z_axis: Vector,
}

impl Clone for Transform {
    fn clone(&self) -> (res: Self)
        ensures
            res == *self,
    {
        Transform {
            position: self.position.clone(),
            x_axis: self.x_axis.clone(),
            z_axis: self.z_axis.clone(),
        }
    }
}

/// The texts of three coordinates.
pub struct VectorView {
    pub x: Seq<char>,
    pub y: Seq<char>,
    pub z: Seq<char>,
}

/// The texts of a placement.
pub struct TransformView {
    pub position: VectorView,
    pub x_axis: VectorView,
    pub z_axis: VectorView,
}

impl View for Vector {
    type V = VectorView;

    open spec fn view(&self) -> VectorView {
        VectorView { x: self.x@, y: self.y@, z: self.z@ }
    }
}

impl View for Transform {
    type V = TransformView;

    open spec fn view(&self) -> TransformView {
        TransformView { position: self.position@, x_axis: self.x_axis@, z_axis: self.z_axis@ }
    }
}

/// The placement of a node that lies in its parent unmoved.
pub open spec fn identity_placement() -> TransformView {
    TransformView {
        position: VectorView { x: "0"@, y: "0"@, z: "0"@ },
        x_axis: VectorView { x: "1"@, y: "0"@, z: "0"@ },
        z_axis: VectorView { x: "0"@, y: "0"@, z: "1"@ },
    }
}

/// The placement that the identity matrix stands for.
pub fn identity_matrix() -> (transform: Transform)
    ensures
        transform@ == identity_placement(),
{
    Transform {
        position: Vector { x: "0".to_owned(), y: "0".to_owned(), z: "0".to_owned() },
        x_axis: Vector { x: "1".to_owned(), y: "0".to_owned(), z: "0".to_owned() },
        z_axis: Vector { x: "0".to_owned(), y: "0".to_owned(), z: "1".to_owned() },
    }
}

/// What a node is to a reader of the crate.
pub struct NodeView {
    pub link: Option<Seq<char>>,
    pub label: Seq<char>,
    pub metadata: Seq<(Seq<char>, Seq<char>)>,
    pub transform: TransformView,
    pub children: Seq<usize>,
}

/// A node of the assembly tree.
#[derive(Debug)]
pub struct Node {
    link: Option<String>,
    label: String,
    metadata: Vec<MetadataEntry>,
    transform: Transform,
    children: Vec<usize>,
}

/// The keys and values of the metadata entries, in order.
pub open spec fn metadata_texts(metadata: Seq<MetadataEntry>) -> Seq<(Seq<char>, Seq<char>)> {
    metadata.map_values(|m: MetadataEntry| (m.key@, m.value@))
}

impl View for Node {
    type V = NodeView;

    closed spec fn view(&self) -> NodeView {
        NodeView {
            link: match self.link {
                Some(link) => Some(link@),
                None => None,
            },
            label: self.label@,
            metadata: metadata_texts(self.metadata@),
            transform: self.transform@,
            children: self.children@,
        }
    }
}

impl Node {
    /// A node with the given label: without link, metadata or children, and
    /// unmoved in its parent.
    pub fn new(label: &str) -> (node: Node)
        ensures
            node@ == (NodeView {
                link: None,
                label: label@,
                metadata: seq![],
                transform: identity_placement(),
                children: seq![],
            }),
    {
        let node = Node {
            link: None,
            label: label.to_owned(),
            metadata: Vec::new(),
            transform: identity_matrix(),
            children: Vec::new(),
        };
        assert(metadata_texts(node.metadata@) =~= seq![]);
        assert(node.children@ =~= seq![]);
        node
    }

    /// Adds the node with the index `child` as the last child.
    pub fn add_child(&mut self, child: usize)
        ensures
            final(self)@ == (NodeView { children: old(self)@.children.push(child), ..old(self)@ }),
    {
        self.children.push(child);
    }

    /// Sets the link to a part file.
    pub fn set_link(&mut self, link: &str)
        ensures
            final(self)@ == (NodeView { link: Some(link@), ..old(self)@ }),
    {
        self.link = Some(link.to_owned());
    }

    /// Sets the placement of the node in its parent.
    pub fn set_transform(&mut self, transform: Transform)
        ensures
            final(self)@ == (NodeView { transform: transform@, ..old(self)@ }),
    {
        self.transform = transform;
    }

    /// Adds a key with its value as the last metadata entry.
    pub fn add_metadata(&mut self, key: &str, value: &str)
        ensures
            final(self)@ == (NodeView {
                metadata: old(self)@.metadata.push((key@, value@)),
                ..old(self)@
            }),
    {
        self.metadata.push(MetadataEntry { key: key.to_owned(), value: value.to_owned() });
        assert(metadata_texts(self.metadata@) =~= metadata_texts(old(self).metadata@).push(
            (key@, value@),
        ));
    }

    /// The link to a part file, if the node has one.
    pub fn get_link(&self) -> (link: Option<&str>)
        ensures
            link is Some == self@.link is Some,
            link matches Some(l) ==> l@ == self@.link->0,
    {
        match &self.link {
            Some(link) => Some(link.as_str()),
            None => None,
        }
    }

    /// The label.
    pub fn get_label(&self) -> (label: &str)
        ensures
            label@ == self@.label,
    {
        self.label.as_str()
    }

    /// The indices of the children, in order.
    pub fn get_children(&self) -> (children: &[usize])
        ensures
            children@ == self@.children,
    {
        self.children.as_slice()
    }

    /// The placement of the node in its parent.
    pub fn get_transform(&self) -> (transform: &Transform)
        ensures
            transform@ == self@.transform,
    {
        &self.transform
    }

    /// The metadata entries, in order.
    pub fn get_metadata(&self) -> (metadata: &[MetadataEntry])
        ensures
            metadata_texts(metadata@) == self@.metadata,
    {
        self.metadata.as_slice()
    }
}

/// The assembly tree: its nodes, of which each names its children by their
/// index in this list.
#[derive(Debug)]
pub struct Assembly {
    pub nodes: Vec<Node>,
}

/// The views of the nodes, in order.
pub open spec fn node_views(nodes: Seq<Node>) -> Seq<NodeView> {
    nodes.map_values(|n: Node| n@)
}

/// Whether every child index of the first `count` nodes names a node.
pub open spec fn children_valid(nodes: Seq<NodeView>, count: int) -> bool {
    forall|i: int, j: int|
        0 <= i < count && 0 <= j < nodes[i].children.len() ==> (#[trigger] nodes[i].children[j])
            < nodes.len()
}

/// Whether the child `j` of the node `i` is the first child index, in the
/// order of the nodes and of their children, that names no node.
pub open spec fn first_invalid_child(nodes: Seq<NodeView>, i: int, j: int) -> bool {
    &&& 0 <= i < nodes.len()
    &&& 0 <= j < nodes[i].children.len()
    &&& nodes[i].children[j] >= nodes.len()
    &&& children_valid(nodes, i)
    &&& forall|k: int| 0 <= k < j ==> (#[trigger] nodes[i].children[k]) < nodes.len()
}

impl Assembly {
    /// The nodes as a reader of the crate sees them.
    pub open spec fn views(&self) -> Seq<NodeView> {
        node_views(self.nodes@)
    }

    /// Whether every child index names a node.
    pub open spec fn valid(&self) -> bool {
        children_valid(self.views(), self.nodes@.len() as int)
    }

    /// Checks that every child index names a node. The error is that of the
    /// first index that names none, with the label of its node.
    pub fn is_valid(&self) -> (result: Result<(), Error>)
        ensures
            result is Ok <==> self.valid(),
            result matches Err(e) ==> exists|i: int, j: int|
                #![trigger self.views()[i].children[j]]
                first_invalid_child(self.views(), i, j) && (e matches Error::InvalidFormat(
                    child,
                    label,
                ) && child == self.views()[i].children[j] && label@ == self.views()[i].label),
    {
        let num_nodes = self.nodes.len();
        let mut i: usize = 0;
        while i < self.nodes.len()
            invariant
                i <= self.nodes.len(),
                num_nodes == self.nodes.len(),
                children_valid(self.views(), i as int),
            decreases self.nodes.len() - i,
        {
            let node = &self.nodes[i];
            let children = node.get_children();
            let mut j: usize = 0;
            assert(self.views()[i as int] == node@);
            while j < children.len()
                invariant
                    j <= children.len(),
                    i < self.nodes.len(),
                    num_nodes == self.nodes.len(),
                    node == &self.nodes@[i as int],
                    children@ == self.views()[i as int].children,
                    children_valid(self.views(), i as int),
                    forall|k: int|
                        0 <= k < j ==> (#[trigger] self.views()[i as int].children[k])
                            < self.nodes.len(),
                decreases children.len() - j,
            {
                if children[j] >= num_nodes {
                    proof {
                        assert(first_invalid_child(self.views(), i as int, j as int));
                        assert(self.views()[i as int].children[j as int] >= self.nodes@.len());
                    }
                    return Err(Error::InvalidFormat(children[j], node.get_label().to_owned()));
                }
                j += 1;
            }
            i += 1;
        }
        Ok(())
    }
}

} // verus!
