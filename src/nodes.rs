//! Node handles and tree nodes.

use crate::data_types::DataTypes;
use vstd::prelude::*;

verus! {

/// A 1-based handle into the node arena. `index1 == 1` is the root.
#[derive(Clone, Copy, Debug, PartialEq, Eq, Structural, Hash, PartialOrd, Ord)]
pub struct NodeId {
    pub index1: usize,
}

impl NodeId {
    /// The position in the arena of the node this handle denotes.
    pub open spec fn pos(self) -> int {
        self.index1 as int - 1
    }

    /// The handle of the root.
    pub fn new() -> (r: NodeId)
        ensures
            r.index1 == 1,
    {
        NodeId { index1: 1 }
    }

    /// The handle with the given 1-based index; 0 is no handle.
    pub fn new_with_value(value: usize) -> (r: NodeId)
        requires
            value >= 1,
        ensures
            r.index1 == value,
    {
        NodeId { index1: value }
    }

    /// The 0-based arena position.
    pub fn index0(self) -> (r: usize)
        requires
            self.index1 >= 1,
        ensures
            r == self.pos(),
    {
        self.index1 - 1
    }

    /// The handle with the given 1-based index.
    pub fn from_non_zero_usize(index1: usize) -> (r: NodeId)
        requires
            index1 >= 1,
        ensures
            r.index1 == index1,
    {
        NodeId { index1 }
    }
}

impl Default for NodeId {
    fn default() -> (r: NodeId)
        ensures
            r.index1 == 1,
    {
        NodeId { index1: 1 }
    }
}

/// A tree node: its symbol (none for the root), its parent (none for the
/// root) and its children in the order they were added.
#[derive(Clone, Debug)]
pub struct Node {
    pub parent: Option<NodeId>,
    pub children: Vec<NodeId>,
    pub data: Option<DataTypes>,
}

/// What a node holds, as mathematical values.
pub struct NodeView {
    pub parent: Option<NodeId>,
    pub children: Seq<NodeId>,
    pub data: Option<DataTypes>,
}

impl View for Node {
    type V = NodeView;

    open spec fn view(&self) -> NodeView {
        NodeView { parent: self.parent, children: self.children@, data: self.data }
    }
}

impl Node {
    /// The node's symbol.
    pub fn get(&self) -> (r: &Option<DataTypes>)
        ensures
            *r == self.data,
    {
        &self.data
    }

    /// The node's symbol, for update in place.
    pub fn get_mut(&mut self) -> (r: &mut Option<DataTypes>)
        ensures
            *r == old(self).data,
            final(self).data == *final(r),
            final(self)@ == (NodeView { data: *final(r), ..old(self)@ }),
    {
        &mut self.data
    }

    /// A node holding `data`, with no parent and no children yet.
    pub fn new(data: DataTypes) -> (r: Node)
        ensures
            r.parent.is_none(),
            r.children@.len() == 0,
            r.data == Some(data),
    {
        Node { parent: None, children: Vec::new(), data: Some(data) }
    }
}

} // verus!
