//! A single character node of the RGA tree.
use vstd::prelude::*;
use crate::id::NodeId;
use crate::id::OperationId;
use crate::id::opt_id_view;
use crate::model::NodeView;

verus! {

/// A single character in the RGA tree.
///
/// Deleted characters are not removed from the tree: `tombstone` is set and
/// the node stays in place, so that inserts anchored to it still resolve.
#[derive(Debug)]
pub struct Node {
    pub value: char,
    pub tombstone: bool,
    pub left: Option<NodeId>,
    pub id: NodeId,
    pub deleted_by: Option<OperationId>,
    pub children: Vec<usize>,
}

impl View for Node {
    type V = NodeView;

    open spec fn view(&self) -> NodeView {
        NodeView {
            value: self.value,
            tombstone: self.tombstone,
            left: opt_id_view(self.left),
            id: self.id@,
            deleted_by: opt_id_view(self.deleted_by),
            children: self.children@,
        }
    }
}

impl Clone for Node {
    fn clone(&self) -> (res: Self)
        ensures
            res@ == self@,
    {
        Node {
            value: self.value,
            tombstone: self.tombstone,
            left: self.left.clone(),
            id: self.id.clone(),
            deleted_by: self.deleted_by.clone(),
            children: self.children.clone(),
        }
    }
}

impl Node {
    /// A live node with no children.
    pub fn new(value: char, left: Option<NodeId>, id: NodeId) -> (r: Self)
        ensures
            r.value == value,
            !r.tombstone,
            r.left == left,
            r.id == id,
            r.deleted_by is None,
            r.children@ == Seq::<usize>::empty(),
    {
        Node { value, tombstone: false, left, id, deleted_by: None, children: Vec::new() }
    }

    /// Returns `true` if the node has been deleted.
    pub fn is_tombstone(&self) -> (r: bool)
        ensures
            r == self.tombstone,
    {
        self.tombstone
    }
}

} // verus!
