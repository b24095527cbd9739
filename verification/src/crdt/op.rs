//! Operations addressed by character identifiers, and batches of them.
use vstd::prelude::*;
use crate::crdt::char_id::CharId;

verus! {

/// An edit of the document.
#[derive(Debug, PartialEq, Eq, Structural)]
pub enum Op {
    /// Insert `value`, identified by `id`, after the character `after`
    /// (`None`: at the head).
    Insert { id: CharId, value: char, after: Option<CharId> },
    /// Delete the character `target`; `deleted_by` names the replica.
    Delete { target: CharId, deleted_by: u64 },
}

impl Clone for Op {
    fn clone(&self) -> (res: Self)
        ensures
            res == *self,
    {
        match self {
            Op::Insert { id, value, after } => Op::Insert { id: *id, value: *value, after: *after },
            Op::Delete { target, deleted_by } => Op::Delete {
                target: *target,
                deleted_by: *deleted_by,
            },
        }
    }
}

impl Op {
    /// An insert.
    pub fn insert(id: CharId, value: char, after: Option<CharId>) -> (r: Self)
        ensures
            r == (Op::Insert { id, value, after }),
    {
        Op::Insert { id, value, after }
    }

    /// A delete.
    pub fn delete(target: CharId, deleted_by: u64) -> (r: Self)
        ensures
            r == (Op::Delete { target, deleted_by }),
    {
        Op::Delete { target, deleted_by }
    }

    /// The identifier of the character an insert creates; `None` for a delete.
    pub fn id(&self) -> (r: Option<CharId>)
        ensures
            r == (match *self {
                Op::Insert { id, .. } => Some(id),
                Op::Delete { .. } => None::<CharId>,
            }),
    {
        match self {
            Op::Insert { id, .. } => Some(*id),
            Op::Delete { .. } => None,
        }
    }

    /// Whether the operation was seen before, as `known` judges the identifier
    /// of an insert. A delete is never a duplicate.
    pub fn is_duplicate<F>(&self, known: F) -> (r: bool)
        where
            F: Fn(CharId) -> bool,
        requires
            forall|c: CharId| known.requires((c,)),
        ensures
            match *self {
                Op::Insert { id, .. } => known.ensures((id,), r),
                Op::Delete { .. } => !r,
            },
    {
        match self {
            Op::Insert { id, .. } => known(*id),
            Op::Delete { .. } => false,
        }
    }
}

/// The operations one replica sends at once.
#[derive(Debug, Clone)]
pub struct OpBatch {
    pub from_replica: u64,
    pub ops: Vec<Op>,
}

impl OpBatch {
    /// A batch from `from_replica`.
    pub fn new(from_replica: u64, ops: Vec<Op>) -> (r: Self)
        ensures
            r.from_replica == from_replica,
            r.ops == ops,
    {
        OpBatch { from_replica, ops }
    }

    /// Returns `true` if the batch holds no operation.
    pub fn is_empty(&self) -> (r: bool)
        ensures
            r == (self.ops@.len() == 0),
    {
        self.ops.len() == 0
    }
}

} // verus!
