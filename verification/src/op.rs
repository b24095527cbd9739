//! Operations sent between replicas.
//!
//! A local edit produces an [`Op`] that is sent to the other replicas, which
//! apply it with [`crate::replica::Replica::apply_remote`]; that returns an
//! [`ApplyOutcome`] saying whether the operation changed the document.
use vstd::prelude::*;
use crate::id::IdView;
use crate::id::NodeId;
use crate::id::OperationId;
use crate::id::opt_id_view;
use crate::model::RgaView;
use crate::model::insert_spec;
use crate::model::delete_spec;
use crate::rga::RgaError;

verus! {

/// An operation produced by a local edit and sent to remote replicas.
#[derive(Debug, PartialEq, Eq)]
pub enum Op {
    /// Insert `value` to the right of `left`; `left: None` means at the head of
    /// the document.
    Insert { left: Option<NodeId>, value: char, id: NodeId },
    /// Mark the node identified by `target` as deleted.
    Delete { target: NodeId, id: OperationId },
}

/// The value of an [`Op`].
pub ghost enum OpView {
    Insert { left: Option<IdView>, value: char, id: IdView },
    Delete { target: IdView, id: IdView },
}

impl View for Op {
    type V = OpView;

    open spec fn view(&self) -> OpView {
        match self {
            Op::Insert { left, value, id } => OpView::Insert {
                left: opt_id_view(*left),
                value: *value,
                id: id@,
            },
            Op::Delete { target, id } => OpView::Delete { target: target@, id: id@ },
        }
    }
}

impl Clone for Op {
    fn clone(&self) -> (res: Self)
        ensures
            res == *self,
    {
        match self {
            Op::Insert { left, value, id } => Op::Insert {
                left: left.clone(),
                value: *value,
                id: id.clone(),
            },
            Op::Delete { target, id } => Op::Delete { target: target.clone(), id: id.clone() },
        }
    }
}

/// The id of an operation.
pub open spec fn op_id(op: OpView) -> IdView {
    match op {
        OpView::Insert { id, .. } => id,
        OpView::Delete { id, .. } => id,
    }
}

/// What applying an operation does to a tree.
pub open spec fn apply_op(v: RgaView, op: OpView) -> Result<RgaView, RgaError> {
    match op {
        OpView::Insert { left, value, id } => insert_spec(v, left, value, id),
        OpView::Delete { target, id } => delete_spec(v, target, id),
    }
}

impl Op {
    /// Returns the unique id of this operation.
    pub fn id(&self) -> (r: &OperationId)
        ensures
            r@ == op_id(self@),
            r == match self {
                Op::Insert { id, .. } => id,
                Op::Delete { id, .. } => id,
            },
    {
        match self {
            Op::Insert { id, .. } => id,
            Op::Delete { id, .. } => id,
        }
    }
}

/// Result of applying a remote operation.
#[derive(Debug, Clone, Copy, PartialEq, Eq, Structural)]
pub enum ApplyOutcome {
    /// The operation was new and applied successfully.
    Applied,
    /// The operation had already been applied; it was safely ignored.
    Duplicate,
    /// The operation references a node not yet present on this replica.
    MissingDependency,
    /// The operation is structurally invalid (e.g. an insert naming itself as
    /// its own left anchor).
    Invalid,
}

/// The name of an outcome in the WebAssembly interface.
pub open spec fn outcome_name(o: ApplyOutcome) -> Seq<char> {
    match o {
        ApplyOutcome::Applied => "applied"@,
        ApplyOutcome::Duplicate => "duplicate"@,
        ApplyOutcome::MissingDependency => "missing_dependency"@,
        ApplyOutcome::Invalid => "invalid"@,
    }
}

impl ApplyOutcome {
    /// Returns the string used by the WebAssembly interface.
    pub fn as_str(self) -> (r: &'static str)
        ensures
            r@ == outcome_name(self),
    {
        match self {
            ApplyOutcome::Applied => "applied",
            ApplyOutcome::Duplicate => "duplicate",
            ApplyOutcome::MissingDependency => "missing_dependency",
            ApplyOutcome::Invalid => "invalid",
        }
    }
}

} // verus!
