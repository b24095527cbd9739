//! Per-client replica state.
//!
//! A [`Replica`] wraps an [`Rga`], remembers the ids of the operations it has
//! applied, assigns Lamport ids to local edits, and keeps an operation log
//! that lets a newly connected peer rebuild the document.
//!
//! [`Replica::local_insert`] inserts before the character currently at `pos`
//! (at the end when `pos` is the text length); [`Replica::local_delete`]
//! deletes the visible character at `pos`. Both apply the edit at once and
//! return the [`Op`] to send to the other replicas.
//!
//! Remote operations go through [`Replica::apply_remote`] or
//! [`Replica::apply_remote_batch`]. Duplicates are ignored; missing
//! dependencies are reported so that the caller can retry later.
//!
//! [`Replica::clear_deleted_nodes`] removes tombstones and rewrites the log
//! from the surviving nodes. Replicas that have not seen all deletions can be
//! left out of sync by it.
use vstd::prelude::*;
use crate::id::IdView;
use crate::id::NodeId;
use crate::id::OperationId;
use crate::id::ReplicaId;
use crate::id::SessionId;
use crate::model::RgaView;
use crate::model::wf;
use crate::model::empty_view;
use crate::model::insert_spec;
use crate::model::delete_spec;
use crate::model::node_at;
use crate::model::text;
use crate::model::has_id;
use crate::op::Op;
use crate::op::OpView;
use crate::op::ApplyOutcome;
use crate::op::op_id;
use crate::op::apply_op;
use crate::rga::Rga;
use crate::rga::RgaError;
use crate::rga::RgaTree;
use crate::rga::describes;
use crate::compaction::count_tombstones;
use crate::compaction::compacted;
use crate::replay::replay;
use crate::replay::rebuild_log;
use crate::replay::lemma_replay_push;
use crate::replay::lemma_replay_rebuild_log;

verus! {

/// The value of a [`Replica`].
pub ghost struct ReplicaView {
    pub rga: RgaView,
    pub applied: Seq<IdView>,
    pub log: Seq<OpView>,
    pub replica_id: Seq<char>,
    pub session_id: Seq<char>,
    pub lamport: u64,
    pub seq: u64,
}

/// The clock of a replica is at least the timestamp of every node of its
/// tree, so the ids it gives its own edits outrank every node.
pub open spec fn clock_ok(r: ReplicaView) -> bool {
    forall|i: int| 0 <= i < r.rga.nodes.len() ==> (#[trigger] r.rga.nodes[i]).id.lamport <= r.lamport
}

/// No two operations of `ops` share an id.
pub open spec fn distinct_ids(ops: Seq<OpView>) -> bool {
    forall|i: int, j: int| 0 <= i < j < ops.len() ==> op_id(ops[i]) != op_id(ops[j])
}

/// The log of a replica holds operations with distinct ids, all applied;
/// every node of the tree has an applied id; and no applied id is stamped
/// later than the clock.
pub open spec fn log_ok(r: ReplicaView) -> bool {
    &&& distinct_ids(r.log)
    &&& forall|k: int| 0 <= k < r.log.len() ==> r.applied.contains(op_id(#[trigger] r.log[k]))
    &&& forall|i: int| 0 <= i < r.rga.nodes.len() ==> r.applied.contains((#[trigger] r.rga.nodes[i]).id)
    &&& forall|k: int| 0 <= k < r.applied.len() ==> (#[trigger] r.applied[k]).lamport <= r.lamport
}

/// The ids of the tree after an operation: those it had, and the id of the
/// operation.
pub proof fn lemma_apply_op_ids(v: RgaView, op: OpView)
    requires
        apply_op(v, op) is Ok,
    ensures
        forall|i: int|
            0 <= i < apply_op(v, op)->Ok_0.nodes.len() ==> (i < v.nodes.len() && (
            #[trigger] apply_op(v, op)->Ok_0.nodes[i]).id == v.nodes[i].id) || apply_op(
                v,
                op,
            )->Ok_0.nodes[i].id == op_id(op),
{
}

/// Recording an operation whose id was not applied keeps the log sound.
pub proof fn lemma_record_keeps_log(r: ReplicaView, lamport: u64, v: RgaView, op: OpView)
    requires
        log_ok(r),
        lamport >= r.lamport,
        lamport >= op_id(op).lamport,
        !r.applied.contains(op_id(op)),
        apply_op(r.rga, op) == Ok::<RgaView, RgaError>(v),
    ensures
        log_ok(recorded(ReplicaView { lamport, ..r }, v, op)),
        clock_ok(recorded(ReplicaView { lamport, ..r }, v, op)),
{
    let r2 = recorded(ReplicaView { lamport, ..r }, v, op);
    let id = op_id(op);
    lemma_apply_op_ids(r.rga, op);
    assert forall|i: int, j: int| 0 <= i < j < r2.log.len() implies op_id(r2.log[i]) != op_id(
        r2.log[j],
    ) by {
        if j == r.log.len() {
            assert(r.applied.contains(op_id(r.log[i])));
        } else {
            assert(r2.log[i] == r.log[i]);
            assert(r2.log[j] == r.log[j]);
        }
    }
    assert forall|k: int| 0 <= k < r2.log.len() implies r2.applied.contains(op_id(#[trigger] r2.log[k])) by {
        if k < r.log.len() {
            assert(r2.log[k] == r.log[k]);
            let a = choose|a: int| 0 <= a < r.applied.len() && r.applied[a] == op_id(r.log[k]);
            assert(r2.applied[a] == r.applied[a]);
        } else {
            assert(r2.applied[r.applied.len() as int] == id);
        }
    }
    assert forall|i: int| 0 <= i < r2.rga.nodes.len() implies r2.applied.contains((#[trigger] r2.rga.nodes[i]).id) by {
        if i < r.rga.nodes.len() && v.nodes[i].id == r.rga.nodes[i].id {
            assert(r.applied.contains(r.rga.nodes[i].id));
            let a = choose|a: int| 0 <= a < r.applied.len() && r.applied[a] == r.rga.nodes[i].id;
            assert(r2.applied[a] == r.applied[a]);
        } else {
            assert(r2.applied[r.applied.len() as int] == id);
        }
    }
    assert forall|i: int| 0 <= i < r2.rga.nodes.len() implies (#[trigger] r2.rga.nodes[i]).id.lamport
        <= r2.lamport by {
        assert(r2.applied.contains(r2.rga.nodes[i].id));
        let a = choose|a: int| 0 <= a < r2.applied.len() && r2.applied[a] == r2.rga.nodes[i].id;
        if a < r.applied.len() {
            assert(r2.applied[a] == r.applied[a]);
        }
    }
}

/// The ids a replica gives its own edits were never applied.
pub proof fn lemma_fresh_not_applied(r: ReplicaView)
    requires
        log_ok(r),
        r.lamport < u64::MAX,
    ensures
        !r.applied.contains(fresh_id(r)),
{
    if r.applied.contains(fresh_id(r)) {
        let a = choose|a: int| 0 <= a < r.applied.len() && r.applied[a] == fresh_id(r);
        assert(r.applied[a].lamport <= r.lamport);
    }
}

/// A local insert keeps the log and the clock sound.
pub proof fn lemma_local_insert_keeps(r: ReplicaView, pos: int, value: char)
    requires
        log_ok(r),
        r.lamport < u64::MAX,
        r.seq < u64::MAX,
    ensures
        log_ok(local_insert_spec(r, pos, value).0),
        clock_ok(local_insert_spec(r, pos, value).0),
{
    lemma_clock_from_log(r);
    if let Some(left) = insert_anchor(r.rga, pos) {
        let id = fresh_id(r);
        let op = OpView::Insert { left, value, id };
        lemma_fresh_not_applied(r);
        match insert_spec(r.rga, left, value, id) {
            Ok(v) => {
                lemma_record_keeps_log(bumped(r), (r.lamport + 1) as u64, v, op);
                lemma_bump_keeps_log(r);
                assert(ReplicaView { lamport: (r.lamport + 1) as u64, ..bumped(r) } == bumped(r));
            },
            Err(_) => {
                lemma_bump_keeps_log(r);
            },
        }
    }
}

/// A local delete keeps the log and the clock sound.
pub proof fn lemma_local_delete_keeps(r: ReplicaView, pos: int)
    requires
        log_ok(r),
        r.lamport < u64::MAX,
        r.seq < u64::MAX,
    ensures
        log_ok(local_delete_spec(r, pos).0),
        clock_ok(local_delete_spec(r, pos).0),
{
    lemma_clock_from_log(r);
    if pos + 1 <= usize::MAX {
        if let Some(i) = node_at(r.rga, pos + 1) {
            let target = r.rga.nodes[i as int].id;
            let id = fresh_id(r);
            let op = OpView::Delete { target, id };
            lemma_fresh_not_applied(r);
            lemma_bump_keeps_log(r);
            match delete_spec(r.rga, target, id) {
                Ok(v) => {
                    lemma_record_keeps_log(bumped(r), (r.lamport + 1) as u64, v, op);
                    assert(ReplicaView { lamport: (r.lamport + 1) as u64, ..bumped(r) } == bumped(r));
                },
                Err(_) => {},
            }
        }
    }
}

/// Taking the next id keeps the log sound.
proof fn lemma_bump_keeps_log(r: ReplicaView)
    requires
        log_ok(r),
        r.lamport < u64::MAX,
        r.seq < u64::MAX,
    ensures
        log_ok(bumped(r)),
        clock_ok(bumped(r)),
        !bumped(r).applied.contains(fresh_id(r)),
{
    lemma_fresh_not_applied(r);
    lemma_clock_from_log(bumped(r));
}

/// A sound log bounds the timestamps of the nodes by the clock.
pub proof fn lemma_clock_from_log(r: ReplicaView)
    requires
        log_ok(r),
    ensures
        clock_ok(r),
{
    assert forall|i: int| 0 <= i < r.rga.nodes.len() implies (#[trigger] r.rga.nodes[i]).id.lamport
        <= r.lamport by {
        assert(r.applied.contains(r.rga.nodes[i].id));
        let a = choose|a: int| 0 <= a < r.applied.len() && r.applied[a] == r.rga.nodes[i].id;
        assert(r.applied[a].lamport <= r.lamport);
    }
}

/// A remote operation keeps the log and the clock sound.
pub proof fn lemma_remote_step_keeps(r: ReplicaView, op: OpView)
    requires
        log_ok(r),
    ensures
        log_ok(remote_step(r, op).0),
        clock_ok(remote_step(r, op).0),
{
    lemma_clock_from_log(r);
    if !r.applied.contains(op_id(op)) {
        let res = match op {
            OpView::Insert { left, value, id } => if left == Some(id) {
                Err(RgaError::Invalid)
            } else {
                insert_spec(r.rga, left, value, id)
            },
            OpView::Delete { target, id } => delete_spec(r.rga, target, id),
        };
        if let Ok(v) = res {
            let lamport = if r.lamport >= op_id(op).lamport {
                r.lamport
            } else {
                op_id(op).lamport
            };
            lemma_record_keeps_log(r, lamport, v, op);
        }
    }
}

/// The values of a sequence of operations.
pub open spec fn ops_view(ops: Seq<Op>) -> Seq<OpView> {
    ops.map_values(|o: Op| o@)
}

/// The id that the replica gives its next local edit.
pub open spec fn fresh_id(r: ReplicaView) -> IdView {
    IdView {
        session_id: r.session_id,
        replica_id: r.replica_id,
        lamport: (r.lamport + 1) as u64,
        seq: (r.seq + 1) as u64,
    }
}

/// The replica after taking an id for a local edit.
pub open spec fn bumped(r: ReplicaView) -> ReplicaView {
    ReplicaView { lamport: (r.lamport + 1) as u64, seq: (r.seq + 1) as u64, ..r }
}

/// The anchor for a local insert at visible position `pos`: `Some(None)` for
/// the head, `Some(Some(id))` after the character at `pos`, `None` when `pos`
/// is past the end.
pub open spec fn insert_anchor(v: RgaView, pos: int) -> Option<Option<IdView>> {
    match node_at(v, pos) {
        Some(i) => Some(Some(v.nodes[i as int].id)),
        None => if pos == 0 {
            Some(None)
        } else {
            None
        },
    }
}

/// The replica after an operation has been applied to its tree.
pub open spec fn recorded(r: ReplicaView, v: RgaView, op: OpView) -> ReplicaView {
    ReplicaView { rga: v, applied: r.applied.push(op_id(op)), log: r.log.push(op), ..r }
}

/// What a local insert of `value` at visible position `pos` does: the new
/// replica and the operation to broadcast, if any.
pub open spec fn local_insert_spec(r: ReplicaView, pos: int, value: char) -> (
    ReplicaView,
    Option<OpView>,
) {
    match insert_anchor(r.rga, pos) {
        None => (r, None),
        Some(left) => {
            let id = fresh_id(r);
            let op = OpView::Insert { left, value, id };
            match insert_spec(r.rga, left, value, id) {
                Ok(v) => (recorded(bumped(r), v, op), Some(op)),
                Err(_) => (bumped(r), None),
            }
        },
    }
}

/// What a local delete of the visible character at position `pos` (counting
/// from 0) does.
pub open spec fn local_delete_spec(r: ReplicaView, pos: int) -> (ReplicaView, Option<OpView>) {
    if pos + 1 > usize::MAX {
        (r, None)
    } else {
        match node_at(r.rga, pos + 1) {
            None => (r, None),
            Some(i) => {
                let target = r.rga.nodes[i as int].id;
                let id = fresh_id(r);
                let op = OpView::Delete { target, id };
                match delete_spec(r.rga, target, id) {
                    Ok(v) => (recorded(bumped(r), v, op), Some(op)),
                    Err(_) => (bumped(r), None),
                }
            },
        }
    }
}

/// What applying a remote operation does: the new replica and the outcome.
pub open spec fn remote_step(r: ReplicaView, op: OpView) -> (ReplicaView, ApplyOutcome) {
    if r.applied.contains(op_id(op)) {
        (r, ApplyOutcome::Duplicate)
    } else {
        let res = match op {
            OpView::Insert { left, value, id } => if left == Some(id) {
                Err(RgaError::Invalid)
            } else {
                insert_spec(r.rga, left, value, id)
            },
            OpView::Delete { target, id } => delete_spec(r.rga, target, id),
        };
        match res {
            Ok(v) => {
                let lamport = if r.lamport >= op_id(op).lamport {
                    r.lamport
                } else {
                    op_id(op).lamport
                };
                (recorded(ReplicaView { lamport, ..r }, v, op), ApplyOutcome::Applied)
            },
            Err(RgaError::MissingDependency) => (r, ApplyOutcome::MissingDependency),
            Err(_) => (r, ApplyOutcome::Invalid),
        }
    }
}

/// What applying remote operations in order does: the new replica and one
/// outcome per operation.
pub open spec fn batch_step(r: ReplicaView, ops: Seq<OpView>) -> (ReplicaView, Seq<ApplyOutcome>)
    decreases ops.len(),
{
    if ops.len() == 0 {
        (r, Seq::empty())
    } else {
        let (r1, outs) = batch_step(r, ops.drop_last());
        let (r2, o) = remote_step(r1, ops.last());
        (r2, outs.push(o))
    }
}

/// A single client's view of a shared document.
#[derive(Debug)]
pub struct Replica {
    rga: Rga,
    applied_ops: Vec<OperationId>,
    op_log: Vec<Op>,
    replica_id: ReplicaId,
    session_id: SessionId,
    lamport: u64,
    seq: u64,
}

impl View for Replica {
    type V = ReplicaView;

    closed spec fn view(&self) -> ReplicaView {
        ReplicaView {
            rga: self.rga@,
            applied: self.applied_ops@.map_values(|i: OperationId| i@),
            log: ops_view(self.op_log@),
            replica_id: self.replica_id@,
            session_id: self.session_id@,
            lamport: self.lamport,
            seq: self.seq,
        }
    }
}

impl Clone for Replica {
    fn clone(&self) -> (res: Self)
        ensures
            res@ == self@,
    {
        proof {
            use_type_invariant(self);
        }
        let rga = self.rga.clone();
        let applied_ops = self.applied_ops.clone();
        let op_log = self.op_log.clone();
        assert(applied_ops@ =~= self.applied_ops@);
        assert(op_log@ =~= self.op_log@);
        Replica {
            rga,
            applied_ops,
            op_log,
            replica_id: self.replica_id.clone(),
            session_id: self.session_id.clone(),
            lamport: self.lamport,
            seq: self.seq,
        }
    }
}

/// Returns `true` if `ids` holds an id equal to `id`.
fn contains_id(ids: &Vec<OperationId>, id: &OperationId) -> (r: bool)
    ensures
        r == ids@.map_values(|i: OperationId| i@).contains(id@),
{
    let ghost s = ids@.map_values(|i: OperationId| i@);
    let mut k: usize = 0;
    while k < ids.len()
        invariant
            k <= ids.len(),
            s == ids@.map_values(|i: OperationId| i@),
            forall|j: int| 0 <= j < k ==> s[j] != id@,
        decreases ids.len() - k,
    {
        if ids[k].same_as(id) {
            assert(s[k as int] == id@);
            return true;
        }
        k = k + 1;
    }
    false
}

/// Records an applied operation: remembers its id and appends it to the log.
fn mark_applied(applied: &mut Vec<OperationId>, log: &mut Vec<Op>, op: Op)
    ensures
        final(applied)@.map_values(|i: OperationId| i@) == old(applied)@.map_values(
            |i: OperationId| i@,
        ).push(op_id(op@)),
        ops_view(final(log)@) == ops_view(old(log)@).push(op@),
{
    applied.push(op.id().clone());
    log.push(op);
    assert(final(applied)@.map_values(|i: OperationId| i@) =~= old(applied)@.map_values(
        |i: OperationId| i@,
    ).push(op_id(op@)));
    assert(ops_view(final(log)@) =~= ops_view(old(log)@).push(op@));
}

impl Replica {
    /// The log replays to the document, and the clock is at least the
    /// timestamp of every node.
    #[verifier::type_invariant]
    pub open spec fn inv(self) -> bool {
        &&& replay(empty_view(), self@.log) == Ok::<RgaView, RgaError>(self@.rga)
        &&& clock_ok(self@)
        &&& log_ok(self@)
    }

    /// The Lamport clock: the highest timestamp this replica has seen or used.
    pub fn lamport(&self) -> (r: u64)
        ensures
            r == self@.lamport,
    {
        self.lamport
    }

    /// The number of operations this replica has issued.
    pub fn seq(&self) -> (r: u64)
        ensures
            r == self@.seq,
    {
        self.seq
    }

    /// Creates an empty replica with the given identity.
    pub fn new(replica_id: ReplicaId, session_id: SessionId) -> (r: Self)
        ensures
            r@ == (ReplicaView {
                rga: empty_view(),
                applied: Seq::empty(),
                log: Seq::empty(),
                replica_id: replica_id@,
                session_id: session_id@,
                lamport: 0,
                seq: 0,
            }),
    {
        let r = Replica {
            rga: Rga::new(),
            applied_ops: Vec::new(),
            op_log: Vec::new(),
            replica_id,
            session_id,
            lamport: 0,
            seq: 0,
        };
        assert(ops_view(r.op_log@) =~= Seq::<OpView>::empty());
        assert(r@.applied =~= Seq::<IdView>::empty());
        r
    }

    /// Takes the next Lamport timestamp and sequence number.
    fn next_id(&mut self) -> (r: OperationId)
        requires
            old(self)@.lamport < u64::MAX,
            old(self)@.seq < u64::MAX,
        ensures
            final(self)@ == bumped(old(self)@),
            r@ == fresh_id(old(self)@),
    {
        proof {
            use_type_invariant(&*self);
        }
        self.lamport = self.lamport + 1;
        self.seq = self.seq + 1;
        OperationId::new(self.session_id.clone(), self.replica_id.clone(), self.lamport, self.seq)
    }

    /// Inserts `value` at visible position `pos` and returns the operation to
    /// broadcast; `None` when `pos` is past the end of the text.
    pub fn local_insert(&mut self, pos: usize, value: char) -> (r: Option<Op>)
        requires
            old(self)@.lamport < u64::MAX,
            old(self)@.seq < u64::MAX,
        ensures
            final(self)@ == local_insert_spec(old(self)@, pos as int, value).0,
            match local_insert_spec(old(self)@, pos as int, value).1 {
                Some(op) => r is Some && r->0@ == op,
                None => r is None,
            },
            pos <= text(old(self)@.rga).len() ==> r is Some && text(final(self)@.rga) == text(
                old(self)@.rga,
            ).insert(pos as int, value),
            pos > text(old(self)@.rga).len() ==> r is None && final(self)@ == old(self)@,
    {
        proof {
            use_type_invariant(&*self);
            use_type_invariant(&self.rga);
            crate::laws::lemma_local_insert_text(self@, pos as int, value);
        }
        let left = self.rga.get_node_id_by_position(pos);
        if pos > 0 && left.is_none() {
            return None;
        }
        let ghost r0 = self@;
        let id = self.next_id();
        let op = Op::Insert { left: left.clone(), value, id: id.clone() };
        let mut tmp = Replica::new(String::new(), String::new());
        std::mem::swap(self, &mut tmp);
        proof {
            use_type_invariant(&tmp);
        }
        let Replica { mut rga, mut applied_ops, mut op_log, replica_id, session_id, lamport, seq } =
            tmp;
        let res = rga.insert(left, value, id);
        let out = match res {
            Ok(()) => {
                proof {
                    lemma_replay_push(empty_view(), ops_view(op_log@), op@);
                }
                mark_applied(&mut applied_ops, &mut op_log, op.clone());
                Some(op)
            },
            Err(_) => None,
        };
        proof {
            lemma_local_insert_keeps(r0, pos as int, value);
        }
        *self = Replica { rga, applied_ops, op_log, replica_id, session_id, lamport, seq };
        out
    }

    /// Deletes the visible character at position `pos` (counting from 0) and
    /// returns the operation to broadcast; `None` when there is no such
    /// character.
    pub fn local_delete(&mut self, pos: usize) -> (r: Option<Op>)
        requires
            old(self)@.lamport < u64::MAX,
            old(self)@.seq < u64::MAX,
        ensures
            final(self)@ == local_delete_spec(old(self)@, pos as int).0,
            match local_delete_spec(old(self)@, pos as int).1 {
                Some(op) => r is Some && r->0@ == op,
                None => r is None,
            },
            pos < text(old(self)@.rga).len() ==> r is Some && text(final(self)@.rga) == text(
                old(self)@.rga,
            ).remove(pos as int),
            pos >= text(old(self)@.rga).len() ==> r is None && final(self)@ == old(self)@,
    {
        proof {
            use_type_invariant(&*self);
            use_type_invariant(&self.rga);
            crate::laws::lemma_local_delete_text(self@, pos as int);
        }
        let ghost r0 = self@;
        let next = match pos.checked_add(1) {
            Some(p) => p,
            None => {
                return None;
            },
        };
        let target = match self.rga.get_node_id_by_position(next) {
            Some(t) => t,
            None => {
                return None;
            },
        };
        let id = self.next_id();
        let op = Op::Delete { target: target.clone(), id: id.clone() };
        let mut tmp = Replica::new(String::new(), String::new());
        std::mem::swap(self, &mut tmp);
        proof {
            use_type_invariant(&tmp);
        }
        let Replica { mut rga, mut applied_ops, mut op_log, replica_id, session_id, lamport, seq } =
            tmp;
        let res = rga.delete(target, id);
        let out = match res {
            Ok(()) => {
                proof {
                    lemma_replay_push(empty_view(), ops_view(op_log@), op@);
                }
                mark_applied(&mut applied_ops, &mut op_log, op.clone());
                Some(op)
            },
            Err(_) => None,
        };
        proof {
            lemma_local_delete_keeps(r0, pos as int);
        }
        *self = Replica { rga, applied_ops, op_log, replica_id, session_id, lamport, seq };
        out
    }

    /// Applies an operation received from another replica.
    ///
    /// Returns [`ApplyOutcome::Duplicate`] for an operation seen before and
    /// [`ApplyOutcome::MissingDependency`] for one that names a node not yet
    /// present; the caller buffers it and retries once the dependency arrives.
    pub fn apply_remote(&mut self, op: Op) -> (r: ApplyOutcome)
        ensures
            (final(self)@, r) == remote_step(old(self)@, op@),
    {
        let ghost r0 = self@;
        proof {
            use_type_invariant(&*self);
        }
        if contains_id(&self.applied_ops, op.id()) {
            return ApplyOutcome::Duplicate;
        }
        let mut tmp = Replica::new(String::new(), String::new());
        std::mem::swap(self, &mut tmp);
        proof {
            use_type_invariant(&tmp);
        }
        let Replica { mut rga, mut applied_ops, mut op_log, replica_id, session_id, mut lamport, seq } =
            tmp;
        let result = match &op {
            Op::Insert { left, value, id } => {
                let self_anchored = match left {
                    Some(l) => l.same_as(id),
                    None => false,
                };
                if self_anchored {
                    Err(RgaError::Invalid)
                } else {
                    rga.insert(left.clone(), *value, id.clone())
                }
            },
            Op::Delete { target, id } => rga.delete(target.clone(), id.clone()),
        };
        let out = match result {
            Ok(()) => {
                let seen = op.id().lamport;
                if lamport < seen {
                    lamport = seen;
                }
                proof {
                    lemma_replay_push(empty_view(), ops_view(op_log@), op@);
                }
                mark_applied(&mut applied_ops, &mut op_log, op);
                ApplyOutcome::Applied
            },
            Err(RgaError::DuplicateNode) => ApplyOutcome::Invalid,
            Err(RgaError::MissingDependency) => ApplyOutcome::MissingDependency,
            Err(RgaError::Invalid) => ApplyOutcome::Invalid,
        };
        proof {
            lemma_remote_step_keeps(r0, op@);
        }
        *self = Replica { rga, applied_ops, op_log, replica_id, session_id, lamport, seq };
        out
    }

    /// Applies remote operations in order and returns one outcome per
    /// operation.
    pub fn apply_remote_batch(&mut self, ops: Vec<Op>) -> (r: Vec<ApplyOutcome>)
        ensures
            (final(self)@, r@) == batch_step(old(self)@, ops_view(ops@)),
    {
        let ghost start = self@;
        let mut outcomes: Vec<ApplyOutcome> = Vec::new();
        let mut k: usize = 0;
        while k < ops.len()
            invariant
                k <= ops.len(),
                (self@, outcomes@) == batch_step(start, ops_view(ops@).take(k as int)),
            decreases ops.len() - k,
        {
            assert(ops_view(ops@).take(k + 1).drop_last() =~= ops_view(ops@).take(k as int));
            let o = self.apply_remote(ops[k].clone());
            outcomes.push(o);
            k = k + 1;
        }
        assert(ops_view(ops@).take(k as int) =~= ops_view(ops@));
        outcomes
    }

    /// The current visible text.
    pub fn text(&self) -> (r: String)
        ensures
            r@ == text(self@.rga),
    {
        self.rga.to_string()
    }

    /// The operations that rebuild the current document: a newly connected
    /// peer that applies them ends up with the same text.
    pub fn hydration_ops(&self) -> (r: Vec<Op>)
        ensures
            ops_view(r@) == self@.log,
            replay(empty_view(), ops_view(r@)) == Ok::<RgaView, RgaError>(self@.rga),
            distinct_ids(ops_view(r@)),
            wf(self@.rga),
    {
        proof {
            use_type_invariant(self);
            use_type_invariant(&self.rga);
        }
        let r = self.op_log.clone();
        assert(ops_view(r@) =~= ops_view(self.op_log@));
        r
    }

    /// The full tree, tombstones included.
    pub fn rga_tree(&self) -> (r: RgaTree)
        ensures
            r.text@ == text(self@.rga),
            r.nodes.len() == self@.rga.nodes.len(),
            forall|i: int| 0 <= i < r.nodes.len() ==> describes(self@.rga, i, #[trigger] r.nodes@[i]),
    {
        self.rga.tree()
    }

    /// Returns `true` if a node with id `id` exists, tombstones included.
    pub fn has_node(&self, id: &NodeId) -> (r: bool)
        ensures
            r == has_id(self@.rga.nodes, id@),
    {
        self.rga.contains_node(id)
    }

    /// Removes tombstoned nodes from the tree, keeping the text, and rewrites
    /// the log as one insert per remaining node. Returns the number of nodes
    /// removed.
    pub fn clear_deleted_nodes(&mut self) -> (r: usize)
        ensures
            r == count_tombstones(old(self)@.rga.nodes),
            text(final(self)@.rga) == text(old(self)@.rga),
            r == 0 ==> final(self)@ == old(self)@,
            r > 0 ==> compacted(old(self)@.rga, final(self)@.rga) && final(self)@ == (ReplicaView {
                rga: final(self)@.rga,
                log: rebuild_log(final(self)@.rga),
                ..old(self)@
            }),
    {
        let mut tmp = Replica::new(String::new(), String::new());
        std::mem::swap(self, &mut tmp);
        proof {
            use_type_invariant(&tmp);
        }
        let Replica { mut rga, applied_ops, mut op_log, replica_id, session_id, lamport, seq } = tmp;
        let ghost v0 = rga@;
        proof {
            use_type_invariant(&rga);
        }
        let removed = rga.clear_tombstones();
        if removed > 0 {
            let tree = rga.tree();
            let ghost w = rga@;
            proof {
                use_type_invariant(&rga);
                crate::model::lemma_order_range(v0);
                crate::model::lemma_visible_sub(v0.nodes, crate::model::order(v0));
                crate::compaction::lemma_compacted_nodes(v0, w);
                assert forall|i: int| 0 <= i < w.nodes.len() implies !(#[trigger] w.nodes[i]).tombstone
                    && w.nodes[i].id.lamport <= lamport by {
                    let u = crate::model::visible_order(v0)[i];
                    assert(crate::model::order(v0).contains(u));
                    assert(v0.nodes[u as int].id.lamport <= lamport);
                }
                let applied_v = applied_ops@.map_values(|i: OperationId| i@);
                assert forall|i: int| 0 <= i < w.nodes.len() implies applied_v.contains(
                    (#[trigger] w.nodes[i]).id,
                ) by {
                    let u = crate::model::visible_order(v0)[i];
                    assert(crate::model::order(v0).contains(u));
                    assert(applied_v.contains(v0.nodes[u as int].id));
                }
                assert forall|a: int, b: int| 0 <= a < b < rebuild_log(w).len() implies op_id(
                    rebuild_log(w)[a],
                ) != op_id(rebuild_log(w)[b]) by {
                    assert(op_id(rebuild_log(w)[a]) == w.nodes[a].id);
                    assert(op_id(rebuild_log(w)[b]) == w.nodes[b].id);
                }
                assert forall|k: int| 0 <= k < rebuild_log(w).len() implies applied_v.contains(
                    op_id(#[trigger] rebuild_log(w)[k]),
                ) by {
                    assert(op_id(rebuild_log(w)[k]) == w.nodes[k].id);
                }
                lemma_replay_rebuild_log(w);
            }
            let mut log: Vec<Op> = Vec::new();
            let mut k: usize = 0;
            while k < tree.nodes.len()
                invariant
                    k <= tree.nodes.len(),
                    tree.nodes.len() == w.nodes.len(),
                    forall|i: int| 0 <= i < tree.nodes.len() ==> describes(w, i, #[trigger] tree.nodes@[i]),
                    ops_view(log@) =~= rebuild_log(w).take(k as int),
                decreases tree.nodes.len() - k,
            {
                let node = &tree.nodes[k];
                assert(describes(w, k as int, tree.nodes@[k as int]));
                let op = Op::Insert { left: node.left.clone(), value: node.value, id: node.id.clone() };
                assert(op@ == rebuild_log(w)[k as int]);
                let ghost prev = ops_view(log@);
                let ghost opv = op@;
                log.push(op);
                assert(ops_view(log@) =~= prev.push(opv));
                assert(rebuild_log(w).take(k + 1) =~= rebuild_log(w).take(k as int).push(rebuild_log(w)[k as int]));
                k = k + 1;
            }
            assert(rebuild_log(w).take(k as int) =~= rebuild_log(w));
            op_log = log;
        }
        *self = Replica { rga, applied_ops, op_log, replica_id, session_id, lamport, seq };
        removed
    }
}

} // verus!
