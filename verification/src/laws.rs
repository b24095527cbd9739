//! Laws of replicas: replaying a hydration log rebuilds the document,
//! concurrent remote operations converge, and a repeated operation changes
//! nothing.
use vstd::prelude::*;
use crate::model::RgaView;
use crate::id::IdView;
use crate::model::wf;
use crate::model::empty_view;
use crate::model::text;
use crate::op::OpView;
use crate::op::ApplyOutcome;
use crate::op::op_id;
use crate::op::apply_op;
use crate::rga::RgaError;
use crate::replay::replay;
use crate::replica::ReplicaView;
use crate::replica::remote_step;
use crate::replica::batch_step;
use crate::replica::local_insert_spec;
use crate::replica::local_delete_spec;
use crate::replica::clock_ok;
use crate::replica::distinct_ids;
use crate::replica::fresh_id;
use crate::model::visible_order;
use crate::editing::lemma_insert_text;
use crate::editing::lemma_delete_text;
use crate::convergence::order_ids;
use crate::convergence::lemma_concurrent_ops_converge;

verus! {


/// An applied remote operation changes the tree exactly as the operation
/// itself does.
pub proof fn lemma_applied_step(r: ReplicaView, op: OpView)
    requires
        remote_step(r, op).1 == ApplyOutcome::Applied,
    ensures
        apply_op(r.rga, op) is Ok,
        remote_step(r, op).0.rga == apply_op(r.rga, op)->Ok_0,
{
}

/// Replaying the first `k` operations of a log with distinct ids into a
/// replica that has applied nothing applies every one of them and gives the
/// tree that the log replays to.
pub proof fn lemma_batch_replays_prefix(fresh: ReplicaView, log: Seq<OpView>, k: int)
    requires
        fresh.rga == empty_view(),
        fresh.applied.len() == 0,
        replay(empty_view(), log) is Ok,
        distinct_ids(log),
        0 <= k <= log.len(),
    ensures
        replay(empty_view(), log.take(k)) is Ok,
        batch_step(fresh, log.take(k)).0.rga == replay(empty_view(), log.take(k))->Ok_0,
        batch_step(fresh, log.take(k)).0.applied == log.take(k).map_values(|o: OpView| op_id(o)),
        batch_step(fresh, log.take(k)).1 == Seq::new(k as nat, |i: int| ApplyOutcome::Applied),
    decreases k,
{
    crate::replay::lemma_replay_prefix(empty_view(), log, k);
    if k == 0 {
        assert(log.take(0) =~= Seq::<OpView>::empty());
        assert(fresh.applied =~= Seq::<crate::id::IdView>::empty());
        assert(log.take(0).map_values(|o: OpView| op_id(o)) =~= Seq::<crate::id::IdView>::empty());
        assert(Seq::new(0, |i: int| ApplyOutcome::Applied) =~= Seq::<ApplyOutcome>::empty());
    } else {
        let j = k - 1;
        lemma_batch_replays_prefix(fresh, log, j);
        let pre = log.take(j);
        let op = log[j];
        assert(log.take(k).drop_last() =~= pre);
        assert(log.take(k).last() == op);
        let (r1, outs) = batch_step(fresh, pre);
        let w = replay(empty_view(), pre)->Ok_0;
        assert(!r1.applied.contains(op_id(op))) by {
            if r1.applied.contains(op_id(op)) {
                let i = choose|i: int| 0 <= i < r1.applied.len() && r1.applied[i] == op_id(op);
                assert(r1.applied[i] == op_id(log[i]));
            }
        }
        match op {
            OpView::Insert { left, value, id } => {
                if left == Some(id) {
                    assert(apply_op(w, op) is Err);
                }
            },
            OpView::Delete { .. } => {},
        }
        assert(r1.applied.push(op_id(op)) =~= log.take(k).map_values(|o: OpView| op_id(o)));
        assert(outs.push(ApplyOutcome::Applied) =~= Seq::new(k as nat, |i: int| ApplyOutcome::Applied));
    }
}

/// A replica that has applied nothing and applies, as one batch, a log with
/// distinct ids that replays to a tree ends with that tree (and so with its
/// text), every operation being applied.
pub proof fn lemma_hydration_replays(fresh: ReplicaView, log: Seq<OpView>, v: RgaView)
    requires
        fresh.rga == empty_view(),
        fresh.applied.len() == 0,
        replay(empty_view(), log) == Ok::<RgaView, RgaError>(v),
        distinct_ids(log),
    ensures
        batch_step(fresh, log).0.rga == v,
        text(batch_step(fresh, log).0.rga) == text(v),
        batch_step(fresh, log).1 == Seq::new(log.len(), |i: int| ApplyOutcome::Applied),
{
    lemma_batch_replays_prefix(fresh, log, log.len() as int);
    assert(log.take(log.len() as int) =~= log);
}

/// Two remote operations that a replica applies in either order leave it with
/// the same text and the same ids in document order.
pub proof fn lemma_remote_ops_converge(r: ReplicaView, x: OpView, y: OpView)
    requires
        wf(r.rga),
        r.rga.nodes.len() + 2 <= usize::MAX,
        remote_step(r, x).1 == ApplyOutcome::Applied,
        remote_step(remote_step(r, x).0, y).1 == ApplyOutcome::Applied,
        remote_step(r, y).1 == ApplyOutcome::Applied,
        remote_step(remote_step(r, y).0, x).1 == ApplyOutcome::Applied,
    ensures
        text(remote_step(remote_step(r, x).0, y).0.rga) == text(
            remote_step(remote_step(r, y).0, x).0.rga,
        ),
        order_ids(remote_step(remote_step(r, x).0, y).0.rga) == order_ids(
            remote_step(remote_step(r, y).0, x).0.rga,
        ),
{
    lemma_applied_step(r, x);
    lemma_applied_step(r, y);
    lemma_applied_step(remote_step(r, x).0, y);
    lemma_applied_step(remote_step(r, y).0, x);
    lemma_concurrent_ops_converge(r.rga, x, y);
}

/// A remote insert that a replica applies puts its character at exactly one
/// position of the text and keeps the old text around it, whatever its id.
pub proof fn lemma_remote_insert_text(r: ReplicaView, left: Option<IdView>, value: char, id: IdView)
    requires
        wf(r.rga),
        r.rga.nodes.len() < usize::MAX,
        remote_step(r, OpView::Insert { left, value, id }).1 == ApplyOutcome::Applied,
    ensures
        exists|p: int|
            0 <= p <= text(r.rga).len() && text(remote_step(r, OpView::Insert { left, value, id }).0.rga)
                == #[trigger] text(r.rga).insert(p, value),
{
    lemma_applied_step(r, OpView::Insert { left, value, id });
    crate::insertion::lemma_insert_text_somewhere(r.rga, left, value, id);
}

/// Applying an operation a second time is reported as a duplicate and changes
/// nothing.
pub proof fn lemma_remote_duplicate_ignored(r: ReplicaView, op: OpView)
    requires
        remote_step(r, op).1 == ApplyOutcome::Applied,
    ensures
        remote_step(remote_step(r, op).0, op) == (remote_step(r, op).0, ApplyOutcome::Duplicate),
{
    let r1 = remote_step(r, op).0;
    assert(r1.applied.last() == op_id(op));
    assert(r1.applied.contains(op_id(op)));
}

/// A local edit's operation, applied by a replica with the same document that
/// has not seen it, is applied there and gives the same document.
pub proof fn lemma_local_edit_replays(
    r: ReplicaView,
    other: ReplicaView,
    pos: int,
    value: char,
    op: OpView,
)
    requires
        other.rga == r.rga,
        !other.applied.contains(op_id(op)),
    ensures
        local_insert_spec(r, pos, value).1 == Some(op) ==> remote_step(other, op).1
            == ApplyOutcome::Applied && remote_step(other, op).0.rga == local_insert_spec(
            r,
            pos,
            value,
        ).0.rga,
        local_delete_spec(r, pos).1 == Some(op) ==> remote_step(other, op).1
            == ApplyOutcome::Applied && remote_step(other, op).0.rga == local_delete_spec(
            r,
            pos,
        ).0.rga,
{
}

/// A local insert at `pos` puts `value` at position `pos` of the text; past
/// the end of the text it does nothing.
pub proof fn lemma_local_insert_text(r: ReplicaView, pos: int, value: char)
    requires
        wf(r.rga),
        clock_ok(r),
        r.lamport < u64::MAX,
        r.seq < u64::MAX,
        0 <= pos,
    ensures
        pos <= text(r.rga).len() ==> local_insert_spec(r, pos, value).1 is Some && text(
            local_insert_spec(r, pos, value).0.rga,
        ) == text(r.rga).insert(pos, value),
        pos > text(r.rga).len() ==> local_insert_spec(r, pos, value).1 is None && local_insert_spec(
            r,
            pos,
            value,
        ).0 == r,
{
    let v = r.rga;
    let id = fresh_id(r);
    assert(text(v).len() == visible_order(v).len());
    assert forall|i: int| 0 <= i < v.nodes.len() implies crate::id::id_lt(
        #[trigger] v.nodes[i].id,
        id,
    ) by {
        assert(v.nodes[i].id.lamport <= r.lamport);
    }
    if pos <= text(v).len() {
        let left = if pos == 0 {
            None
        } else {
            Some(v.nodes[visible_order(v)[pos - 1] as int].id)
        };
        lemma_insert_text(v, pos, left, value, id);
    }
}

/// A local delete at `pos` (counting from 0) removes the character at
/// position `pos` of the text; past the end it does nothing.
pub proof fn lemma_local_delete_text(r: ReplicaView, pos: int)
    requires
        wf(r.rga),
        clock_ok(r),
        r.lamport < u64::MAX,
        r.seq < u64::MAX,
        0 <= pos,
    ensures
        pos < text(r.rga).len() ==> local_delete_spec(r, pos).1 is Some && text(
            local_delete_spec(r, pos).0.rga,
        ) == text(r.rga).remove(pos),
        pos >= text(r.rga).len() ==> local_delete_spec(r, pos).1 is None && local_delete_spec(
            r,
            pos,
        ).0 == r,
{
    let v = r.rga;
    let id = fresh_id(r);
    assert(text(v).len() == visible_order(v).len());
    crate::model::lemma_order_range(v);
    crate::model::lemma_visible_sub(v.nodes, crate::model::order(v));
    crate::compaction::lemma_visible_order_no_dup(v);
    assert forall|k: int| 0 <= k < visible_order(v).len() implies (#[trigger] visible_order(v)[k])
        < v.nodes.len() by {
        assert(crate::model::order(v).contains(visible_order(v)[k]));
    }
    lemma_distinct_bound(visible_order(v), v.nodes.len() as int);
    if pos < text(v).len() {
        let i = visible_order(v)[pos];
        assert(crate::model::order(v).contains(i));
        assert(v.nodes[i as int].id.lamport <= r.lamport);
        lemma_delete_text(v, pos, id);
    }
}

/// A sequence of distinct entries below `m` has at most `m` entries.
pub proof fn lemma_distinct_bound(s: Seq<usize>, m: int)
    requires
        crate::traversal::no_dup(s),
        0 <= m <= usize::MAX,
        forall|k: int| 0 <= k < s.len() ==> (#[trigger] s[k]) < m,
    ensures
        s.len() <= m,
    decreases m,
{
    if m <= 0 {
        if s.len() > 0 {
            assert(s[0] < m);
            assert(false);
        }
        assert(s.len() <= m);
    } else if s.contains((m - 1) as usize) {
        let j = choose|j: int| 0 <= j < s.len() && s[j] == (m - 1) as usize;
        let s2 = s.remove(j);
        assert forall|k: int| 0 <= k < s2.len() implies (#[trigger] s2[k]) < m - 1 by {
            let k0 = if k < j { k } else { k + 1 };
            assert(s2[k] == s[k0]);
            assert(s[k0] != s[j]);
        }
        assert(crate::traversal::no_dup(s2)) by {
            assert forall|a: int, b: int| 0 <= a < s2.len() && 0 <= b < s2.len() && a != b implies s2[a]
                != s2[b] by {
                let a0 = if a < j { a } else { a + 1 };
                let b0 = if b < j { b } else { b + 1 };
                assert(s2[a] == s[a0]);
                assert(s2[b] == s[b0]);
            }
        }
        lemma_distinct_bound(s2, m - 1);
        assert(s2.len() == s.len() - 1);
        assert(s.len() <= m);
    } else {
        assert forall|k: int| 0 <= k < s.len() implies (#[trigger] s[k]) < m - 1 by {
            if s[k] == (m - 1) as usize {
                assert(s.contains((m - 1) as usize));
            }
        }
        lemma_distinct_bound(s, m - 1);
        assert(s.len() <= m);
    }
}

} // verus!
