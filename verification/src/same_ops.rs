//! Replicas that applied the same operations, in whatever order, hold the same
//! document. What a replayed log builds depends only on the set of its
//! operations: every node comes from one insert, with that insert's id, anchor
//! and character, and a node is a tombstone exactly when some delete names it.
//! Matching nodes by id then renumbers one tree into the other.
use vstd::prelude::*;
use crate::id::IdView;
use crate::model::NodeView;
use crate::model::RgaView;
use crate::model::wf;
use crate::model::has_id;
use crate::model::index_of;
use crate::model::text;
use crate::model::empty_view;
use crate::model::lemma_index_of_unique;
use crate::op::OpView;
use crate::op::op_id;
use crate::op::apply_op;
use crate::replay::replay;
use crate::replica::ReplicaView;
use crate::replica::distinct_ids;
use crate::replica::log_ok;
use crate::replica::clock_ok;
use crate::replica::remote_step;
use crate::replica::local_insert_spec;
use crate::replica::insert_anchor;
use crate::replica::fresh_id;
use crate::replica::recorded;
use crate::replica::bumped;
use crate::op::ApplyOutcome;
use crate::model::insert_spec;
use crate::rga::RgaError;
use crate::convergence::order_ids;
use crate::convergence::corresponds;
use crate::convergence::renumbered;
use crate::convergence::reached;
use crate::convergence::lemma_insert_fields;
use crate::convergence::lemma_delete_fields;
use crate::convergence::lemma_apply_wf;
use crate::convergence::lemma_renumbered_same_document;
use crate::laws::lemma_distinct_bound;

verus! {

/// The insert that creates a node like `n`.
pub open spec fn insert_of(n: NodeView) -> OpView {
    OpView::Insert { left: n.left, value: n.value, id: n.id }
}

/// `op` is a delete of the node with id `id`.
pub open spec fn deletes(op: OpView, id: IdView) -> bool {
    match op {
        OpView::Delete { target, .. } => target == id,
        _ => false,
    }
}

/// Some operation of `ops` deletes the node with id `id`.
pub open spec fn deleted_in(ops: Seq<OpView>, id: IdView) -> bool {
    exists|k: int| 0 <= k < ops.len() && #[trigger] deletes(ops[k], id)
}

/// What the tree `w` built by replaying `ops` holds: a node for every insert,
/// made as that insert says, flagged exactly when some delete names it; and
/// every delete names a node.
pub open spec fn built_from(w: RgaView, ops: Seq<OpView>) -> bool {
    &&& wf(w)
    &&& w.nodes.len() <= ops.len()
    &&& forall|i: int| 0 <= i < w.nodes.len() ==> ops.contains(insert_of(#[trigger] w.nodes[i]))
    &&& forall|i: int|
        0 <= i < w.nodes.len() ==> ((#[trigger] w.nodes[i]).tombstone <==> deleted_in(
            ops,
            w.nodes[i].id,
        ))
    &&& forall|k: int|
        0 <= k < ops.len() ==> match #[trigger] ops[k] {
            OpView::Insert { id, .. } => has_id(w.nodes, id),
            OpView::Delete { target, .. } => has_id(w.nodes, target),
        }
}

/// A successful replay of a short enough log builds its tree from the log.
pub proof fn lemma_replay_built_from(ops: Seq<OpView>)
    requires
        replay(empty_view(), ops) is Ok,
        ops.len() < usize::MAX,
    ensures
        built_from(replay(empty_view(), ops)->Ok_0, ops),
    decreases ops.len(),
{
    if ops.len() == 0 {
        let w = empty_view();
        assert(replay(empty_view(), ops) == Ok::<RgaView, RgaError>(w));
        assert(wf(w)) by {
            assert(crate::model::list_ok(w.nodes, w.roots, -1));
        }
    } else {
        let front = ops.drop_last();
        let op = ops.last();
        lemma_replay_built_from(front);
        let w = replay(empty_view(), front)->Ok_0;
        assert(replay(empty_view(), ops) == apply_op(w, op));
        let w2 = apply_op(w, op)->Ok_0;
        lemma_apply_wf(w, op);
        assert forall|k: int| 0 <= k < front.len() implies #[trigger] front[k] == ops[k] by {}
        assert(ops[ops.len() - 1] == op);
        match op {
            OpView::Insert { left, value, id } => {
                lemma_insert_fields(w, left, value, id);
                let n = w.nodes.len() as int;
                assert forall|i: int| 0 <= i < w2.nodes.len() implies ops.contains(
                    insert_of(#[trigger] w2.nodes[i]),
                ) by {
                    if i < n {
                        assert(corresponds(w2.nodes[i], w.nodes[i]));
                        assert(insert_of(w2.nodes[i]) == insert_of(w.nodes[i]));
                        let k = choose|k: int| 0 <= k < front.len() && front[k] == insert_of(w.nodes[i]);
                        assert(ops[k] == front[k]);
                    } else {
                        assert(insert_of(w2.nodes[i]) == op);
                        assert(ops[ops.len() - 1] == op);
                    }
                }
                assert forall|i: int| 0 <= i < w2.nodes.len() implies ((#[trigger] w2.nodes[i]).tombstone
                    <==> deleted_in(ops, w2.nodes[i].id)) by {
                    if i < n {
                        assert(corresponds(w2.nodes[i], w.nodes[i]));
                        if deleted_in(front, w.nodes[i].id) {
                            let k = choose|k: int| 0 <= k < front.len() && #[trigger] deletes(front[k], w.nodes[i].id);
                            assert(deletes(ops[k], w2.nodes[i].id));
                        }
                        if deleted_in(ops, w2.nodes[i].id) {
                            let k = choose|k: int| 0 <= k < ops.len() && #[trigger] deletes(ops[k], w2.nodes[i].id);
                            assert(k < front.len());
                            assert(deletes(front[k], w.nodes[i].id));
                        }
                    } else {
                        assert(!has_id(w.nodes, id));
                        if deleted_in(ops, id) {
                            let k = choose|k: int| 0 <= k < ops.len() && #[trigger] deletes(ops[k], id);
                            assert(k < front.len());
                            assert(front[k] == ops[k]);
                            match front[k] {
                                OpView::Delete { target, .. } => {
                                    assert(has_id(w.nodes, target));
                                },
                                _ => {},
                            }
                        }
                    }
                }
                assert forall|k: int| 0 <= k < ops.len() implies match #[trigger] ops[k] {
                    OpView::Insert { id, .. } => has_id(w2.nodes, id),
                    OpView::Delete { target, .. } => has_id(w2.nodes, target),
                } by {
                    if k < front.len() {
                        assert(front[k] == ops[k]);
                        let t = match ops[k] {
                            OpView::Insert { id, .. } => id,
                            OpView::Delete { target, .. } => target,
                        };
                        let j = choose|j: int| 0 <= j < w.nodes.len() && w.nodes[j].id == t;
                        assert(corresponds(w2.nodes[j], w.nodes[j]));
                        assert(w2.nodes[j].id == t);
                    } else {
                        assert(w2.nodes[n].id == id);
                    }
                }
            },
            OpView::Delete { target, id: by } => {
                lemma_delete_fields(w, target, by);
                let t = index_of(w.nodes, target);
                assert forall|i: int| 0 <= i < w2.nodes.len() implies ops.contains(
                    insert_of(#[trigger] w2.nodes[i]),
                ) by {
                    if i != t {
                        assert(corresponds(w2.nodes[i], w.nodes[i]));
                    }
                    assert(insert_of(w2.nodes[i]) == insert_of(w.nodes[i]));
                    let k = choose|k: int| 0 <= k < front.len() && front[k] == insert_of(w.nodes[i]);
                    assert(ops[k] == front[k]);
                }
                assert forall|i: int| 0 <= i < w2.nodes.len() implies ((#[trigger] w2.nodes[i]).tombstone
                    <==> deleted_in(ops, w2.nodes[i].id)) by {
                    assert(w2.nodes[i].id == w.nodes[i].id) by {
                        if i != t {
                            assert(corresponds(w2.nodes[i], w.nodes[i]));
                        }
                    }
                    if deleted_in(front, w.nodes[i].id) {
                        let k = choose|k: int| 0 <= k < front.len() && #[trigger] deletes(front[k], w.nodes[i].id);
                        assert(deletes(ops[k], w2.nodes[i].id));
                    }
                    if i == t {
                        assert(deletes(ops[ops.len() - 1], w2.nodes[i].id));
                    } else {
                        assert(corresponds(w2.nodes[i], w.nodes[i]));
                        assert(w.nodes[i].id != target) by {
                            lemma_index_of_unique(w.nodes, i);
                        }
                        if deleted_in(ops, w2.nodes[i].id) {
                            let k = choose|k: int| 0 <= k < ops.len() && #[trigger] deletes(ops[k], w2.nodes[i].id);
                            assert(k < front.len());
                            assert(deletes(front[k], w.nodes[i].id));
                        }
                    }
                }
                assert forall|k: int| 0 <= k < ops.len() implies match #[trigger] ops[k] {
                    OpView::Insert { id, .. } => has_id(w2.nodes, id),
                    OpView::Delete { target, .. } => has_id(w2.nodes, target),
                } by {
                    let tk = match ops[k] {
                        OpView::Insert { id, .. } => id,
                        OpView::Delete { target, .. } => target,
                    };
                    if k < front.len() {
                        assert(front[k] == ops[k]);
                    }
                    let j = choose|j: int| 0 <= j < w.nodes.len() && w.nodes[j].id == tk;
                    assert(w2.nodes[j].id == w.nodes[j].id) by {
                        if j != t {
                            assert(corresponds(w2.nodes[j], w.nodes[j]));
                        }
                    }
                }
            },
        }
    }
}

/// In logs with distinct ids that hold the same operations, the insert with a
/// given id is the same.
proof fn lemma_same_insert(s1: Seq<OpView>, s2: Seq<OpView>, o1: OpView, o2: OpView)
    requires
        distinct_ids(s1),
        forall|op: OpView| s1.contains(op) <==> s2.contains(op),
        s1.contains(o1),
        s2.contains(o2),
        op_id(o1) == op_id(o2),
    ensures
        o1 == o2,
{
    assert(s1.contains(o2));
    let k1 = choose|k: int| 0 <= k < s1.len() && s1[k] == o1;
    let k2 = choose|k: int| 0 <= k < s1.len() && s1[k] == o2;
    if k1 < k2 {
        assert(op_id(s1[k1]) != op_id(s1[k2]));
    } else if k2 < k1 {
        assert(op_id(s1[k2]) != op_id(s1[k1]));
    }
}

/// The index of the node of `a` with the id of node `i` of `b` (-1 stays -1).
pub open spec fn match_ids(a: RgaView, b: RgaView) -> spec_fn(int) -> int {
    |i: int|
        if i == -1 {
            -1
        } else {
            index_of(a.nodes, b.nodes[i].id)
        }
}

/// Two trees built from logs that hold the same operations have their nodes
/// matched by id one to one, as a renumbering.
proof fn lemma_match_ids(a: RgaView, b: RgaView, s1: Seq<OpView>, s2: Seq<OpView>)
    requires
        built_from(a, s1),
        built_from(b, s2),
        distinct_ids(s1),
        distinct_ids(s2),
        forall|op: OpView| s1.contains(op) <==> s2.contains(op),
    ensures
        forall|i: int| 0 <= i < b.nodes.len() ==> has_id(a.nodes, (#[trigger] b.nodes[i]).id),
        forall|i: int|
            0 <= i < b.nodes.len() ==> 0 <= #[trigger] match_ids(a, b)(i) < a.nodes.len() && corresponds(
                a.nodes[match_ids(a, b)(i)],
                b.nodes[i],
            ),
{
    let f = match_ids(a, b);
    assert forall|i: int| 0 <= i < b.nodes.len() implies has_id(a.nodes, (#[trigger] b.nodes[i]).id)
        && 0 <= f(i) < a.nodes.len() && corresponds(a.nodes[f(i)], b.nodes[i]) by {
        let o = insert_of(b.nodes[i]);
        assert(s2.contains(o));
        assert(s1.contains(o));
        let k = choose|k: int| 0 <= k < s1.len() && s1[k] == o;
        assert(match s1[k] {
            OpView::Insert { id, .. } => has_id(a.nodes, id),
            OpView::Delete { target, .. } => has_id(a.nodes, target),
        });
        let j = index_of(a.nodes, b.nodes[i].id);
        assert(f(i) == j);
        assert(a.nodes[j].id == b.nodes[i].id);
        lemma_same_insert(s1, s2, insert_of(a.nodes[j]), o);
        assert(a.nodes[j].tombstone <==> deleted_in(s1, a.nodes[j].id));
        assert(b.nodes[i].tombstone <==> deleted_in(s2, b.nodes[i].id));
        let id = b.nodes[i].id;
        if deleted_in(s1, id) {
            let k1 = choose|k1: int| 0 <= k1 < s1.len() && #[trigger] deletes(s1[k1], id);
            assert(s1.contains(s1[k1]));
            assert(s2.contains(s1[k1]));
            let k2 = choose|k2: int| 0 <= k2 < s2.len() && s2[k2] == s1[k1];
            assert(deletes(s2[k2], id));
        }
        if deleted_in(s2, id) {
            let k2 = choose|k2: int| 0 <= k2 < s2.len() && #[trigger] deletes(s2[k2], id);
            assert(s2.contains(s2[k2]));
            assert(s1.contains(s2[k2]));
            let k1 = choose|k1: int| 0 <= k1 < s1.len() && s1[k1] == s2[k2];
            assert(deletes(s1[k1], id));
        }
    }
}

/// A one-to-one matching of `0..m` into `0..l` needs `m <= l`.
proof fn lemma_injection_bound(f: spec_fn(int) -> int, m: int, l: int)
    requires
        0 <= m,
        0 <= l <= usize::MAX,
        forall|x: int| 0 <= x < m ==> 0 <= #[trigger] f(x) < l,
        forall|x: int, y: int| 0 <= x < m && 0 <= y < m && #[trigger] f(x) == #[trigger] f(y) ==> x == y,
    ensures
        m <= l,
{
    let s = Seq::new(m as nat, |x: int| f(x) as usize);
    assert forall|k: int| 0 <= k < s.len() implies (#[trigger] s[k]) < l by {
        assert(0 <= f(k) < l);
    }
    assert(crate::traversal::no_dup(s)) by {
        assert forall|a: int, b: int| 0 <= a < s.len() && 0 <= b < s.len() && a != b implies s[a] != s[b] by {
            assert(0 <= f(a) < l);
            assert(0 <= f(b) < l);
            if s[a] == s[b] {
                assert(f(a) == f(b));
            }
        }
    }
    lemma_distinct_bound(s, l);
}

/// Two trees built by replaying logs with distinct ids that hold the same
/// operations, each in its own order, are renumberings of each other: they
/// have the same text and the same ids in document order.
pub proof fn lemma_same_ops_same_document(s1: Seq<OpView>, s2: Seq<OpView>)
    requires
        replay(empty_view(), s1) is Ok,
        replay(empty_view(), s2) is Ok,
        distinct_ids(s1),
        distinct_ids(s2),
        forall|op: OpView| s1.contains(op) <==> s2.contains(op),
        s1.len() < usize::MAX,
        s2.len() < usize::MAX,
    ensures
        text(replay(empty_view(), s1)->Ok_0) == text(replay(empty_view(), s2)->Ok_0),
        order_ids(replay(empty_view(), s1)->Ok_0) == order_ids(replay(empty_view(), s2)->Ok_0),
{
    let a = replay(empty_view(), s1)->Ok_0;
    let b = replay(empty_view(), s2)->Ok_0;
    lemma_replay_built_from(s1);
    lemma_replay_built_from(s2);
    lemma_match_ids(a, b, s1, s2);
    lemma_match_ids(b, a, s2, s1);
    let f = match_ids(a, b);
    let g = match_ids(b, a);
    assert forall|x: int, y: int|
        0 <= x < b.nodes.len() && 0 <= y < b.nodes.len() && #[trigger] f(x) == #[trigger] f(y) implies x
        == y by {
        assert(a.nodes[f(x)].id == b.nodes[x].id);
        assert(a.nodes[f(y)].id == b.nodes[y].id);
        lemma_index_of_unique(b.nodes, x);
        lemma_index_of_unique(b.nodes, y);
    }
    assert forall|x: int, y: int|
        0 <= x < a.nodes.len() && 0 <= y < a.nodes.len() && #[trigger] g(x) == #[trigger] g(y) implies x
        == y by {
        assert(b.nodes[g(x)].id == a.nodes[x].id);
        assert(b.nodes[g(y)].id == a.nodes[y].id);
        lemma_index_of_unique(a.nodes, x);
        lemma_index_of_unique(a.nodes, y);
    }
    assert forall|x: int| 0 <= x < b.nodes.len() implies 0 <= #[trigger] f(x) < a.nodes.len() by {
        assert(0 <= match_ids(a, b)(x) < a.nodes.len());
    }
    assert forall|x: int| 0 <= x < a.nodes.len() implies 0 <= #[trigger] g(x) < b.nodes.len() by {
        assert(0 <= match_ids(b, a)(x) < b.nodes.len());
    }
    lemma_injection_bound(f, b.nodes.len() as int, a.nodes.len() as int);
    lemma_injection_bound(g, a.nodes.len() as int, b.nodes.len() as int);
    let n = a.nodes.len() as int;
    assert forall|y: int| 0 <= y < n implies #[trigger] reached(f, n, y) by {
        let x = g(y);
        assert(0 <= x < n);
        assert(b.nodes[x].id == a.nodes[y].id);
        lemma_index_of_unique(a.nodes, y);
        assert(f(x) == y);
    }
    assert forall|i: int| 0 <= i < b.nodes.len() implies corresponds(a.nodes[f(i)], #[trigger] b.nodes[i]) by {
        assert(0 <= match_ids(a, b)(i) < a.nodes.len());
    }
    assert(renumbered(a, b, f));
    lemma_renumbered_same_document(a, b, f);
}

/// Two replicas whose logs replay to their trees and hold the same operations
/// with distinct ids, whatever order each applied them in, hold the same text
/// with the same ids in document order. Every replica's log replays to its tree
/// and has distinct ids.
pub proof fn lemma_replicas_converge(r1: ReplicaView, r2: ReplicaView)
    requires
        replay(empty_view(), r1.log) == Ok::<RgaView, RgaError>(r1.rga),
        replay(empty_view(), r2.log) == Ok::<RgaView, RgaError>(r2.rga),
        distinct_ids(r1.log),
        distinct_ids(r2.log),
        forall|op: OpView| r1.log.contains(op) <==> r2.log.contains(op),
        r1.log.len() < usize::MAX,
        r2.log.len() < usize::MAX,
    ensures
        text(r1.rga) == text(r2.rga),
        order_ids(r1.rga) == order_ids(r2.rga),
{
    lemma_same_ops_same_document(r1.log, r2.log);
}


/// A local insert on one replica reaches a replica that has applied the same
/// operations: the first replica logs the insert (and would ignore it as a
/// duplicate), its id is newer than every id it had applied, the second
/// replica applies it, and both then hold the same text with the same ids in
/// document order. The conditions on each replica are those every replica
/// keeps.
pub proof fn lemma_local_insert_reaches(r1: ReplicaView, r2: ReplicaView, pos: int, value: char)
    requires
        replay(empty_view(), r1.log) == Ok::<RgaView, RgaError>(r1.rga),
        replay(empty_view(), r2.log) == Ok::<RgaView, RgaError>(r2.rga),
        log_ok(r1),
        log_ok(r2),
        clock_ok(r1),
        forall|x: IdView| r1.applied.contains(x) <==> r2.applied.contains(x),
        forall|op: OpView| r1.log.contains(op) <==> r2.log.contains(op),
        r1.lamport < u64::MAX,
        r1.seq < u64::MAX,
        r1.log.len() + 1 < usize::MAX,
        r2.log.len() + 1 < usize::MAX,
        local_insert_spec(r1, pos, value).1 is Some,
    ensures
        ({
            let (r1b, o) = local_insert_spec(r1, pos, value);
            let op = o->0;
            let (r2b, out) = remote_step(r2, op);
            &&& r1b.log == r1.log.push(op)
            &&& forall|k: int| 0 <= k < r1.applied.len() ==> (#[trigger] r1.applied[k]).lamport < op_id(op).lamport
            &&& remote_step(r1b, op) == (r1b, ApplyOutcome::Duplicate)
            &&& out == ApplyOutcome::Applied
            &&& r2b.log == r2.log.push(op)
            &&& text(r2b.rga) == text(r1b.rga)
            &&& order_ids(r2b.rga) == order_ids(r1b.rga)
        }),
{
    let (r1b, o) = local_insert_spec(r1, pos, value);
    let op = o->0;
    let left = insert_anchor(r1.rga, pos)->0;
    let id = fresh_id(r1);
    assert(op == OpView::Insert { left, value, id });
    let v1 = insert_spec(r1.rga, left, value, id)->Ok_0;
    assert(r1b == recorded(bumped(r1), v1, op));
    assert(r1b.applied.last() == id);
    assert(r1b.applied.contains(id));
    assert(remote_step(r1b, op) == (r1b, ApplyOutcome::Duplicate));
    lemma_replay_built_from(r1.log);
    lemma_replay_built_from(r2.log);
    // the new id is newer than everything either replica applied
    assert forall|x: IdView| r2.applied.contains(x) implies x.lamport < id.lamport by {
        assert(r1.applied.contains(x));
        let k = choose|k: int| 0 <= k < r1.applied.len() && r1.applied[k] == x;
        assert(r1.applied[k].lamport <= r1.lamport);
    }
    assert(!r2.applied.contains(id));
    assert(left != Some(id)) by {
        if left is Some {
            let i = crate::model::node_at(r1.rga, pos)->0 as int;
            crate::model::lemma_order_range(r1.rga);
            crate::model::lemma_visible_sub(r1.rga.nodes, crate::model::order(r1.rga));
            assert(crate::model::order(r1.rga).contains(i as usize));
            assert(r1.rga.nodes[i].id.lamport <= r1.lamport);
        }
    }
    assert(!has_id(r2.rga.nodes, id)) by {
        if has_id(r2.rga.nodes, id) {
            let j = choose|j: int| 0 <= j < r2.rga.nodes.len() && r2.rga.nodes[j].id == id;
            assert(r2.applied.contains(r2.rga.nodes[j].id));
        }
    }
    match left {
        None => {},
        Some(l) => {
            let j = index_of(r1.rga.nodes, l);
            assert(0 <= j < r1.rga.nodes.len() && r1.rga.nodes[j].id == l);
            let o1 = insert_of(r1.rga.nodes[j]);
            assert(r1.log.contains(o1));
            assert(r2.log.contains(o1));
            let k = choose|k: int| 0 <= k < r2.log.len() && r2.log[k] == o1;
            assert(match r2.log[k] {
                OpView::Insert { id, .. } => has_id(r2.rga.nodes, id),
                OpView::Delete { target, .. } => has_id(r2.rga.nodes, target),
            });
        },
    }
    assert(insert_spec(r2.rga, left, value, id) is Ok);
    let v2 = insert_spec(r2.rga, left, value, id)->Ok_0;
    let r2b = remote_step(r2, op).0;
    assert(remote_step(r2, op).1 == ApplyOutcome::Applied);
    assert(r2b.rga == v2);
    assert(r2b.log == r2.log.push(op));
    // both logs, extended by the insert, replay to the new trees
    crate::replay::lemma_replay_push(empty_view(), r1.log, op);
    crate::replay::lemma_replay_push(empty_view(), r2.log, op);
    let s1 = r1.log.push(op);
    let s2 = r2.log.push(op);
    assert(distinct_ids(s1)) by {
        assert forall|i: int, j: int| 0 <= i < j < s1.len() implies op_id(s1[i]) != op_id(s1[j]) by {
            if j == s1.len() - 1 {
                assert(r1.applied.contains(op_id(r1.log[i])));
                assert(r2.applied.contains(op_id(r1.log[i])));
            } else {
                assert(s1[i] == r1.log[i] && s1[j] == r1.log[j]);
            }
        }
    }
    assert(distinct_ids(s2)) by {
        assert forall|i: int, j: int| 0 <= i < j < s2.len() implies op_id(s2[i]) != op_id(s2[j]) by {
            if j == s2.len() - 1 {
                assert(r2.applied.contains(op_id(r2.log[i])));
            } else {
                assert(s2[i] == r2.log[i] && s2[j] == r2.log[j]);
            }
        }
    }
    assert forall|x: OpView| s1.contains(x) <==> s2.contains(x) by {
        if s1.contains(x) {
            let k = choose|k: int| 0 <= k < s1.len() && s1[k] == x;
            if k < r1.log.len() {
                assert(r1.log.contains(x));
                assert(r2.log.contains(x));
                let k2 = choose|k2: int| 0 <= k2 < r2.log.len() && r2.log[k2] == x;
                assert(s2[k2] == x);
            } else {
                assert(s2[s2.len() - 1] == x);
            }
        }
        if s2.contains(x) {
            let k = choose|k: int| 0 <= k < s2.len() && s2[k] == x;
            if k < r2.log.len() {
                assert(r2.log.contains(x));
                assert(r1.log.contains(x));
                let k1 = choose|k1: int| 0 <= k1 < r1.log.len() && r1.log[k1] == x;
                assert(s1[k1] == x);
            } else {
                assert(s1[s1.len() - 1] == x);
            }
        }
    }
    lemma_same_ops_same_document(s1, s2);
}

} // verus!
