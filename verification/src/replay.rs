//! Replaying operation logs.
//!
//! A replica's log replays, from the empty tree, to the replica's tree. After
//! tombstone removal the log is rewritten as one insert per remaining node,
//! which replays to the compacted tree.
use vstd::prelude::*;
use crate::model::NodeView;
use crate::model::RgaView;
use crate::model::wf;
use crate::model::anchor_ok;
use crate::model::flags_ok;
use crate::model::list_ok;
use crate::model::has_id;
use crate::model::index_of;
use crate::model::empty_view;
use crate::model::insert_spec;
use crate::model::lemma_insert_wf;
use crate::op::OpView;
use crate::op::apply_op;
use crate::rga::RgaError;
use crate::rga::same_but_children;
use crate::convergence::renumbered;
use crate::convergence::corresponds;
use crate::convergence::lemma_renumbered_list;

verus! {

/// The tree obtained by applying `ops` in order to `v`, or the first error.
pub open spec fn replay(v: RgaView, ops: Seq<OpView>) -> Result<RgaView, RgaError>
    decreases ops.len(),
{
    if ops.len() == 0 {
        Ok(v)
    } else {
        match replay(v, ops.drop_last()) {
            Ok(w) => apply_op(w, ops.last()),
            Err(e) => Err(e),
        }
    }
}

/// One insert per node of `w`, in node order, with the node's anchor,
/// character and id.
pub open spec fn rebuild_log(w: RgaView) -> Seq<OpView> {
    w.nodes.map_values(|n: NodeView| OpView::Insert { left: n.left, value: n.value, id: n.id })
}

/// Replaying one more operation extends a successful replay.
pub proof fn lemma_replay_push(v: RgaView, ops: Seq<OpView>, op: OpView)
    ensures
        replay(v, ops.push(op)) == match replay(v, ops) {
            Ok(w) => apply_op(w, op),
            Err(e) => Err(e),
        },
{
    assert(ops.push(op).drop_last() =~= ops);
}

/// Every prefix of a successful replay succeeds.
pub proof fn lemma_replay_prefix(v: RgaView, ops: Seq<OpView>, k: int)
    requires
        0 <= k <= ops.len(),
        replay(v, ops) is Ok,
    ensures
        replay(v, ops.take(k)) is Ok,
    decreases ops.len() - k,
{
    if k < ops.len() {
        assert(ops.take(k + 1).drop_last() =~= ops.take(k));
        lemma_replay_prefix(v, ops, k + 1);
    } else {
        assert(ops.take(k) =~= ops);
    }
}

/// Replaying the first `k` inserts of a well-formed tree whose nodes are all
/// live gives a well-formed tree of its first `k` nodes.
pub proof fn lemma_replay_rebuild_prefix(w: RgaView, k: int)
    requires
        wf(w),
        forall|i: int| 0 <= i < w.nodes.len() ==> !(#[trigger] w.nodes[i]).tombstone,
        0 <= k <= w.nodes.len(),
    ensures
        replay(empty_view(), rebuild_log(w).take(k)) is Ok,
        ({
            let p = replay(empty_view(), rebuild_log(w).take(k))->Ok_0;
            &&& wf(p)
            &&& p.nodes.len() == k
            &&& forall|i: int| 0 <= i < k ==> same_but_children(#[trigger] p.nodes[i], w.nodes[i])
        }),
    decreases k,
{
    let log = rebuild_log(w);
    if k == 0 {
        assert(log.take(0) =~= Seq::<OpView>::empty());
        assert(empty_view().nodes.len() == 0);
    } else {
        let j = k - 1;
        lemma_replay_rebuild_prefix(w, j);
        let p = replay(empty_view(), log.take(j))->Ok_0;
        let node = w.nodes[j];
        assert(log.take(k).drop_last() =~= log.take(j));
        assert(log.take(k).last() == OpView::Insert { left: node.left, value: node.value, id: node.id });
        assert(!has_id(p.nodes, node.id)) by {
            if has_id(p.nodes, node.id) {
                let i = choose|i: int| 0 <= i < p.nodes.len() && p.nodes[i].id == node.id;
                assert(same_but_children(p.nodes[i], w.nodes[i]));
            }
        }
        assert(anchor_ok(w.nodes, j));
        assert(flags_ok(w.nodes[j]));
        match node.left {
            None => {},
            Some(l) => {
                let q = index_of(w.nodes, l);
                assert(same_but_children(p.nodes[q], w.nodes[q]));
                assert(p.nodes[q].id == l);
            },
        }
        lemma_insert_wf(p, node.left, node.value, node.id);
        let p2 = insert_spec(p, node.left, node.value, node.id)->Ok_0;
        assert forall|i: int| 0 <= i < k implies same_but_children(#[trigger] p2.nodes[i], w.nodes[i]) by {
            if i < j {
                assert(same_but_children(p.nodes[i], w.nodes[i]));
                match node.left {
                    None => {},
                    Some(l) => {
                        let q = index_of(p.nodes, l);
                        assert(0 <= q < p.nodes.len());
                    },
                }
            }
        }
    }
}

/// The inserts of a well-formed tree whose nodes are all live replay, from the
/// empty tree, to that tree.
pub proof fn lemma_replay_rebuild_log(w: RgaView)
    requires
        wf(w),
        forall|i: int| 0 <= i < w.nodes.len() ==> !(#[trigger] w.nodes[i]).tombstone,
    ensures
        replay(empty_view(), rebuild_log(w)) == Ok::<RgaView, RgaError>(w),
{
    let log = rebuild_log(w);
    let n = w.nodes.len() as int;
    lemma_replay_rebuild_prefix(w, n);
    assert(log.take(n) =~= log);
    let p = replay(empty_view(), log)->Ok_0;
    // `p` and `w` agree on everything but child lists; well-formedness fixes
    // those.
    let f = |i: int| i;
    crate::convergence::lemma_involution_bijection(f, w.nodes.len() as int);
    assert forall|i: int| 0 <= i < w.nodes.len() implies corresponds(p.nodes[f(i)], #[trigger] w.nodes[i]) by {
        assert(same_but_children(p.nodes[i], w.nodes[i]));
    }
    assert(renumbered(p, w, f));
    assert forall|j: int| 0 <= j < n implies #[trigger] p.nodes[j] == w.nodes[j] by {
        assert(list_ok(p.nodes, p.nodes[j].children, j));
        assert(list_ok(w.nodes, w.nodes[j].children, j));
        lemma_renumbered_list(p, w, f, p.nodes[j].children, w.nodes[j].children, j);
        assert(p.nodes[j].children =~= w.nodes[j].children);
        assert(same_but_children(p.nodes[j], w.nodes[j]));
    }
    assert(list_ok(p.nodes, p.roots, f(-1)));
    assert(list_ok(w.nodes, w.roots, -1));
    lemma_renumbered_list(p, w, f, p.roots, w.roots, -1);
    assert(p.roots =~= w.roots);
    assert(p.nodes =~= w.nodes);
}

} // verus!
