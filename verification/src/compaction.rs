//! Model of tombstone removal.
//!
//! Removing tombstones keeps the live nodes in document order and the text.
//! Where it keeps the text, each live node keeps its anchor, or is re-anchored
//! to its nearest live ancestor when its anchor is removed, and the child lists
//! are rebuilt from the anchors. That can reorder the text (a live node moved
//! up among the children of an ancestor sorts by id among them); then each
//! live node is instead anchored to the live node just before it in the
//! document, so the tree is a chain whose depth-first traversal meets the live
//! nodes in their old order.
use vstd::prelude::*;
use crate::id::IdView;
use crate::model::NodeView;
use crate::model::RgaView;
use crate::model::wf;
use crate::model::anchor_ok;
use crate::model::order;
use crate::model::visible;
use crate::model::visible_order;
use crate::model::text;
use crate::model::lemma_order_range;
use crate::traversal::no_dup;
use crate::traversal::lemma_order_shape;
use crate::traversal::parent_index;
use crate::traversal::lemma_parent_index_below;

verus! {

/// The number of tombstones in a node sequence.
pub open spec fn count_tombstones(nodes: Seq<NodeView>) -> nat
    decreases nodes.len(),
{
    if nodes.len() == 0 {
        0
    } else {
        count_tombstones(nodes.drop_last()) + if nodes.last().tombstone {
            1nat
        } else {
            0nat
        }
    }
}

/// The anchor that live node `k` (counted in document order) gets when the
/// tombstones are removed: the live node just before it in the document, or
/// the top level for the first live node.
pub open spec fn prev_live_anchor(v: RgaView, k: int) -> Option<IdView> {
    if k <= 0 {
        None
    } else {
        Some(v.nodes[visible_order(v)[k - 1] as int].id)
    }
}

/// The child list of node `k` in a chain of `n` nodes: the next node, if there
/// is one. For `k == -1` it is the root list.
pub open spec fn chain_next(n: int, k: int) -> Seq<usize> {
    if k + 1 < n {
        seq![(k + 1) as usize]
    } else {
        Seq::empty()
    }
}

/// Node `k` of the compacted tree `w` is live node `k` of `v`, anchored to the
/// live node before it, with the node after it as its only child.
pub open spec fn chained_node(v: RgaView, w: RgaView, k: int) -> bool {
    let u = visible_order(v)[k] as int;
    w.nodes[k] == NodeView {
        left: prev_live_anchor(v, k),
        children: chain_next(w.nodes.len() as int, k),
        ..v.nodes[u]
    }
}

/// `w` is the tree `v` with its tombstones removed as a chain: the live nodes
/// of `v` in document order, each anchored to the one before it, so that the
/// depth-first traversal of `w` meets them in the same order.
pub open spec fn chained(v: RgaView, w: RgaView) -> bool {
    &&& w.nodes.len() == visible_order(v).len()
    &&& w.roots == chain_next(w.nodes.len() as int, -1)
    &&& forall|k: int| 0 <= k < w.nodes.len() ==> #[trigger] chained_node(v, w, k)
}

/// The index of the node named by an anchor, or -1 for no anchor.
pub open spec fn anchor_index(nodes: Seq<NodeView>, left: Option<IdView>) -> int {
    match left {
        None => -1,
        Some(l) => crate::model::index_of(nodes, l),
    }
}

/// The nearest live node on the anchor chain starting at node `p` (`p`
/// itself if it is live); `None` when the chain ends at the top level.
pub open spec fn live_anchor_from(nodes: Seq<NodeView>, p: int) -> Option<IdView>
    decreases p + 1,
{
    if p < 0 || p >= nodes.len() {
        None
    } else if !nodes[p].tombstone {
        Some(nodes[p].id)
    } else {
        let q = parent_index(nodes, p);
        if -1 <= q < p {
            live_anchor_from(nodes, q)
        } else {
            None
        }
    }
}

/// Node `k` of `w` is live node `k` of `v`, re-anchored to its nearest live
/// ancestor.
pub open spec fn ancestor_node(v: RgaView, w: RgaView, k: int) -> bool {
    let u = visible_order(v)[k] as int;
    w.nodes[k] == NodeView {
        left: live_anchor_from(v.nodes, parent_index(v.nodes, u)),
        children: w.nodes[k].children,
        ..v.nodes[u]
    }
}

/// `w` is the tree `v` with its tombstones removed by keeping the anchors: the
/// live nodes in document order, each re-anchored to its nearest live
/// ancestor (its own anchor when that is live), with the child lists rebuilt
/// from the anchors.
pub open spec fn ancestor_compacted(v: RgaView, w: RgaView) -> bool {
    &&& wf(w)
    &&& w.nodes.len() == visible_order(v).len()
    &&& forall|k: int| 0 <= k < w.nodes.len() ==> #[trigger] ancestor_node(v, w, k)
}

/// Removing the tombstones of `v` while keeping the anchors keeps its text.
pub open spec fn anchors_keep_text(v: RgaView) -> bool {
    forall|w: RgaView| #[trigger] ancestor_compacted(v, w) ==> text(w) == text(v)
}

/// `w` is the tree `v` with its tombstones removed: the anchors are kept
/// (each live node re-anchored to its nearest live ancestor) when that keeps
/// the text; otherwise the live nodes form a chain in document order.
pub open spec fn compacted(v: RgaView, w: RgaView) -> bool {
    if anchors_keep_text(v) {
        ancestor_compacted(v, w)
    } else {
        chained(v, w)
    }
}

/// A chain: every node but the first is anchored to the node before it, and
/// each child list holds just the next node.
pub open spec fn is_chain(w: RgaView) -> bool {
    let n = w.nodes.len() as int;
    &&& w.roots == chain_next(n, -1)
    &&& forall|k: int| 0 <= k < n ==> (#[trigger] w.nodes[k].children) == chain_next(n, k)
    &&& forall|k: int|
        0 <= k < n ==> (#[trigger] w.nodes[k].left) == (if k == 0 {
            None
        } else {
            Some(w.nodes[k - 1].id)
        })
}

/// A chain with unique ids and consistent deletion flags is well-formed.
pub proof fn lemma_chain_wf(w: RgaView)
    requires
        is_chain(w),
        w.nodes.len() <= usize::MAX,
        crate::model::ids_unique(w.nodes),
        forall|k: int| 0 <= k < w.nodes.len() ==> #[trigger] crate::model::flags_ok(w.nodes[k]),
    ensures
        wf(w),
{
    let n = w.nodes.len() as int;
    let nodes = w.nodes;
    assert forall|k: int| 0 <= k < n implies #[trigger] anchor_ok(nodes, k) by {
        if k > 0 {
            assert(nodes[k].left == Some(nodes[k - 1].id));
            crate::model::lemma_index_of_unique(nodes, k - 1);
        }
    }
    assert forall|j: int| -1 <= j < n implies crate::model::list_ok(
        nodes,
        chain_next(n, j),
        j,
    ) by {
        let cs = chain_next(n, j);
        assert forall|k: int| 0 <= k < cs.len() implies j < #[trigger] cs[k] < nodes.len()
            && crate::model::belongs(nodes, cs[k] as int, j) by {
            assert(cs[k] == j + 1);
            assert(nodes[j + 1].left == if j + 1 == 0 {
                None
            } else {
                Some(nodes[j].id)
            });
        }
        assert forall|i: int| 0 <= i < nodes.len() && #[trigger] crate::model::belongs(
            nodes,
            i,
            j,
        ) implies cs.contains(i as usize) by {
            if j < 0 {
                assert(i == 0);
            } else {
                assert(i > 0);
                assert(nodes[i - 1].id == nodes[j].id);
                assert(i - 1 == j);
            }
            assert(cs[0] == i);
        }
    }
    assert forall|j: int| 0 <= j < n implies #[trigger] crate::model::list_ok(
        nodes,
        nodes[j].children,
        j,
    ) by {
        assert(crate::model::list_ok(nodes, chain_next(n, j), j));
    }
    assert(crate::model::list_ok(nodes, chain_next(n, -1), -1));
}

/// The traversal from node `i` of a chain lists the nodes `i`, `i + 1`, ...
/// to the end.
pub proof fn lemma_chain_dfs(w: RgaView, i: int)
    requires
        is_chain(w),
        w.nodes.len() <= usize::MAX,
        0 <= i <= w.nodes.len(),
    ensures
        crate::model::dfs(w.nodes, i) == Seq::new(
            (w.nodes.len() - i) as nat,
            |j: int| (i + j) as usize,
        ),
    decreases w.nodes.len() - i,
{
    let n = w.nodes.len() as int;
    let target = Seq::new((n - i) as nat, |j: int| (i + j) as usize);
    if i < n {
        let cs = chain_next(n, i);
        assert(w.nodes[i].children == cs);
        assert(crate::model::dfs(w.nodes, i) == seq![i as usize] + crate::model::dfs_list(w.nodes, i, cs));
        if i + 1 < n {
            lemma_chain_dfs(w, i + 1);
            assert(cs.drop_last() =~= Seq::<usize>::empty());
            assert(cs.last() == (i + 1) as usize);
            assert(crate::model::dfs_list(w.nodes, i, cs.drop_last()) == Seq::<usize>::empty());
            assert(crate::model::dfs_list(w.nodes, i, cs) == crate::model::dfs_list(w.nodes, i, cs.drop_last())
                + crate::model::dfs(w.nodes, i + 1));
            assert(crate::model::dfs_list(w.nodes, i, cs) =~= crate::model::dfs(w.nodes, i + 1));
        } else {
            assert(crate::model::dfs_list(w.nodes, i, cs) == Seq::<usize>::empty());
        }
        assert(crate::model::dfs(w.nodes, i) =~= target);
    } else {
        assert(target =~= Seq::<usize>::empty());
    }
}

/// The document order of a chain is the node order.
pub proof fn lemma_chain_order(w: RgaView)
    requires
        is_chain(w),
        w.nodes.len() <= usize::MAX,
    ensures
        order(w) == Seq::new(w.nodes.len(), |j: int| j as usize),
{
    let n = w.nodes.len() as int;
    lemma_chain_dfs(w, 0);
    if n > 0 {
        assert(w.roots.drop_last() =~= Seq::<usize>::empty());
        assert(w.roots.last() == 0usize);
        assert(crate::model::dfs_list(w.nodes, -1, w.roots.drop_last()) == Seq::<usize>::empty());
        assert(order(w) == crate::model::dfs_list(w.nodes, -1, w.roots.drop_last()) + crate::model::dfs(
            w.nodes,
            0,
        ));
        assert(order(w) =~= crate::model::dfs(w.nodes, 0));
        assert(order(w) =~= Seq::new(w.nodes.len(), |j: int| j as usize));
    } else {
        assert(order(w) =~= Seq::new(w.nodes.len(), |j: int| j as usize));
    }
}

/// A sub-order of live nodes is its own visible part.
pub proof fn lemma_visible_all_live(nodes: Seq<NodeView>, ord: Seq<usize>)
    requires
        forall|k: int| 0 <= k < ord.len() ==> !nodes[#[trigger] ord[k] as int].tombstone,
    ensures
        visible(nodes, ord) == ord,
    decreases ord.len(),
{
    if ord.len() > 0 {
        lemma_visible_all_live(nodes, ord.drop_last());
        assert(!nodes[ord[ord.len() - 1] as int].tombstone);
        assert(ord.drop_last().push(ord.last()) =~= ord);
    }
}

/// Removing the tombstones gives a well-formed tree with the same text, whose
/// document order is its node order and whose nodes are all live.
pub proof fn lemma_chained(v: RgaView, w: RgaView)
    requires
        wf(v),
        chained(v, w),
        w.nodes.len() <= usize::MAX,
    ensures
        wf(w),
        order(w) == Seq::new(w.nodes.len(), |j: int| j as usize),
        visible_order(w) == order(w),
        forall|k: int| 0 <= k < w.nodes.len() ==> !(#[trigger] w.nodes[k]).tombstone,
        text(w) == text(v),
{
    let n = w.nodes.len() as int;
    let ord = order(v);
    let vis = visible_order(v);
    lemma_order_range(v);
    crate::model::lemma_visible_sub(v.nodes, ord);
    lemma_visible_order_no_dup(v);
    assert forall|k: int| 0 <= k < n implies 0 <= #[trigger] vis[k] < v.nodes.len()
        && !v.nodes[vis[k] as int].tombstone by {
        assert(ord.contains(vis[k]));
    }
    assert forall|k: int| 0 <= k < n implies (#[trigger] w.nodes[k]).id == v.nodes[vis[k] as int].id
        && w.nodes[k].value == v.nodes[vis[k] as int].value && !w.nodes[k].tombstone
        && crate::model::flags_ok(w.nodes[k]) by {
        assert(chained_node(v, w, k));
        assert(crate::model::flags_ok(v.nodes[vis[k] as int]));
    }
    assert forall|i: int, j: int|
        0 <= i < n && 0 <= j < n && i != j implies w.nodes[i].id != w.nodes[j].id by {
        assert(vis[i] != vis[j]);
    }
    assert forall|k: int| 0 <= k < n implies (#[trigger] w.nodes[k].children) == chain_next(n, k) by {
        assert(chained_node(v, w, k));
    }
    assert forall|k: int| 0 <= k < n implies (#[trigger] w.nodes[k].left) == (if k == 0 {
        None
    } else {
        Some(w.nodes[k - 1].id)
    }) by {
        assert(chained_node(v, w, k));
        if k > 0 {
            assert(w.nodes[k - 1].id == v.nodes[vis[k - 1] as int].id);
        }
    }
    assert(is_chain(w));
    lemma_chain_wf(w);
    lemma_chain_order(w);
    let wo = order(w);
    assert forall|k: int| 0 <= k < wo.len() implies !w.nodes[#[trigger] wo[k] as int].tombstone by {
        assert(wo[k] == k);
    }
    lemma_visible_all_live(w.nodes, wo);
    assert(text(w) =~= text(v));
}


/// The nearest live ancestor of a node listed at a position before `bound` in
/// the document order is itself listed before `bound`.
pub proof fn lemma_live_anchor_in_order(v: RgaView, p: int, ap: int)
    requires
        wf(v),
        p == -1 || (0 <= ap < order(v).len() && order(v)[ap] as int == p),
    ensures
        match live_anchor_from(v.nodes, p) {
            None => true,
            Some(id) => exists|aw: int|
                0 <= aw <= ap && !v.nodes[order(v)[aw] as int].tombstone && v.nodes[order(
                    v,
                )[aw] as int].id == id,
        },
    decreases p + 1,
{
    lemma_order_range(v);
    lemma_order_shape(v);
    if p >= 0 {
        lemma_parent_index_below(v, p);
        if v.nodes[p].tombstone {
            let q = parent_index(v.nodes, p);
            if q >= 0 {
                let ord = order(v);
                assert(parent_index(v.nodes, ord[ap] as int) != -1);
                let aq = choose|j: int|
                    0 <= j < ap && ord[j] as int == parent_index(v.nodes, ord[ap] as int);
                lemma_live_anchor_in_order(v, q, aq);
            }
        }
    }
}

/// The live nodes of `v` in document order, re-anchored to their nearest live
/// ancestors, have unique ids and anchors that name earlier nodes.
pub proof fn lemma_ancestor_base(v: RgaView, base: Seq<NodeView>)
    requires
        wf(v),
        base.len() == visible_order(v).len(),
        forall|k: int|
            0 <= k < base.len() ==> {
                let u = #[trigger] visible_order(v)[k] as int;
                base[k] == NodeView {
                    left: live_anchor_from(v.nodes, parent_index(v.nodes, u)),
                    children: base[k].children,
                    ..v.nodes[u]
                }
            },
    ensures
        crate::model::ids_unique(base),
        forall|k: int| 0 <= k < base.len() ==> #[trigger] anchor_ok(base, k),
{
    let ord = order(v);
    let vis = visible_order(v);
    lemma_order_range(v);
    lemma_order_shape(v);
    lemma_visible_order_no_dup(v);
    lemma_visible_witness(v.nodes, ord);
    crate::model::lemma_visible_sub(v.nodes, ord);
    assert forall|k: int| 0 <= k < vis.len() implies 0 <= #[trigger] vis[k] < v.nodes.len() by {
        assert(ord.contains(vis[k]));
    }
    assert forall|i: int, j: int|
        0 <= i < base.len() && 0 <= j < base.len() && i != j implies base[i].id != base[j].id by {
        assert(vis[i] != vis[j]);
        assert(base[i].id == v.nodes[vis[i] as int].id);
        assert(base[j].id == v.nodes[vis[j] as int].id);
    }
    assert forall|k: int| 0 <= k < base.len() implies #[trigger] anchor_ok(base, k) by {
        let u = vis[k] as int;
        let au = choose|a: int|
            0 <= a < ord.len() && ord[a] == #[trigger] vis[k] && visible(v.nodes, ord.take(a)).len() == k
                && !v.nodes[ord[a] as int].tombstone;
        let p = parent_index(v.nodes, u);
        lemma_parent_index_below(v, u);
        if p >= 0 {
            assert(parent_index(v.nodes, ord[au] as int) != -1);
            let ap = choose|j: int| 0 <= j < au && ord[j] as int == parent_index(v.nodes, ord[au] as int);
            lemma_live_anchor_in_order(v, p, ap);
            match live_anchor_from(v.nodes, p) {
                None => {},
                Some(id) => {
                    let aw = choose|aw: int|
                        0 <= aw <= ap && !v.nodes[ord[aw] as int].tombstone && v.nodes[ord[aw] as int].id
                            == id;
                    let kw = visible(v.nodes, ord.take(aw)).len() as int;
                    crate::model::lemma_visible_at(v.nodes, ord, aw);
                    crate::model::lemma_visible_index_mono(v.nodes, ord, aw, au);
                    assert(base[kw].id == id);
                    crate::model::lemma_index_of_unique(base, kw);
                },
            }
        }
    }
}

/// Two trees that both remove the tombstones of `v` by keeping the anchors
/// have the same text.
pub proof fn lemma_ancestor_text_unique(v: RgaView, w1: RgaView, w2: RgaView)
    requires
        ancestor_compacted(v, w1),
        ancestor_compacted(v, w2),
    ensures
        text(w1) == text(w2),
{
    let f = |i: int| i;
    crate::convergence::lemma_involution_bijection(f, w1.nodes.len() as int);
    assert forall|i: int| 0 <= i < w2.nodes.len() implies crate::convergence::corresponds(
        w1.nodes[f(i)],
        #[trigger] w2.nodes[i],
    ) by {
        assert(ancestor_node(v, w1, i));
        assert(ancestor_node(v, w2, i));
    }
    crate::convergence::lemma_renumbered_same_document(w1, w2, f);
}

/// The nodes of a tree with its tombstones removed are the live nodes of the
/// old tree, in document order, with their characters and ids.
pub proof fn lemma_compacted_nodes(v: RgaView, w: RgaView)
    requires
        wf(v),
        compacted(v, w),
    ensures
        w.nodes.len() == visible_order(v).len(),
        forall|k: int|
            0 <= k < w.nodes.len() ==> 0 <= #[trigger] visible_order(v)[k] < v.nodes.len()
                && order(v).contains(visible_order(v)[k]) && !w.nodes[k].tombstone && w.nodes[k].id
                == v.nodes[visible_order(v)[k] as int].id && w.nodes[k].value
                == v.nodes[visible_order(v)[k] as int].value,
{
    let ord = order(v);
    let vis = visible_order(v);
    lemma_order_range(v);
    crate::model::lemma_visible_sub(v.nodes, ord);
    assert forall|k: int| 0 <= k < w.nodes.len() implies 0 <= #[trigger] vis[k] < v.nodes.len()
        && ord.contains(vis[k]) && !w.nodes[k].tombstone && w.nodes[k].id == v.nodes[vis[k] as int].id
        && w.nodes[k].value == v.nodes[vis[k] as int].value by {
        assert(ord.contains(vis[k]));
        if anchors_keep_text(v) {
            assert(ancestor_node(v, w, k));
        } else {
            assert(chained_node(v, w, k));
        }
    }
}

/// Every visible entry of `ord` comes from a position of `ord` whose visible
/// prefix has exactly that many entries.
pub proof fn lemma_visible_witness(nodes: Seq<NodeView>, ord: Seq<usize>)
    ensures
        forall|k: int|
            0 <= k < visible(nodes, ord).len() ==> exists|a: int|
                0 <= a < ord.len() && ord[a] == #[trigger] visible(nodes, ord)[k] && visible(
                    nodes,
                    ord.take(a),
                ).len() == k && !nodes[ord[a] as int].tombstone,
    decreases ord.len(),
{
    if ord.len() > 0 {
        let front = ord.drop_last();
        lemma_visible_witness(nodes, front);
        let vis = visible(nodes, ord);
        assert forall|k: int| 0 <= k < vis.len() implies exists|a: int|
            0 <= a < ord.len() && ord[a] == #[trigger] vis[k] && visible(nodes, ord.take(a)).len() == k
                && !nodes[ord[a] as int].tombstone by {
            if k < visible(nodes, front).len() {
                let a = choose|a: int|
                    0 <= a < front.len() && front[a] == #[trigger] visible(nodes, front)[k] && visible(
                        nodes,
                        front.take(a),
                    ).len() == k && !nodes[front[a] as int].tombstone;
                assert(front.take(a) =~= ord.take(a));
                assert(ord[a] == front[a]);
            } else {
                let a = ord.len() - 1;
                assert(ord.take(a) =~= front);
            }
        }
    }
}

/// The live nodes of a well-formed tree in document order are distinct.
pub proof fn lemma_visible_order_no_dup(v: RgaView)
    requires
        wf(v),
    ensures
        no_dup(visible_order(v)),
{
    let ord = order(v);
    let vis = visible_order(v);
    lemma_order_shape(v);
    lemma_visible_witness(v.nodes, ord);
    assert forall|k1: int, k2: int|
        0 <= k1 < vis.len() && 0 <= k2 < vis.len() && k1 != k2 implies vis[k1] != vis[k2] by {
        let a1 = choose|a: int|
            0 <= a < ord.len() && ord[a] == #[trigger] vis[k1] && visible(v.nodes, ord.take(a)).len()
                == k1 && !v.nodes[ord[a] as int].tombstone;
        let a2 = choose|a: int|
            0 <= a < ord.len() && ord[a] == #[trigger] vis[k2] && visible(v.nodes, ord.take(a)).len()
                == k2 && !v.nodes[ord[a] as int].tombstone;
        if vis[k1] == vis[k2] {
            assert(a1 == a2);
        }
    }
}

} // verus!
