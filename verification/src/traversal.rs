//! Structural facts about the depth-first document order of a well-formed
//! tree: it lists every node exactly once, every anchored node comes after its
//! anchor, and the traversal from a node is one contiguous block of the order.
use vstd::prelude::*;
use crate::model::NodeView;
use crate::model::RgaView;
use crate::model::wf;
use crate::model::list_ok;
use crate::model::belongs;
use crate::model::anchor_ok;
use crate::model::index_of;
use crate::model::sorted_desc;
use crate::model::dfs;
use crate::model::dfs_list;
use crate::model::order;
use crate::model::lemma_dfs_list_range;
use crate::model::lemma_index_of_unique;
use crate::id::lemma_id_lt_irreflexive;
use crate::id::id_lt;
use crate::model::visible;
use crate::model::visible_order;
use crate::model::visible_index_of;
use crate::model::next_of;
use crate::model::position_of;
use crate::model::text;
use crate::model::flags_ok;
use crate::model::lemma_order_range;
use crate::model::lemma_visible_at;
use crate::model::lemma_visible_index_mono;
use crate::compaction::lemma_visible_witness;

verus! {

/// The index of the anchor of node `y`, or -1 for a top-level node.
pub open spec fn parent_index(nodes: Seq<NodeView>, y: int) -> int {
    match nodes[y].left {
        None => -1,
        Some(l) => index_of(nodes, l),
    }
}

/// Node `y` is `x` or lies below `x` (following anchors from `y` reaches `x`).
pub open spec fn in_subtree(nodes: Seq<NodeView>, x: int, y: int) -> bool
    decreases y - x,
{
    if y == x {
        true
    } else if y < x {
        false
    } else {
        let p = parent_index(nodes, y);
        if x <= p < y {
            in_subtree(nodes, x, p)
        } else {
            false
        }
    }
}

/// A sequence without repeated entries.
pub open spec fn no_dup(s: Seq<usize>) -> bool {
    forall|a: int, b: int| 0 <= a < s.len() && 0 <= b < s.len() && a != b ==> s[a] != s[b]
}

/// Every entry either hangs below `parent` or has its anchor at an earlier
/// position.
pub open spec fn anchors_before(nodes: Seq<NodeView>, s: Seq<usize>, parent: int) -> bool {
    forall|k: int|
        0 <= k < s.len() ==> parent_index(nodes, #[trigger] s[k] as int) == parent || exists|j: int|
            0 <= j < k && s[j] as int == parent_index(nodes, s[k] as int)
}

/// The entries of `cs` are distinct nodes hanging below `parent`.
pub open spec fn child_list(nodes: Seq<NodeView>, cs: Seq<usize>, parent: int) -> bool {
    &&& sorted_desc(nodes, cs)
    &&& forall|k: int|
        0 <= k < cs.len() ==> parent < #[trigger] cs[k] < nodes.len() && belongs(
            nodes,
            cs[k] as int,
            parent,
        )
}

/// In a well-formed tree, the anchor index of a node hanging below `parent` is
/// `parent`.
pub proof fn lemma_parent_index(v: RgaView, y: int, parent: int)
    requires
        wf(v),
        0 <= y < v.nodes.len(),
        -1 <= parent < v.nodes.len(),
        belongs(v.nodes, y, parent),
    ensures
        parent_index(v.nodes, y) == parent,
{
    if parent >= 0 {
        lemma_index_of_unique(v.nodes, parent);
    }
}

/// In a well-formed tree, the anchor of every node is an earlier node.
pub proof fn lemma_parent_index_below(v: RgaView, y: int)
    requires
        wf(v),
        0 <= y < v.nodes.len(),
    ensures
        -1 <= parent_index(v.nodes, y) < y,
        parent_index(v.nodes, y) >= 0 ==> v.nodes[y].left == Some(
            v.nodes[parent_index(v.nodes, y)].id,
        ),
        parent_index(v.nodes, y) < 0 ==> v.nodes[y].left is None,
{
    assert(anchor_ok(v.nodes, y));
}

/// Subtree membership is transitive.
pub proof fn lemma_in_subtree_transitive(nodes: Seq<NodeView>, x: int, c: int, y: int)
    requires
        in_subtree(nodes, x, c),
        in_subtree(nodes, c, y),
    ensures
        in_subtree(nodes, x, y),
    decreases y - c,
{
    if y != c {
        let p = parent_index(nodes, y);
        lemma_in_subtree_transitive(nodes, x, c, p);
        lemma_in_subtree_above(nodes, x, c);
    }
}

/// A node in the subtree of `x` is not below `x`.
pub proof fn lemma_in_subtree_above(nodes: Seq<NodeView>, x: int, y: int)
    requires
        in_subtree(nodes, x, y),
    ensures
        x <= y,
{
}

/// Two subtrees that share a node are nested.
pub proof fn lemma_in_subtree_chain(nodes: Seq<NodeView>, a: int, b: int, y: int)
    requires
        in_subtree(nodes, a, y),
        in_subtree(nodes, b, y),
    ensures
        in_subtree(nodes, a, b) || in_subtree(nodes, b, a),
    decreases y - a + y - b,
{
    if y != a && y != b {
        let p = parent_index(nodes, y);
        lemma_in_subtree_chain(nodes, a, b, p);
    }
}

/// Two different siblings do not lie in each other's subtree.
pub proof fn lemma_siblings_disjoint(v: RgaView, c: int, d: int, parent: int)
    requires
        wf(v),
        -1 <= parent < c < v.nodes.len(),
        -1 <= parent < d < v.nodes.len(),
        c != d,
        belongs(v.nodes, c, parent),
        belongs(v.nodes, d, parent),
    ensures
        !in_subtree(v.nodes, c, d),
{
    lemma_parent_index(v, d, parent);
}

/// Facts about the traversal from node `x`: it starts with `x`, lies in the
/// subtree of `x`, has no repeated entry, and lists every entry after its
/// anchor.
pub proof fn lemma_dfs_shape(v: RgaView, x: int)
    requires
        wf(v),
        0 <= x < v.nodes.len(),
    ensures
        dfs(v.nodes, x).len() > 0,
        dfs(v.nodes, x)[0] == x,
        forall|k: int|
            0 <= k < dfs(v.nodes, x).len() ==> in_subtree(v.nodes, x, #[trigger] dfs(v.nodes, x)[k] as int),
        no_dup(dfs(v.nodes, x)),
        anchors_before(v.nodes, dfs(v.nodes, x).drop_first(), x),
        forall|k: int|
            0 < k < dfs(v.nodes, x).len() ==> exists|j: int|
                0 <= j < k && dfs(v.nodes, x)[j] as int == parent_index(
                    v.nodes,
                    #[trigger] dfs(v.nodes, x)[k] as int,
                ),
    decreases v.nodes.len() - x, 1int, 0int,
{
    let nodes = v.nodes;
    let cs = nodes[x].children;
    assert(list_ok(nodes, cs, x));
    lemma_dfs_list_shape(v, x, cs);
    lemma_dfs_list_range(nodes, x, cs);
    let l = dfs_list(nodes, x, cs);
    let d = dfs(nodes, x);
    assert(d == seq![x as usize] + l);
    assert(d.drop_first() =~= l);
    assert forall|k: int| 0 <= k < d.len() implies in_subtree(nodes, x, #[trigger] d[k] as int) by {
        if k > 0 {
            assert(d[k] == l[k - 1]);
            let y = l[k - 1] as int;
            let i = choose|i: int| 0 <= i < cs.len() && in_subtree(nodes, cs[i] as int, y);
            let c = cs[i] as int;
            assert(x < cs[i] < nodes.len() && belongs(nodes, cs[i] as int, x));
            lemma_parent_index(v, c, x);
            assert(in_subtree(nodes, x, x));
            assert(in_subtree(nodes, x, c));
            lemma_in_subtree_transitive(nodes, x, c, y);
        }
    }
    assert forall|a: int, b: int| 0 <= a < d.len() && 0 <= b < d.len() && a != b implies d[a]
        != d[b] by {
        if a > 0 && b > 0 {
            assert(d[a] == l[a - 1]);
            assert(d[b] == l[b - 1]);
        } else if a == 0 {
            assert(d[b] == l[b - 1]);
        } else {
            assert(d[a] == l[a - 1]);
        }
    }
    assert forall|k: int| 0 < k < d.len() implies exists|j: int|
        0 <= j < k && d[j] as int == parent_index(nodes, #[trigger] d[k] as int) by {
        assert(d[k] == l[k - 1]);
        if parent_index(nodes, l[k - 1] as int) == x {
            assert(d[0] as int == parent_index(nodes, d[k] as int));
        } else {
            let j = choose|j: int| 0 <= j < k - 1 && (#[trigger] l[j]) as int == parent_index(nodes, l[k - 1] as int);
            assert(d[j + 1] == l[j]);
        }
    }
}

/// Facts about the traversals of a list of siblings below `parent`: every
/// entry lies in the subtree of one listed sibling, no entry is repeated, and
/// every entry hangs below `parent` or comes after its anchor.
pub proof fn lemma_dfs_list_shape(v: RgaView, parent: int, cs: Seq<usize>)
    requires
        wf(v),
        -1 <= parent < v.nodes.len(),
        child_list(v.nodes, cs, parent),
    ensures
        forall|k: int|
            0 <= k < dfs_list(v.nodes, parent, cs).len() ==> exists|i: int|
                0 <= i < cs.len() && in_subtree(
                    v.nodes,
                    cs[i] as int,
                    #[trigger] dfs_list(v.nodes, parent, cs)[k] as int,
                ),
        no_dup(dfs_list(v.nodes, parent, cs)),
        anchors_before(v.nodes, dfs_list(v.nodes, parent, cs), parent),
    decreases v.nodes.len() - parent, 0int, cs.len(),
{
    let nodes = v.nodes;
    if cs.len() > 0 {
        let front = cs.drop_last();
        let c = cs.last() as int;
        assert(child_list(nodes, front, parent)) by {
            assert forall|a: int, b: int| 0 <= a < b < front.len() implies crate::id::id_lt(
                #[trigger] nodes[front[b] as int].id,
                #[trigger] nodes[front[a] as int].id,
            ) by {
                assert(front[a] == cs[a] && front[b] == cs[b]);
            }
            assert forall|k: int| 0 <= k < front.len() implies parent < #[trigger] front[k]
                < nodes.len() && belongs(nodes, front[k] as int, parent) by {
                assert(front[k] == cs[k]);
            }
        }
        lemma_dfs_list_shape(v, parent, front);
        let rest = dfs_list(nodes, parent, front);
        assert(parent < c < nodes.len());
        assert(belongs(nodes, c, parent));
        lemma_dfs_shape(v, c);
        lemma_parent_index(v, c, parent);
        let e = dfs(nodes, c);
        let d = dfs_list(nodes, parent, cs);
        assert(d == rest + e);
        // membership
        assert forall|k: int| 0 <= k < d.len() implies exists|i: int|
            0 <= i < cs.len() && in_subtree(nodes, cs[i] as int, #[trigger] d[k] as int) by {
            if k < rest.len() {
                assert(d[k] == rest[k]);
                let i = choose|i: int| 0 <= i < front.len() && in_subtree(nodes, front[i] as int, rest[k] as int);
                assert(cs[i] == front[i]);
            } else {
                assert(d[k] == e[k - rest.len()]);
                assert(cs[cs.len() - 1] as int == c);
            }
        }
        // no repeats
        assert forall|a: int, b: int| 0 <= a < d.len() && 0 <= b < d.len() && a != b implies d[a]
            != d[b] by {
            if a < rest.len() && b < rest.len() {
                assert(d[a] == rest[a] && d[b] == rest[b]);
            } else if a >= rest.len() && b >= rest.len() {
                assert(d[a] == e[a - rest.len()] && d[b] == e[b - rest.len()]);
            } else {
                let (ra, eb) = if a < rest.len() {
                    (a, b - rest.len())
                } else {
                    (b, a - rest.len())
                };
                assert(d[ra] == rest[ra]);
                assert(d[eb + rest.len()] == e[eb]);
                if rest[ra] == e[eb] {
                    let y = e[eb] as int;
                    let i = choose|i: int| 0 <= i < front.len() && in_subtree(nodes, front[i] as int, rest[ra] as int);
                    let c2 = front[i] as int;
                    assert(c2 == cs[i]);
                    assert(c2 != c) by {
                        if c2 == c {
                            assert(crate::id::id_lt(nodes[cs[cs.len() - 1] as int].id, nodes[cs[i] as int].id));
                            lemma_id_lt_irreflexive(nodes[c].id);
                        }
                    }
                    lemma_in_subtree_chain(nodes, c, c2, y);
                    lemma_siblings_disjoint(v, c, c2, parent);
                    lemma_siblings_disjoint(v, c2, c, parent);
                }
            }
        }
        // anchors before
        assert forall|k: int| 0 <= k < d.len() implies parent_index(nodes, #[trigger] d[k] as int)
            == parent || exists|j: int| 0 <= j < k && d[j] as int == parent_index(nodes, d[k] as int) by {
            if k < rest.len() {
                assert(d[k] == rest[k]);
                if parent_index(nodes, rest[k] as int) != parent {
                    let j = choose|j: int| 0 <= j < k && (#[trigger] rest[j]) as int == parent_index(nodes, rest[k] as int);
                    assert(d[j] == rest[j]);
                }
            } else {
                let k2 = k - rest.len();
                assert(d[k] == e[k2]);
                if k2 > 0 {
                    let j = choose|j: int| 0 <= j < k2 && (#[trigger] e[j]) as int == parent_index(nodes, e[k2] as int);
                    assert(d[j + rest.len()] == e[j]);
                }
            }
        }
    }
}

/// The document order of a well-formed tree lists no node twice, and every
/// anchored node comes after its anchor.
pub proof fn lemma_order_shape(v: RgaView)
    requires
        wf(v),
    ensures
        no_dup(order(v)),
        forall|k: int|
            0 <= k < order(v).len() ==> parent_index(v.nodes, #[trigger] order(v)[k] as int) == -1
                || exists|j: int|
                0 <= j < k && order(v)[j] as int == parent_index(v.nodes, order(v)[k] as int),
{
    assert(list_ok(v.nodes, v.roots, -1));
    lemma_dfs_list_shape(v, -1, v.roots);
}


/// `d` occurs in `s` as one contiguous block starting at position `a`.
pub open spec fn block_at(s: Seq<usize>, a: int, d: Seq<usize>) -> bool {
    &&& 0 <= a
    &&& a + d.len() <= s.len()
    &&& forall|k: int| 0 <= k < d.len() ==> s[a + k] == #[trigger] d[k]
}

/// The traversal from each listed sibling is a block of the traversals of the
/// list; the first sibling's block comes first.
pub proof fn lemma_dfs_list_block(nodes: Seq<NodeView>, parent: int, cs: Seq<usize>, j: int)
    requires
        forall|k: int| 0 <= k < cs.len() ==> parent < #[trigger] cs[k] < nodes.len(),
        0 <= j < cs.len(),
    ensures
        exists|a: int| block_at(dfs_list(nodes, parent, cs), a, dfs(nodes, cs[j] as int)),
        j == 0 ==> block_at(dfs_list(nodes, parent, cs), 0, dfs(nodes, cs[0] as int)),
    decreases cs.len(),
{
    let front = cs.drop_last();
    let last = cs.last() as int;
    assert(parent < cs[cs.len() - 1] < nodes.len());
    let l = dfs_list(nodes, parent, cs);
    let r = dfs_list(nodes, parent, front);
    assert(l == r + dfs(nodes, last));
    if j == cs.len() - 1 {
        if j == 0 {
            assert(front.len() == 0);
            assert(r == Seq::<usize>::empty());
        }
        assert(block_at(l, r.len() as int, dfs(nodes, last)));
    } else {
        assert forall|k: int| 0 <= k < front.len() implies parent < #[trigger] front[k] < nodes.len() by {
            assert(front[k] == cs[k]);
        }
        lemma_dfs_list_block(nodes, parent, front, j);
        assert(front[j] == cs[j]);
        let a = choose|a: int| block_at(r, a, dfs(nodes, front[j] as int));
        assert(block_at(l, a, dfs(nodes, cs[j] as int)));
        if j == 0 {
            assert(block_at(l, 0, dfs(nodes, cs[0] as int)));
        }
    }
}

/// In a well-formed tree, the traversal from every node is a block of the
/// document order.
pub proof fn lemma_dfs_in_order(v: RgaView, i: int)
    requires
        wf(v),
        0 <= i < v.nodes.len(),
    ensures
        exists|a: int| block_at(order(v), a, dfs(v.nodes, i)),
    decreases i,
{
    let nodes = v.nodes;
    lemma_parent_index_below(v, i);
    let p = parent_index(nodes, i);
    if p < 0 {
        assert(list_ok(nodes, v.roots, -1));
        assert(belongs(nodes, i, -1));
        assert(v.roots.contains(i as usize));
        let j = choose|j: int| 0 <= j < v.roots.len() && v.roots[j] == i as usize;
        lemma_dfs_list_block(nodes, -1, v.roots, j);
        let a = choose|a: int| #[trigger] block_at(dfs_list(nodes, -1, v.roots), a, dfs(nodes, v.roots[j] as int));
        assert(block_at(order(v), a, dfs(nodes, i)));
    } else {
        lemma_dfs_in_order(v, p);
        let ap = choose|a: int| block_at(order(v), a, dfs(nodes, p));
        let cs = nodes[p].children;
        assert(list_ok(nodes, cs, p));
        assert(belongs(nodes, i, p));
        assert(cs.contains(i as usize));
        let j = choose|j: int| 0 <= j < cs.len() && cs[j] == i as usize;
        lemma_dfs_list_block(nodes, p, cs, j);
        let l = dfs_list(nodes, p, cs);
        let b = choose|b: int| block_at(l, b, dfs(nodes, cs[j] as int));
        let dp = dfs(nodes, p);
        assert(dp == seq![p as usize] + l);
        let di = dfs(nodes, i);
        assert forall|k: int| 0 <= k < di.len() implies order(v)[ap + 1 + b + k] == #[trigger] di[k] by {
            assert(l[b + k] == di[k]);
            assert(dp[1 + b + k] == l[b + k]);
            assert(order(v)[ap + (1 + b + k)] == dp[1 + b + k]);
        }
        assert(block_at(order(v), ap + 1 + b, di));
    }
}

/// In a sequence without repeats, the position of the entry at `a` is `a`.
pub proof fn lemma_position_of(s: Seq<usize>, a: int)
    requires
        no_dup(s),
        0 <= a < s.len(),
    ensures
        s.contains(s[a]),
        position_of(s, s[a] as int) == a,
{
    assert(s.contains(s[a]));
    let k = position_of(s, s[a] as int);
    assert(0 <= k < s.len() && s[k] as int == s[a] as int);
}

/// The document order of a well-formed tree lists no node twice.
pub proof fn lemma_order_no_dup(v: RgaView)
    requires
        wf(v),
    ensures
        no_dup(order(v)),
{
    lemma_order_shape(v);
}

/// Every node of a well-formed tree is listed in the document order, at its
/// position.
pub proof fn lemma_node_in_order(v: RgaView, i: int)
    requires
        wf(v),
        0 <= i < v.nodes.len(),
    ensures
        order(v).contains(i as usize),
        0 <= position_of(order(v), i) < order(v).len(),
        order(v)[position_of(order(v), i)] == i as usize,
{
    let ord = order(v);
    lemma_order_shape(v);
    lemma_dfs_in_order(v, i);
    let a = choose|a: int| block_at(ord, a, dfs(v.nodes, i));
    lemma_dfs_shape(v, i);
    assert(ord[a + 0] == dfs(v.nodes, i)[0]);
    lemma_position_of(ord, a);
}

/// The document order of a well-formed tree lists every node exactly once.
pub proof fn lemma_order_permutation(v: RgaView)
    requires
        wf(v),
    ensures
        order(v).len() == v.nodes.len(),
        no_dup(order(v)),
        forall|k: int| 0 <= k < order(v).len() ==> 0 <= #[trigger] order(v)[k] < v.nodes.len(),
        forall|i: usize| i < v.nodes.len() ==> #[trigger] order(v).contains(i),
{
    let nodes = v.nodes;
    let n = nodes.len() as int;
    let ord = order(v);
    lemma_order_range(v);
    lemma_order_shape(v);
    assert forall|i: usize| i < n implies #[trigger] ord.contains(i) by {
        lemma_node_in_order(v, i as int);
    }
    let s = ord.map_values(|x: usize| x as int);
    assert(s.no_duplicates());
    assert(s.to_set() =~= vstd::set_lib::set_int_range(0, n)) by {
        assert forall|x: int| s.to_set().contains(x) implies 0 <= x < n by {
            let k = choose|k: int| 0 <= k < s.len() && s[k] == x;
            assert(0 <= ord[k] < n);
        }
        assert forall|x: int| 0 <= x < n implies s.to_set().contains(x) by {
            lemma_node_in_order(v, x);
            let k = position_of(ord, x);
            assert(s[k] == ord[k] as int);
            assert(s.contains(x));
        }
    }
    s.unique_seq_to_set();
    vstd::set_lib::lemma_int_range(0, n);
}

/// Following `next` walks the document order: each node names the next one,
/// the last names none, and no node names the first.
#[verifier::rlimit(40)]
pub proof fn lemma_next_laws(v: RgaView)
    requires
        wf(v),
    ensures
        forall|k: int|
            0 <= k < order(v).len() - 1 ==> next_of(v, #[trigger] order(v)[k] as int) == Some(
                v.nodes[order(v)[k + 1] as int].id,
            ),
        v.nodes.len() > 0 ==> next_of(v, order(v)[v.nodes.len() - 1] as int) is None,
        forall|i: int|
            0 <= i < v.nodes.len() ==> ((#[trigger] next_of(v, i)) is None <==> i == order(v)[v.nodes.len()
                - 1] as int),
        v.nodes.len() > 0 ==> forall|i: int|
            0 <= i < v.nodes.len() ==> #[trigger] next_of(v, i) != Some(v.nodes[order(v)[0] as int].id),
{
    let nodes = v.nodes;
    let n = nodes.len() as int;
    let ord = order(v);
    assert(order(v).len() == v.nodes.len()) by {
        lemma_order_permutation(v);
    }
    lemma_order_no_dup(v);
    lemma_order_range(v);
    assert forall|k: int| 0 <= k < ord.len() - 1 implies next_of(v, #[trigger] ord[k] as int) == Some(
        nodes[ord[k + 1] as int].id,
    ) by {
        lemma_position_of(ord, k);
    }
    if n > 0 {
        lemma_position_of(ord, n - 1);
        assert forall|i: int| 0 <= i < n implies #[trigger] next_of(v, i) != Some(nodes[ord[0] as int].id) by {
            lemma_node_in_order(v, i);
            let k = position_of(ord, i);
            if k + 1 < n {
                assert(ord[k + 1] != ord[0]);
                lemma_index_of_unique(nodes, ord[k + 1] as int);
                lemma_index_of_unique(nodes, ord[0] as int);
            }
        }
    }
    assert forall|i: int| 0 <= i < n implies ((#[trigger] next_of(v, i)) is None <==> i == ord[n - 1] as int) by {
        lemma_node_in_order(v, i);
        let k = position_of(ord, i);
        lemma_position_of(ord, k);
    }
}

/// Position `x` of the text is the visible index of some node.
pub open spec fn position_taken(v: RgaView, x: int) -> bool {
    exists|i: int| 0 <= i < v.nodes.len() && #[trigger] visible_index_of(v, i) == Some(x)
}

/// Every position of the text is the visible index of some node.
pub proof fn lemma_visible_index_onto(v: RgaView, x: int)
    requires
        wf(v),
        0 <= x < text(v).len(),
    ensures
        position_taken(v, x),
{
    let nodes = v.nodes;
    let ord = order(v);
    let vis = visible_order(v);
    lemma_order_no_dup(v);
    lemma_order_range(v);
    lemma_visible_witness(nodes, ord);
    assert(vis.len() == text(v).len());
    let a = choose|a: int|
        0 <= a < ord.len() && ord[a] == #[trigger] vis[x] && visible(nodes, ord.take(a)).len() == x
            && !nodes[ord[a] as int].tombstone;
    lemma_position_of(ord, a);
    let i = ord[a] as int;
    assert(0 <= i < nodes.len());
    assert(visible_index_of(v, i) == Some(x));
}

/// Along the document order, the live nodes have increasing visible indices.
pub proof fn lemma_visible_index_increasing(v: RgaView)
    requires
        wf(v),
    ensures
        forall|a: int, b: int|
            0 <= a < b < order(v).len() && !v.nodes[#[trigger] order(v)[a] as int].tombstone
                && !v.nodes[#[trigger] order(v)[b] as int].tombstone ==> visible_index_of(
                v,
                order(v)[a] as int,
            )->0 < visible_index_of(v, order(v)[b] as int)->0,
{
    let nodes = v.nodes;
    let ord = order(v);
    lemma_order_no_dup(v);
    lemma_order_range(v);
    assert forall|a: int, b: int|
        0 <= a < b < ord.len() && !nodes[#[trigger] ord[a] as int].tombstone
            && !nodes[#[trigger] ord[b] as int].tombstone implies visible_index_of(
        v,
        ord[a] as int,
    )->0 < visible_index_of(v, ord[b] as int)->0 by {
        lemma_position_of(ord, a);
        lemma_position_of(ord, b);
        lemma_visible_index_mono(nodes, ord, a, b);
    }
}

/// A node has no visible index exactly when it is a tombstone, which is
/// exactly when it records a deleting operation.
pub proof fn lemma_visible_index_none(v: RgaView)
    requires
        wf(v),
    ensures
        forall|i: int|
            0 <= i < v.nodes.len() ==> ((#[trigger] visible_index_of(v, i)) is None
                <==> v.nodes[i].tombstone),
        forall|i: int|
            0 <= i < v.nodes.len() ==> ((#[trigger] v.nodes[i]).deleted_by is Some <==> v.nodes[i].tombstone),
{
    assert forall|i: int| 0 <= i < v.nodes.len() implies ((#[trigger] visible_index_of(v, i)) is None
        <==> v.nodes[i].tombstone) by {
        lemma_node_in_order(v, i);
    }
    assert forall|i: int| 0 <= i < v.nodes.len() implies ((#[trigger] v.nodes[i]).deleted_by is Some
        <==> v.nodes[i].tombstone) by {
        assert(flags_ok(v.nodes[i]));
    }
}

/// The visible index of a live node is a position of the text that holds the
/// node's character.
pub proof fn lemma_visible_index_char(v: RgaView, i: int)
    requires
        wf(v),
        0 <= i < v.nodes.len(),
        visible_index_of(v, i) is Some,
    ensures
        0 <= visible_index_of(v, i)->0 < text(v).len(),
        text(v)[visible_index_of(v, i)->0] == v.nodes[i].value,
{
    let ord = order(v);
    lemma_node_in_order(v, i);
    lemma_order_range(v);
    lemma_visible_at(v.nodes, ord, position_of(ord, i));
}

/// Two distinct live nodes have distinct visible indices.
pub proof fn lemma_visible_index_distinct(v: RgaView, i: int, j: int)
    requires
        wf(v),
        0 <= i < v.nodes.len(),
        0 <= j < v.nodes.len(),
        i != j,
        visible_index_of(v, i) is Some,
    ensures
        visible_index_of(v, i) != visible_index_of(v, j),
{
    let ord = order(v);
    if visible_index_of(v, j) is Some {
        lemma_order_no_dup(v);
        lemma_node_in_order(v, i);
        lemma_node_in_order(v, j);
        let a = position_of(ord, i);
        let b = position_of(ord, j);
        if a < b {
            lemma_visible_index_mono(v.nodes, ord, a, b);
        } else {
            lemma_visible_index_mono(v.nodes, ord, b, a);
        }
    }
}

/// The visible indices of the live nodes are exactly the positions of the
/// text, each taken once, with the node's character at its position.
pub proof fn lemma_visible_index_laws(v: RgaView)
    requires
        wf(v),
    ensures
        forall|i: int|
            0 <= i < v.nodes.len() && (#[trigger] visible_index_of(v, i)) is Some ==> {
                let x = visible_index_of(v, i)->0;
                &&& 0 <= x < text(v).len()
                &&& text(v)[x] == v.nodes[i].value
            },
        forall|x: int| 0 <= x < text(v).len() ==> #[trigger] position_taken(v, x),
        forall|i: int, j: int|
            0 <= i < v.nodes.len() && 0 <= j < v.nodes.len() && i != j && (#[trigger] visible_index_of(
                v,
                i,
            )) is Some ==> visible_index_of(v, i) != #[trigger] visible_index_of(v, j),
{
    assert forall|i: int| 0 <= i < v.nodes.len() && (#[trigger] visible_index_of(v, i)) is Some implies {
        let x = visible_index_of(v, i)->0;
        &&& 0 <= x < text(v).len()
        &&& text(v)[x] == v.nodes[i].value
    } by {
        lemma_visible_index_char(v, i);
    }
    assert forall|x: int| 0 <= x < text(v).len() implies #[trigger] position_taken(v, x) by {
        lemma_visible_index_onto(v, x);
    }
    assert forall|i: int, j: int|
        0 <= i < v.nodes.len() && 0 <= j < v.nodes.len() && i != j && (#[trigger] visible_index_of(
            v,
            i,
        )) is Some implies visible_index_of(v, i) != #[trigger] visible_index_of(v, j) by {
        lemma_visible_index_distinct(v, i, j);
    }
}

/// Child lists hold the nodes anchored at their owner in decreasing id order,
/// and a node with children is followed in the document by its first child.
pub proof fn lemma_child_laws(v: RgaView)
    requires
        wf(v),
    ensures
        forall|i: int|
            0 <= i < v.nodes.len() && v.nodes[i].children.len() > 0 ==> #[trigger] next_of(v, i)
                == Some(v.nodes[v.nodes[i].children[0] as int].id),
        forall|i: int, a: int, b: int|
            0 <= i < v.nodes.len() && 0 <= a < b < v.nodes[i].children.len() ==> id_lt(
                #[trigger] v.nodes[v.nodes[i].children[b] as int].id,
                #[trigger] v.nodes[v.nodes[i].children[a] as int].id,
            ),
        forall|i: int, k: int|
            0 <= i < v.nodes.len() && 0 <= k < v.nodes[i].children.len() ==> v.nodes[#[trigger] v.nodes[
                i].children[k] as int].left == Some(v.nodes[i].id),
{
    let nodes = v.nodes;
    let n = nodes.len() as int;
    let ord = order(v);
    assert(order(v).len() == v.nodes.len()) by {
        lemma_order_permutation(v);
    }
    lemma_order_no_dup(v);
    lemma_order_range(v);
    assert forall|i: int| 0 <= i < n && nodes[i].children.len() > 0 implies #[trigger] next_of(v, i)
        == Some(nodes[nodes[i].children[0] as int].id) by {
        let cs = nodes[i].children;
        assert(list_ok(nodes, cs, i));
        lemma_dfs_in_order(v, i);
        let a = choose|a: int| block_at(ord, a, dfs(nodes, i));
        lemma_dfs_list_block(nodes, i, cs, 0);
        let l = dfs_list(nodes, i, cs);
        let d = dfs(nodes, i);
        assert(d == seq![i as usize] + l);
        lemma_dfs_shape(v, cs[0] as int);
        assert(l[0] == dfs(nodes, cs[0] as int)[0]);
        assert(ord[a + 0] == d[0]);
        assert(ord[a + 1] == d[1]);
        lemma_position_of(ord, a);
    }
    assert forall|i: int, a: int, b: int|
        0 <= i < n && 0 <= a < b < nodes[i].children.len() implies id_lt(
        #[trigger] nodes[nodes[i].children[b] as int].id,
        #[trigger] nodes[nodes[i].children[a] as int].id,
    ) by {
        assert(list_ok(nodes, nodes[i].children, i));
    }
    assert forall|i: int, k: int| 0 <= i < n && 0 <= k < nodes[i].children.len() implies nodes[
        #[trigger] nodes[i].children[k] as int].left == Some(nodes[i].id) by {
        assert(list_ok(nodes, nodes[i].children, i));
        assert(belongs(nodes, nodes[i].children[k] as int, i));
    }
}

} // verus!
