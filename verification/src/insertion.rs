//! What any successful insert does to the text: whatever its id, the new
//! character appears at exactly one position and the old text is kept around
//! it. Taking the new node out of the traversals of the grown tree gives back
//! the traversals of the old one.
use vstd::prelude::*;
use crate::id::IdView;
use crate::model::RgaView;
use crate::model::wf;
use crate::model::list_ok;
use crate::model::dfs;
use crate::model::dfs_list;
use crate::model::order;
use crate::model::add_leaf;
use crate::model::insert_pos;
use crate::model::sorted_insert;
use crate::model::visible;
use crate::model::visible_order;
use crate::model::text;
use crate::model::insert_spec;
use crate::model::has_id;
use crate::model::index_of;
use crate::model::lemma_visible_append;
use crate::model::lemma_order_range;
use crate::model::lemma_visible_sub;
use crate::model::lemma_insert_wf;
use crate::traversal::no_dup;
use crate::traversal::lemma_order_no_dup;
use crate::traversal::lemma_node_in_order;
use crate::traversal::lemma_position_of;
use crate::model::position_of;
use crate::editing::lemma_visible_same;
use crate::editing::lemma_add_leaf_nodes;

verus! {

/// `s` with every occurrence of `n` taken out.
pub open spec fn without(s: Seq<usize>, n: usize) -> Seq<usize>
    decreases s.len(),
{
    if s.len() == 0 {
        s
    } else if s.last() == n {
        without(s.drop_last(), n)
    } else {
        without(s.drop_last(), n).push(s.last())
    }
}

/// Taking `n` out distributes over concatenation.
pub proof fn lemma_without_append(a: Seq<usize>, b: Seq<usize>, n: usize)
    ensures
        without(a + b, n) == without(a, n) + without(b, n),
    decreases b.len(),
{
    if b.len() == 0 {
        assert(a + b =~= a);
        assert(without(a, n) + without(b, n) =~= without(a, n));
    } else {
        lemma_without_append(a, b.drop_last(), n);
        assert((a + b).drop_last() =~= a + b.drop_last());
        assert((a + b).last() == b.last());
        if b.last() != n {
            assert(without(a, n) + without(b.drop_last(), n).push(b.last()) =~= (without(a, n)
                + without(b.drop_last(), n)).push(b.last()));
        }
    }
}

/// Taking `n` out of the sequence holding just `n` leaves nothing.
pub proof fn lemma_without_single(n: usize)
    ensures
        without(seq![n], n) == Seq::<usize>::empty(),
{
    assert(seq![n].drop_last() =~= Seq::<usize>::empty());
    assert(seq![n].last() == n);
    assert(without(Seq::<usize>::empty(), n) == Seq::<usize>::empty());
}

/// Taking out a value that does not occur changes nothing.
pub proof fn lemma_without_absent(s: Seq<usize>, n: usize)
    requires
        forall|k: int| 0 <= k < s.len() ==> s[k] != n,
    ensures
        without(s, n) == s,
    decreases s.len(),
{
    if s.len() > 0 {
        lemma_without_absent(s.drop_last(), n);
        assert(s.drop_last().push(s.last()) =~= s);
    }
}

/// Taking out a value inserted once into a sequence without it gives the
/// sequence back.
pub proof fn lemma_without_insert(s: Seq<usize>, k: int, n: usize)
    requires
        0 <= k <= s.len(),
        forall|j: int| 0 <= j < s.len() ==> s[j] != n,
    ensures
        without(s.insert(k, n), n) == s,
{
    assert(s.insert(k, n) =~= s.take(k) + seq![n] + s.skip(k));
    lemma_without_append(s.take(k) + seq![n], s.skip(k), n);
    lemma_without_append(s.take(k), seq![n], n);
    lemma_without_single(n);
    lemma_without_absent(s.take(k), n);
    lemma_without_absent(s.skip(k), n);
    assert(s.take(k) + Seq::<usize>::empty() + s.skip(k) =~= s);
}

/// A sequence without repeats that holds `n` is the sequence with `n` taken
/// out, and `n` inserted back at its position.
pub proof fn lemma_without_once(s: Seq<usize>, n: usize)
    requires
        no_dup(s),
        s.contains(n),
    ensures
        0 <= position_of(s, n as int) < s.len(),
        s == without(s, n).insert(position_of(s, n as int), n),
        without(s, n).len() + 1 == s.len(),
{
    let k = position_of(s, n as int);
    let j = choose|j: int| 0 <= j < s.len() && s[j] == n;
    lemma_position_of(s, j);
    assert(k == j);
    let a = s.take(k);
    let b = s.skip(k + 1);
    assert(s =~= a + seq![n] + b);
    assert forall|i: int| 0 <= i < a.len() implies a[i] != n by {
        assert(s[i] == a[i]);
    }
    assert forall|i: int| 0 <= i < b.len() implies b[i] != n by {
        assert(s[k + 1 + i] == b[i]);
    }
    lemma_without_append(a + seq![n], b, n);
    lemma_without_append(a, seq![n], n);
    lemma_without_single(n);
    lemma_without_absent(a, n);
    lemma_without_absent(b, n);
    assert(without(s, n) =~= a + b);
    assert((a + b).insert(k, n) =~= s);
}

/// The facts about adding a leaf with a new id that the traversal lemmas use.
pub open spec fn new_leaf(v: RgaView, parent: Option<int>, id: IdView) -> bool {
    &&& wf(v)
    &&& v.nodes.len() < usize::MAX
    &&& !has_id(v.nodes, id)
    &&& match parent {
        Some(p) => 0 <= p < v.nodes.len(),
        None => true,
    }
}

/// The child list of node `x`, or the root list for `x == -1`.
pub open spec fn list_below(v: RgaView, x: int) -> Seq<usize> {
    if x < 0 {
        v.roots
    } else {
        v.nodes[x].children
    }
}

/// The child list of an old node after adding a leaf is the old list, with
/// the leaf inserted if it hangs there.
proof fn lemma_leaf_children(
    v: RgaView,
    parent: Option<int>,
    value: char,
    left: Option<IdView>,
    id: IdView,
    x: int,
)
    requires
        new_leaf(v, parent, id),
        -1 <= x < v.nodes.len(),
    ensures
        forall|k: int| 0 <= k < list_below(v, x).len() ==> x < #[trigger] list_below(v, x)[k] < v.nodes.len(),
        forall|k: int|
            0 <= k < list_below(add_leaf(v, parent, value, left, id), x).len() ==> #[trigger] list_below(
                add_leaf(v, parent, value, left, id),
                x,
            )[k] == v.nodes.len() as usize || x < list_below(add_leaf(v, parent, value, left, id), x)[k]
                < v.nodes.len(),
        without(list_below(add_leaf(v, parent, value, left, id), x), v.nodes.len() as usize)
            == list_below(v, x),
{
    let n = v.nodes.len() as usize;
    let v2 = add_leaf(v, parent, value, left, id);
    let pushed = v.nodes.push(
        crate::model::NodeView {
            value,
            tombstone: false,
            left,
            id,
            deleted_by: None,
            children: Seq::empty(),
        },
    );
    let cs = if x < 0 {
        v.roots
    } else {
        v.nodes[x].children
    };
    assert(list_ok(v.nodes, cs, x)) by {
        if x >= 0 {
            assert(list_ok(v.nodes, v.nodes[x].children, x));
        }
    }
    assert forall|k: int| 0 <= k < cs.len() implies cs[k] != n by {
        assert(x < cs[k] < n);
    }
    let hangs = match parent {
        Some(p) => p == x,
        None => x < 0,
    };
    if hangs {
        let q = insert_pos(pushed, cs, id);
        crate::model::lemma_insert_pos(pushed, cs, id);
        let cs2 = sorted_insert(pushed, cs, n);
        assert(cs2 == cs.insert(q, n));
        lemma_without_insert(cs, q, n);
        assert forall|k: int| 0 <= k < cs2.len() implies #[trigger] cs2[k] == n || x < cs2[k] < n by {
            if k < q {
                assert(cs2[k] == cs[k]);
            } else if k > q {
                assert(cs2[k] == cs[k - 1]);
            }
        }
        if x < 0 {
            assert(v2.roots == cs2);
        } else {
            assert(v2.nodes[x].children == cs2);
        }
    } else {
        lemma_without_absent(cs, n);
        if x < 0 {
            assert(v2.roots == cs);
        } else {
            assert(v2.nodes[x].children == cs);
        }
    }
}

/// After adding a leaf `n`, the traversal from an old node, with `n` taken
/// out, is the old traversal.
proof fn lemma_leaf_dfs_without(
    v: RgaView,
    parent: Option<int>,
    value: char,
    left: Option<IdView>,
    id: IdView,
    x: int,
)
    requires
        new_leaf(v, parent, id),
        0 <= x < v.nodes.len(),
    ensures
        without(dfs(add_leaf(v, parent, value, left, id).nodes, x), v.nodes.len() as usize) == dfs(
            v.nodes,
            x,
        ),
    decreases v.nodes.len() + 1 - x, 1int, 0int,
{
    let n = v.nodes.len() as usize;
    let nodes2 = add_leaf(v, parent, value, left, id).nodes;
    lemma_leaf_children(v, parent, value, left, id, x);
    let cs = v.nodes[x].children;
    let cs2 = nodes2[x].children;
    assert(list_below(v, x) == cs);
    assert(list_below(add_leaf(v, parent, value, left, id), x) == cs2);
    lemma_leaf_dfs_list_without(v, parent, value, left, id, x, cs2, cs);
    let l2 = dfs_list(nodes2, x, cs2);
    assert(dfs(nodes2, x) == seq![x as usize] + l2);
    assert(dfs(v.nodes, x) == seq![x as usize] + dfs_list(v.nodes, x, cs));
    lemma_without_append(seq![x as usize], l2, n);
    lemma_without_absent(seq![x as usize], n);
}

/// The list version of [`lemma_leaf_dfs_without`]: `cs2` is the old list `cs`
/// of children of `par`, possibly with the leaf `n` added.
proof fn lemma_leaf_dfs_list_without(
    v: RgaView,
    parent: Option<int>,
    value: char,
    left: Option<IdView>,
    id: IdView,
    par: int,
    cs2: Seq<usize>,
    cs: Seq<usize>,
)
    requires
        new_leaf(v, parent, id),
        -1 <= par < v.nodes.len(),
        forall|k: int| 0 <= k < cs.len() ==> par < #[trigger] cs[k] < v.nodes.len(),
        forall|k: int|
            0 <= k < cs2.len() ==> #[trigger] cs2[k] == v.nodes.len() as usize || par < cs2[k]
                < v.nodes.len(),
        without(cs2, v.nodes.len() as usize) == cs,
    ensures
        without(dfs_list(add_leaf(v, parent, value, left, id).nodes, par, cs2), v.nodes.len() as usize)
            == dfs_list(v.nodes, par, cs),
    decreases v.nodes.len() + 1 - par, 0int, cs2.len(),
{
    let n = v.nodes.len() as usize;
    let nodes2 = add_leaf(v, parent, value, left, id).nodes;
    lemma_add_leaf_nodes(v, parent, value, left, id);
    if cs2.len() == 0 {
        assert(cs == Seq::<usize>::empty());
    } else {
        let front2 = cs2.drop_last();
        let c = cs2.last();
        assert(cs2[cs2.len() - 1] == c);
        assert forall|k: int| 0 <= k < front2.len() implies #[trigger] front2[k] == n || par < front2[k]
            < v.nodes.len() by {
            assert(front2[k] == cs2[k]);
        }
        let r2 = dfs_list(nodes2, par, front2);
        if c == n {
            assert(without(cs2, n) == without(front2, n));
            lemma_leaf_dfs_list_without(v, parent, value, left, id, par, front2, cs);
            assert(nodes2[n as int].children == Seq::<usize>::empty());
            assert(dfs(nodes2, n as int) == seq![n] + dfs_list(nodes2, n as int, Seq::<usize>::empty()));
            assert(dfs(nodes2, n as int) =~= seq![n]);
            assert(dfs_list(nodes2, par, cs2) == r2 + seq![n]);
            lemma_without_append(r2, seq![n], n);
            lemma_without_single(n);
            assert(without(r2, n) + Seq::<usize>::empty() =~= without(r2, n));
        } else {
            assert(without(cs2, n) == without(front2, n).push(c));
            let front = cs.drop_last();
            assert(front =~= without(front2, n));
            assert(cs.last() == c);
            assert(cs[cs.len() - 1] == c);
            assert forall|k: int| 0 <= k < front.len() implies par < #[trigger] front[k] < v.nodes.len() by {
                assert(front[k] == cs[k]);
            }
            lemma_leaf_dfs_list_without(v, parent, value, left, id, par, front2, front);
            lemma_leaf_dfs_without(v, parent, value, left, id, c as int);
            assert(dfs_list(nodes2, par, cs2) == r2 + dfs(nodes2, c as int));
            assert(dfs_list(v.nodes, par, cs) == dfs_list(v.nodes, par, front) + dfs(v.nodes, c as int));
            lemma_without_append(r2, dfs(nodes2, c as int), n);
        }
    }
}

/// Any successful insert puts its character at exactly one position of the
/// text and keeps the old text around it, whatever its id.
pub proof fn lemma_insert_text_somewhere(v: RgaView, left: Option<IdView>, value: char, id: IdView)
    requires
        wf(v),
        v.nodes.len() < usize::MAX,
        insert_spec(v, left, value, id) is Ok,
    ensures
        exists|p: int|
            0 <= p <= text(v).len() && text(insert_spec(v, left, value, id)->Ok_0) == #[trigger] text(
                v,
            ).insert(p, value),
{
    let parent: Option<int> = match left {
        None => None,
        Some(l) => Some(index_of(v.nodes, l)),
    };
    let v2 = insert_spec(v, left, value, id)->Ok_0;
    assert(v2 == add_leaf(v, parent, value, left, id));
    assert(new_leaf(v, parent, id));
    lemma_insert_wf(v, left, value, id);
    let n = v.nodes.len() as usize;
    let nodes = v.nodes;
    let nodes2 = v2.nodes;
    lemma_add_leaf_nodes(v, parent, value, left, id);
    lemma_leaf_children(v, parent, value, left, id, -1);
    assert(list_below(v, -1) == v.roots);
    assert(list_below(v2, -1) == v2.roots);
    lemma_leaf_dfs_list_without(v, parent, value, left, id, -1, v2.roots, v.roots);
    let ord = order(v);
    let ord2 = order(v2);
    assert(without(ord2, n) == ord);
    lemma_order_no_dup(v2);
    lemma_node_in_order(v2, n as int);
    lemma_without_once(ord2, n);
    let k = position_of(ord2, n as int);
    assert(ord2 == ord.insert(k, n));
    lemma_order_range(v);
    assert(ord.insert(k, n) =~= ord.take(k) + seq![n] + ord.skip(k));
    lemma_visible_append(nodes2, ord.take(k) + seq![n], ord.skip(k));
    lemma_visible_append(nodes2, ord.take(k), seq![n]);
    lemma_visible_append(nodes, ord.take(k), ord.skip(k));
    assert(ord.take(k) + ord.skip(k) =~= ord);
    assert forall|j: int| 0 <= j < ord.take(k).len() implies nodes2[#[trigger] ord.take(k)[j] as int].tombstone
        == nodes[ord.take(k)[j] as int].tombstone by {
        assert(ord.take(k)[j] == ord[j]);
    }
    assert forall|j: int| 0 <= j < ord.skip(k).len() implies nodes2[#[trigger] ord.skip(k)[j] as int].tombstone
        == nodes[ord.skip(k)[j] as int].tombstone by {
        assert(ord.skip(k)[j] == ord[k + j]);
    }
    lemma_visible_same(nodes, nodes2, ord.take(k));
    lemma_visible_same(nodes, nodes2, ord.skip(k));
    assert(seq![n].drop_last() =~= Seq::<usize>::empty());
    assert(visible(nodes2, seq![n]) =~= seq![n]) by {
        assert(seq![n].last() == n);
        assert(visible(nodes2, Seq::<usize>::empty()) == Seq::<usize>::empty());
    }
    let a = visible(nodes, ord.take(k));
    let b = visible(nodes, ord.skip(k));
    let vis = visible_order(v);
    let vis2 = visible_order(v2);
    assert(vis == a + b);
    assert(vis2 == a + seq![n] + b);
    let p = a.len() as int;
    lemma_visible_sub(nodes, ord);
    assert forall|j: int| 0 <= j < vis.len() implies #[trigger] vis[j] < n by {
        assert(ord.contains(vis[j]));
    }
    let t1 = text(v).insert(p, value);
    let t2 = text(v2);
    assert(t2.len() == t1.len());
    assert forall|j: int| 0 <= j < t2.len() implies t2[j] == t1[j] by {
        if j < p {
            assert(vis2[j] == vis[j]);
        } else if j == p {
            assert(vis2[j] == n);
        } else {
            assert(vis2[j] == vis[j - 1]);
        }
    }
    assert(t2 =~= t1);
}

} // verus!
