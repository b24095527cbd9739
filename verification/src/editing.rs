//! What local edits do to the text of the RGA tree: an insert whose id
//! outranks every node puts its character at the position it names, and a
//! delete removes the character at its position.
use vstd::prelude::*;
use crate::id::IdView;
use crate::id::id_lt;
use crate::model::NodeView;
use crate::model::RgaView;
use crate::model::wf;
use crate::model::list_ok;
use crate::model::dfs;
use crate::model::dfs_list;
use crate::model::order;
use crate::model::add_leaf;
use crate::model::insert_pos;
use crate::model::sorted_insert;
use crate::model::lemma_dfs_list_range;
use crate::model::visible;
use crate::model::visible_order;
use crate::model::text;
use crate::model::node_at;
use crate::model::insert_spec;
use crate::model::delete_spec;
use crate::traversal::lemma_order_shape;
use crate::model::has_id;
use crate::model::lemma_index_of_unique;
use crate::model::lemma_visible_append;
use crate::model::lemma_order_range;
use crate::id::lemma_id_lt_irreflexive;
use crate::compaction::lemma_visible_order_no_dup;
use crate::traversal::no_dup;
use crate::traversal::child_list;
use crate::traversal::lemma_dfs_list_shape;

verus! {

/// `s` with `n` inserted right after the last occurrence of `p` (unchanged
/// when `p` does not occur).
pub open spec fn insert_after(s: Seq<usize>, p: usize, n: usize) -> Seq<usize>
    decreases s.len(),
{
    if s.len() == 0 {
        s
    } else if s.last() == p {
        s.push(n)
    } else {
        insert_after(s.drop_last(), p, n).push(s.last())
    }
}

/// Nothing is inserted where `p` does not occur.
pub proof fn lemma_insert_after_absent(s: Seq<usize>, p: usize, n: usize)
    requires
        !s.contains(p),
    ensures
        insert_after(s, p, n) == s,
    decreases s.len(),
{
    if s.len() > 0 {
        assert(s.drop_last().contains(p) ==> s.contains(p)) by {
            if s.drop_last().contains(p) {
                let k = choose|k: int| 0 <= k < s.drop_last().len() && s.drop_last()[k] == p;
                assert(s[k] == p);
            }
        }
        assert(s.last() == s[s.len() - 1]);
        lemma_insert_after_absent(s.drop_last(), p, n);
        assert(s.drop_last().push(s.last()) =~= s);
    }
}

/// Inserting after `p` in a concatenation: in the part that holds `p`, the
/// second part when both do.
pub proof fn lemma_insert_after_concat(a: Seq<usize>, b: Seq<usize>, p: usize, n: usize)
    ensures
        insert_after(a + b, p, n) == if b.contains(p) {
            a + insert_after(b, p, n)
        } else {
            insert_after(a, p, n) + b
        },
    decreases b.len(),
{
    if b.len() == 0 {
        assert(a + b =~= a);
        assert(insert_after(a, p, n) + b =~= insert_after(a, p, n));
    } else {
        let bl = b.drop_last();
        lemma_insert_after_concat(a, bl, p, n);
        assert((a + b).drop_last() =~= a + bl);
        assert((a + b).last() == b.last());
        if b.last() == p {
            assert(b.contains(p)) by {
                assert(b[b.len() - 1] == p);
            }
            assert((a + b).push(n) =~= a + b.push(n));
        } else {
            assert(bl.contains(p) <==> b.contains(p)) by {
                if bl.contains(p) {
                    let k = choose|k: int| 0 <= k < bl.len() && bl[k] == p;
                    assert(b[k] == p);
                }
                if b.contains(p) {
                    let k = choose|k: int| 0 <= k < b.len() && b[k] == p;
                    assert(k != b.len() - 1);
                    assert(bl[k] == p);
                }
            }
            if bl.contains(p) {
                assert((a + insert_after(bl, p, n)).push(b.last()) =~= a + insert_after(
                    bl,
                    p,
                    n,
                ).push(b.last()));
            } else {
                assert((insert_after(a, p, n) + bl).push(b.last()) =~= insert_after(a, p, n) + b);
            }
        }
    }
}

/// The traversals of a child list with one more child in front.
pub proof fn lemma_dfs_list_prepend(nodes: Seq<NodeView>, parent: int, c: usize, cs: Seq<usize>)
    ensures
        dfs_list(nodes, parent, seq![c] + cs) == (if parent < c < nodes.len() {
            dfs(nodes, c as int)
        } else {
            Seq::<usize>::empty()
        }) + dfs_list(nodes, parent, cs),
    decreases cs.len(),
{
    let front = if parent < c < nodes.len() {
        dfs(nodes, c as int)
    } else {
        Seq::<usize>::empty()
    };
    if cs.len() == 0 {
        assert(seq![c] + cs =~= seq![c]);
        assert(seq![c].drop_last() =~= Seq::<usize>::empty());
        assert(dfs_list(nodes, parent, Seq::<usize>::empty()) == Seq::<usize>::empty());
        assert(front + Seq::<usize>::empty() =~= front);
        assert(Seq::<usize>::empty() + front =~= front);
    } else {
        lemma_dfs_list_prepend(nodes, parent, c, cs.drop_last());
        assert((seq![c] + cs).drop_last() =~= seq![c] + cs.drop_last());
        assert((seq![c] + cs).last() == cs.last());
        let d = cs.last() as int;
        if parent < d < nodes.len() {
            assert(front + dfs_list(nodes, parent, cs.drop_last()) + dfs(nodes, d) =~= front + (
            dfs_list(nodes, parent, cs.drop_last()) + dfs(nodes, d)));
        }
    }
}

/// A fresh leaf `n` that outranks every node goes first among its siblings.
pub proof fn lemma_insert_first(nodes: Seq<NodeView>, cs: Seq<usize>, id: IdView)
    requires
        forall|k: int| 0 <= k < cs.len() ==> id_lt(#[trigger] nodes[cs[k] as int].id, id),
    ensures
        insert_pos(nodes, cs, id) == 0,
{
    if cs.len() > 0 {
        assert(id_lt(nodes[cs[0] as int].id, id));
    }
}

/// The node after which a fresh leaf goes in the traversal: its parent, or a
/// value no traversal of the old tree holds (the leaf's own index) when it is
/// a top-level node.
pub open spec fn leaf_target(parent: Option<int>, n: int) -> usize {
    match parent {
        Some(p) => p as usize,
        None => n as usize,
    }
}

/// The facts about adding a fresh leaf that outranks every node that the
/// traversal lemmas use.
pub open spec fn fresh_leaf(v: RgaView, parent: Option<int>, id: IdView) -> bool {
    &&& wf(v)
    &&& forall|i: int| 0 <= i < v.nodes.len() ==> id_lt(#[trigger] v.nodes[i].id, id)
    &&& match parent {
        Some(p) => 0 <= p < v.nodes.len(),
        None => true,
    }
}

/// Adding a fresh leaf that outranks every node changes the traversal from an
/// old node only by putting the leaf right after its parent.
pub proof fn lemma_leaf_dfs(
    v: RgaView,
    parent: Option<int>,
    value: char,
    left: Option<IdView>,
    id: IdView,
    x: int,
)
    requires
        fresh_leaf(v, parent, id),
        0 <= x < v.nodes.len(),
    ensures
        dfs(add_leaf(v, parent, value, left, id).nodes, x) == insert_after(
            dfs(v.nodes, x),
            leaf_target(parent, v.nodes.len() as int),
            v.nodes.len() as usize,
        ),
    decreases v.nodes.len() - x, 1int, 0int,
{
    let nodes = v.nodes;
    let n = nodes.len() as int;
    let t = leaf_target(parent, n);
    let v2 = add_leaf(v, parent, value, left, id);
    let nodes2 = v2.nodes;
    let pushed = nodes.push(
        NodeView { value, tombstone: false, left, id, deleted_by: None, children: Seq::empty() },
    );
    let cs = nodes[x].children;
    assert(list_ok(nodes, cs, x));
    assert(child_list(nodes, cs, x));
    lemma_dfs_list_range(nodes, x, cs);
    let l = dfs_list(nodes, x, cs);
    assert(!l.contains(x as usize)) by {
        if l.contains(x as usize) {
            let k = choose|k: int| 0 <= k < l.len() && l[k] == x as usize;
            assert(x < l[k]);
        }
    }
    assert(dfs(nodes, x) == seq![x as usize] + l);
    lemma_insert_after_concat(seq![x as usize], l, t, n as usize);
    if parent == Some(x) {
        assert forall|k: int| 0 <= k < cs.len() implies id_lt(
            #[trigger] pushed[cs[k] as int].id,
            id,
        ) by {
            assert(x < cs[k] < n);
            assert(pushed[cs[k] as int] == nodes[cs[k] as int]);
        }
        lemma_insert_first(pushed, cs, id);
        assert(sorted_insert(pushed, cs, n as usize) =~= seq![n as usize] + cs);
        assert(nodes2[x].children == seq![n as usize] + cs);
        lemma_dfs_list_prepend(nodes2, x, n as usize, cs);
        assert(dfs(nodes2, n) == seq![n as usize] + dfs_list(nodes2, n, Seq::<usize>::empty()));
        assert(dfs(nodes2, n) =~= seq![n as usize]);
        lemma_leaf_dfs_list(v, parent, value, left, id, x, cs);
        lemma_insert_after_absent(l, t, n as usize);
        assert(insert_after(seq![x as usize], t, n as usize) =~= seq![x as usize, n as usize]) by {
            assert(seq![x as usize].last() == x as usize);
        }
        assert(dfs(nodes2, x) =~= seq![x as usize] + (seq![n as usize] + l));
        assert(seq![x as usize, n as usize] + l =~= seq![x as usize] + (seq![n as usize] + l));
    } else {
        assert(nodes2[x] == nodes[x]);
        lemma_leaf_dfs_list(v, parent, value, left, id, x, cs);
        assert(t != x as usize);
        assert(insert_after(seq![x as usize], t, n as usize) =~= seq![x as usize]) by {
            assert(seq![x as usize].last() == x as usize);
            assert(seq![x as usize].drop_last() =~= Seq::<usize>::empty());
            assert(insert_after(Seq::<usize>::empty(), t, n as usize) == Seq::<usize>::empty());
        }
        if !l.contains(t) {
            lemma_insert_after_absent(l, t, n as usize);
        }
        assert(dfs(nodes2, x) == seq![x as usize] + dfs_list(nodes2, x, cs));
    }
}

/// The list version of [`lemma_leaf_dfs`], for an old list of siblings.
pub proof fn lemma_leaf_dfs_list(
    v: RgaView,
    parent: Option<int>,
    value: char,
    left: Option<IdView>,
    id: IdView,
    par: int,
    cs: Seq<usize>,
)
    requires
        fresh_leaf(v, parent, id),
        -1 <= par < v.nodes.len(),
        child_list(v.nodes, cs, par),
    ensures
        dfs_list(add_leaf(v, parent, value, left, id).nodes, par, cs) == insert_after(
            dfs_list(v.nodes, par, cs),
            leaf_target(parent, v.nodes.len() as int),
            v.nodes.len() as usize,
        ),
    decreases v.nodes.len() - par, 0int, cs.len(),
{
    let nodes = v.nodes;
    let n = nodes.len() as int;
    let t = leaf_target(parent, n);
    let nodes2 = add_leaf(v, parent, value, left, id).nodes;
    if cs.len() > 0 {
        let front = cs.drop_last();
        let c = cs.last() as int;
        assert(child_list(nodes, front, par)) by {
            assert forall|a: int, b: int| 0 <= a < b < front.len() implies id_lt(
                #[trigger] nodes[front[b] as int].id,
                #[trigger] nodes[front[a] as int].id,
            ) by {
                assert(front[a] == cs[a]);
                assert(front[b] == cs[b]);
            }
            assert forall|k: int| 0 <= k < front.len() implies par < #[trigger] front[k]
                < nodes.len() && crate::model::belongs(nodes, front[k] as int, par) by {
                assert(front[k] == cs[k]);
            }
        }
        assert(par < cs[cs.len() - 1] < nodes.len());
        lemma_leaf_dfs_list(v, parent, value, left, id, par, front);
        lemma_leaf_dfs(v, parent, value, left, id, c);
        let r = dfs_list(nodes, par, front);
        let d = dfs(nodes, c);
        assert(dfs_list(nodes, par, cs) == r + d);
        assert(dfs_list(nodes2, par, cs) == dfs_list(nodes2, par, front) + dfs(nodes2, c));
        lemma_insert_after_concat(r, d, t, n as usize);
        lemma_dfs_list_shape(v, par, cs);
        if d.contains(t) {
            assert(!r.contains(t)) by {
                if r.contains(t) {
                    let a = choose|a: int| 0 <= a < r.len() && r[a] == t;
                    let b = choose|b: int| 0 <= b < d.len() && d[b] == t;
                    let rd = r + d;
                    assert(rd[a] == t);
                    assert(rd[r.len() + b] == t);
                }
            }
            lemma_insert_after_absent(r, t, n as usize);
        } else {
            lemma_insert_after_absent(d, t, n as usize);
        }
    }
}

/// The document order after adding a fresh leaf that outranks every node: the
/// leaf right after its parent, or first.
pub proof fn lemma_leaf_order(
    v: RgaView,
    parent: Option<int>,
    value: char,
    left: Option<IdView>,
    id: IdView,
)
    requires
        fresh_leaf(v, parent, id),
    ensures
        order(add_leaf(v, parent, value, left, id)) == match parent {
            Some(p) => insert_after(order(v), p as usize, v.nodes.len() as usize),
            None => seq![v.nodes.len() as usize] + order(v),
        },
{
    let nodes = v.nodes;
    let n = nodes.len() as int;
    let v2 = add_leaf(v, parent, value, left, id);
    assert(list_ok(nodes, v.roots, -1));
    assert(child_list(nodes, v.roots, -1));
    lemma_leaf_dfs_list(v, parent, value, left, id, -1, v.roots);
    if parent is None {
        let pushed = v2.nodes;
        assert forall|k: int| 0 <= k < v.roots.len() implies id_lt(
            #[trigger] pushed[v.roots[k] as int].id,
            id,
        ) by {
            assert(v.roots[k] < n);
            assert(pushed[v.roots[k] as int] == nodes[v.roots[k] as int]);
        }
        lemma_insert_first(pushed, v.roots, id);
        assert(v2.roots =~= seq![n as usize] + v.roots);
        lemma_dfs_list_prepend(pushed, -1, n as usize, v.roots);
        assert(dfs(pushed, n) == seq![n as usize] + dfs_list(pushed, n, Seq::<usize>::empty()));
        assert(dfs(pushed, n) =~= seq![n as usize]);
        lemma_order_range(v);
        assert(!order(v).contains(n as usize)) by {
            if order(v).contains(n as usize) {
                let k = choose|k: int| 0 <= k < order(v).len() && order(v)[k] == n as usize;
                assert(order(v)[k] < n);
            }
        }
        lemma_insert_after_absent(order(v), n as usize, n as usize);
    }
}

/// Visibility over nodes with the same tombstone flags.
pub proof fn lemma_visible_same(nodes: Seq<NodeView>, nodes2: Seq<NodeView>, s: Seq<usize>)
    requires
        forall|k: int|
            0 <= k < s.len() ==> nodes2[#[trigger] s[k] as int].tombstone == nodes[s[k] as int].tombstone,
    ensures
        visible(nodes2, s) == visible(nodes, s),
    decreases s.len(),
{
    if s.len() > 0 {
        assert(nodes2[s[s.len() - 1] as int].tombstone == nodes[s[s.len() - 1] as int].tombstone);
        lemma_visible_same(nodes, nodes2, s.drop_last());
    }
}

/// Visibility after inserting a live node `n` right after `p`, the `pos`-th
/// visible entry.
proof fn lemma_visible_insert_after(
    nodes: Seq<NodeView>,
    nodes2: Seq<NodeView>,
    s: Seq<usize>,
    p: usize,
    n: usize,
    pos: int,
)
    requires
        forall|k: int|
            0 <= k < s.len() ==> nodes2[#[trigger] s[k] as int].tombstone == nodes[s[k] as int].tombstone,
        !nodes2[n as int].tombstone,
        no_dup(visible(nodes, s)),
        1 <= pos <= visible(nodes, s).len(),
        visible(nodes, s)[pos - 1] == p,
    ensures
        visible(nodes2, insert_after(s, p, n)) == visible(nodes, s).insert(pos, n),
    decreases s.len(),
{
    let vis = visible(nodes, s);
    let front = s.drop_last();
    let last = s.last();
    let vf = visible(nodes, front);
    assert(nodes2[s[s.len() - 1] as int].tombstone == nodes[s[s.len() - 1] as int].tombstone);
    assert forall|k: int| 0 <= k < front.len() implies nodes2[#[trigger] front[k] as int].tombstone
        == nodes[front[k] as int].tombstone by {
        assert(front[k] == s[k]);
    }
    if last == p {
        lemma_visible_same(nodes, nodes2, s);
        assert(insert_after(s, p, n) == s.push(n));
        assert(s.push(n).drop_last() =~= s);
        assert(!nodes[p as int].tombstone) by {
            if nodes[p as int].tombstone {
                assert(vis == vf);
                crate::model::lemma_visible_sub(nodes, front);
                assert(front.contains(vf[pos - 1]));
                let k = choose|k: int| 0 <= k < front.len() && front[k] == p;
                assert(s[k] == p);
                assert(false) by {
                    crate::model::lemma_visible_sub(nodes, s);
                }
            }
        }
        assert(vis == vf.push(p));
        assert(pos - 1 == vis.len() - 1) by {
            if pos - 1 != vis.len() - 1 {
                assert(vis[pos - 1] == vis[vis.len() - 1]);
            }
        }
        assert(vis.push(n) =~= vis.insert(pos, n));
    } else {
        assert(insert_after(s, p, n) == insert_after(front, p, n).push(last));
        assert(insert_after(front, p, n).push(last).drop_last() =~= insert_after(front, p, n));
        if nodes[last as int].tombstone {
            assert(vis == vf);
            lemma_visible_insert_after(nodes, nodes2, front, p, n, pos);
        } else {
            assert(vis == vf.push(last));
            assert(pos - 1 < vf.len()) by {
                if pos - 1 == vf.len() {
                    assert(vis[pos - 1] == last);
                }
            }
            assert(vf[pos - 1] == p);
            assert(no_dup(vf)) by {
                assert forall|a: int, b: int| 0 <= a < vf.len() && 0 <= b < vf.len() && a != b implies vf[a]
                    != vf[b] by {
                    assert(vis[a] == vf[a]);
                    assert(vis[b] == vf[b]);
                }
            }
            lemma_visible_insert_after(nodes, nodes2, front, p, n, pos);
            assert(vf.insert(pos, n).push(last) =~= vis.insert(pos, n));
        }
    }
}

/// The nodes after adding a leaf: the old ones keep their characters and
/// flags, and the leaf is live.
pub proof fn lemma_add_leaf_nodes(
    v: RgaView,
    parent: Option<int>,
    value: char,
    left: Option<IdView>,
    id: IdView,
)
    requires
        match parent {
            Some(p) => 0 <= p < v.nodes.len(),
            None => true,
        },
    ensures
        add_leaf(v, parent, value, left, id).nodes.len() == v.nodes.len() + 1,
        forall|i: int|
            0 <= i < v.nodes.len() ==> (#[trigger] add_leaf(v, parent, value, left, id).nodes[i]).tombstone
                == v.nodes[i].tombstone && add_leaf(v, parent, value, left, id).nodes[i].value
                == v.nodes[i].value,
        !add_leaf(v, parent, value, left, id).nodes[v.nodes.len() as int].tombstone,
        add_leaf(v, parent, value, left, id).nodes[v.nodes.len() as int].value == value,
{
}

/// The text after an insert at visible position `pos` whose id outranks
/// every node: `value` at position `pos`.
pub proof fn lemma_insert_text(v: RgaView, pos: int, left: Option<IdView>, value: char, id: IdView)
    requires
        wf(v),
        forall|i: int| 0 <= i < v.nodes.len() ==> id_lt(#[trigger] v.nodes[i].id, id),
        pos == 0 ==> left is None,
        pos != 0 ==> (node_at(v, pos) matches Some(a) && left == Some(v.nodes[a as int].id)),
    ensures
        insert_spec(v, left, value, id) is Ok,
        text(insert_spec(v, left, value, id)->Ok_0) == text(v).insert(pos, value),
{
    let nodes = v.nodes;
    let n = nodes.len() as int;
    assert(!has_id(nodes, id)) by {
        if has_id(nodes, id) {
            let i = choose|i: int| 0 <= i < nodes.len() && nodes[i].id == id;
            assert(id_lt(nodes[i].id, id));
            lemma_id_lt_irreflexive(id);
        }
    }
    let ord = order(v);
    let vis = visible_order(v);
    lemma_order_range(v);
    crate::model::lemma_visible_sub(nodes, ord);
    lemma_visible_order_no_dup(v);
    assert forall|k: int| 0 <= k < vis.len() implies 0 <= #[trigger] vis[k] < n by {
        assert(ord.contains(vis[k]));
    }
    let parent: Option<int> = if pos == 0 {
        None
    } else {
        let a = vis[pos - 1] as int;
        lemma_index_of_unique(nodes, a);
        Some(a)
    };
    assert(insert_spec(v, left, value, id) == Ok::<RgaView, crate::rga::RgaError>(
        add_leaf(v, parent, value, left, id),
    ));
    let v2 = add_leaf(v, parent, value, left, id);
    let nodes2 = v2.nodes;
    lemma_leaf_order(v, parent, value, left, id);
    lemma_add_leaf_nodes(v, parent, value, left, id);
    let vis2 = visible(nodes2, order(v2));
    assert forall|k: int| 0 <= k < ord.len() implies nodes2[#[trigger] ord[k] as int].tombstone
        == nodes[ord[k] as int].tombstone by {
        assert(0 <= ord[k] < n);
    }
    match parent {
        Some(a) => {
            lemma_visible_insert_after(nodes, nodes2, ord, a as usize, n as usize, pos);
        },
        None => {
            lemma_visible_append(nodes2, seq![n as usize], ord);
            assert(seq![n as usize].drop_last() =~= Seq::<usize>::empty());
            assert(visible(nodes2, seq![n as usize]) =~= seq![n as usize]) by {
                assert(seq![n as usize].last() == n as usize);
                assert(visible(nodes2, Seq::<usize>::empty()) == Seq::<usize>::empty());
            }
            lemma_visible_same(nodes, nodes2, ord);
            assert(vis2 =~= vis.insert(0, n as usize));
        },
    }
    assert(vis2 == vis.insert(pos, n as usize));
    let t2 = text(v2);
    let t1 = text(v).insert(pos, value);
    assert(t2.len() == t1.len());
    assert forall|k: int| 0 <= k < t2.len() implies t2[k] == t1[k] by {
        if k < pos {
            assert(vis2[k] == vis[k]);
        } else if k == pos {
            assert(vis2[k] == n as usize);
        } else {
            assert(vis2[k] == vis[k - 1]);
        }
    }
    assert(t2 =~= t1);
}

/// The traversal from a node looks at child lists only.
proof fn lemma_dfs_same_children(nodes: Seq<NodeView>, nodes2: Seq<NodeView>, x: int)
    requires
        nodes2.len() == nodes.len(),
        forall|k: int| 0 <= k < nodes.len() ==> (#[trigger] nodes2[k]).children == nodes[k].children,
    ensures
        dfs(nodes2, x) == dfs(nodes, x),
    decreases nodes.len() - x, 1int, 0int,
{
    if 0 <= x < nodes.len() {
        assert(nodes2[x].children == nodes[x].children);
        lemma_dfs_list_same_children(nodes, nodes2, x, nodes[x].children);
    }
}

/// The list version of [`lemma_dfs_same_children`].
proof fn lemma_dfs_list_same_children(
    nodes: Seq<NodeView>,
    nodes2: Seq<NodeView>,
    parent: int,
    cs: Seq<usize>,
)
    requires
        nodes2.len() == nodes.len(),
        forall|k: int| 0 <= k < nodes.len() ==> (#[trigger] nodes2[k]).children == nodes[k].children,
    ensures
        dfs_list(nodes2, parent, cs) == dfs_list(nodes, parent, cs),
    decreases nodes.len() - parent, 0int, cs.len(),
{
    if cs.len() > 0 {
        lemma_dfs_list_same_children(nodes, nodes2, parent, cs.drop_last());
        let c = cs.last() as int;
        if parent < c < nodes.len() {
            lemma_dfs_same_children(nodes, nodes2, c);
        }
    }
}

/// Visibility after the entry `i`, the visible entry at `pos`, becomes a
/// tombstone.
proof fn lemma_visible_remove(
    nodes: Seq<NodeView>,
    nodes2: Seq<NodeView>,
    s: Seq<usize>,
    i: usize,
    pos: int,
)
    requires
        no_dup(s),
        forall|k: int|
            0 <= k < s.len() && s[k] != i ==> nodes2[#[trigger] s[k] as int].tombstone
                == nodes[s[k] as int].tombstone,
        nodes2[i as int].tombstone,
        no_dup(visible(nodes, s)),
        0 <= pos < visible(nodes, s).len(),
        visible(nodes, s)[pos] == i,
    ensures
        visible(nodes2, s) == visible(nodes, s).remove(pos),
    decreases s.len(),
{
    let vis = visible(nodes, s);
    let front = s.drop_last();
    let last = s.last();
    let vf = visible(nodes, front);
    assert(no_dup(front)) by {
        assert forall|a: int, b: int| 0 <= a < front.len() && 0 <= b < front.len() && a != b implies front[a]
            != front[b] by {
            assert(front[a] == s[a]);
            assert(front[b] == s[b]);
        }
    }
    assert forall|k: int| 0 <= k < front.len() && front[k] != i implies nodes2[#[trigger] front[k] as int].tombstone
        == nodes[front[k] as int].tombstone by {
        assert(front[k] == s[k]);
    }
    if last == i {
        assert(!front.contains(i)) by {
            if front.contains(i) {
                let k = choose|k: int| 0 <= k < front.len() && front[k] == i;
                assert(s[k] == s[s.len() - 1]);
            }
        }
        assert forall|k: int| 0 <= k < front.len() implies nodes2[#[trigger] front[k] as int].tombstone
            == nodes[front[k] as int].tombstone by {
            assert(front[k] != i);
        }
        lemma_visible_same(nodes, nodes2, front);
        assert(!nodes[i as int].tombstone) by {
            if nodes[i as int].tombstone {
                assert(vis == vf);
                crate::model::lemma_visible_sub(nodes, front);
                assert(front.contains(vf[pos]));
            }
        }
        assert(vis == vf.push(i));
        assert(pos == vis.len() - 1) by {
            if pos != vis.len() - 1 {
                assert(vis[pos] == vis[vis.len() - 1]);
            }
        }
        assert(vis.remove(pos) =~= vf);
    } else {
        assert(nodes2[s[s.len() - 1] as int].tombstone == nodes[s[s.len() - 1] as int].tombstone);
        if nodes[last as int].tombstone {
            assert(vis == vf);
            lemma_visible_remove(nodes, nodes2, front, i, pos);
        } else {
            assert(vis == vf.push(last));
            assert(pos < vf.len()) by {
                if pos == vf.len() {
                    assert(vis[pos] == last);
                }
            }
            assert(no_dup(vf)) by {
                assert forall|a: int, b: int| 0 <= a < vf.len() && 0 <= b < vf.len() && a != b implies vf[a]
                    != vf[b] by {
                    assert(vis[a] == vf[a]);
                    assert(vis[b] == vf[b]);
                }
            }
            lemma_visible_remove(nodes, nodes2, front, i, pos);
            assert(vf.remove(pos).push(last) =~= vis.remove(pos));
        }
    }
}

/// The text after deleting the visible character at position `pos`
/// (counting from 0): that character is gone.
pub proof fn lemma_delete_text(v: RgaView, pos: int, by: IdView)
    requires
        wf(v),
        0 <= pos < text(v).len(),
        by != v.nodes[visible_order(v)[pos] as int].id,
    ensures
        delete_spec(v, v.nodes[visible_order(v)[pos] as int].id, by) is Ok,
        text(delete_spec(v, v.nodes[visible_order(v)[pos] as int].id, by)->Ok_0) == text(v).remove(
            pos,
        ),
{
    let nodes = v.nodes;
    let ord = order(v);
    let vis = visible_order(v);
    lemma_order_range(v);
    lemma_order_shape(v);
    crate::model::lemma_visible_sub(nodes, ord);
    lemma_visible_order_no_dup(v);
    assert forall|k: int| 0 <= k < vis.len() implies 0 <= #[trigger] vis[k] < nodes.len() by {
        assert(ord.contains(vis[k]));
    }
    let i = vis[pos];
    let target = nodes[i as int].id;
    lemma_index_of_unique(nodes, i as int);
    let v2 = delete_spec(v, target, by)->Ok_0;
    let nodes2 = v2.nodes;
    lemma_dfs_list_same_children(nodes, nodes2, -1, v.roots);
    assert(order(v2) == ord);
    lemma_visible_remove(nodes, nodes2, ord, i, pos);
    let t2 = text(v2);
    let t1 = text(v).remove(pos);
    assert(t2.len() == t1.len());
    assert forall|k: int| 0 <= k < t2.len() implies t2[k] == t1[k] by {
        let j = if k < pos { k } else { k + 1 };
        assert(visible(nodes2, ord)[k] == vis[j]);
    }
    assert(t2 =~= t1);
}

} // verus!
