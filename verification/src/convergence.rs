//! Convergence: two operations that can be applied in either order give the
//! same document, whatever the order.
//!
//! The document order of a well-formed tree depends only on the nodes' ids,
//! anchors and flags, not on the positions at which they are stored. Two trees
//! whose nodes correspond one to one under a renumbering therefore have the
//! same order of ids and the same text.
use vstd::prelude::*;
use crate::id::IdView;
use crate::id::id_lt;
use crate::id::lemma_id_lt_asymmetric;
use crate::id::lemma_id_lt_irreflexive;
use crate::model::NodeView;
use crate::model::RgaView;
use crate::model::wf;
use crate::model::list_ok;
use crate::model::belongs;
use crate::model::sorted_desc;
use crate::model::dfs;
use crate::model::dfs_list;
use crate::model::order;
use crate::model::visible;
use crate::model::text;
use crate::model::has_id;
use crate::model::index_of;
use crate::model::insert_spec;
use crate::model::delete_spec;
use crate::model::lemma_index_of_unique;
use crate::model::lemma_insert_wf;
use crate::model::lemma_delete_wf;
use crate::op::OpView;
use crate::op::apply_op;

verus! {

/// The ids of the nodes in document order.
pub open spec fn order_ids(v: RgaView) -> Seq<IdView> {
    order(v).map_values(|i: usize| v.nodes[i as int].id)
}

/// A renumbering of the node indices `0..len` that is its own inverse and
/// keeps the top level (-1) in place.
pub open spec fn involution(f: spec_fn(int) -> int, len: int) -> bool {
    &&& f(-1) == -1
    &&& forall|x: int| 0 <= x < len ==> 0 <= #[trigger] f(x) < len && f(f(x)) == x
}

/// A sequence of indices renumbered by `f`.
pub open spec fn relabel(s: Seq<usize>, f: spec_fn(int) -> int) -> Seq<usize> {
    s.map_values(|x: usize| f(x as int) as usize)
}

/// Two nodes with the same character, flag, anchor and id.
pub open spec fn corresponds(a: NodeView, b: NodeView) -> bool {
    &&& a.value == b.value
    &&& a.tombstone == b.tombstone
    &&& a.left == b.left
    &&& a.id == b.id
}

/// A renumbering of the node indices `0..len` that is one-to-one and onto and
/// keeps the top level (-1) in place.
pub open spec fn bijection(f: spec_fn(int) -> int, len: int) -> bool {
    &&& f(-1) == -1
    &&& forall|x: int| 0 <= x < len ==> 0 <= #[trigger] f(x) < len
    &&& forall|x: int, y: int|
        0 <= x < len && 0 <= y < len && #[trigger] f(x) == #[trigger] f(y) ==> x == y
    &&& forall|y: int| 0 <= y < len ==> #[trigger] reached(f, len, y)
}

/// Some index of `0..len` is renumbered to `y`.
pub open spec fn reached(f: spec_fn(int) -> int, len: int, y: int) -> bool {
    exists|x: int| 0 <= x < len && #[trigger] f(x) == y
}

/// A renumbering that is its own inverse is one-to-one and onto.
pub proof fn lemma_involution_bijection(f: spec_fn(int) -> int, len: int)
    requires
        involution(f, len),
    ensures
        bijection(f, len),
{
    assert forall|x: int, y: int|
        0 <= x < len && 0 <= y < len && #[trigger] f(x) == #[trigger] f(y) implies x == y by {
        assert(f(f(x)) == x);
        assert(f(f(y)) == y);
    }
    assert forall|y: int| 0 <= y < len implies #[trigger] reached(f, len, y) by {
        assert(f(f(y)) == y);
    }
}

/// Node `f(i)` of `a` corresponds to node `i` of `b`, for every node.
pub open spec fn renumbered(a: RgaView, b: RgaView, f: spec_fn(int) -> int) -> bool {
    &&& a.nodes.len() == b.nodes.len()
    &&& bijection(f, a.nodes.len() as int)
    &&& forall|i: int| 0 <= i < b.nodes.len() ==> corresponds(a.nodes[f(i)], #[trigger] b.nodes[i])
}

/// Two lists sorted by decreasing id with the same entries are equal.
pub proof fn lemma_sorted_unique(nodes: Seq<NodeView>, a: Seq<usize>, b: Seq<usize>)
    requires
        sorted_desc(nodes, a),
        sorted_desc(nodes, b),
        forall|x: usize| a.contains(x) <==> b.contains(x),
    ensures
        a == b,
    decreases a.len() + b.len(),
{
    if a.len() == 0 {
        if b.len() > 0 {
            assert(b.contains(b[0]));
        }
        assert(a =~= b);
    } else if b.len() == 0 {
        assert(a.contains(a[0]));
    } else {
        assert(a.contains(a[0]));
        assert(b.contains(b[0]));
        let ka = choose|k: int| 0 <= k < a.len() && a[k] == b[0];
        let kb = choose|k: int| 0 <= k < b.len() && b[k] == a[0];
        if kb > 0 && ka > 0 {
            assert(id_lt(nodes[b[kb] as int].id, nodes[b[0] as int].id));
            assert(id_lt(nodes[a[ka] as int].id, nodes[a[0] as int].id));
            lemma_id_lt_asymmetric(nodes[a[0] as int].id, nodes[b[0] as int].id);
        }
        assert(a[0] == b[0]) by {
            if kb > 0 && ka == 0 {
            } else if ka > 0 && kb == 0 {
            }
        }
        let a2 = a.drop_first();
        let b2 = b.drop_first();
        assert forall|x: usize| a2.contains(x) <==> b2.contains(x) by {
            if a2.contains(x) {
                let k = choose|k: int| 0 <= k < a2.len() && a2[k] == x;
                assert(a[k + 1] == x);
                assert(b.contains(x));
                let j = choose|j: int| 0 <= j < b.len() && b[j] == x;
                if j == 0 {
                    assert(id_lt(nodes[a[k + 1] as int].id, nodes[a[0] as int].id));
                    lemma_id_lt_irreflexive(nodes[x as int].id);
                } else {
                    assert(b2[j - 1] == x);
                }
            }
            if b2.contains(x) {
                let k = choose|k: int| 0 <= k < b2.len() && b2[k] == x;
                assert(b[k + 1] == x);
                assert(a.contains(x));
                let j = choose|j: int| 0 <= j < a.len() && a[j] == x;
                if j == 0 {
                    assert(id_lt(nodes[b[k + 1] as int].id, nodes[b[0] as int].id));
                    lemma_id_lt_irreflexive(nodes[x as int].id);
                } else {
                    assert(a2[j - 1] == x);
                }
            }
        }
        assert(sorted_desc(nodes, a2)) by {
            assert forall|p: int, q: int| 0 <= p < q < a2.len() implies id_lt(
                #[trigger] nodes[a2[q] as int].id,
                #[trigger] nodes[a2[p] as int].id,
            ) by {
                assert(a2[p] == a[p + 1] && a2[q] == a[q + 1]);
            }
        }
        assert(sorted_desc(nodes, b2)) by {
            assert forall|p: int, q: int| 0 <= p < q < b2.len() implies id_lt(
                #[trigger] nodes[b2[q] as int].id,
                #[trigger] nodes[b2[p] as int].id,
            ) by {
                assert(b2[p] == b[p + 1] && b2[q] == b[q + 1]);
            }
        }
        lemma_sorted_unique(nodes, a2, b2);
        assert(a =~= seq![a[0]] + a2);
        assert(b =~= seq![b[0]] + b2);
    }
}

/// In renumbered well-formed trees, a child list of `a` is the renumbered child
/// list of the corresponding node of `b` (`parent` -1 stands for the roots).
pub proof fn lemma_renumbered_list(
    a: RgaView,
    b: RgaView,
    f: spec_fn(int) -> int,
    ca: Seq<usize>,
    cb: Seq<usize>,
    parent: int,
)
    requires
        wf(a),
        wf(b),
        renumbered(a, b, f),
        -1 <= parent < b.nodes.len(),
        list_ok(a.nodes, ca, f(parent)),
        list_ok(b.nodes, cb, parent),
    ensures
        ca == relabel(cb, f),
{
    let n = b.nodes.len() as int;
    let r = relabel(cb, f);
    assert forall|k: int| 0 <= k < cb.len() implies 0 <= #[trigger] f(cb[k] as int) < n
        && corresponds(a.nodes[f(cb[k] as int)], b.nodes[cb[k] as int]) by {
        assert(parent < cb[k] < n);
    }
    assert(forall|k: int| 0 <= k < r.len() ==> #[trigger] r[k] == f(cb[k] as int) as usize);
    if parent >= 0 {
        assert(corresponds(a.nodes[f(parent)], b.nodes[parent]));
    }
    assert(sorted_desc(a.nodes, r)) by {
        assert forall|p: int, q: int| 0 <= p < q < r.len() implies id_lt(
            #[trigger] a.nodes[r[q] as int].id,
            #[trigger] a.nodes[r[p] as int].id,
        ) by {
            assert(id_lt(b.nodes[cb[q] as int].id, b.nodes[cb[p] as int].id));
        }
    }
    assert forall|x: usize| ca.contains(x) <==> r.contains(x) by {
        if ca.contains(x) {
            let k = choose|k: int| 0 <= k < ca.len() && ca[k] == x;
            assert(f(parent) < ca[k] < n && belongs(a.nodes, ca[k] as int, f(parent)));
            assert(0 <= x < n);
            assert(reached(f, n, x as int));
            let y = choose|y: int| 0 <= y < n && #[trigger] f(y) == x as int;
            assert(corresponds(a.nodes[f(y)], b.nodes[y]));
            assert(belongs(b.nodes, y, parent));
            assert(cb.contains(y as usize));
            let j = choose|j: int| 0 <= j < cb.len() && cb[j] == y as usize;
            assert(r[j] == x);
        }
        if r.contains(x) {
            let k = choose|k: int| 0 <= k < r.len() && r[k] == x;
            let y = cb[k] as int;
            assert(belongs(b.nodes, y, parent));
            assert(belongs(a.nodes, x as int, f(parent)));
        }
    }
    lemma_sorted_unique(a.nodes, ca, r);
}

/// Renumbering commutes with traversal.
pub proof fn lemma_renumbered_dfs(a: RgaView, b: RgaView, f: spec_fn(int) -> int, i: int)
    requires
        wf(a),
        wf(b),
        renumbered(a, b, f),
        0 <= i < b.nodes.len(),
    ensures
        dfs(a.nodes, f(i)) == relabel(dfs(b.nodes, i), f),
    decreases b.nodes.len() - i, 1int, 0int,
{
    let cb = b.nodes[i].children;
    let ca = a.nodes[f(i)].children;
    assert(0 <= f(i) < a.nodes.len());
    assert(list_ok(a.nodes, ca, f(i)));
    assert(list_ok(b.nodes, cb, i));
    lemma_renumbered_list(a, b, f, ca, cb, i);
    assert forall|k: int| 0 <= k < cb.len() implies i < #[trigger] cb[k] < b.nodes.len() && f(i) < f(
        cb[k] as int,
    ) by {
        assert(ca[k] == relabel(cb, f)[k]);
        assert(0 <= f(cb[k] as int) < a.nodes.len());
    }
    lemma_renumbered_dfs_list(a, b, f, i, cb);
    assert(relabel(seq![i as usize] + dfs_list(b.nodes, i, cb), f) =~= seq![f(i) as usize]
        + relabel(dfs_list(b.nodes, i, cb), f));
}

/// Renumbering commutes with the traversal of a prefix of a child list.
pub proof fn lemma_renumbered_dfs_list(
    a: RgaView,
    b: RgaView,
    f: spec_fn(int) -> int,
    parent: int,
    cs: Seq<usize>,
)
    requires
        wf(a),
        wf(b),
        renumbered(a, b, f),
        -1 <= parent < b.nodes.len(),
        forall|k: int|
            0 <= k < cs.len() ==> parent < #[trigger] cs[k] < b.nodes.len() && f(parent) < f(
                cs[k] as int,
            ),
    ensures
        dfs_list(a.nodes, f(parent), relabel(cs, f)) == relabel(dfs_list(b.nodes, parent, cs), f),
    decreases b.nodes.len() - parent, 0int, cs.len(),
{
    let r = relabel(cs, f);
    if cs.len() == 0 {
        assert(r =~= Seq::<usize>::empty());
        assert(relabel(Seq::<usize>::empty(), f) =~= Seq::<usize>::empty());
    } else {
        let front = cs.drop_last();
        let c = cs.last() as int;
        assert(r.drop_last() =~= relabel(front, f));
        assert(r.last() == f(c) as usize);
        assert(parent < c < b.nodes.len());
        assert(0 <= f(c) < a.nodes.len());
        lemma_renumbered_dfs_list(a, b, f, parent, front);
        lemma_renumbered_dfs(a, b, f, c);
        assert(relabel(dfs_list(b.nodes, parent, front) + dfs(b.nodes, c), f) =~= relabel(
            dfs_list(b.nodes, parent, front),
            f,
        ) + relabel(dfs(b.nodes, c), f));
    }
}

/// Renumbering commutes with keeping the visible entries.
pub proof fn lemma_renumbered_visible(
    a: RgaView,
    b: RgaView,
    f: spec_fn(int) -> int,
    o: Seq<usize>,
)
    requires
        renumbered(a, b, f),
        b.nodes.len() <= usize::MAX,
        forall|k: int| 0 <= k < o.len() ==> 0 <= #[trigger] o[k] < b.nodes.len(),
    ensures
        visible(a.nodes, relabel(o, f)) == relabel(visible(b.nodes, o), f),
    decreases o.len(),
{
    if o.len() == 0 {
        assert(relabel(o, f) =~= Seq::<usize>::empty());
        assert(relabel(Seq::<usize>::empty(), f) =~= Seq::<usize>::empty());
    } else {
        let front = o.drop_last();
        assert(relabel(o, f).drop_last() =~= relabel(front, f));
        lemma_renumbered_visible(a, b, f, front);
        let x = o.last() as int;
        assert(corresponds(a.nodes[f(x)], b.nodes[x]));
        assert(0 <= f(x) < b.nodes.len());
        assert(relabel(o, f).last() == f(x) as usize);
        assert(f(x) as usize as int == f(x));
        assert(relabel(visible(b.nodes, front).push(x as usize), f) =~= relabel(
            visible(b.nodes, front),
            f,
        ).push(f(x) as usize));
    }
}

/// Renumbered well-formed trees have the same text and the same ids in
/// document order.
pub proof fn lemma_renumbered_same_document(a: RgaView, b: RgaView, f: spec_fn(int) -> int)
    requires
        wf(a),
        wf(b),
        renumbered(a, b, f),
    ensures
        text(a) == text(b),
        order_ids(a) == order_ids(b),
{
    assert(list_ok(a.nodes, a.roots, f(-1)));
    assert(list_ok(b.nodes, b.roots, -1));
    lemma_renumbered_list(a, b, f, a.roots, b.roots, -1);
    assert forall|k: int| 0 <= k < b.roots.len() implies -1 < #[trigger] b.roots[k] < b.nodes.len()
        && f(-1) < f(b.roots[k] as int) by {
        let r = relabel(b.roots, f);
        assert(r[k] == a.roots[k]);
        assert(-1 < a.roots[k] < a.nodes.len());
    }
    lemma_renumbered_dfs_list(a, b, f, -1, b.roots);
    let ob = order(b);
    let oa = order(a);
    assert(oa == relabel(ob, f));
    crate::model::lemma_order_range(b);
    lemma_renumbered_visible(a, b, f, ob);
    let vb = visible(b.nodes, ob);
    crate::model::lemma_visible_sub(b.nodes, ob);
    assert forall|k: int| 0 <= k < vb.len() implies a.nodes[f(vb[k] as int) as usize as int].value
        == b.nodes[#[trigger] vb[k] as int].value by {
        assert(ob.contains(vb[k]));
        assert(corresponds(a.nodes[f(vb[k] as int)], b.nodes[vb[k] as int]));
    }
    assert(text(a) =~= text(b));
    assert forall|k: int| 0 <= k < ob.len() implies a.nodes[oa[k] as int].id == b.nodes[#[trigger] ob[k] as int].id by {
        assert(corresponds(a.nodes[f(ob[k] as int)], b.nodes[ob[k] as int]));
    }
    assert(order_ids(a) =~= order_ids(b));
}

/// An insert keeps the existing nodes' characters, flags, anchors and ids, and
/// adds the new node at the end.
pub proof fn lemma_insert_fields(v: RgaView, left: Option<IdView>, value: char, id: IdView)
    requires
        insert_spec(v, left, value, id) is Ok,
    ensures
        ({
            let r = insert_spec(v, left, value, id)->Ok_0;
            &&& r.nodes.len() == v.nodes.len() + 1
            &&& forall|i: int| 0 <= i < v.nodes.len() ==> corresponds(#[trigger] r.nodes[i], v.nodes[i])
            &&& corresponds(
                r.nodes[v.nodes.len() as int],
                NodeView {
                    value,
                    tombstone: false,
                    left,
                    id,
                    deleted_by: None,
                    children: Seq::empty(),
                },
            )
        }),
{
    match left {
        None => {},
        Some(l) => {
            let p = index_of(v.nodes, l);
            assert(0 <= p < v.nodes.len());
        },
    }
}

/// A delete sets the flag of its target (an existing node) and keeps the
/// characters, anchors and ids of all nodes and the flags of the others.
pub proof fn lemma_delete_fields(v: RgaView, target: IdView, by: IdView)
    requires
        delete_spec(v, target, by) is Ok,
    ensures
        has_id(v.nodes, target),
        ({
            let r = delete_spec(v, target, by)->Ok_0;
            let t = index_of(v.nodes, target);
            &&& 0 <= t < v.nodes.len()
            &&& r.nodes.len() == v.nodes.len()
            &&& forall|i: int|
                0 <= i < v.nodes.len() && i != t ==> corresponds(#[trigger] r.nodes[i], v.nodes[i])
            &&& r.nodes[t].tombstone
            &&& r.nodes[t].value == v.nodes[t].value
            &&& r.nodes[t].left == v.nodes[t].left
            &&& r.nodes[t].id == v.nodes[t].id
        }),
{
}

/// Applying an operation keeps a tree well-formed and adds at most one node.
pub proof fn lemma_apply_wf(v: RgaView, op: OpView)
    requires
        wf(v),
        v.nodes.len() < usize::MAX,
        apply_op(v, op) is Ok,
    ensures
        wf(apply_op(v, op)->Ok_0),
        apply_op(v, op)->Ok_0.nodes.len() <= v.nodes.len() + 1,
{
    match op {
        OpView::Insert { left, value, id } => {
            lemma_insert_wf(v, left, value, id);
            lemma_insert_fields(v, left, value, id);
        },
        OpView::Delete { target, id } => {
            lemma_delete_wf(v, target, id);
        },
    }
}

/// In a well-formed tree the node with a given id stays at the same index
/// across operations that keep ids.
proof fn lemma_index_stable(v: RgaView, w: RgaView, t: int)
    requires
        wf(w),
        0 <= t < v.nodes.len() <= w.nodes.len(),
        w.nodes[t].id == v.nodes[t].id,
    ensures
        index_of(w.nodes, v.nodes[t].id) == t,
        has_id(w.nodes, v.nodes[t].id),
{
    lemma_index_of_unique(w.nodes, t);
}

/// An insert and a delete that succeed in both orders give renumbered trees
/// (under the identity).
proof fn lemma_insert_delete_renumbered(
    v: RgaView,
    left: Option<IdView>,
    value: char,
    id: IdView,
    target: IdView,
    by: IdView,
)
    requires
        wf(v),
        v.nodes.len() + 2 <= usize::MAX,
        insert_spec(v, left, value, id) is Ok,
        delete_spec(insert_spec(v, left, value, id)->Ok_0, target, by) is Ok,
        delete_spec(v, target, by) is Ok,
        insert_spec(delete_spec(v, target, by)->Ok_0, left, value, id) is Ok,
    ensures
        ({
            let a = delete_spec(insert_spec(v, left, value, id)->Ok_0, target, by)->Ok_0;
            let b = insert_spec(delete_spec(v, target, by)->Ok_0, left, value, id)->Ok_0;
            wf(a) && wf(b) && renumbered(a, b, |x: int| x)
        }),
{
    let v1 = insert_spec(v, left, value, id)->Ok_0;
    let a = delete_spec(v1, target, by)->Ok_0;
    let v2 = delete_spec(v, target, by)->Ok_0;
    let b = insert_spec(v2, left, value, id)->Ok_0;
    lemma_insert_wf(v, left, value, id);
    lemma_delete_wf(v1, target, by);
    lemma_delete_wf(v, target, by);
    lemma_insert_wf(v2, left, value, id);
    lemma_insert_fields(v, left, value, id);
    lemma_insert_fields(v2, left, value, id);
    lemma_delete_fields(v, target, by);
    lemma_delete_fields(v1, target, by);
    let t = index_of(v.nodes, target);
    assert(v.nodes[t].id == target);
    lemma_index_stable(v, v1, t);
    let n = v.nodes.len() as int;
    lemma_involution_bijection(|x: int| x, b.nodes.len() as int);
    assert forall|i: int| 0 <= i < b.nodes.len() implies corresponds(
        a.nodes[(|x: int| x)(i)],
        #[trigger] b.nodes[i],
    ) by {
        if i < n && i != t {
            assert(corresponds(a.nodes[i], v1.nodes[i]));
            assert(corresponds(v1.nodes[i], v.nodes[i]));
            assert(corresponds(b.nodes[i], v2.nodes[i]));
            assert(corresponds(v2.nodes[i], v.nodes[i]));
        } else if i == t {
            assert(corresponds(b.nodes[i], v2.nodes[i]));
            assert(corresponds(v1.nodes[i], v.nodes[i]));
        } else {
            assert(corresponds(a.nodes[i], v1.nodes[i]));
        }
    }
}

/// Two operations that both succeed in either order on a well-formed tree
/// give the same text and the same ids in document order, whichever order they
/// are applied in.
pub proof fn lemma_concurrent_ops_converge(v: RgaView, x: OpView, y: OpView)
    requires
        wf(v),
        v.nodes.len() + 2 <= usize::MAX,
        apply_op(v, x) is Ok,
        apply_op(apply_op(v, x)->Ok_0, y) is Ok,
        apply_op(v, y) is Ok,
        apply_op(apply_op(v, y)->Ok_0, x) is Ok,
    ensures
        text(apply_op(apply_op(v, x)->Ok_0, y)->Ok_0) == text(
            apply_op(apply_op(v, y)->Ok_0, x)->Ok_0,
        ),
        order_ids(apply_op(apply_op(v, x)->Ok_0, y)->Ok_0) == order_ids(
            apply_op(apply_op(v, y)->Ok_0, x)->Ok_0,
        ),
{
    let vx = apply_op(v, x)->Ok_0;
    let vy = apply_op(v, y)->Ok_0;
    let a = apply_op(vx, y)->Ok_0;
    let b = apply_op(vy, x)->Ok_0;
    lemma_apply_wf(v, x);
    lemma_apply_wf(v, y);
    lemma_apply_wf(vx, y);
    lemma_apply_wf(vy, x);
    let n = v.nodes.len() as int;
    match (x, y) {
        (
            OpView::Insert { left: lx, value: cx, id: ix },
            OpView::Insert { left: ly, value: cy, id: iy },
        ) => {
            lemma_insert_fields(v, lx, cx, ix);
            lemma_insert_fields(v, ly, cy, iy);
            lemma_insert_fields(vx, ly, cy, iy);
            lemma_insert_fields(vy, lx, cx, ix);
            let f = |i: int|
                if i == n {
                    n + 1
                } else if i == n + 1 {
                    n
                } else {
                    i
                };
            assert forall|i: int| 0 <= i < b.nodes.len() implies corresponds(
                a.nodes[f(i)],
                #[trigger] b.nodes[i],
            ) by {
                if i < n {
                    assert(corresponds(a.nodes[i], vx.nodes[i]));
                    assert(corresponds(vx.nodes[i], v.nodes[i]));
                    assert(corresponds(b.nodes[i], vy.nodes[i]));
                    assert(corresponds(vy.nodes[i], v.nodes[i]));
                } else if i == n {
                    assert(corresponds(b.nodes[n], vy.nodes[n]));
                } else {
                    assert(corresponds(a.nodes[n], vx.nodes[n]));
                }
            }
            lemma_involution_bijection(f, b.nodes.len() as int);
            lemma_renumbered_same_document(a, b, f);
        },
        (OpView::Insert { left, value, id }, OpView::Delete { target, id: by }) => {
            lemma_insert_delete_renumbered(v, left, value, id, target, by);
            lemma_renumbered_same_document(a, b, |i: int| i);
        },
        (OpView::Delete { target, id: by }, OpView::Insert { left, value, id }) => {
            lemma_insert_delete_renumbered(v, left, value, id, target, by);
            lemma_renumbered_same_document(b, a, |i: int| i);
        },
        (OpView::Delete { target: tx, id: bx }, OpView::Delete { target: ty, id: by }) => {
            lemma_delete_fields(v, tx, bx);
            lemma_delete_fields(v, ty, by);
            lemma_delete_fields(vx, ty, by);
            lemma_delete_fields(vy, tx, bx);
            let t1 = index_of(v.nodes, tx);
            let t2 = index_of(v.nodes, ty);
            lemma_index_stable(v, vx, t2);
            lemma_index_stable(v, vy, t1);
            assert forall|i: int| 0 <= i < b.nodes.len() implies corresponds(
                a.nodes[(|j: int| j)(i)],
                #[trigger] b.nodes[i],
            ) by {
                if i != t1 && i != t2 {
                    assert(corresponds(a.nodes[i], vx.nodes[i]));
                    assert(corresponds(vx.nodes[i], v.nodes[i]));
                    assert(corresponds(b.nodes[i], vy.nodes[i]));
                    assert(corresponds(vy.nodes[i], v.nodes[i]));
                }
            }
            lemma_involution_bijection(|i: int| i, b.nodes.len() as int);
            lemma_renumbered_same_document(a, b, |i: int| i);
        },
    }
}


/// Two inserts with distinct new ids, each anchored at the top level or at a
/// node already in the tree (so neither anchors on the other), both succeed
/// in either order and give the same text and the same ids in document order.
pub proof fn lemma_concurrent_inserts_converge(
    v: RgaView,
    l1: Option<IdView>,
    c1: char,
    id1: IdView,
    l2: Option<IdView>,
    c2: char,
    id2: IdView,
)
    requires
        wf(v),
        v.nodes.len() + 2 <= usize::MAX,
        id1 != id2,
        !has_id(v.nodes, id1),
        !has_id(v.nodes, id2),
        l1 matches Some(l) ==> has_id(v.nodes, l),
        l2 matches Some(l) ==> has_id(v.nodes, l),
    ensures
        insert_spec(v, l1, c1, id1) is Ok,
        insert_spec(insert_spec(v, l1, c1, id1)->Ok_0, l2, c2, id2) is Ok,
        insert_spec(v, l2, c2, id2) is Ok,
        insert_spec(insert_spec(v, l2, c2, id2)->Ok_0, l1, c1, id1) is Ok,
        text(insert_spec(insert_spec(v, l1, c1, id1)->Ok_0, l2, c2, id2)->Ok_0) == text(
            insert_spec(insert_spec(v, l2, c2, id2)->Ok_0, l1, c1, id1)->Ok_0,
        ),
        order_ids(insert_spec(insert_spec(v, l1, c1, id1)->Ok_0, l2, c2, id2)->Ok_0) == order_ids(
            insert_spec(insert_spec(v, l2, c2, id2)->Ok_0, l1, c1, id1)->Ok_0,
        ),
{
    let v1 = insert_spec(v, l1, c1, id1)->Ok_0;
    let v2 = insert_spec(v, l2, c2, id2)->Ok_0;
    lemma_insert_fields(v, l1, c1, id1);
    lemma_insert_fields(v, l2, c2, id2);
    let n = v.nodes.len() as int;
    // the ids of the grown trees: the old ones and the new one
    assert(!has_id(v1.nodes, id2)) by {
        if has_id(v1.nodes, id2) {
            let j = choose|j: int| 0 <= j < v1.nodes.len() && v1.nodes[j].id == id2;
            if j < n {
                assert(corresponds(v1.nodes[j], v.nodes[j]));
            }
        }
    }
    assert(!has_id(v2.nodes, id1)) by {
        if has_id(v2.nodes, id1) {
            let j = choose|j: int| 0 <= j < v2.nodes.len() && v2.nodes[j].id == id1;
            if j < n {
                assert(corresponds(v2.nodes[j], v.nodes[j]));
            }
        }
    }
    match l2 {
        None => {},
        Some(l) => {
            let j = choose|j: int| 0 <= j < n && v.nodes[j].id == l;
            assert(corresponds(v1.nodes[j], v.nodes[j]));
            assert(v1.nodes[j].id == l);
        },
    }
    match l1 {
        None => {},
        Some(l) => {
            let j = choose|j: int| 0 <= j < n && v.nodes[j].id == l;
            assert(corresponds(v2.nodes[j], v.nodes[j]));
            assert(v2.nodes[j].id == l);
        },
    }
    let x = OpView::Insert { left: l1, value: c1, id: id1 };
    let y = OpView::Insert { left: l2, value: c2, id: id2 };
    lemma_concurrent_ops_converge(v, x, y);
}

} // verus!
