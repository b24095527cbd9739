//! Mathematical model of the RGA tree.
//!
//! An [`RgaView`] is the value of an [`crate::rga::Rga`]: the nodes in
//! creation order, each with its character, tombstone flag, anchor (`left`),
//! id, deleting operation and ordered children, plus the ordered root list.
//!
//! A well-formed tree ([`wf`]) has unique ids, every anchor names an earlier
//! node, and every child list holds exactly the nodes anchored at its owner,
//! sorted by decreasing id. The document order is the depth-first traversal
//! ([`order`]); the text is the characters of the visible nodes in that order.
use vstd::prelude::*;
use crate::id::IdView;
use crate::id::id_lt;
use crate::id::lemma_id_lt_total;
use crate::id::lemma_id_lt_transitive;
use crate::rga::RgaError;

verus! {

/// The value of one node of the tree.
pub ghost struct NodeView {
    pub value: char,
    pub tombstone: bool,
    pub left: Option<IdView>,
    pub id: IdView,
    pub deleted_by: Option<IdView>,
    pub children: Seq<usize>,
}

/// The value of a whole tree.
pub ghost struct RgaView {
    pub nodes: Seq<NodeView>,
    pub roots: Seq<usize>,
}

/// Some node has the id `id`.
pub open spec fn has_id(nodes: Seq<NodeView>, id: IdView) -> bool {
    exists|i: int| 0 <= i < nodes.len() && nodes[i].id == id
}

/// The index of the node with id `id` (meaningful when [`has_id`] holds).
pub open spec fn index_of(nodes: Seq<NodeView>, id: IdView) -> int {
    choose|i: int| 0 <= i < nodes.len() && nodes[i].id == id
}

/// No two nodes share an id.
pub open spec fn ids_unique(nodes: Seq<NodeView>) -> bool {
    forall|i: int, j: int|
        0 <= i < nodes.len() && 0 <= j < nodes.len() && i != j ==> nodes[i].id != nodes[j].id
}

/// The indices in `cs` name nodes in strictly decreasing id order.
pub open spec fn sorted_desc(nodes: Seq<NodeView>, cs: Seq<usize>) -> bool {
    forall|a: int, b: int|
        0 <= a < b < cs.len() ==> id_lt(
            #[trigger] nodes[cs[b] as int].id,
            #[trigger] nodes[cs[a] as int].id,
        )
}

/// Where a node with id `id` goes in a list sorted by decreasing id: before the
/// first entry whose id precedes `id`.
pub open spec fn insert_pos(nodes: Seq<NodeView>, cs: Seq<usize>, id: IdView) -> int
    decreases cs.len(),
{
    if cs.len() == 0 {
        0
    } else if id_lt(nodes[cs[0] as int].id, id) {
        0
    } else {
        1 + insert_pos(nodes, cs.drop_first(), id)
    }
}

/// `cs` with node `n` inserted at its place in decreasing id order.
pub open spec fn sorted_insert(nodes: Seq<NodeView>, cs: Seq<usize>, n: usize) -> Seq<usize> {
    cs.insert(insert_pos(nodes, cs, nodes[n as int].id), n)
}

/// Node `i` hangs below `parent`: below the node with that index, or at the
/// top level when `parent` is negative.
pub open spec fn belongs(nodes: Seq<NodeView>, i: int, parent: int) -> bool {
    if parent < 0 {
        nodes[i].left is None
    } else {
        nodes[i].left == Some(nodes[parent].id)
    }
}

/// The anchor of node `i`, if any, is an earlier node.
pub open spec fn anchor_ok(nodes: Seq<NodeView>, i: int) -> bool {
    match nodes[i].left {
        None => true,
        Some(l) => has_id(nodes, l) && index_of(nodes, l) < i,
    }
}

/// `cs` is exactly the list of nodes that hang below `parent`, sorted by
/// decreasing id.
pub open spec fn list_ok(nodes: Seq<NodeView>, cs: Seq<usize>, parent: int) -> bool {
    &&& sorted_desc(nodes, cs)
    &&& forall|k: int|
        0 <= k < cs.len() ==> parent < #[trigger] cs[k] < nodes.len() && belongs(
            nodes,
            cs[k] as int,
            parent,
        )
    &&& forall|i: int| 0 <= i < nodes.len() && #[trigger] belongs(nodes, i, parent) ==> cs.contains(i as usize)
}

/// A node is a tombstone exactly when some operation has deleted it.
pub open spec fn flags_ok(n: NodeView) -> bool {
    n.tombstone <==> n.deleted_by is Some
}

/// Well-formedness of a tree.
pub open spec fn wf(v: RgaView) -> bool {
    &&& v.nodes.len() <= usize::MAX
    &&& ids_unique(v.nodes)
    &&& forall|i: int| 0 <= i < v.nodes.len() ==> #[trigger] anchor_ok(v.nodes, i)
    &&& forall|i: int| 0 <= i < v.nodes.len() ==> #[trigger] flags_ok(v.nodes[i])
    &&& forall|j: int| 0 <= j < v.nodes.len() ==> #[trigger] list_ok(v.nodes, v.nodes[j].children, j)
    &&& list_ok(v.nodes, v.roots, -1)
}

/// The empty tree.
pub open spec fn empty_view() -> RgaView {
    RgaView { nodes: Seq::empty(), roots: Seq::empty() }
}

/// The tree after adding a fresh leaf, hung below `parent` (an index, or `None`
/// for the top level).
pub open spec fn add_leaf(
    v: RgaView,
    parent: Option<int>,
    value: char,
    left: Option<IdView>,
    id: IdView,
) -> RgaView {
    let n = v.nodes.len() as usize;
    let nodes = v.nodes.push(
        NodeView { value, tombstone: false, left, id, deleted_by: None, children: Seq::empty() },
    );
    match parent {
        None => RgaView { nodes, roots: sorted_insert(nodes, v.roots, n) },
        Some(p) => RgaView {
            nodes: nodes.update(
                p,
                NodeView { children: sorted_insert(nodes, nodes[p].children, n), ..nodes[p] },
            ),
            roots: v.roots,
        },
    }
}

/// What inserting `value` with id `id` to the right of `left` does to a tree.
pub open spec fn insert_spec(
    v: RgaView,
    left: Option<IdView>,
    value: char,
    id: IdView,
) -> Result<RgaView, RgaError> {
    if has_id(v.nodes, id) {
        Err(RgaError::DuplicateNode)
    } else {
        match left {
            None => Ok(add_leaf(v, None, value, left, id)),
            Some(l) => if has_id(v.nodes, l) {
                Ok(add_leaf(v, Some(index_of(v.nodes, l)), value, left, id))
            } else {
                Err(RgaError::MissingDependency)
            },
        }
    }
}

/// What deleting node `target` by the operation `by` does to a tree.
pub open spec fn delete_spec(v: RgaView, target: IdView, by: IdView) -> Result<RgaView, RgaError> {
    if target == by {
        Err(RgaError::Invalid)
    } else if !has_id(v.nodes, target) {
        Err(RgaError::MissingDependency)
    } else {
        let i = index_of(v.nodes, target);
        Ok(
            RgaView {
                nodes: v.nodes.update(
                    i,
                    NodeView { tombstone: true, deleted_by: Some(by), ..v.nodes[i] },
                ),
                roots: v.roots,
            },
        )
    }
}

/// With unique ids, the index of a node's id is that node's index.
pub proof fn lemma_index_of_unique(nodes: Seq<NodeView>, j: int)
    requires
        ids_unique(nodes),
        0 <= j < nodes.len(),
    ensures
        has_id(nodes, nodes[j].id),
        index_of(nodes, nodes[j].id) == j,
{
    assert(nodes[j].id == nodes[j].id);
}

/// The insertion point of [`insert_pos`]: every entry before it has an id that
/// does not precede `id`, and the entry at it, if any, precedes `id`.
pub proof fn lemma_insert_pos(nodes: Seq<NodeView>, cs: Seq<usize>, id: IdView)
    ensures
        0 <= insert_pos(nodes, cs, id) <= cs.len(),
        forall|k: int|
            0 <= k < insert_pos(nodes, cs, id) ==> !id_lt(#[trigger] nodes[cs[k] as int].id, id),
        insert_pos(nodes, cs, id) < cs.len() ==> id_lt(
            nodes[cs[insert_pos(nodes, cs, id)] as int].id,
            id,
        ),
    decreases cs.len(),
{
    if cs.len() > 0 && !id_lt(nodes[cs[0] as int].id, id) {
        lemma_insert_pos(nodes, cs.drop_first(), id);
        assert forall|k: int| 0 <= k < insert_pos(nodes, cs, id) implies !id_lt(
            #[trigger] nodes[cs[k] as int].id,
            id,
        ) by {
            if k > 0 {
                assert(cs[k] == cs.drop_first()[k - 1]);
            }
        }
    }
}

/// A position with the property of [`lemma_insert_pos`] is the insertion point.
pub proof fn lemma_insert_pos_unique(nodes: Seq<NodeView>, cs: Seq<usize>, id: IdView, p: int)
    requires
        0 <= p <= cs.len(),
        forall|k: int| 0 <= k < p ==> !id_lt(#[trigger] nodes[cs[k] as int].id, id),
        p < cs.len() ==> id_lt(nodes[cs[p] as int].id, id),
    ensures
        insert_pos(nodes, cs, id) == p,
{
    lemma_insert_pos(nodes, cs, id);
    let q = insert_pos(nodes, cs, id);
    if q < p {
        assert(!id_lt(nodes[cs[q] as int].id, id));
    } else if p < q {
        assert(!id_lt(nodes[cs[p] as int].id, id));
    }
}

/// Inserting a node whose id differs from all listed ids into a sorted list
/// keeps it sorted and adds exactly that node.
pub proof fn lemma_sorted_insert(nodes: Seq<NodeView>, cs: Seq<usize>, n: usize)
    requires
        sorted_desc(nodes, cs),
        0 <= n < nodes.len(),
        forall|k: int|
            0 <= k < cs.len() ==> 0 <= #[trigger] cs[k] < nodes.len() && nodes[cs[k] as int].id
                != nodes[n as int].id,
    ensures
        sorted_desc(nodes, sorted_insert(nodes, cs, n)),
        sorted_insert(nodes, cs, n).len() == cs.len() + 1,
        forall|x: usize| #[trigger]
            sorted_insert(nodes, cs, n).contains(x) <==> (cs.contains(x) || x == n),
{
    let id = nodes[n as int].id;
    let p = insert_pos(nodes, cs, id);
    lemma_insert_pos(nodes, cs, id);
    let r = sorted_insert(nodes, cs, n);
    assert forall|k: int| 0 <= k < p implies id_lt(id, #[trigger] nodes[cs[k] as int].id) by {
        lemma_id_lt_total(id, nodes[cs[k] as int].id);
    }
    assert forall|a: int, b: int| 0 <= a < b < r.len() implies id_lt(
        #[trigger] nodes[r[b] as int].id,
        #[trigger] nodes[r[a] as int].id,
    ) by {
        if b < p {
        } else if b == p {
        } else if a < p {
            // r[a] = cs[a], r[b] = cs[b - 1], a <= b - 1
            if a < b - 1 {
            }
        } else if a == p {
            // r[a] = n, r[b] = cs[b - 1] with b - 1 >= p
            if b - 1 > p {
                lemma_id_lt_transitive(
                    nodes[cs[b - 1] as int].id,
                    nodes[cs[p] as int].id,
                    id,
                );
            }
        } else {
        }
    }
    assert forall|x: usize| #[trigger] r.contains(x) <==> (cs.contains(x) || x == n) by {
        if r.contains(x) {
            let k = choose|k: int| 0 <= k < r.len() && r[k] == x;
            if k < p {
                assert(cs[k] == x);
            } else if k > p {
                assert(cs[k - 1] == x);
            }
        }
        if cs.contains(x) {
            let k = choose|k: int| 0 <= k < cs.len() && cs[k] == x;
            if k < p {
                assert(r[k] == x);
            } else {
                assert(r[k + 1] == x);
            }
        }
        if x == n {
            assert(r[p] == x);
        }
    }
}

/// Sortedness depends only on the ids of the listed nodes.
pub proof fn lemma_sorted_desc_same_ids(n1: Seq<NodeView>, n2: Seq<NodeView>, cs: Seq<usize>)
    requires
        sorted_desc(n1, cs),
        forall|k: int|
            0 <= k < cs.len() ==> 0 <= #[trigger] cs[k] < n1.len() && cs[k] < n2.len() && n1[cs[k] as int].id
                == n2[cs[k] as int].id,
    ensures
        sorted_desc(n2, cs),
{
    assert forall|a: int, b: int| 0 <= a < b < cs.len() implies id_lt(
        #[trigger] n2[cs[b] as int].id,
        #[trigger] n2[cs[a] as int].id,
    ) by {
        assert(id_lt(n1[cs[b] as int].id, n1[cs[a] as int].id));
    }
}

/// Adding a fresh leaf keeps a well-formed tree well-formed.
pub proof fn lemma_add_leaf_wf(
    v: RgaView,
    parent: Option<int>,
    value: char,
    left: Option<IdView>,
    id: IdView,
)
    requires
        wf(v),
        v.nodes.len() < usize::MAX,
        !has_id(v.nodes, id),
        match parent {
            None => left is None,
            Some(p) => 0 <= p < v.nodes.len() && left == Some(v.nodes[p].id),
        },
    ensures
        wf(add_leaf(v, parent, value, left, id)),
        add_leaf(v, parent, value, left, id).nodes.len() == v.nodes.len() + 1,
{
    let n = v.nodes.len() as usize;
    let new_node = NodeView {
        value,
        tombstone: false,
        left,
        id,
        deleted_by: None,
        children: Seq::empty(),
    };
    let pushed = v.nodes.push(new_node);
    let r = add_leaf(v, parent, value, left, id);
    let nn = r.nodes;
    assert(nn.len() == n + 1);
    assert forall|i: int| 0 <= i < n + 1 implies #[trigger] nn[i].id == pushed[i].id
        && nn[i].left == pushed[i].left by {}
    // unique ids
    assert forall|i: int, j: int|
        0 <= i < nn.len() && 0 <= j < nn.len() && i != j implies nn[i].id != nn[j].id by {
        if i == n {
            assert(v.nodes[j].id == nn[j].id);
        } else if j == n {
            assert(v.nodes[i].id == nn[i].id);
        }
    }
    // an old anchor is never the new id
    assert forall|i: int| 0 <= i < n && (#[trigger] v.nodes[i].left) is Some implies v.nodes[i].left
        != Some(id) by {
        assert(anchor_ok(v.nodes, i));
    }
    assert forall|i: int| 0 <= i < nn.len() implies #[trigger] flags_ok(nn[i]) by {
        if i < n {
            assert(flags_ok(v.nodes[i]));
            assert(nn[i].tombstone == v.nodes[i].tombstone && nn[i].deleted_by == v.nodes[i].deleted_by);
        }
    }
    // anchors
    assert forall|i: int| 0 <= i < nn.len() implies #[trigger] anchor_ok(nn, i) by {
        match nn[i].left {
            None => {},
            Some(l) => {
                let j = if i == n {
                    parent->0
                } else {
                    assert(anchor_ok(v.nodes, i));
                    index_of(v.nodes, l)
                };
                assert(0 <= j < i);
                assert(nn[j].id == l);
                lemma_index_of_unique(nn, j);
            },
        }
    }
    // per-node child lists
    assert forall|j: int| 0 <= j < nn.len() implies #[trigger] list_ok(nn, nn[j].children, j) by {
        if j == n {
            assert forall|i: int| 0 <= i < nn.len() && #[trigger] belongs(nn, i, j) implies nn[j].children.contains(
                i as usize,
            ) by {
                if i < n {
                    assert(v.nodes[i].left == Some(id));
                } else {
                    match parent {
                        None => {},
                        Some(p) => {
                            assert(v.nodes[p].id == id);
                        },
                    }
                }
            }
        } else {
            assert(list_ok(v.nodes, v.nodes[j].children, j));
            let cs = v.nodes[j].children;
            lemma_sorted_desc_same_ids(v.nodes, nn, cs);
            if parent == Some(j) {
                lemma_sorted_desc_same_ids(v.nodes, pushed, cs);
                lemma_sorted_insert(pushed, cs, n);
                let cs2 = sorted_insert(pushed, cs, n);
                assert(nn[j].children == cs2);
                assert forall|k: int| 0 <= k < cs2.len() implies j < #[trigger] cs2[k] < nn.len()
                    && belongs(nn, cs2[k] as int, j) by {
                    assert(cs2.contains(cs2[k]));
                    if cs2[k] != n {
                        let k2 = choose|k2: int| 0 <= k2 < cs.len() && cs[k2] == cs2[k];
                        assert(belongs(v.nodes, cs[k2] as int, j));
                    }
                }
                lemma_sorted_desc_same_ids(pushed, nn, cs2);
                assert forall|i: int| 0 <= i < nn.len() && #[trigger] belongs(nn, i, j) implies cs2.contains(
                    i as usize,
                ) by {
                    if i < n {
                        assert(belongs(v.nodes, i, j));
                    }
                }
            } else {
                assert(nn[j].children == cs);
                assert forall|k: int| 0 <= k < cs.len() implies j < #[trigger] cs[k] < nn.len()
                    && belongs(nn, cs[k] as int, j) by {
                    assert(belongs(v.nodes, cs[k] as int, j));
                }
                assert forall|i: int| 0 <= i < nn.len() && #[trigger] belongs(nn, i, j) implies cs.contains(
                    i as usize,
                ) by {
                    if i < n {
                        assert(belongs(v.nodes, i, j));
                    } else {
                        match parent {
                            None => {},
                            Some(p) => {
                                lemma_index_of_unique(v.nodes, p);
                                lemma_index_of_unique(v.nodes, j);
                            },
                        }
                    }
                }
            }
        }
    }
    // roots
    let rs = v.roots;
    lemma_sorted_desc_same_ids(v.nodes, nn, rs);
    if parent is None {
        lemma_sorted_desc_same_ids(v.nodes, pushed, rs);
        lemma_sorted_insert(pushed, rs, n);
        let rs2 = sorted_insert(pushed, rs, n);
        assert forall|k: int| 0 <= k < rs2.len() implies -1 < #[trigger] rs2[k] < nn.len() && belongs(
            nn,
            rs2[k] as int,
            -1,
        ) by {
            assert(rs2.contains(rs2[k]));
            if rs2[k] != n {
                let k2 = choose|k2: int| 0 <= k2 < rs.len() && rs[k2] == rs2[k];
                assert(belongs(v.nodes, rs[k2] as int, -1));
            }
        }
        lemma_sorted_desc_same_ids(pushed, nn, rs2);
        assert forall|i: int| 0 <= i < nn.len() && #[trigger] belongs(nn, i, -1) implies rs2.contains(
            i as usize,
        ) by {
            if i < n {
                assert(belongs(v.nodes, i, -1));
            }
        }
    } else {
        assert forall|k: int| 0 <= k < rs.len() implies -1 < #[trigger] rs[k] < nn.len() && belongs(
            nn,
            rs[k] as int,
            -1,
        ) by {
            assert(belongs(v.nodes, rs[k] as int, -1));
        }
        assert forall|i: int| 0 <= i < nn.len() && #[trigger] belongs(nn, i, -1) implies rs.contains(
            i as usize,
        ) by {
            if i < n {
                assert(belongs(v.nodes, i, -1));
            }
        }
    }
}

/// A successful insert keeps a well-formed tree well-formed.
pub proof fn lemma_insert_wf(v: RgaView, left: Option<IdView>, value: char, id: IdView)
    requires
        wf(v),
        v.nodes.len() < usize::MAX,
        insert_spec(v, left, value, id) is Ok,
    ensures
        wf(insert_spec(v, left, value, id)->Ok_0),
{
    match left {
        None => lemma_add_leaf_wf(v, None, value, left, id),
        Some(l) => {
            let p = index_of(v.nodes, l);
            lemma_add_leaf_wf(v, Some(p), value, left, id);
        },
    }
}

/// A successful delete keeps a well-formed tree well-formed.
pub proof fn lemma_delete_wf(v: RgaView, target: IdView, by: IdView)
    requires
        wf(v),
        delete_spec(v, target, by) is Ok,
    ensures
        wf(delete_spec(v, target, by)->Ok_0),
{
    let r = delete_spec(v, target, by)->Ok_0;
    let nn = r.nodes;
    assert forall|i: int| 0 <= i < nn.len() implies #[trigger] nn[i].id == v.nodes[i].id
        && nn[i].left == v.nodes[i].left && nn[i].children == v.nodes[i].children by {}
    assert forall|i: int| 0 <= i < nn.len() implies #[trigger] anchor_ok(nn, i) by {
        assert(anchor_ok(v.nodes, i));
        match nn[i].left {
            None => {},
            Some(l) => {
                let j = index_of(v.nodes, l);
                assert(nn[j].id == l);
                lemma_index_of_unique(nn, j);
            },
        }
    }
    assert forall|j: int| 0 <= j < nn.len() implies #[trigger] list_ok(nn, nn[j].children, j) by {
        assert(list_ok(v.nodes, v.nodes[j].children, j));
        let cs = v.nodes[j].children;
        lemma_sorted_desc_same_ids(v.nodes, nn, cs);
        assert forall|k: int| 0 <= k < cs.len() implies j < #[trigger] cs[k] < nn.len() && belongs(
            nn,
            cs[k] as int,
            j,
        ) by {
            assert(belongs(v.nodes, cs[k] as int, j));
        }
        assert forall|i: int| 0 <= i < nn.len() && #[trigger] belongs(nn, i, j) implies cs.contains(
            i as usize,
        ) by {
            assert(belongs(v.nodes, i, j));
        }
    }
    let rs = v.roots;
    lemma_sorted_desc_same_ids(v.nodes, nn, rs);
    assert forall|k: int| 0 <= k < rs.len() implies -1 < #[trigger] rs[k] < nn.len() && belongs(
        nn,
        rs[k] as int,
        -1,
    ) by {
        assert(belongs(v.nodes, rs[k] as int, -1));
    }
    assert forall|i: int| 0 <= i < nn.len() && #[trigger] belongs(nn, i, -1) implies rs.contains(
        i as usize,
    ) by {
        assert(belongs(v.nodes, i, -1));
    }
}

/// Depth-first traversal from node `i`: the node, then the traversals of its
/// children in list order.
pub open spec fn dfs(nodes: Seq<NodeView>, i: int) -> Seq<usize>
    decreases nodes.len() - i, 1int, 0int,
{
    if 0 <= i < nodes.len() {
        seq![i as usize] + dfs_list(nodes, i, nodes[i].children)
    } else {
        Seq::empty()
    }
}

/// The traversals of the listed children of `parent`, one after the other.
pub open spec fn dfs_list(nodes: Seq<NodeView>, parent: int, cs: Seq<usize>) -> Seq<usize>
    decreases nodes.len() - parent, 0int, cs.len(),
{
    if cs.len() == 0 {
        Seq::empty()
    } else {
        let rest = dfs_list(nodes, parent, cs.drop_last());
        let c = cs.last() as int;
        if parent < c < nodes.len() {
            rest + dfs(nodes, c)
        } else {
            rest
        }
    }
}

/// The document order: the traversal of all top-level nodes.
pub open spec fn order(v: RgaView) -> Seq<usize> {
    dfs_list(v.nodes, -1, v.roots)
}

/// The entries of `ord` whose nodes are not tombstones, in order.
pub open spec fn visible(nodes: Seq<NodeView>, ord: Seq<usize>) -> Seq<usize>
    decreases ord.len(),
{
    if ord.len() == 0 {
        Seq::empty()
    } else {
        let rest = visible(nodes, ord.drop_last());
        if nodes[ord.last() as int].tombstone {
            rest
        } else {
            rest.push(ord.last())
        }
    }
}

/// The characters of the visible entries of `ord`.
pub open spec fn text_of(nodes: Seq<NodeView>, ord: Seq<usize>) -> Seq<char> {
    visible(nodes, ord).map_values(|i: usize| nodes[i as int].value)
}

/// The document text.
pub open spec fn text(v: RgaView) -> Seq<char> {
    text_of(v.nodes, order(v))
}

/// The visible nodes in document order.
pub open spec fn visible_order(v: RgaView) -> Seq<usize> {
    visible(v.nodes, order(v))
}

/// The index of the node at visible position `pos`, counting from 1; `None`
/// for position 0 and beyond the end.
pub open spec fn node_at(v: RgaView, pos: int) -> Option<usize> {
    if 1 <= pos <= visible_order(v).len() {
        Some(visible_order(v)[pos - 1])
    } else {
        None
    }
}

/// Visibility distributes over concatenation.
pub proof fn lemma_visible_append(nodes: Seq<NodeView>, a: Seq<usize>, b: Seq<usize>)
    ensures
        visible(nodes, a + b) == visible(nodes, a) + visible(nodes, b),
    decreases b.len(),
{
    if b.len() == 0 {
        assert(a + b =~= a);
        assert(visible(nodes, a) + visible(nodes, b) =~= visible(nodes, a));
    } else {
        assert((a + b).drop_last() =~= a + b.drop_last());
        lemma_visible_append(nodes, a, b.drop_last());
        if nodes[b.last() as int].tombstone {
        } else {
            assert(visible(nodes, a) + visible(nodes, b.drop_last()).push(b.last()) =~= (
            visible(nodes, a) + visible(nodes, b.drop_last())).push(b.last()));
        }
    }
}

/// Every entry of a traversal from `i` is a node index not below `i`.
pub proof fn lemma_dfs_range(nodes: Seq<NodeView>, i: int)
    requires
        nodes.len() <= usize::MAX,
    ensures
        forall|k: int|
            0 <= k < dfs(nodes, i).len() ==> i <= #[trigger] dfs(nodes, i)[k] < nodes.len(),
    decreases nodes.len() - i, 1int, 0int,
{
    if 0 <= i < nodes.len() {
        let l = dfs_list(nodes, i, nodes[i].children);
        lemma_dfs_list_range(nodes, i, nodes[i].children);
        let d = dfs(nodes, i);
        assert(d == seq![i as usize] + l);
        assert forall|k: int| 0 <= k < d.len() implies i <= #[trigger] d[k] < nodes.len() by {
            if k > 0 {
                assert(d[k] == l[k - 1]);
            }
        }
    }
}

/// Every entry of the traversals of children of `parent` is a node index
/// above `parent`.
pub proof fn lemma_dfs_list_range(nodes: Seq<NodeView>, parent: int, cs: Seq<usize>)
    requires
        nodes.len() <= usize::MAX,
    ensures
        forall|k: int|
            0 <= k < dfs_list(nodes, parent, cs).len() ==> parent < #[trigger] dfs_list(
                nodes,
                parent,
                cs,
            )[k] < nodes.len(),
    decreases nodes.len() - parent, 0int, cs.len(),
{
    if cs.len() > 0 {
        lemma_dfs_list_range(nodes, parent, cs.drop_last());
        let rest = dfs_list(nodes, parent, cs.drop_last());
        let c = cs.last() as int;
        if parent < c < nodes.len() {
            lemma_dfs_range(nodes, c);
            let d = dfs_list(nodes, parent, cs);
            let e = dfs(nodes, c);
            assert(d == rest + e);
            assert forall|k: int| 0 <= k < d.len() implies parent < #[trigger] d[k] < nodes.len() by {
                if k < rest.len() {
                    assert(d[k] == rest[k]);
                } else {
                    assert(d[k] == e[k - rest.len()]);
                }
            }
        }
    }
}

/// Every entry of the document order is a node index.
pub proof fn lemma_order_range(v: RgaView)
    requires
        v.nodes.len() <= usize::MAX,
    ensures
        forall|k: int| 0 <= k < order(v).len() ==> 0 <= #[trigger] order(v)[k] < v.nodes.len(),
{
    lemma_dfs_list_range(v.nodes, -1, v.roots);
}

/// Every entry of a visible sub-order is an entry of the order.
pub proof fn lemma_visible_sub(nodes: Seq<NodeView>, ord: Seq<usize>)
    ensures
        forall|k: int|
            0 <= k < visible(nodes, ord).len() ==> ord.contains(#[trigger] visible(nodes, ord)[k]),
        forall|k: int|
            0 <= k < visible(nodes, ord).len() ==> !nodes[#[trigger] visible(nodes, ord)[k] as int].tombstone,
    decreases ord.len(),
{
    if ord.len() > 0 {
        lemma_visible_sub(nodes, ord.drop_last());
        let r = visible(nodes, ord);
        assert forall|k: int| 0 <= k < r.len() implies ord.contains(#[trigger] r[k]) by {
            if k < visible(nodes, ord.drop_last()).len() {
                let j = choose|j: int|
                    0 <= j < ord.drop_last().len() && ord.drop_last()[j] == r[k];
                assert(ord[j] == r[k]);
            } else {
                assert(ord[ord.len() - 1] == r[k]);
            }
        }
    }
}

/// The position of entry `i` in `s` (meaningful when `s` contains it).
pub open spec fn position_of(s: Seq<usize>, i: int) -> int {
    choose|k: int| 0 <= k < s.len() && s[k] as int == i
}

/// The position of node `i` among the visible nodes in document order, or
/// `None` for a tombstone or a node outside the order.
pub open spec fn visible_index_of(v: RgaView, i: int) -> Option<int> {
    let ord = order(v);
    if ord.contains(i as usize) && !v.nodes[i].tombstone {
        Some(visible(v.nodes, ord.take(position_of(ord, i))).len() as int)
    } else {
        None
    }
}

/// The id of the node that follows node `i` in document order, tombstones
/// included; `None` for the last node and for a node outside the order.
pub open spec fn next_of(v: RgaView, i: int) -> Option<IdView> {
    let ord = order(v);
    let k = position_of(ord, i);
    if ord.contains(i as usize) && k + 1 < ord.len() {
        Some(v.nodes[ord[k + 1] as int].id)
    } else {
        None
    }
}

/// A visible sub-order is no longer than the order.
pub proof fn lemma_visible_len(nodes: Seq<NodeView>, ord: Seq<usize>)
    ensures
        visible(nodes, ord).len() <= ord.len(),
    decreases ord.len(),
{
    if ord.len() > 0 {
        lemma_visible_len(nodes, ord.drop_last());
    }
}

/// The visible prefix grows strictly past a visible entry.
pub proof fn lemma_visible_index_mono(nodes: Seq<NodeView>, ord: Seq<usize>, a: int, b: int)
    requires
        0 <= a < b <= ord.len(),
        !nodes[ord[a] as int].tombstone,
    ensures
        visible(nodes, ord.take(a)).len() < visible(nodes, ord.take(b)).len(),
        visible(nodes, ord.take(a + 1)).len() == visible(nodes, ord.take(a)).len() + 1,
{
    assert(ord.take(a + 1).drop_last() =~= ord.take(a));
    lemma_visible_append(nodes, ord.take(a + 1), ord.subrange(a + 1, b));
    assert(ord.take(a + 1) + ord.subrange(a + 1, b) =~= ord.take(b));
}

/// The visible entry at position `a` of `ord` is the entry of the visible
/// sub-order at the size of its visible prefix.
pub proof fn lemma_visible_at(nodes: Seq<NodeView>, ord: Seq<usize>, a: int)
    requires
        0 <= a < ord.len(),
        !nodes[ord[a] as int].tombstone,
    ensures
        visible(nodes, ord.take(a)).len() < visible(nodes, ord).len(),
        visible(nodes, ord)[visible(nodes, ord.take(a)).len() as int] == ord[a],
{
    assert(ord.take(a + 1).drop_last() =~= ord.take(a));
    lemma_visible_append(nodes, ord.take(a + 1), ord.skip(a + 1));
    assert(ord.take(a + 1) + ord.skip(a + 1) =~= ord);
}

/// The insertion point depends only on the ids of the listed nodes.
pub proof fn lemma_insert_pos_same_ids(
    n1: Seq<NodeView>,
    n2: Seq<NodeView>,
    cs: Seq<usize>,
    id: IdView,
)
    requires
        forall|k: int|
            0 <= k < cs.len() ==> 0 <= #[trigger] cs[k] < n1.len() && cs[k] < n2.len() && n1[cs[k] as int].id
                == n2[cs[k] as int].id,
    ensures
        insert_pos(n1, cs, id) == insert_pos(n2, cs, id),
    decreases cs.len(),
{
    if cs.len() > 0 {
        assert(n1[cs[0] as int].id == n2[cs[0] as int].id);
        lemma_insert_pos_same_ids(n1, n2, cs.drop_first(), id);
    }
}

} // verus!
