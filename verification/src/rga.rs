//! The RGA tree.
//!
//! Text is stored as a tree of nodes. Each insertion names the node to its
//! left as an anchor and becomes a child of that anchor. The character order is
//! the depth-first traversal of the tree, with the children of a node ordered
//! by decreasing [`OperationId`]. Deleted characters stay in the tree as
//! tombstones until [`Rga::clear_tombstones`] removes them, so that later
//! inserts anchored to them still resolve.
//!
//! When two replicas insert at the same position at the same time, both
//! inserts name the same anchor. Ordering siblings by id gives every replica
//! the same traversal whatever the order of arrival.
use vstd::prelude::*;
use crate::id::NodeId;
use crate::id::OperationId;
use crate::id::opt_id_view;
use crate::id::id_lt;
use crate::model::NodeView;
use crate::model::RgaView;
use crate::model::wf;
use crate::model::list_ok;
use crate::model::has_id;
use crate::model::index_of;
use crate::model::empty_view;
use crate::model::insert_spec;
use crate::model::sorted_insert;
use crate::model::lemma_insert_pos_unique;
use crate::model::lemma_index_of_unique;
use crate::model::lemma_add_leaf_wf;
use crate::model::add_leaf;
use crate::model::delete_spec;
use crate::model::lemma_delete_wf;
use crate::model::dfs;
use crate::model::dfs_list;
use crate::model::order;
use crate::model::visible;
use crate::model::node_at;
use crate::model::text;
use crate::model::text_of;
use crate::model::lemma_visible_append;
use crate::model::lemma_order_range;
use crate::model::lemma_visible_sub;
use crate::model::lemma_visible_len;
use crate::model::visible_order;
use crate::model::position_of;
use crate::model::visible_index_of;
use crate::model::next_of;
use crate::traversal::lemma_order_shape;
use crate::traversal::no_dup;
use crate::traversal::parent_index;
use crate::traversal::lemma_parent_index_below;
use crate::compaction::count_tombstones;
use crate::compaction::compacted;
use crate::compaction::chained;
use crate::compaction::chained_node;
use crate::compaction::ancestor_compacted;
use crate::compaction::ancestor_node;
use crate::compaction::anchors_keep_text;
use crate::compaction::anchor_index;
use crate::compaction::live_anchor_from;
use crate::compaction::lemma_ancestor_base;
use crate::compaction::lemma_ancestor_text_unique;
use crate::compaction::prev_live_anchor;
use crate::compaction::chain_next;
use crate::compaction::lemma_chained;
use crate::node::Node;

verus! {

/// Errors returned by [`Rga`] operations.
#[derive(Debug, Clone, Copy, PartialEq, Eq, Structural)]
pub enum RgaError {
    /// The same id has been inserted twice.
    DuplicateNode,
    /// The operation references a node that does not yet exist in this replica.
    MissingDependency,
    /// The operation is invalid.
    Invalid,
}

impl RgaError {
    /// The message of the error.
    pub fn to_string(&self) -> (r: String)
        ensures
            r@ == (match *self {
                RgaError::DuplicateNode => "duplicate node"@,
                RgaError::MissingDependency => "missing dependency"@,
                RgaError::Invalid => "invalid operation"@,
            }),
    {
        match self {
            RgaError::DuplicateNode => "duplicate node".to_owned(),
            RgaError::MissingDependency => "missing dependency".to_owned(),
            RgaError::Invalid => "invalid operation".to_owned(),
        }
    }
}

/// The full RGA tree, tombstones included, for debugging and for interfaces
/// that show deleted characters.
#[derive(Debug, Clone, PartialEq, Eq)]
pub struct RgaTree {
    pub text: String,
    pub nodes: Vec<RgaTreeNode>,
}

/// A single node of an [`RgaTree`].
#[derive(Debug, Clone, PartialEq, Eq)]
pub struct RgaTreeNode {
    pub index: usize,
    pub visible_index: Option<usize>,
    pub value: char,
    pub tombstone: bool,
    pub id: NodeId,
    pub left: Option<NodeId>,
    pub children: Vec<NodeId>,
    pub next: Option<NodeId>,
    pub deleted_by: Option<OperationId>,
}

/// The ids of a sequence of operation ids.
pub open spec fn ids_view(ids: Seq<OperationId>) -> Seq<crate::id::IdView> {
    ids.map_values(|i: OperationId| i@)
}

/// Entry `t` describes node `i` of the tree `v`.
pub open spec fn describes(v: RgaView, i: int, t: RgaTreeNode) -> bool {
    &&& t.index == i
    &&& t.value == v.nodes[i].value
    &&& t.tombstone == v.nodes[i].tombstone
    &&& t.id@ == v.nodes[i].id
    &&& opt_id_view(t.left) == v.nodes[i].left
    &&& opt_id_view(t.deleted_by) == v.nodes[i].deleted_by
    &&& ids_view(t.children@) == v.nodes[i].children.map_values(|c: usize| v.nodes[c as int].id)
    &&& match t.visible_index {
        Some(x) => visible_index_of(v, i) == Some(x as int),
        None => visible_index_of(v, i) is None,
    }
    &&& opt_id_view(t.next) == next_of(v, i)
}

/// The value of a sequence of nodes.
pub open spec fn view_of(nodes: Seq<Node>) -> Seq<NodeView> {
    nodes.map_values(|n: Node| n@)
}

/// The RGA tree of a single document, including tombstones.
#[derive(Debug)]
pub struct Rga {
    nodes: Vec<Node>,
    roots: Vec<usize>,
}

impl View for Rga {
    type V = RgaView;

    closed spec fn view(&self) -> RgaView {
        RgaView { nodes: view_of(self.nodes@), roots: self.roots@ }
    }
}

impl Clone for Rga {
    fn clone(&self) -> (res: Self)
        ensures
            res@ == self@,
    {
        proof {
            use_type_invariant(self);
        }
        let nodes = self.nodes.clone();
        let roots = self.roots.clone();
        assert(view_of(nodes@) =~= view_of(self.nodes@));
        assert(roots@ =~= self.roots@);
        Rga { nodes, roots }
    }
}

impl Default for Rga {
    fn default() -> (r: Self)
        ensures
            r@ == empty_view(),
    {
        Rga::new()
    }
}

/// Appends a character to a string.
///
/// Trusted: `String::push` appends the given `char` to the end of the string,
/// as its documentation states.
#[verifier::external_body]
pub(crate) fn push_char(s: &mut String, c: char)
    ensures
        final(s)@ == old(s)@.push(c),
{
    s.push(c);
}

/// Inserts `child_idx` into `children` before the first entry whose id
/// precedes the child's id.
fn insert_child(children: &mut Vec<usize>, nodes: &Vec<Node>, child_idx: usize)
    requires
        child_idx < nodes.len(),
        forall|k: int| 0 <= k < old(children).len() ==> #[trigger] old(children)@[k] < nodes.len(),
    ensures
        final(children)@ == sorted_insert(view_of(nodes@), old(children)@, child_idx),
{
    let ghost nv = view_of(nodes@);
    let child_id = &nodes[child_idx].id;
    let mut pos: usize = 0;
    let mut found = false;
    while pos < children.len() && !found
        invariant
            pos <= children.len(),
            children@ == old(children)@,
            child_idx < nodes.len(),
            child_id@ == nv[child_idx as int].id,
            nv == view_of(nodes@),
            forall|k: int| 0 <= k < children.len() ==> #[trigger] children@[k] < nodes.len(),
            forall|k: int|
                0 <= k < pos ==> !crate::id::id_lt(#[trigger] nv[children@[k] as int].id, child_id@),
            found ==> pos < children.len() && crate::id::id_lt(
                nv[children@[pos as int] as int].id,
                child_id@,
            ),
        decreases children.len() - pos, if found { 0int } else { 1int },
    {
        let c = children[pos];
        if nodes[c].id.precedes(child_id) {
            found = true;
        } else {
            pos = pos + 1;
        }
    }
    proof {
        lemma_insert_pos_unique(nv, children@, child_id@, pos as int);
    }
    children.insert(pos, child_idx);
}

/// The index of the node with id `id` in `nodes`, if there is one.
fn find_in(nodes: &Vec<Node>, id: &OperationId) -> (r: Option<usize>)
    ensures
        match r {
            Some(i) => i < nodes.len() && view_of(nodes@)[i as int].id == id@,
            None => !has_id(view_of(nodes@), id@),
        },
{
    let mut i: usize = 0;
    while i < nodes.len()
        invariant
            i <= nodes.len(),
            forall|k: int| 0 <= k < i ==> (#[trigger] view_of(nodes@)[k]).id != id@,
        decreases nodes.len() - i,
    {
        if nodes[i].id.same_as(id) {
            return Some(i);
        }
        i = i + 1;
    }
    None
}

/// The nodes `a` and `b` agree in everything but their children.
pub open spec fn same_but_children(a: NodeView, b: NodeView) -> bool {
    a == NodeView { children: a.children, ..b }
}

/// Whether two character sequences are equal.
fn same_chars(a: &Vec<char>, b: &Vec<char>) -> (r: bool)
    ensures
        r == (a@ == b@),
{
    if a.len() != b.len() {
        return false;
    }
    let mut i: usize = 0;
    while i < a.len()
        invariant
            i <= a.len(),
            a.len() == b.len(),
            forall|k: int| 0 <= k < i ==> a@[k] == b@[k],
        decreases a.len() - i,
    {
        if a[i] != b[i] {
            return false;
        }
        i = i + 1;
    }
    assert(a@ =~= b@);
    true
}

impl Rga {
    /// The tree is always well-formed.
    #[verifier::type_invariant]
    pub open spec fn inv(self) -> bool {
        wf(self@)
    }

    /// An empty tree.
    pub fn new() -> (r: Self)
        ensures
            r@ == empty_view(),
    {
        let r = Rga { nodes: Vec::new(), roots: Vec::new() };
        assert(r@.nodes =~= Seq::<NodeView>::empty());
        r
    }

    /// The index of the node with id `id`, if there is one.
    fn find_index(&self, id: &OperationId) -> (r: Option<usize>)
        ensures
            match r {
                Some(i) => i < self@.nodes.len() && self@.nodes[i as int].id == id@,
                None => !has_id(self@.nodes, id@),
            },
    {
        let mut i: usize = 0;
        while i < self.nodes.len()
            invariant
                i <= self.nodes.len(),
                forall|k: int| 0 <= k < i ==> (#[trigger] self@.nodes[k]).id != id@,
            decreases self.nodes.len() - i,
        {
            if self.nodes[i].id.same_as(id) {
                return Some(i);
            }
            i = i + 1;
        }
        None
    }

    /// Returns `true` if a node with id `id` is in the tree, tombstones
    /// included.
    pub fn contains_node(&self, id: &NodeId) -> (r: bool)
        ensures
            r == has_id(self@.nodes, id@),
    {
        self.find_index(id).is_some()
    }

    /// Inserts `value` with id `id` to the right of `left` (`None`: at the
    /// head of the document).
    ///
    /// # Errors
    ///
    /// - [`RgaError::DuplicateNode`] if `id` is already in the tree.
    /// - [`RgaError::MissingDependency`] if `left` is `Some` but not in the tree.
    pub fn insert(&mut self, left: Option<NodeId>, value: char, id: NodeId) -> (r: Result<
        (),
        RgaError,
    >)
        ensures
            match insert_spec(old(self)@, opt_id_view(left), value, id@) {
                Ok(v) => r is Ok && final(self)@ == v,
                Err(e) => r == Err::<(), RgaError>(e) && final(self)@ == old(self)@,
            },
    {
        proof {
            use_type_invariant(&*self);
        }
        if self.find_index(&id).is_some() {
            return Err(RgaError::DuplicateNode);
        }
        let left_idx: Option<usize> = match &left {
            Some(l) => match self.find_index(l) {
                Some(i) => Some(i),
                None => {
                    return Err(RgaError::MissingDependency);
                },
            },
            None => None,
        };
        let ghost old_view = self@;
        let mut tmp = Rga::new();
        std::mem::swap(self, &mut tmp);
        let Rga { mut nodes, mut roots } = tmp;
        let ghost lv = opt_id_view(left);
        let ghost idv = id@;
        nodes.push(Node::new(value, left, id));
        let new_idx = nodes.len() - 1;
        let ghost pushed = view_of(nodes@);
        assert(pushed =~= old_view.nodes.push(
            NodeView { value, tombstone: false, left: lv, id: idv, deleted_by: None, children: Seq::empty() },
        ));
        match left_idx {
            None => {
                insert_child(&mut roots, &nodes, new_idx);
                proof {
                    lemma_add_leaf_wf(old_view, None, value, lv, idv);
                }
                assert(RgaView { nodes: view_of(nodes@), roots: roots@ } == add_leaf(
                    old_view,
                    None,
                    value,
                    lv,
                    idv,
                ));
            },
            Some(p) => {
                proof {
                    lemma_index_of_unique(old_view.nodes, p as int);
                    lemma_add_leaf_wf(old_view, Some(p as int), value, lv, idv);
                }
                assert(list_ok(old_view.nodes, old_view.nodes[p as int].children, p as int));
                assert(nodes@[p as int].children@ == old_view.nodes[p as int].children);
                let mut children = nodes[p].children.clone();
                insert_child(&mut children, &nodes, new_idx);
                nodes[p].children = children;
                assert(view_of(nodes@) =~= add_leaf(old_view, Some(p as int), value, lv, idv).nodes);
            },
        }
        *self = Rga { nodes, roots };
        Ok(())
    }

    /// Marks the node `target` as deleted by the operation `deleted_by`. The
    /// node stays in the tree as a tombstone.
    ///
    /// # Errors
    ///
    /// - [`RgaError::Invalid`] if `target` and `deleted_by` are the same id.
    /// - [`RgaError::MissingDependency`] if `target` is not in the tree.
    pub fn delete(&mut self, target: NodeId, deleted_by: OperationId) -> (r: Result<(), RgaError>)
        ensures
            match delete_spec(old(self)@, target@, deleted_by@) {
                Ok(v) => r is Ok && final(self)@ == v,
                Err(e) => r == Err::<(), RgaError>(e) && final(self)@ == old(self)@,
            },
    {
        proof {
            use_type_invariant(&*self);
        }
        if target.same_as(&deleted_by) {
            return Err(RgaError::Invalid);
        }
        let idx = match self.find_index(&target) {
            Some(i) => i,
            None => {
                return Err(RgaError::MissingDependency);
            },
        };
        let ghost old_view = self@;
        proof {
            lemma_index_of_unique(old_view.nodes, idx as int);
            lemma_delete_wf(old_view, target@, deleted_by@);
        }
        let mut tmp = Rga::new();
        std::mem::swap(self, &mut tmp);
        let Rga { mut nodes, roots } = tmp;
        nodes[idx].tombstone = true;
        nodes[idx].deleted_by = Some(deleted_by);
        assert(view_of(nodes@) =~= delete_spec(old_view, target@, deleted_by@)->Ok_0.nodes);
        *self = Rga { nodes, roots };
        Ok(())
    }

    /// Appends the traversal from node `idx` to `out`.
    fn push_dfs(&self, idx: usize, out: &mut Vec<usize>)
        requires
            idx < self@.nodes.len(),
        ensures
            final(out)@ == old(out)@ + dfs(self@.nodes, idx as int),
        decreases self@.nodes.len() - idx,
    {
        proof {
            use_type_invariant(self);
        }
        let ghost nv = self@.nodes;
        out.push(idx);
        let children = &self.nodes[idx].children;
        assert(children@ == nv[idx as int].children);
        assert(list_ok(nv, nv[idx as int].children, idx as int));
        let mut k: usize = 0;
        while k < children.len()
            invariant
                k <= children.len(),
                nv == self@.nodes,
                children@ == nv[idx as int].children,
                forall|j: int| 0 <= j < children.len() ==> idx < #[trigger] children@[j] < nv.len(),
                out@ == old(out)@ + seq![idx] + dfs_list(nv, idx as int, children@.take(k as int)),
            decreases children.len() - k,
        {
            let child = children[k];
            self.push_dfs(child, out);
            assert(children@.take(k + 1).drop_last() =~= children@.take(k as int));
            k = k + 1;
        }
        assert(children@.take(k as int) =~= children@);
        assert(out@ =~= old(out)@ + dfs(nv, idx as int));
    }

    /// The document order: indices of all nodes in traversal order.
    fn dfs_order(&self) -> (r: Vec<usize>)
        ensures
            r@ == order(self@),
    {
        proof {
            use_type_invariant(self);
        }
        let ghost v = self@;
        assert(list_ok(v.nodes, v.roots, -1));
        let mut out: Vec<usize> = Vec::with_capacity(self.nodes.len());
        let mut k: usize = 0;
        while k < self.roots.len()
            invariant
                k <= self.roots.len(),
                v == self@,
                forall|j: int| 0 <= j < self.roots.len() ==> -1 < #[trigger] self.roots@[j] < v.nodes.len(),
                out@ == dfs_list(v.nodes, -1, self.roots@.take(k as int)),
            decreases self.roots.len() - k,
        {
            let root = self.roots[k];
            self.push_dfs(root, &mut out);
            assert(self.roots@.take(k + 1).drop_last() =~= self.roots@.take(k as int));
            k = k + 1;
        }
        assert(self.roots@.take(k as int) =~= self.roots@);
        out
    }

    /// The index of the node at visible position `pos` (counting from 1).
    fn find_visible(&self, pos: usize) -> (r: Option<usize>)
        ensures
            r == node_at(self@, pos as int),
    {
        if pos == 0 {
            return None;
        }
        let ghost v = self@;
        let ord = self.dfs_order();
        proof {
            use_type_invariant(self);
            lemma_order_range(v);
        }
        let mut count: usize = 0;
        let mut k: usize = 0;
        while k < ord.len()
            invariant
                k <= ord.len(),
                v == self@,
                ord@ == order(v),
                count == visible(v.nodes, ord@.take(k as int)).len(),
                count < pos,
                forall|j: int| 0 <= j < ord.len() ==> #[trigger] ord@[j] < v.nodes.len(),
            decreases ord.len() - k,
        {
            let idx = ord[k];
            assert(ord@.take(k + 1).drop_last() =~= ord@.take(k as int));
            if !self.nodes[idx].is_tombstone() {
                count = count + 1;
                if count == pos {
                    proof {
                        lemma_visible_append(v.nodes, ord@.take(k + 1), ord@.skip(k + 1));
                        assert(ord@.take(k + 1) + ord@.skip(k + 1) =~= ord@);
                    }
                    return Some(idx);
                }
            }
            k = k + 1;
        }
        assert(ord@.take(k as int) =~= ord@);
        None
    }

    /// The id of the node at visible position `pos` (counting from 1); `None`
    /// for position 0 and beyond the visible length.
    pub fn get_node_id_by_position(&self, pos: usize) -> (r: Option<NodeId>)
        ensures
            match node_at(self@, pos as int) {
                Some(i) => r is Some && r->0@ == self@.nodes[i as int].id,
                None => r is None,
            },
    {
        proof {
            use_type_invariant(self);
            lemma_order_range(self@);
            lemma_visible_sub(self@.nodes, order(self@));
            if 1 <= pos <= visible_order(self@).len() {
                let x = visible_order(self@)[pos - 1];
                assert(order(self@).contains(x));
            }
        }
        match self.find_visible(pos) {
            Some(idx) => Some(self.nodes[idx].id.clone()),
            None => None,
        }
    }

    /// The visible text of the document.
    pub fn to_string(&self) -> (r: String)
        ensures
            r@ == text(self@),
    {
        let ghost v = self@;
        let ord = self.dfs_order();
        proof {
            use_type_invariant(self);
            lemma_order_range(v);
        }
        let mut out = String::new();
        let mut k: usize = 0;
        while k < ord.len()
            invariant
                k <= ord.len(),
                v == self@,
                ord@ == order(v),
                out@ == text_of(v.nodes, ord@.take(k as int)),
                forall|j: int| 0 <= j < ord.len() ==> #[trigger] ord@[j] < v.nodes.len(),
            decreases ord.len() - k,
        {
            let idx = ord[k];
            assert(ord@.take(k + 1).drop_last() =~= ord@.take(k as int));
            if !self.nodes[idx].is_tombstone() {
                push_char(&mut out, self.nodes[idx].value);
            }
            assert(out@ =~= text_of(v.nodes, ord@.take(k + 1)));
            k = k + 1;
        }
        assert(ord@.take(k as int) =~= ord@);
        out
    }

    /// The ids of the listed nodes.
    fn child_ids(&self, cs: &Vec<usize>) -> (r: Vec<NodeId>)
        requires
            forall|k: int| 0 <= k < cs.len() ==> #[trigger] cs@[k] < self@.nodes.len(),
        ensures
            ids_view(r@) == cs@.map_values(|c: usize| self@.nodes[c as int].id),
    {
        let mut out: Vec<NodeId> = Vec::new();
        let mut k: usize = 0;
        while k < cs.len()
            invariant
                k <= cs.len(),
                forall|j: int| 0 <= j < cs.len() ==> #[trigger] cs@[j] < self@.nodes.len(),
                out.len() == k,
                forall|j: int| 0 <= j < k ==> (#[trigger] out@[j])@ == self@.nodes[cs@[j] as int].id,
            decreases cs.len() - k,
        {
            assert(self@.nodes[cs@[k as int] as int].id == self.nodes@[cs@[k as int] as int].id@);
            out.push(self.nodes[cs[k]].id.clone());
            k = k + 1;
        }
        assert(ids_view(out@) =~= cs@.map_values(|c: usize| self@.nodes[c as int].id));
        out
    }

    /// The full tree, tombstones included, with for each node its position
    /// among the visible characters and the node that follows it in document
    /// order. The laws of these fields over the whole tree (every node is met
    /// once by following `next`, the visible indices are the positions of the
    /// text) are [`lemma_tree_laws`] and [`lemma_tree_child_laws`].
    pub fn tree(&self) -> (r: RgaTree)
        ensures
            r.text@ == text(self@),
            r.nodes.len() == self@.nodes.len(),
            forall|i: int| 0 <= i < r.nodes.len() ==> describes(self@, i, #[trigger] r.nodes@[i]),
    {
        proof {
            use_type_invariant(self);
            lemma_order_range(self@);
            lemma_order_shape(self@);
        }
        let ghost v = self@;
        let n = self.nodes.len();
        let ord = self.dfs_order();
        let ghost o = ord@;
        let mut visible_indices: Vec<Option<usize>> = Vec::new();
        let mut next_ids: Vec<Option<NodeId>> = Vec::new();
        let mut i: usize = 0;
        while i < n
            invariant
                i <= n,
                n == v.nodes.len(),
                visible_indices.len() == i,
                next_ids.len() == i,
                forall|j: int| 0 <= j < i ==> (#[trigger] visible_indices@[j]) is None,
                forall|j: int| 0 <= j < i ==> (#[trigger] next_ids@[j]) is None,
            decreases n - i,
        {
            visible_indices.push(None);
            next_ids.push(None);
            i = i + 1;
        }
        // successors in document order
        let last = if ord.len() == 0 {
            0
        } else {
            ord.len() - 1
        };
        let mut k: usize = 0;
        while k < last
            invariant
                last + 1 == o.len() || (last == 0 && o.len() == 0),
                v == self@,
                n == v.nodes.len(),
                ord@ == o,
                o == order(v),
                no_dup(o),
                forall|j: int| 0 <= j < o.len() ==> #[trigger] o[j] < n,
                next_ids.len() == n,
                k <= o.len(),
                forall|j: int|
                    0 <= j < n ==> opt_id_view(#[trigger] next_ids@[j]) == if o.contains(j as usize)
                        && position_of(o, j) < k {
                        next_of(v, j)
                    } else {
                        None
                    },
            decreases o.len() - k,
        {
            let a = ord[k];
            let b = ord[k + 1];
            let ghost old_next = next_ids@;
            next_ids.set(a, Some(self.nodes[b].id.clone()));
            proof {
                assert(o[k as int] == a);
                assert forall|j: int| 0 <= j < n implies opt_id_view(#[trigger] next_ids@[j]) == if o.contains(
                    j as usize,
                ) && position_of(o, j) < k + 1 {
                    next_of(v, j)
                } else {
                    None
                } by {
                    if o.contains(j as usize) {
                        let p = position_of(o, j);
                        assert(0 <= p < o.len() && o[p] as int == j);
                    }
                    if j == a {
                        assert(o.contains(a));
                        assert(position_of(o, j) == k);
                    }
                }
            }
            k = k + 1;
        }
        proof {
            assert forall|j: int| 0 <= j < n implies opt_id_view(#[trigger] next_ids@[j]) == next_of(v, j) by {
                if o.contains(j as usize) {
                    let p = position_of(o, j);
                    assert(0 <= p < o.len() && o[p] as int == j);
                }
            }
        }
        // positions among the visible characters
        let mut count: usize = 0;
        let mut k: usize = 0;
        while k < ord.len()
            invariant
                v == self@,
                n == v.nodes.len(),
                ord@ == o,
                o == order(v),
                no_dup(o),
                forall|j: int| 0 <= j < o.len() ==> #[trigger] o[j] < n,
                visible_indices.len() == n,
                k <= o.len(),
                count == visible(v.nodes, o.take(k as int)).len(),
                forall|j: int|
                    0 <= j < n ==> match #[trigger] visible_indices@[j] {
                        Some(x) => o.contains(j as usize) && position_of(o, j) < k && visible_index_of(v, j) == Some(x as int),
                        None => !(o.contains(j as usize) && position_of(o, j) < k && !v.nodes[j].tombstone),
                    },
            decreases o.len() - k,
        {
            let idx = ord[k];
            assert(o.take(k + 1).drop_last() =~= o.take(k as int));
            proof {
                lemma_visible_len(v.nodes, o.take(k as int));
            }
            if !self.nodes[idx].is_tombstone() {
                proof {
                    assert(o.contains(idx));
                    assert(position_of(o, idx as int) == k);
                }
                visible_indices.set(idx, Some(count));
                count = count + 1;
            }
            proof {
                assert forall|j: int| 0 <= j < n implies match #[trigger] visible_indices@[j] {
                    Some(x) => o.contains(j as usize) && position_of(o, j) < k + 1 && visible_index_of(v, j) == Some(x as int),
                    None => !(o.contains(j as usize) && position_of(o, j) < k + 1 && !v.nodes[j].tombstone),
                } by {
                    if o.contains(j as usize) {
                        let p = position_of(o, j);
                        assert(0 <= p < o.len() && o[p] as int == j);
                    }
                }
            }
            k = k + 1;
        }
        // the entries
        let mut nodes: Vec<RgaTreeNode> = Vec::new();
        let mut i: usize = 0;
        while i < n
            invariant
                i <= n,
                v == self@,
                n == v.nodes.len(),
                wf(v),
                o == order(v),
                visible_indices.len() == n,
                next_ids.len() == n,
                forall|j: int| 0 <= j < n ==> opt_id_view(#[trigger] next_ids@[j]) == next_of(v, j),
                forall|j: int|
                    0 <= j < n ==> match #[trigger] visible_indices@[j] {
                        Some(x) => visible_index_of(v, j) == Some(x as int),
                        None => visible_index_of(v, j) is None,
                    },
                nodes.len() == i,
                forall|j: int| 0 <= j < i ==> describes(v, j, #[trigger] nodes@[j]),
            decreases n - i,
        {
            let node = &self.nodes[i];
            assert(list_ok(v.nodes, v.nodes[i as int].children, i as int));
            let entry = RgaTreeNode {
                index: i,
                visible_index: visible_indices[i],
                value: node.value,
                tombstone: node.tombstone,
                id: node.id.clone(),
                left: node.left.clone(),
                children: self.child_ids(&node.children),
                next: next_ids[i].clone(),
                deleted_by: node.deleted_by.clone(),
            };
            nodes.push(entry);
            i = i + 1;
        }
        RgaTree { text: self.to_string(), nodes }
    }

    /// Follows anchors from `left` past deleted nodes and returns the first
    /// anchor that names a live node (or `None` at the top level).
    fn live_left(&self, left: Option<NodeId>) -> (r: Option<NodeId>)
        requires
            match opt_id_view(left) {
                None => true,
                Some(l) => has_id(self@.nodes, l),
            },
        ensures
            opt_id_view(r) == live_anchor_from(
                self@.nodes,
                anchor_index(self@.nodes, opt_id_view(left)),
            ),
    {
        proof {
            use_type_invariant(self);
        }
        let ghost v = self@;
        let ghost target = live_anchor_from(v.nodes, anchor_index(v.nodes, opt_id_view(left)));
        let mut cur = left;
        loop
            invariant
                v == self@,
                wf(v),
                match opt_id_view(cur) {
                    None => true,
                    Some(l) => has_id(v.nodes, l),
                },
                live_anchor_from(v.nodes, anchor_index(v.nodes, opt_id_view(cur))) == target,
                target == live_anchor_from(v.nodes, anchor_index(v.nodes, opt_id_view(left))),
            decreases anchor_index(v.nodes, opt_id_view(cur)) + 1,
        {
            let i = match &cur {
                None => {
                    assert(live_anchor_from(v.nodes, -1) is None);
                    return None;
                },
                Some(id) => match self.find_index(id) {
                    Some(i) => i,
                    None => {
                        return cur;
                    },
                },
            };
            proof {
                lemma_index_of_unique(v.nodes, i as int);
                lemma_parent_index_below(v, i as int);
                assert(crate::model::anchor_ok(v.nodes, i as int));
            }
            if !self.nodes[i].tombstone {
                assert(anchor_index(v.nodes, opt_id_view(cur)) == i);
                assert(live_anchor_from(v.nodes, i as int) == Some(v.nodes[i as int].id));
                return cur;
            }
            assert(anchor_index(v.nodes, opt_id_view(self.nodes@[i as int].left)) == parent_index(
                v.nodes,
                i as int,
            ));
            cur = self.nodes[i].left.clone();
        }
    }

    /// The tree of the live nodes listed in `live` (the live nodes in document
    /// order), each anchored to its nearest live ancestor, built by inserting
    /// them in that order.
    fn keep_anchors(&self, live: &Vec<usize>) -> (r: Rga)
        requires
            live@ == visible_order(self@),
            forall|t: int| 0 <= t < live.len() ==> #[trigger] live@[t] < self@.nodes.len(),
        ensures
            ancestor_compacted(self@, r@),
    {
        proof {
            use_type_invariant(self);
        }
        let ghost v = self@;
        let n = live.len();
        let ghost base = Seq::new(
            n as nat,
            |k: int|
                NodeView {
                    left: live_anchor_from(v.nodes, parent_index(v.nodes, live@[k] as int)),
                    children: Seq::empty(),
                    ..v.nodes[live@[k] as int]
                },
        );
        proof {
            lemma_ancestor_base(v, base);
            lemma_order_range(v);
            lemma_visible_sub(v.nodes, order(v));
        }
        let mut cand = Rga::new();
        let mut k: usize = 0;
        while k < n
            invariant
                v == self@,
                wf(v),
                live@ == visible_order(v),
                n == live.len(),
                k <= n,
                base.len() == n,
                forall|t: int| 0 <= t < n ==> #[trigger] live@[t] < v.nodes.len(),
                forall|t: int| 0 <= t < n ==> !v.nodes[#[trigger] live@[t] as int].tombstone,
                forall|t: int|
                    0 <= t < n ==> #[trigger] base[t] == (NodeView {
                        left: live_anchor_from(v.nodes, parent_index(v.nodes, live@[t] as int)),
                        children: Seq::empty(),
                        ..v.nodes[live@[t] as int]
                    }),
                crate::model::ids_unique(base),
                forall|t: int| 0 <= t < n ==> #[trigger] crate::model::anchor_ok(base, t),
                cand@.nodes.len() == k,
                wf(cand@),
                forall|t: int| 0 <= t < k ==> same_but_children(#[trigger] cand@.nodes[t], base[t]),
            decreases n - k,
        {
            proof {
                use_type_invariant(&cand);
            }
            let u = live[k];
            let node = &self.nodes[u];
            proof {
                lemma_parent_index_below(v, u as int);
                assert(crate::model::anchor_ok(v.nodes, u as int));
                assert(crate::model::flags_ok(v.nodes[u as int]));
                assert(anchor_index(v.nodes, opt_id_view(node.left)) == parent_index(v.nodes, u as int));
            }
            let left = self.live_left(node.left.clone());
            let ghost c0 = cand@;
            let ghost lv = opt_id_view(left);
            assert(lv == base[k as int].left);
            proof {
                assert(!has_id(c0.nodes, v.nodes[u as int].id)) by {
                    if has_id(c0.nodes, v.nodes[u as int].id) {
                        let j = choose|j: int| 0 <= j < c0.nodes.len() && c0.nodes[j].id == v.nodes[
                            u as int].id;
                        assert(same_but_children(c0.nodes[j], base[j]));
                        assert(base[j].id == base[k as int].id);
                    }
                }
                match lv {
                    None => {},
                    Some(l) => {
                        assert(crate::model::anchor_ok(base, k as int));
                        let j = index_of(base, l);
                        assert(0 <= j < k && base[j].id == l);
                        assert(same_but_children(c0.nodes[j], base[j]));
                        assert(c0.nodes[j].id == l);
                    },
                }
            }
            let res = cand.insert(left, node.value, node.id.clone());
            proof {
                let parent: Option<int> = match lv {
                    None => None,
                    Some(l) => Some(index_of(c0.nodes, l)),
                };
                assert(cand@ == add_leaf(c0, parent, v.nodes[u as int].value, lv, v.nodes[u as int].id));
                assert forall|t: int| 0 <= t < k + 1 implies same_but_children(
                    #[trigger] cand@.nodes[t],
                    base[t],
                ) by {
                    if t < k {
                        assert(same_but_children(c0.nodes[t], base[t]));
                    }
                }
                use_type_invariant(&cand);
            }
            k = k + 1;
        }
        proof {
            use_type_invariant(&cand);
            assert forall|t: int| 0 <= t < cand@.nodes.len() implies #[trigger] ancestor_node(v, cand@, t) by {
                assert(same_but_children(cand@.nodes[t], base[t]));
            }
        }
        cand
    }

    /// The characters of the live nodes in document order.
    fn visible_chars(&self) -> (r: Vec<char>)
        ensures
            r@ == text(self@),
    {
        let ghost v = self@;
        let ord = self.dfs_order();
        proof {
            use_type_invariant(self);
            lemma_order_range(v);
        }
        let mut out: Vec<char> = Vec::new();
        let mut k: usize = 0;
        while k < ord.len()
            invariant
                k <= ord.len(),
                v == self@,
                ord@ == order(v),
                out@ == text_of(v.nodes, ord@.take(k as int)),
                forall|j: int| 0 <= j < ord.len() ==> #[trigger] ord@[j] < v.nodes.len(),
            decreases ord.len() - k,
        {
            let idx = ord[k];
            assert(ord@.take(k + 1).drop_last() =~= ord@.take(k as int));
            if !self.nodes[idx].is_tombstone() {
                out.push(self.nodes[idx].value);
            }
            assert(out@ =~= text_of(v.nodes, ord@.take(k + 1)));
            k = k + 1;
        }
        assert(ord@.take(k as int) =~= ord@);
        out
    }

    /// Removes the tombstones and returns the number of nodes removed; the
    /// text is unchanged. Each live node keeps its anchor, or is re-anchored to
    /// its nearest live ancestor when its anchor is removed, and the child lists
    /// are rebuilt, when that keeps the text. Otherwise (a re-anchored node can
    /// sort differently among its new siblings) each live node is anchored to
    /// the live node just before it in the document, the first one to the top
    /// level.
    pub fn clear_tombstones(&mut self) -> (r: usize)
        ensures
            r == count_tombstones(old(self)@.nodes),
            r == 0 ==> final(self)@ == old(self)@,
            r > 0 ==> compacted(old(self)@, final(self)@),
            text(final(self)@) == text(old(self)@),
    {
        proof {
            use_type_invariant(&*self);
        }
        let ghost v = self@;
        let mut removed: usize = 0;
        let mut i: usize = 0;
        while i < self.nodes.len()
            invariant
                v == self@,
                i <= v.nodes.len(),
                removed == count_tombstones(v.nodes.take(i as int)),
                removed <= i,
            decreases v.nodes.len() - i,
        {
            assert(v.nodes.take(i + 1).drop_last() =~= v.nodes.take(i as int));
            if self.nodes[i].tombstone {
                removed = removed + 1;
            }
            i = i + 1;
        }
        assert(v.nodes.take(i as int) =~= v.nodes);
        if removed == 0 {
            return 0;
        }
        proof {
            lemma_order_range(v);
        }
        let ord = self.dfs_order();
        let ghost o = ord@;
        let mut live: Vec<usize> = Vec::new();
        let mut k: usize = 0;
        while k < ord.len()
            invariant
                v == self@,
                wf(v),
                o == ord@,
                o == order(v),
                k <= o.len(),
                forall|j: int| 0 <= j < o.len() ==> #[trigger] o[j] < v.nodes.len(),
                live@ == visible(v.nodes, o.take(k as int)),
            decreases o.len() - k,
        {
            let idx = ord[k];
            assert(o.take(k + 1).drop_last() =~= o.take(k as int));
            if !self.nodes[idx].tombstone {
                live.push(idx);
            }
            k = k + 1;
        }
        assert(o.take(k as int) =~= o);
        proof {
            lemma_visible_sub(v.nodes, o);
            assert forall|t: int| 0 <= t < live.len() implies #[trigger] live@[t] < v.nodes.len() by {
                assert(o.contains(live@[t]));
            }
        }
        let kept = self.keep_anchors(&live);
        let before = self.visible_chars();
        let after = kept.visible_chars();
        if same_chars(&before, &after) {
            proof {
                assert forall|w: RgaView| #[trigger] ancestor_compacted(v, w) implies text(w) == text(v) by {
                    lemma_ancestor_text_unique(v, w, kept@);
                }
                assert(anchors_keep_text(v));
            }
            *self = kept;
            return removed;
        }
        proof {
            assert(!anchors_keep_text(v)) by {
                if anchors_keep_text(v) {
                    assert(ancestor_compacted(v, kept@));
                }
            }
        }
        let n = live.len();
        let mut nodes: Vec<Node> = Vec::new();
        let mut j: usize = 0;
        while j < n
            invariant
                v == self@,
                live@ == visible_order(v),
                n == live.len(),
                j <= n,
                nodes.len() == j,
                forall|t: int| 0 <= t < n ==> #[trigger] live@[t] < v.nodes.len(),
                forall|t: int|
                    0 <= t < j ==> #[trigger] view_of(nodes@)[t] == (NodeView {
                        left: prev_live_anchor(v, t),
                        children: chain_next(n as int, t),
                        ..v.nodes[live@[t] as int]
                    }),
            decreases n - j,
        {
            let node = &self.nodes[live[j]];
            let left = if j == 0 {
                None
            } else {
                Some(self.nodes[live[j - 1]].id.clone())
            };
            let mut children: Vec<usize> = Vec::new();
            if j + 1 < n {
                children.push(j + 1);
            }
            assert(children@ =~= chain_next(n as int, j as int));
            let fresh = Node {
                value: node.value,
                tombstone: node.tombstone,
                left,
                id: node.id.clone(),
                deleted_by: node.deleted_by.clone(),
                children,
            };
            let ghost before = view_of(nodes@);
            nodes.push(fresh);
            proof {
                assert forall|t: int| 0 <= t < j + 1 implies #[trigger] view_of(nodes@)[t] == (NodeView {
                    left: prev_live_anchor(v, t),
                    children: chain_next(n as int, t),
                    ..v.nodes[live@[t] as int]
                }) by {
                    if t == j {
                        assert(view_of(nodes@)[t] == fresh@);
                        assert(v.nodes[live@[t] as int] == self.nodes@[live@[t] as int]@);
                        if j > 0 {
                            assert(v.nodes[live@[t - 1] as int] == self.nodes@[live@[t - 1] as int]@);
                        }
                        assert(fresh@.left == prev_live_anchor(v, t));
                        assert(fresh@.children == chain_next(n as int, t));
                    } else {
                        assert(view_of(nodes@)[t] == before[t]);
                    }
                }
            }
            j = j + 1;
        }
        let mut roots: Vec<usize> = Vec::new();
        if n > 0 {
            roots.push(0);
        }
        let ghost w = RgaView { nodes: view_of(nodes@), roots: roots@ };
        proof {
            assert(roots@ =~= chain_next(n as int, -1));
            assert forall|t: int| 0 <= t < w.nodes.len() implies #[trigger] chained_node(v, w, t) by {
                assert(view_of(nodes@)[t] == NodeView {
                    left: prev_live_anchor(v, t),
                    children: chain_next(n as int, t),
                    ..v.nodes[live@[t] as int]
                });
            }
            assert(chained(v, w));
            lemma_chained(v, w);
        }
        *self = Rga { nodes, roots };
        removed
    }
}


/// The laws of the tree export `t` of a tree `v` (as [`Rga::tree`] returns
/// it): following `next` from the first node of the document order visits
/// every node exactly once and ends at the last; a node has a visible index
/// exactly when it is live, and a deleting operation exactly when it is a
/// tombstone; the visible indices are the positions of the text, each taken
/// once (every position of the text is taken), with the node's character
/// there.
pub proof fn lemma_tree_laws(v: RgaView, t: RgaTree)
    requires
        wf(v),
        t.text@ == text(v),
        t.nodes.len() == v.nodes.len(),
        forall|i: int| 0 <= i < t.nodes.len() ==> describes(v, i, #[trigger] t.nodes@[i]),
    ensures
        order(v).len() == t.nodes.len(),
        no_dup(order(v)),
        forall|k: int| 0 <= k < order(v).len() ==> 0 <= #[trigger] order(v)[k] < t.nodes.len(),
        forall|k: int|
            0 <= k < t.nodes.len() - 1 ==> opt_id_view(t.nodes@[#[trigger] order(v)[k] as int].next)
                == Some(t.nodes@[order(v)[k + 1] as int].id@),
        t.nodes.len() > 0 ==> t.nodes@[order(v)[t.nodes.len() - 1] as int].next is None,
        forall|i: int|
            0 <= i < t.nodes.len() ==> ((#[trigger] t.nodes@[i]).visible_index is None
                <==> t.nodes@[i].tombstone) && (t.nodes@[i].deleted_by is Some <==> t.nodes@[i].tombstone),
        forall|i: int|
            0 <= i < t.nodes.len() && (#[trigger] t.nodes@[i]).visible_index is Some ==> {
                let x = t.nodes@[i].visible_index->0;
                &&& x < t.text@.len()
                &&& t.text@[x as int] == t.nodes@[i].value
            },
        forall|i: int, j: int|
            0 <= i < t.nodes.len() && 0 <= j < t.nodes.len() && i != j && (#[trigger] t.nodes@[i]).visible_index
                is Some ==> t.nodes@[i].visible_index != (#[trigger] t.nodes@[j]).visible_index,
        forall|x: int| 0 <= x < t.text@.len() ==> #[trigger] export_position_taken(t, x),
{
    crate::traversal::lemma_order_permutation(v);
    crate::traversal::lemma_next_laws(v);
    crate::traversal::lemma_visible_index_none(v);
    crate::traversal::lemma_visible_index_laws(v);
    let ord = order(v);
    assert forall|k: int| 0 <= k < t.nodes.len() - 1 implies opt_id_view(
        t.nodes@[#[trigger] ord[k] as int].next,
    ) == Some(t.nodes@[ord[k + 1] as int].id@) by {
        assert(describes(v, ord[k] as int, t.nodes@[ord[k] as int]));
        assert(describes(v, ord[k + 1] as int, t.nodes@[ord[k + 1] as int]));
        assert(next_of(v, ord[k] as int) == Some(v.nodes[ord[k + 1] as int].id));
    }
    if t.nodes.len() > 0 {
        let last = ord[t.nodes.len() - 1] as int;
        assert(describes(v, last, t.nodes@[last]));
    }
    assert forall|i: int| 0 <= i < t.nodes.len() implies ((#[trigger] t.nodes@[i]).visible_index is None
        <==> t.nodes@[i].tombstone) && (t.nodes@[i].deleted_by is Some <==> t.nodes@[i].tombstone) by {
        assert(describes(v, i, t.nodes@[i]));
        assert(visible_index_of(v, i) is None <==> v.nodes[i].tombstone);
        assert(v.nodes[i].deleted_by is Some <==> v.nodes[i].tombstone);
    }
    assert forall|i: int| 0 <= i < t.nodes.len() && (#[trigger] t.nodes@[i]).visible_index is Some implies {
        let x = t.nodes@[i].visible_index->0;
        &&& x < t.text@.len()
        &&& t.text@[x as int] == t.nodes@[i].value
    } by {
        assert(describes(v, i, t.nodes@[i]));
        assert(visible_index_of(v, i) is Some);
    }
    assert forall|i: int, j: int|
        0 <= i < t.nodes.len() && 0 <= j < t.nodes.len() && i != j && (#[trigger] t.nodes@[i]).visible_index
            is Some implies t.nodes@[i].visible_index != (#[trigger] t.nodes@[j]).visible_index by {
        assert(describes(v, i, t.nodes@[i]));
        assert(describes(v, j, t.nodes@[j]));
        assert(visible_index_of(v, i) != visible_index_of(v, j));
    }
    assert forall|x: int| 0 <= x < t.text@.len() implies #[trigger] export_position_taken(t, x) by {
        assert(crate::traversal::position_taken(v, x));
        let i = choose|i: int| 0 <= i < v.nodes.len() && #[trigger] visible_index_of(v, i) == Some(x);
        assert(describes(v, i, t.nodes@[i]));
        assert(t.nodes@[i].visible_index == Some(x as usize));
    }
}

/// Position `x` of the text of the tree export `t` is the visible index of
/// one of its entries.
pub open spec fn export_position_taken(t: RgaTree, x: int) -> bool {
    exists|i: int| 0 <= i < t.nodes.len() && #[trigger] t.nodes@[i].visible_index == Some(x as usize)
}


/// Child `k` of entry `i` of the tree export `t` of `v` names node `c` of the
/// export, which is anchored to entry `i`.
pub open spec fn child_anchored(v: RgaView, t: RgaTree, i: int, k: int) -> bool {
    let c = v.nodes[i].children[k] as int;
    &&& 0 <= c < t.nodes.len()
    &&& t.nodes@[c].id@ == t.nodes@[i].children@[k]@
    &&& opt_id_view(t.nodes@[c].left) == Some(t.nodes@[i].id@)
}

/// More laws of the tree export `t` of a tree `v`: the visible indices grow
/// along the document order; a node's children are listed by decreasing id,
/// each anchored to it; and a node with children is followed by its first
/// child.
pub proof fn lemma_tree_child_laws(v: RgaView, t: RgaTree)
    requires
        wf(v),
        t.nodes.len() == v.nodes.len(),
        forall|i: int| 0 <= i < t.nodes.len() ==> describes(v, i, #[trigger] t.nodes@[i]),
    ensures
        forall|a: int, b: int|
            0 <= a < b < order(v).len() && !t.nodes@[#[trigger] order(v)[a] as int].tombstone
                && !t.nodes@[#[trigger] order(v)[b] as int].tombstone ==> t.nodes@[order(
                v,
            )[a] as int].visible_index->0 < t.nodes@[order(v)[b] as int].visible_index->0,
        forall|i: int, a: int, b: int|
            0 <= i < t.nodes.len() && 0 <= a < b < t.nodes@[i].children.len() ==> id_lt(
                #[trigger] t.nodes@[i].children@[b]@,
                #[trigger] t.nodes@[i].children@[a]@,
            ),
        forall|i: int, k: int|
            0 <= i < t.nodes.len() && 0 <= k < t.nodes@[i].children.len() ==> #[trigger] child_anchored(
                v,
                t,
                i,
                k,
            ),
        forall|i: int|
            0 <= i < t.nodes.len() && (#[trigger] t.nodes@[i]).children.len() > 0 ==> opt_id_view(
                t.nodes@[i].next,
            ) == Some(t.nodes@[i].children@[0]@),
{
    let ord = order(v);
    lemma_order_range(v);
    assert forall|a: int, b: int|
        0 <= a < b < ord.len() && !t.nodes@[#[trigger] ord[a] as int].tombstone
            && !t.nodes@[#[trigger] ord[b] as int].tombstone implies t.nodes@[ord[a] as int].visible_index->0
        < t.nodes@[ord[b] as int].visible_index->0 by {
        crate::traversal::lemma_visible_index_increasing(v);
        crate::traversal::lemma_visible_index_none(v);
        assert(describes(v, ord[a] as int, t.nodes@[ord[a] as int]));
        assert(describes(v, ord[b] as int, t.nodes@[ord[b] as int]));
        assert(visible_index_of(v, ord[a] as int) is Some);
        assert(visible_index_of(v, ord[b] as int) is Some);
    }
    assert forall|i: int, k: int| 0 <= i < t.nodes.len() && 0 <= k < t.nodes@[i].children.len() implies #[trigger] child_anchored(
        v,
        t,
        i,
        k,
    ) by {
        assert(describes(v, i, t.nodes@[i]));
        let cs = v.nodes[i].children;
        let ts = ids_view(t.nodes@[i].children@);
        assert(ts.len() == t.nodes@[i].children@.len());
        assert(ts == cs.map_values(|c: usize| v.nodes[c as int].id));
        assert(ts[k] == t.nodes@[i].children@[k]@);
        assert(crate::model::list_ok(v.nodes, cs, i));
        let c = cs[k] as int;
        assert(i < cs[k] < v.nodes.len());
        assert(describes(v, c, t.nodes@[c]));
        assert(crate::model::belongs(v.nodes, c, i));
    }
    assert forall|i: int, a: int, b: int|
        0 <= i < t.nodes.len() && 0 <= a < b < t.nodes@[i].children.len() implies id_lt(
        #[trigger] t.nodes@[i].children@[b]@,
        #[trigger] t.nodes@[i].children@[a]@,
    ) by {
        assert(describes(v, i, t.nodes@[i]));
        let cs = v.nodes[i].children;
        let ts = ids_view(t.nodes@[i].children@);
        assert(ts.len() == t.nodes@[i].children@.len());
        assert(ts == cs.map_values(|c: usize| v.nodes[c as int].id));
        assert(ts[a] == t.nodes@[i].children@[a]@);
        assert(ts[b] == t.nodes@[i].children@[b]@);
        assert(crate::model::list_ok(v.nodes, cs, i));
        assert(id_lt(v.nodes[cs[b] as int].id, v.nodes[cs[a] as int].id));
    }
    assert forall|i: int| 0 <= i < t.nodes.len() && (#[trigger] t.nodes@[i]).children.len() > 0 implies opt_id_view(
        t.nodes@[i].next,
    ) == Some(t.nodes@[i].children@[0]@) by {
        crate::traversal::lemma_child_laws(v);
        assert(describes(v, i, t.nodes@[i]));
        let cs = v.nodes[i].children;
        let ts = ids_view(t.nodes@[i].children@);
        assert(ts.len() == t.nodes@[i].children@.len());
        assert(ts == cs.map_values(|c: usize| v.nodes[c as int].id));
        assert(ts[0] == t.nodes@[i].children@[0]@);
    }
}

} // verus!
