//! The Replicated Growable Array of Roh et al. 2011 in its linked-list form.
//!
//! Nodes live in an arena (`nodes`) and are chained by index in document
//! order, starting at `head`. Each node is identified by the quadruple vector
//! `s_k` of the insert that made it; remote operations name nodes by it.
use vstd::prelude::*;
use crate::s4vector::S4Vector;
use crate::s4vector::s4_lt;
use crate::crdt::node::Node;
use crate::rga::push_char;

verus! {

/// What a node holds, apart from its place in the arena.
pub ghost struct Entry {
    pub s_k: S4Vector,
    pub obj: Option<char>,
    pub s_p: S4Vector,
}

/// The entry of a node.
pub open spec fn entry_of(n: Node) -> Entry {
    Entry { s_k: n.s_k, obj: n.obj, s_p: n.s_p }
}

/// An operation on the linked-list RGA, as one replica sends it to the others.
#[derive(Debug, PartialEq, Eq, Structural)]
pub enum Operation {
    /// Insert `obj` as a new node identified by `s_k`, to the right of the
    /// node identified by `left` (`None`: at the head).
    Insert { left: Option<S4Vector>, obj: char, s_k: S4Vector },
    /// Delete the node identified by `target`; `s_k` is the delete's own vector.
    Delete { target: S4Vector, s_k: S4Vector },
    /// Replace the character of the node identified by `target` with `obj`;
    /// `s_k` is the update's own vector.
    Update { target: S4Vector, obj: char, s_k: S4Vector },
}

impl Clone for Operation {
    fn clone(&self) -> (res: Self)
        ensures
            res == *self,
    {
        match self {
            Operation::Insert { left, obj, s_k } => Operation::Insert {
                left: match left {
                    Some(a) => Some(a.clone()),
                    None => None,
                },
                obj: *obj,
                s_k: s_k.clone(),
            },
            Operation::Delete { target, s_k } => Operation::Delete {
                target: target.clone(),
                s_k: s_k.clone(),
            },
            Operation::Update { target, obj, s_k } => Operation::Update {
                target: target.clone(),
                obj: *obj,
                s_k: s_k.clone(),
            },
        }
    }
}

// ---------------------------------------------------------------------------
// The document as a sequence of entries
// ---------------------------------------------------------------------------

/// Some entry of `l` is identified by `s`.
pub open spec fn has_key(l: Seq<Entry>, s: S4Vector) -> bool {
    exists|i: int| 0 <= i < l.len() && l[i].s_k == s
}

/// The position of the entry identified by `s` (meaningful when there is one).
pub open spec fn key_index(l: Seq<Entry>, s: S4Vector) -> int {
    choose|i: int| 0 <= i < l.len() && l[i].s_k == s
}

/// No two entries share an identifier.
pub open spec fn keys_unique(l: Seq<Entry>) -> bool {
    forall|i: int, j: int| 0 <= i < j < l.len() ==> l[i].s_k != l[j].s_k
}

/// The last operation on a live entry does not precede the insert that made
/// it.
pub open spec fn live_ok(e: Entry) -> bool {
    e.obj is Some ==> !s4_lt(e.s_p, e.s_k)
}

/// Identifiers are unique and every live entry is [`live_ok`].
pub open spec fn entries_ok(l: Seq<Entry>) -> bool {
    &&& keys_unique(l)
    &&& forall|i: int| 0 <= i < l.len() ==> live_ok(#[trigger] l[i])
}

/// Where the scan for an insert starts: just right of its left node, or at the
/// head.
pub open spec fn insert_start(l: Seq<Entry>, left: Option<S4Vector>) -> int {
    match left {
        None => 0,
        Some(a) => key_index(l, a) + 1,
    }
}

/// The first position at or after `j` whose node does not outrank `s`; the
/// nodes passed over are those that `s` precedes.
pub open spec fn scan_from(l: Seq<Entry>, s: S4Vector, j: int) -> int
    decreases l.len() - j,
{
    if j >= l.len() {
        l.len() as int
    } else if s4_lt(s, l[j].s_k) {
        scan_from(l, s, j + 1)
    } else {
        j
    }
}

/// An insert takes effect when its identifier is new and its left node, if
/// any, is present.
pub open spec fn insert_applies(l: Seq<Entry>, left: Option<S4Vector>, s: S4Vector) -> bool {
    &&& !has_key(l, s)
    &&& match left {
        None => true,
        Some(a) => has_key(l, a),
    }
}

/// Algorithm 8: the new node goes right of its left node, after every node
/// there that outranks it.
pub open spec fn remote_insert_spec(
    l: Seq<Entry>,
    left: Option<S4Vector>,
    obj: char,
    s: S4Vector,
) -> Seq<Entry> {
    if insert_applies(l, left, s) {
        l.insert(scan_from(l, s, insert_start(l, left)), Entry { s_k: s, obj: Some(obj), s_p: s })
    } else {
        l
    }
}

/// Algorithm 9: the target becomes a tombstone, last touched by the delete.
pub open spec fn remote_delete_spec(l: Seq<Entry>, t: S4Vector, so: S4Vector) -> Seq<Entry> {
    if has_key(l, t) {
        l.update(key_index(l, t), Entry { s_k: t, obj: None, s_p: so })
    } else {
        l
    }
}

/// An update takes effect on a live target whose last operation does not
/// outrank it.
pub open spec fn update_applies(l: Seq<Entry>, t: S4Vector, so: S4Vector) -> bool {
    &&& has_key(l, t)
    &&& l[key_index(l, t)].obj is Some
    &&& !s4_lt(so, l[key_index(l, t)].s_p)
}

/// Algorithm 10: a tombstone stays deleted, and an update that a later
/// operation outranks is dropped.
pub open spec fn remote_update_spec(l: Seq<Entry>, t: S4Vector, obj: char, so: S4Vector) -> Seq<
    Entry,
> {
    if update_applies(l, t, so) {
        l.update(key_index(l, t), Entry { s_k: t, obj: Some(obj), s_p: so })
    } else {
        l
    }
}

/// The effect of an operation.
pub open spec fn apply_spec(l: Seq<Entry>, op: Operation) -> Seq<Entry> {
    match op {
        Operation::Insert { left, obj, s_k } => remote_insert_spec(l, left, obj, s_k),
        Operation::Delete { target, s_k } => remote_delete_spec(l, target, s_k),
        Operation::Update { target, obj, s_k } => remote_update_spec(l, target, obj, s_k),
    }
}

/// The number of live entries.
pub open spec fn visible_count(l: Seq<Entry>) -> nat
    decreases l.len(),
{
    if l.len() == 0 {
        0
    } else {
        visible_count(l.drop_last()) + if l.last().obj is Some {
            1nat
        } else {
            0nat
        }
    }
}

/// The characters of the live entries, in order.
pub open spec fn text_of(l: Seq<Entry>) -> Seq<char>
    decreases l.len(),
{
    if l.len() == 0 {
        Seq::empty()
    } else {
        match l.last().obj {
            Some(c) => text_of(l.drop_last()).push(c),
            None => text_of(l.drop_last()),
        }
    }
}

/// The identifiers of the tombstones, in document order.
pub open spec fn tombstone_keys(l: Seq<Entry>) -> Seq<S4Vector>
    decreases l.len(),
{
    if l.len() == 0 {
        Seq::empty()
    } else if l.last().obj is None {
        tombstone_keys(l.drop_last()).push(l.last().s_k)
    } else {
        tombstone_keys(l.drop_last())
    }
}

/// The node identified by `s` is present and a tombstone.
pub open spec fn is_tombstone_key(l: Seq<Entry>, s: S4Vector) -> bool {
    has_key(l, s) && l[key_index(l, s)].obj is None
}

/// Garbage collection of one node: a tombstone identified by `s` leaves the
/// list; anything else stays.
pub open spec fn gc_spec(l: Seq<Entry>, s: S4Vector) -> Seq<Entry> {
    if is_tombstone_key(l, s) {
        l.remove(key_index(l, s))
    } else {
        l
    }
}

/// The character a replayed insert gives a node that is deleted right after.
pub open spec fn placeholder() -> char {
    '\u{FFFD}'
}

/// The operations that recreate entry `e` right of the node identified by
/// `left`: its insert, then the delete or update that was its last operation.
pub open spec fn entry_ops(e: Entry, left: Option<S4Vector>) -> Seq<Operation> {
    if e.obj is None {
        seq![
            Operation::Insert { left, obj: entry_char(e), s_k: e.s_k },
            Operation::Delete { target: e.s_k, s_k: e.s_p },
        ]
    } else if e.s_p == e.s_k {
        seq![Operation::Insert { left, obj: entry_char(e), s_k: e.s_k }]
    } else {
        seq![
            Operation::Insert { left, obj: entry_char(e), s_k: e.s_k },
            Operation::Update { target: e.s_k, obj: entry_char(e), s_k: e.s_p },
        ]
    }
}

/// The character an entry's replayed insert carries: its own, or the
/// placeholder for a tombstone.
pub open spec fn entry_char(e: Entry) -> char {
    match e.obj {
        Some(c) => c,
        None => placeholder(),
    }
}

/// The operations that recreate the list `l` on an empty replica, entry by
/// entry in document order.
pub open spec fn hydration_spec(l: Seq<Entry>) -> Seq<Operation>
    decreases l.len(),
{
    if l.len() == 0 {
        Seq::empty()
    } else {
        let m = l.drop_last();
        hydration_spec(m) + entry_ops(
            l.last(),
            if m.len() == 0 {
                None
            } else {
                Some(m.last().s_k)
            },
        )
    }
}

/// The entries after applying `ops` in order.
pub open spec fn apply_all(l: Seq<Entry>, ops: Seq<Operation>) -> Seq<Entry>
    decreases ops.len(),
{
    if ops.len() == 0 {
        l
    } else {
        apply_spec(apply_all(l, ops.drop_last()), ops.last())
    }
}

/// Position `p` holds the `k`-th live entry, counting from 1.
pub open spec fn is_nth_visible(l: Seq<Entry>, p: int, k: int) -> bool {
    &&& 0 <= p < l.len()
    &&& l[p].obj is Some
    &&& visible_count(l.take(p)) + 1 == k
}

/// `left` names the node after which a local insert at `pos` goes: none for
/// `pos == 0`, else the `pos`-th live node.
pub open spec fn anchor_at(l: Seq<Entry>, pos: int, left: Option<S4Vector>) -> bool {
    if pos == 0 {
        left is None
    } else {
        exists|p: int| is_nth_visible(l, p, pos) && left == Some(l[p].s_k)
    }
}

/// `target` names the `pos`-th live node.
pub open spec fn target_at(l: Seq<Entry>, pos: int, target: S4Vector) -> bool {
    exists|p: int| is_nth_visible(l, p, pos) && target == l[p].s_k
}

// ---------------------------------------------------------------------------
// Lemmas on the sequence model
// ---------------------------------------------------------------------------

/// With unique identifiers, the position of an identifier is the one holding it.
pub proof fn lemma_key_index(l: Seq<Entry>, p: int)
    requires
        keys_unique(l),
        0 <= p < l.len(),
    ensures
        has_key(l, l[p].s_k),
        key_index(l, l[p].s_k) == p,
{
    assert(0 <= p < l.len() && l[p].s_k == l[p].s_k);
    let i = key_index(l, l[p].s_k);
    if i != p {
        if i < p {
            assert(l[i].s_k != l[p].s_k);
        } else {
            assert(l[p].s_k != l[i].s_k);
        }
    }
}

/// Counting live entries of a prefix, one entry at a time.
pub proof fn lemma_visible_step(l: Seq<Entry>, p: int)
    requires
        0 <= p < l.len(),
    ensures
        visible_count(l.take(p + 1)) == visible_count(l.take(p)) + if l[p].obj is Some {
            1nat
        } else {
            0nat
        },
        text_of(l.take(p + 1)) == (match l[p].obj {
            Some(c) => text_of(l.take(p)).push(c),
            None => text_of(l.take(p)),
        }),
{
    assert(l.take(p + 1).drop_last() =~= l.take(p));
}

/// Longer prefixes hold at least as many live entries.
pub proof fn lemma_visible_mono(l: Seq<Entry>, a: int, b: int)
    requires
        0 <= a <= b <= l.len(),
    ensures
        visible_count(l.take(a)) <= visible_count(l.take(b)),
    decreases b - a,
{
    if a < b {
        lemma_visible_mono(l, a, b - 1);
        lemma_visible_step(l, b - 1);
    }
}

/// At most one position holds the `k`-th live entry.
pub proof fn lemma_nth_visible_unique(l: Seq<Entry>, p: int, q: int, k: int)
    requires
        is_nth_visible(l, p, k),
        is_nth_visible(l, q, k),
    ensures
        p == q,
{
    if p < q {
        lemma_visible_step(l, p);
        lemma_visible_mono(l, p + 1, q);
    } else if q < p {
        lemma_visible_step(l, q);
        lemma_visible_mono(l, q + 1, p);
    }
}

/// The entries of the arena `ns` taken in the order `ord`.
spec fn entries_of(ord: Seq<usize>, ns: Seq<Node>) -> Seq<Entry> {
    Seq::new(ord.len(), |p: int| entry_of(ns[ord[p] as int]))
}

/// The list starting at `head` runs through nodes of the arena `ns`, each at
/// most once, in the order `ord`.
spec fn chain(ord: Seq<usize>, ns: Seq<Node>, head: Option<usize>) -> bool {
    &&& ord.len() <= ns.len()
    &&& ns.len() <= usize::MAX
    &&& forall|p: int| 0 <= p < ord.len() ==> (#[trigger] ord[p] as int) < ns.len()
    &&& forall|p: int, q: int| 0 <= p < q < ord.len() ==> ord[p] != ord[q]
    &&& head == (if ord.len() == 0 {
        None::<usize>
    } else {
        Some(ord[0])
    })
    &&& forall|p: int|
        0 <= p < ord.len() ==> (#[trigger] ns[ord[p] as int]).link == (if p + 1 < ord.len() {
            Some(ord[p + 1])
        } else {
            None::<usize>
        })
    &&& forall|k: int| 0 <= k < ns.len() ==> (#[trigger] ns[k]).next is None
}

/// Splicing a new node `n` into the list at position `p`: the node before it
/// now links to `n`, which links to the node that was at `p`.
proof fn lemma_splice(
    ord: Seq<usize>,
    ns: Seq<Node>,
    head: Option<usize>,
    ns2: Seq<Node>,
    head2: Option<usize>,
    p: int,
    node: Node,
)
    requires
        chain(ord, ns, head),
        0 <= p <= ord.len(),
        ns2.len() <= usize::MAX,
        node.link == (if p < ord.len() {
            Some(ord[p])
        } else {
            None::<usize>
        }),
        node.next is None,
        ns2.len() == ns.len() + 1,
        ns2[ns.len() as int] == node,
        p == 0 ==> head2 == Some(ns.len() as usize),
        p > 0 ==> head2 == head,
        p > 0 ==> ns2[ord[p - 1] as int] == (Node {
            link: Some(ns.len() as usize),
            ..ns[ord[p - 1] as int]
        }),
        forall|k: int|
            0 <= k < ns.len() && (p == 0 || k != ord[p - 1]) ==> #[trigger] ns2[k] == ns[k],
    ensures
        chain(ord.insert(p, ns.len() as usize), ns2, head2),
        entries_of(ord.insert(p, ns.len() as usize), ns2) == entries_of(ord, ns).insert(
            p,
            entry_of(node),
        ),
{
    let n = ns.len() as usize;
    let ord2 = ord.insert(p, n);
    assert forall|q: int| 0 <= q < ord2.len() implies (#[trigger] ord2[q] as int) < ns2.len() by {
        if q > p {
            assert(ord2[q] == ord[q - 1]);
        }
    }
    assert forall|q1: int, q2: int| 0 <= q1 < q2 < ord2.len() implies ord2[q1] != ord2[q2] by {
        if q1 < p && q2 > p {
            assert(ord2[q2] == ord[q2 - 1]);
        } else if q1 > p {
            assert(ord2[q1] == ord[q1 - 1]);
            assert(ord2[q2] == ord[q2 - 1]);
        }
    }
    assert forall|q: int| 0 <= q < ord2.len() implies (#[trigger] ns2[ord2[q] as int]).link == (if q
        + 1 < ord2.len() {
        Some(ord2[q + 1])
    } else {
        None::<usize>
    }) by {
        if q < p - 1 {
            assert(ord2[q] == ord[q]);
            assert(ord2[q + 1] == ord[q + 1]);
            assert(ord[q] != ord[p - 1]);
            assert(ns2[ord2[q] as int] == ns[ord[q] as int]);
        } else if q == p - 1 {
            assert(ord2[q] == ord[p - 1]);
        } else if q == p {
        } else {
            assert(ord2[q] == ord[q - 1]);
            if p >= 1 {
                assert(ord[q - 1] != ord[p - 1]);
            }
            assert(ns2[ord2[q] as int] == ns[ord[q - 1] as int]);
            if q + 1 < ord2.len() {
                assert(ord2[q + 1] == ord[q]);
            }
        }
    }
    assert forall|k: int| 0 <= k < ns2.len() implies (#[trigger] ns2[k]).next is None by {
        if k < ns.len() && (p == 0 || k != ord[p - 1]) {
            assert(ns2[k] == ns[k]);
        }
    }
    let e2 = entries_of(ord2, ns2);
    let e1 = entries_of(ord, ns).insert(p, entry_of(node));
    assert forall|q: int| 0 <= q < ord2.len() implies e2[q] == e1[q] by {
        if q < p {
            assert(ord2[q] == ord[q]);
            if p >= 1 && q != p - 1 {
                assert(ord[q] != ord[p - 1]);
            }
        } else if q > p {
            assert(ord2[q] == ord[q - 1]);
            if p >= 1 {
                assert(ord[q - 1] != ord[p - 1]);
            }
            assert(ns2[ord2[q] as int] == ns[ord[q - 1] as int]);
        }
    }
    assert(e2 =~= e1);
}

/// Replacing the node at list position `p` by one with the same links.
proof fn lemma_replace(ord: Seq<usize>, ns: Seq<Node>, head: Option<usize>, p: int, node: Node)
    requires
        chain(ord, ns, head),
        0 <= p < ord.len(),
        node.link == ns[ord[p] as int].link,
        node.next is None,
    ensures
        chain(ord, ns.update(ord[p] as int, node), head),
        entries_of(ord, ns.update(ord[p] as int, node)) == entries_of(ord, ns).update(
            p,
            entry_of(node),
        ),
{
    let ns2 = ns.update(ord[p] as int, node);
    assert forall|q: int| 0 <= q < ord.len() implies (#[trigger] ns2[ord[q] as int]).link == (if q
        + 1 < ord.len() {
        Some(ord[q + 1])
    } else {
        None::<usize>
    }) by {
        if q != p {
            assert(ord[q] != ord[p]);
        }
    }
    assert forall|k: int| 0 <= k < ns2.len() implies (#[trigger] ns2[k]).next is None by {
        if k != ord[p] {
            assert(ns2[k] == ns[k]);
        }
    }
    let e2 = entries_of(ord, ns2);
    let e1 = entries_of(ord, ns).update(p, entry_of(node));
    assert forall|q: int| 0 <= q < ord.len() implies e2[q] == e1[q] by {
        if q != p {
            assert(ord[q] != ord[p]);
        }
    }
    assert(e2 =~= e1);
}

/// Unlinking the node at list position `p`: the node before it (or the head)
/// now points past it.
proof fn lemma_unlink(
    ord: Seq<usize>,
    ns: Seq<Node>,
    head: Option<usize>,
    ns2: Seq<Node>,
    head2: Option<usize>,
    p: int,
)
    requires
        chain(ord, ns, head),
        0 <= p < ord.len(),
        p == 0 ==> ns2 == ns && head2 == ns[ord[0] as int].link,
        p > 0 ==> head2 == head && ns2 == ns.update(
            ord[p - 1] as int,
            Node { link: ns[ord[p] as int].link, ..ns[ord[p - 1] as int] },
        ),
    ensures
        chain(ord.remove(p), ns2, head2),
        entries_of(ord.remove(p), ns2) == entries_of(ord, ns).remove(p),
{
    let ord2 = ord.remove(p);
    assert forall|q: int| 0 <= q < ord2.len() implies (#[trigger] ord2[q] as int) < ns2.len() by {
        if q >= p {
            assert(ord2[q] == ord[q + 1]);
        }
    }
    assert forall|q1: int, q2: int| 0 <= q1 < q2 < ord2.len() implies ord2[q1] != ord2[q2] by {
        let a = if q1 < p { q1 } else { q1 + 1 };
        let b = if q2 < p { q2 } else { q2 + 1 };
        assert(ord2[q1] == ord[a]);
        assert(ord2[q2] == ord[b]);
    }
    assert forall|q: int| 0 <= q < ord2.len() implies (#[trigger] ns2[ord2[q] as int]).link == (if q
        + 1 < ord2.len() {
        Some(ord2[q + 1])
    } else {
        None::<usize>
    }) by {
        if q < p - 1 {
            assert(ord2[q] == ord[q]);
            assert(ord2[q + 1] == ord[q + 1]);
            assert(ord[q] != ord[p - 1]);
        } else if q == p - 1 {
            assert(ord2[q] == ord[p - 1]);
            if q + 1 < ord2.len() {
                assert(ord2[q + 1] == ord[p + 1]);
            }
        } else {
            assert(ord2[q] == ord[q + 1]);
            if p > 0 {
                assert(ord[q + 1] != ord[p - 1]);
            }
            if q + 1 < ord2.len() {
                assert(ord2[q + 1] == ord[q + 2]);
            }
        }
    }
    assert forall|k: int| 0 <= k < ns2.len() implies (#[trigger] ns2[k]).next is None by {
        if p > 0 && k == ord[p - 1] {
        } else {
            assert(ns2[k] == ns[k]);
        }
    }
    if p == 0 && ord2.len() > 0 {
        assert(ord2[0] == ord[1]);
    }
    let e2 = entries_of(ord2, ns2);
    let e1 = entries_of(ord, ns).remove(p);
    assert forall|q: int| 0 <= q < ord2.len() implies e2[q] == e1[q] by {
        let a = if q < p { q } else { q + 1 };
        assert(ord2[q] == ord[a]);
        if p > 0 && a != p - 1 {
            assert(ord[a] != ord[p - 1]);
        }
    }
    assert(e2 =~= e1);
}

/// Collecting a tombstone keeps identifiers unique and live entries sound.
pub proof fn lemma_gc_entries_ok(l: Seq<Entry>, s: S4Vector)
    requires
        entries_ok(l),
    ensures
        entries_ok(gc_spec(l, s)),
{
    if is_tombstone_key(l, s) {
        let p = choose|i: int| 0 <= i < l.len() && l[i].s_k == s;
        lemma_key_index(l, p);
        lemma_entries_ok_remove(l, p);
    }
}

/// Removing an entry keeps identifiers unique and live entries sound.
proof fn lemma_entries_ok_remove(l: Seq<Entry>, p: int)
    requires
        entries_ok(l),
        0 <= p < l.len(),
    ensures
        entries_ok(l.remove(p)),
{
    let l2 = l.remove(p);
    assert forall|i: int, j: int| 0 <= i < j < l2.len() implies l2[i].s_k != l2[j].s_k by {
        let a = if i < p { i } else { i + 1 };
        let b = if j < p { j } else { j + 1 };
        assert(l2[i] == l[a]);
        assert(l2[j] == l[b]);
    }
    assert forall|i: int| 0 <= i < l2.len() implies live_ok(#[trigger] l2[i]) by {
        let a = if i < p { i } else { i + 1 };
        assert(l2[i] == l[a]);
    }
}

// ---------------------------------------------------------------------------
// The replica
// ---------------------------------------------------------------------------

/// The state of a replica: its entries in document order, and the numbers its
/// own operations are stamped with.
pub ghost struct RgaState {
    pub entries: Seq<Entry>,
    pub site_id: u64,
    pub session: u64,
    pub counter: u64,
}

/// The vector the next local operation of a replica in state `v` gets.
pub open spec fn fresh_vector(v: RgaState) -> S4Vector {
    S4Vector {
        ssn: v.session,
        sid: v.site_id,
        sum: (v.counter + 1) as u64,
        seq: (v.counter + 1) as u64,
    }
}

/// The state after a local operation stamped with the fresh vector, whose
/// effect on the entries is `entries`.
pub open spec fn stepped(v: RgaState, entries: Seq<Entry>) -> RgaState {
    RgaState { entries, counter: (v.counter + 1) as u64, ..v }
}

/// What a local insert of `obj` at `pos` does to a replica in state `v`,
/// leaving it in state `w` and returning `r`.
pub open spec fn local_insert_post(
    v: RgaState,
    w: RgaState,
    pos: int,
    obj: char,
    r: Option<Operation>,
) -> bool {
    if pos > visible_count(v.entries) {
        r is None && w == v
    } else {
        exists|left: Option<S4Vector>|
            {
                &&& anchor_at(v.entries, pos, left)
                &&& r == Some(Operation::Insert { left, obj, s_k: fresh_vector(v) })
                &&& w == stepped(v, remote_insert_spec(v.entries, left, obj, fresh_vector(v)))
            }
    }
}

/// What a local delete at `pos` does to a replica in state `v`.
pub open spec fn local_delete_post(v: RgaState, w: RgaState, pos: int, r: Option<Operation>) -> bool {
    if pos == 0 || pos > visible_count(v.entries) {
        r is None && w == v
    } else {
        exists|target: S4Vector|
            {
                &&& target_at(v.entries, pos, target)
                &&& r == Some(Operation::Delete { target, s_k: fresh_vector(v) })
                &&& w == stepped(v, remote_delete_spec(v.entries, target, fresh_vector(v)))
            }
    }
}

/// What a local update of the character at `pos` to `obj` does to a replica
/// in state `v`.
pub open spec fn local_update_post(
    v: RgaState,
    w: RgaState,
    pos: int,
    obj: char,
    r: Option<Operation>,
) -> bool {
    if pos == 0 || pos > visible_count(v.entries) {
        r is None && w == v
    } else {
        exists|target: S4Vector|
            {
                &&& target_at(v.entries, pos, target)
                &&& r == Some(Operation::Update { target, obj, s_k: fresh_vector(v) })
                &&& w == stepped(v, remote_update_spec(v.entries, target, obj, fresh_vector(v)))
            }
    }
}

/// The node arena and list of a replica.
struct Arena {
    nodes: Vec<Node>,
    head: Option<usize>,
    site_id: u64,
    session: u64,
    /// Counts the local operations; stands in for a vector clock.
    counter: u64,
    /// The arena indices in list order.
    order: Ghost<Seq<usize>>,
}

impl View for Arena {
    type V = RgaState;

    closed spec fn view(&self) -> RgaState {
        RgaState {
            entries: entries_of(self.order@, self.nodes@),
            site_id: self.site_id,
            session: self.session,
            counter: self.counter,
        }
    }
}

impl Arena {
    /// The list starting at `head` runs through every node of the arena once,
    /// in the order `order`, and no two nodes share an identifier.
    pub closed spec fn wf(&self) -> bool {
        &&& chain(self.order@, self.nodes@, self.head)
        &&& entries_ok(self@.entries)
    }

    /// A well-formed replica's entries have unique identifiers and sound live
    /// entries.
    pub proof fn lemma_wf(&self)
        requires
            self.wf(),
        ensures
            entries_ok(self@.entries),
    {
    }

    /// The node at list position `p`.
    proof fn lemma_entry(&self, p: int)
        requires
            0 <= p < self.order@.len(),
        ensures
            self@.entries[p] == entry_of(self.nodes@[self.order@[p] as int]),
    {
    }

    /// An empty document.
    pub fn new(site_id: u64, session: u64) -> (r: Self)
        ensures
            r.wf(),
            r@ == (RgaState { entries: Seq::empty(), site_id, session, counter: 0 }),
    {
        let r = Arena {
            nodes: Vec::new(),
            head: None,
            site_id,
            session,
            counter: 0,
            order: Ghost(Seq::empty()),
        };
        assert(r@.entries =~= Seq::<Entry>::empty());
        r
    }

    /// Walks the list for the node identified by `s`: its list position and
    /// arena index.
    fn locate(&self, s: &S4Vector) -> (r: Option<(usize, usize)>)
        requires
            self.wf(),
        ensures
            match r {
                Some((p, i)) => {
                    &&& p < self@.entries.len()
                    &&& i == self.order@[p as int]
                    &&& self@.entries[p as int].s_k == *s
                    &&& key_index(self@.entries, *s) == p
                },
                None => !has_key(self@.entries, *s),
            },
    {
        let ghost ord = self.order@;
        let ghost l = self@.entries;
        let mut cur = self.head;
        let mut p: usize = 0;
        while cur.is_some()
            invariant
                self.wf(),
                ord == self.order@,
                l == self@.entries,
                p <= ord.len(),
                cur == (if p < ord.len() {
                    Some(ord[p as int])
                } else {
                    None::<usize>
                }),
                forall|q: int| 0 <= q < p ==> (#[trigger] l[q]).s_k != *s,
            decreases ord.len() - p,
        {
            let i = cur.unwrap();
            proof {
                self.lemma_entry(p as int);
            }
            if self.nodes[i].s_k == *s {
                proof {
                    lemma_key_index(l, p as int);
                }
                return Some((p, i));
            }
            cur = self.nodes[i].link;
            p = p + 1;
        }
        None
    }

    /// Algorithm 4 (findlist): the arena index of the `pos`-th live node,
    /// counting from 1; `None` for `pos == 0` or past the last live node.
    fn findlist(&self, pos: usize) -> (r: Option<usize>)
        requires
            self.wf(),
        ensures
            pos == 0 ==> r is None,
            pos > 0 ==> (r is Some <==> pos <= visible_count(self@.entries)),
            r matches Some(i) ==> exists|p: int|
                is_nth_visible(self@.entries, p, pos as int) && self.order@[p] == i,
    {
        if pos == 0 {
            return None;
        }
        let ghost ord = self.order@;
        let ghost l = self@.entries;
        let mut cur = self.head;
        let mut p: usize = 0;
        let mut c: usize = 0;
        while cur.is_some()
            invariant
                self.wf(),
                ord == self.order@,
                l == self@.entries,
                p <= ord.len(),
                cur == (if p < ord.len() {
                    Some(ord[p as int])
                } else {
                    None::<usize>
                }),
                c == visible_count(l.take(p as int)),
                c < pos,
            decreases ord.len() - p,
        {
            let i = cur.unwrap();
            proof {
                self.lemma_entry(p as int);
                lemma_visible_step(l, p as int);
            }
            if self.nodes[i].obj.is_some() {
                if c + 1 == pos {
                    proof {
                        lemma_visible_mono(l, p as int + 1, l.len() as int);
                        assert(l.take(l.len() as int) =~= l);
                        assert(is_nth_visible(l, p as int, pos as int));
                    }
                    return Some(i);
                }
                c = c + 1;
            }
            cur = self.nodes[i].link;
            p = p + 1;
        }
        assert(l.take(p as int) =~= l);
        None
    }

    /// Algorithm 8 (remote insert): a node identified by `s_k` and holding
    /// `obj` goes right of the node identified by `left` (`None`: at the head),
    /// after every node there that outranks it. An insert whose identifier is
    /// already present, or whose left node is unknown, changes nothing.
    pub fn remote_insert(&mut self, left: Option<S4Vector>, obj: char, s_k: S4Vector)
        requires
            old(self).wf(),
        ensures
            final(self).wf(),
            final(self)@ == (RgaState {
                entries: remote_insert_spec(old(self)@.entries, left, obj, s_k),
                ..old(self)@
            }),
    {
        let ghost l = self@.entries;
        let ghost ord = self.order@;
        if self.locate(&s_k).is_some() {
            return;
        }
        let mut start: usize = 0;
        let mut prev: Option<usize> = None;
        match &left {
            None => {},
            Some(a) => match self.locate(a) {
                None => {
                    return;
                },
                Some((q, i)) => {
                    start = q + 1;
                    prev = Some(i);
                },
            },
        }
        assert(insert_applies(l, left, s_k));
        assert(start == insert_start(l, left));
        let mut cur: Option<usize> = match prev {
            None => self.head,
            Some(i) => self.nodes[i].link,
        };
        let mut p: usize = start;
        loop
            invariant_except_break
                self.wf(),
                ord == self.order@,
                l == self@.entries,
                start <= p <= ord.len(),
                cur == (if p < ord.len() {
                    Some(ord[p as int])
                } else {
                    None::<usize>
                }),
                prev == (if p == 0 {
                    None::<usize>
                } else {
                    Some(ord[p - 1])
                }),
                scan_from(l, s_k, start as int) == scan_from(l, s_k, p as int),
            ensures
                self.wf(),
                ord == self.order@,
                l == self@.entries,
                p <= ord.len(),
                cur == (if p < ord.len() {
                    Some(ord[p as int])
                } else {
                    None::<usize>
                }),
                prev == (if p == 0 {
                    None::<usize>
                } else {
                    Some(ord[p - 1])
                }),
                p == scan_from(l, s_k, start as int),
            decreases ord.len() - p,
        {
            match cur {
                None => {
                    break;
                },
                Some(i) => {
                    proof {
                        self.lemma_entry(p as int);
                    }
                    if s_k.precedes(&self.nodes[i].s_k) {
                        prev = cur;
                        cur = self.nodes[i].link;
                        p = p + 1;
                    } else {
                        break;
                    }
                },
            }
        }
        let n = self.nodes.len();
        let ghost ns = self.nodes@;
        let ghost head0 = self.head;
        let node = Node { obj: Some(obj), s_k: s_k.clone(), s_p: s_k, link: cur, next: None };
        let ghost e = entry_of(node);
        self.nodes.push(node);
        match prev {
            None => {
                self.head = Some(n);
            },
            Some(j) => {
                let upd = Node {
                    obj: self.nodes[j].obj,
                    s_k: self.nodes[j].s_k.clone(),
                    s_p: self.nodes[j].s_p.clone(),
                    link: Some(n),
                    next: self.nodes[j].next,
                };
                self.nodes.set(j, upd);
            },
        }
        let len_after = self.nodes.len();
        proof {
            assert(len_after == self.nodes@.len());
            lemma_splice(ord, ns, head0, self.nodes@, self.head, p as int, node);
        }
        self.order = Ghost(ord.insert(p as int, n));
        proof {
            let l2 = self@.entries;
            assert(l2 == l.insert(p as int, e));
            assert forall|q1: int, q2: int| 0 <= q1 < q2 < l2.len() implies l2[q1].s_k
                != l2[q2].s_k by {
                if q1 == p {
                    assert(l2[q2] == l[q2 - 1]);
                } else if q2 == p {
                    assert(l2[q1] == l[q1]);
                } else if q1 < p && q2 > p {
                    assert(l2[q2] == l[q2 - 1]);
                } else if q1 > p {
                    assert(l2[q1] == l[q1 - 1]);
                    assert(l2[q2] == l[q2 - 1]);
                }
            }
        }
    }

    /// Algorithm 9 (remote delete): the node identified by `target` becomes a
    /// tombstone, last touched by `s_o`. A delete of an unknown node changes
    /// nothing.
    pub fn remote_delete(&mut self, target: S4Vector, s_o: S4Vector)
        requires
            old(self).wf(),
        ensures
            final(self).wf(),
            final(self)@ == (RgaState {
                entries: remote_delete_spec(old(self)@.entries, target, s_o),
                ..old(self)@
            }),
    {
        let ghost l = self@.entries;
        let ghost ord = self.order@;
        let ghost ns = self.nodes@;
        match self.locate(&target) {
            None => {},
            Some((p, i)) => {
                proof {
                    self.lemma_entry(p as int);
                }
                let upd = Node {
                    obj: None,
                    s_k: self.nodes[i].s_k.clone(),
                    s_p: s_o,
                    link: self.nodes[i].link,
                    next: self.nodes[i].next,
                };
                proof {
                    lemma_replace(ord, ns, self.head, p as int, upd);
                }
                self.nodes.set(i, upd);
                proof {
                    let l2 = self@.entries;
                    assert forall|q1: int, q2: int| 0 <= q1 < q2 < l2.len() implies l2[q1].s_k
                        != l2[q2].s_k by {
                        assert(l[q1].s_k != l[q2].s_k);
                    }
                }
            },
        }
    }

    /// Algorithm 10 (remote update): the node identified by `target` takes
    /// `obj`, last touched by `s_o`, unless it is a tombstone (a delete always
    /// wins over an update) or its last operation outranks `s_o`. An update of
    /// an unknown node changes nothing.
    pub fn remote_update(&mut self, target: S4Vector, obj: char, s_o: S4Vector)
        requires
            old(self).wf(),
        ensures
            final(self).wf(),
            final(self)@ == (RgaState {
                entries: remote_update_spec(old(self)@.entries, target, obj, s_o),
                ..old(self)@
            }),
    {
        let ghost l = self@.entries;
        let ghost ord = self.order@;
        let ghost ns = self.nodes@;
        match self.locate(&target) {
            None => {},
            Some((p, i)) => {
                proof {
                    self.lemma_entry(p as int);
                }
                if self.nodes[i].obj.is_none() {
                    return;
                }
                if s_o.precedes(&self.nodes[i].s_p) {
                    return;
                }
                let upd = Node {
                    obj: Some(obj),
                    s_k: self.nodes[i].s_k.clone(),
                    s_p: s_o,
                    link: self.nodes[i].link,
                    next: self.nodes[i].next,
                };
                proof {
                    lemma_replace(ord, ns, self.head, p as int, upd);
                }
                self.nodes.set(i, upd);
                proof {
                    let l2 = self@.entries;
                    assert forall|q1: int, q2: int| 0 <= q1 < q2 < l2.len() implies l2[q1].s_k
                        != l2[q2].s_k by {
                        assert(l[q1].s_k != l[q2].s_k);
                    }
                }
            },
        }
    }

    /// Applies a remote operation with the algorithm for its kind.
    pub fn apply(&mut self, op: Operation)
        requires
            old(self).wf(),
        ensures
            final(self).wf(),
            final(self)@ == (RgaState { entries: apply_spec(old(self)@.entries, op), ..old(self)@ }),
    {
        match op {
            Operation::Insert { left, obj, s_k } => self.remote_insert(left, obj, s_k),
            Operation::Delete { target, s_k } => self.remote_delete(target, s_k),
            Operation::Update { target, obj, s_k } => self.remote_update(target, obj, s_k),
        }
    }

    /// The vector of the next local operation; advances the counter, which
    /// stands in for both the sum and the own entry of a vector clock.
    fn next_s4vector(&mut self) -> (r: S4Vector)
        requires
            old(self).wf(),
            old(self)@.counter < u64::MAX,
        ensures
            final(self).wf(),
            r == fresh_vector(old(self)@),
            final(self)@ == (RgaState { counter: (old(self)@.counter + 1) as u64, ..old(self)@ }),
    {
        self.counter = self.counter + 1;
        S4Vector::new(self.session, self.site_id, self.counter, self.counter)
    }

    /// Inserts `obj` after the `pos`-th live character (`0`: at the head),
    /// and returns the operation to send to the other replicas; `None`, with
    /// nothing changed, when there are fewer than `pos` live characters.
    pub fn local_insert(&mut self, pos: usize, obj: char) -> (r: Option<Operation>)
        requires
            old(self).wf(),
            old(self)@.counter < u64::MAX,
        ensures
            final(self).wf(),
            local_insert_post(old(self)@, final(self)@, pos as int, obj, r),
    {
        let ghost l = self@.entries;
        let left: Option<S4Vector> = if pos == 0 {
            None
        } else {
            match self.findlist(pos) {
                None => {
                    return None;
                },
                Some(i) => {
                    let ghost p = choose|p: int|
                        is_nth_visible(l, p, pos as int) && self.order@[p] == i;
                    proof {
                        self.lemma_entry(p);
                    }
                    Some(self.nodes[i].s_k.clone())
                },
            }
        };
        let s = self.next_s4vector();
        self.remote_insert(left.clone(), obj, s.clone());
        assert(anchor_at(l, pos as int, left));
        Some(Operation::Insert { left, obj, s_k: s })
    }

    /// Deletes the `pos`-th live character, counting from 1, and returns the
    /// operation to send; `None`, with nothing changed, for `pos == 0` or when
    /// there are fewer than `pos` live characters.
    pub fn local_delete(&mut self, pos: usize) -> (r: Option<Operation>)
        requires
            old(self).wf(),
            old(self)@.counter < u64::MAX,
        ensures
            final(self).wf(),
            local_delete_post(old(self)@, final(self)@, pos as int, r),
    {
        let ghost l = self@.entries;
        match self.findlist(pos) {
            None => None,
            Some(i) => {
                let ghost p = choose|p: int| is_nth_visible(l, p, pos as int) && self.order@[p] == i;
                proof {
                    self.lemma_entry(p);
                }
                let target = self.nodes[i].s_k.clone();
                let s = self.next_s4vector();
                self.remote_delete(target.clone(), s.clone());
                assert(target_at(l, pos as int, target));
                Some(Operation::Delete { target, s_k: s })
            },
        }
    }

    /// Replaces the `pos`-th live character, counting from 1, with `obj`, and
    /// returns the operation to send; `None`, with nothing changed, for
    /// `pos == 0` or when there are fewer than `pos` live characters.
    pub fn local_update(&mut self, pos: usize, obj: char) -> (r: Option<Operation>)
        requires
            old(self).wf(),
            old(self)@.counter < u64::MAX,
        ensures
            final(self).wf(),
            local_update_post(old(self)@, final(self)@, pos as int, obj, r),
    {
        let ghost l = self@.entries;
        match self.findlist(pos) {
            None => None,
            Some(i) => {
                let ghost p = choose|p: int| is_nth_visible(l, p, pos as int) && self.order@[p] == i;
                proof {
                    self.lemma_entry(p);
                }
                let target = self.nodes[i].s_k.clone();
                let s = self.next_s4vector();
                self.remote_update(target.clone(), obj, s.clone());
                assert(target_at(l, pos as int, target));
                Some(Operation::Update { target, obj, s_k: s })
            },
        }
    }

    /// Returns `true` if the node identified by `s_k` is present and a
    /// tombstone.
    pub fn is_tombstoned(&self, s_k: &S4Vector) -> (r: bool)
        requires
            self.wf(),
        ensures
            r == is_tombstone_key(self@.entries, *s_k),
    {
        match self.locate(s_k) {
            None => false,
            Some((p, i)) => {
                proof {
                    self.lemma_entry(p as int);
                }
                self.nodes[i].obj.is_none()
            },
        }
    }

    /// The identifiers of the tombstones, in document order.
    pub fn tombstoned_keys(&self) -> (r: Vec<S4Vector>)
        requires
            self.wf(),
        ensures
            r@ == tombstone_keys(self@.entries),
    {
        let ghost ord = self.order@;
        let ghost l = self@.entries;
        let mut out: Vec<S4Vector> = Vec::new();
        let mut cur = self.head;
        let mut p: usize = 0;
        while cur.is_some()
            invariant
                self.wf(),
                ord == self.order@,
                l == self@.entries,
                p <= ord.len(),
                cur == (if p < ord.len() {
                    Some(ord[p as int])
                } else {
                    None::<usize>
                }),
                out@ == tombstone_keys(l.take(p as int)),
            decreases ord.len() - p,
        {
            let i = cur.unwrap();
            proof {
                self.lemma_entry(p as int);
                assert(l.take(p + 1).drop_last() =~= l.take(p as int));
            }
            if self.nodes[i].obj.is_none() {
                out.push(self.nodes[i].s_k.clone());
            }
            cur = self.nodes[i].link;
            p = p + 1;
        }
        assert(l.take(p as int) =~= l);
        out
    }

    /// Removes the node identified by `s_k` from the list if it is a
    /// tombstone; a live or unknown node stays.
    pub fn gc_node(&mut self, s_k: &S4Vector)
        requires
            old(self).wf(),
        ensures
            final(self).wf(),
            final(self)@ == (RgaState { entries: gc_spec(old(self)@.entries, *s_k), ..old(self)@ }),
    {
        let ghost ord = self.order@;
        let ghost l = self@.entries;
        let ghost ns = self.nodes@;
        let mut prev: Option<usize> = None;
        let mut cur = self.head;
        let mut p: usize = 0;
        while cur.is_some()
            invariant
                self.wf(),
                ord == self.order@,
                l == self@.entries,
                ns == self.nodes@,
                self@ == old(self)@,
                self.head == old(self).head,
                p <= ord.len(),
                cur == (if p < ord.len() {
                    Some(ord[p as int])
                } else {
                    None::<usize>
                }),
                prev == (if p == 0 {
                    None::<usize>
                } else {
                    Some(ord[p - 1])
                }),
                forall|q: int| 0 <= q < p ==> (#[trigger] l[q]).s_k != *s_k,
            decreases ord.len() - p,
        {
            let i = cur.unwrap();
            proof {
                self.lemma_entry(p as int);
            }
            if self.nodes[i].s_k == *s_k {
                proof {
                    lemma_key_index(l, p as int);
                }
                if self.nodes[i].obj.is_some() {
                    return;
                }
                let next = self.nodes[i].link;
                let ghost head0 = self.head;
                match prev {
                    None => {
                        self.head = next;
                    },
                    Some(j) => {
                        let upd = Node {
                            obj: self.nodes[j].obj,
                            s_k: self.nodes[j].s_k.clone(),
                            s_p: self.nodes[j].s_p.clone(),
                            link: next,
                            next: self.nodes[j].next,
                        };
                        self.nodes.set(j, upd);
                    },
                }
                proof {
                    lemma_unlink(ord, ns, head0, self.nodes@, self.head, p as int);
                    lemma_entries_ok_remove(l, p as int);
                }
                self.order = Ghost(ord.remove(p as int));
                return;
            }
            prev = cur;
            cur = self.nodes[i].link;
            p = p + 1;
        }
    }

    /// The operations that recreate this document on an empty replica: for
    /// each node in document order, its insert right of the node before it,
    /// then the delete or update that was its last operation.
    pub fn hydration_ops(&self) -> (r: Vec<Operation>)
        requires
            self.wf(),
        ensures
            r@ == hydration_spec(self@.entries),
            apply_all(Seq::empty(), r@) == self@.entries,
    {
        proof {
            crate::crdt::hydration::lemma_hydration_replays(self@.entries);
        }
        let ghost ord = self.order@;
        let ghost l = self@.entries;
        let mut out: Vec<Operation> = Vec::new();
        let mut left: Option<S4Vector> = None;
        let mut cur = self.head;
        let mut p: usize = 0;
        while cur.is_some()
            invariant
                self.wf(),
                ord == self.order@,
                l == self@.entries,
                p <= ord.len(),
                cur == (if p < ord.len() {
                    Some(ord[p as int])
                } else {
                    None::<usize>
                }),
                left == (if p == 0 {
                    None::<S4Vector>
                } else {
                    Some(l[p - 1].s_k)
                }),
                out@ == hydration_spec(l.take(p as int)),
            decreases ord.len() - p,
        {
            let i = cur.unwrap();
            proof {
                self.lemma_entry(p as int);
                let t = l.take(p + 1);
                assert(t.drop_last() =~= l.take(p as int));
                assert(t.last() == l[p as int]);
                if p > 0 {
                    assert(t.drop_last().last() == l[p - 1]);
                }
            }
            let ghost before = out@;
            let s = self.nodes[i].s_k.clone();
            match self.nodes[i].obj {
                None => {
                    out.push(Operation::Insert { left: left, obj: '\u{FFFD}', s_k: s.clone() });
                    out.push(Operation::Delete { target: s.clone(), s_k: self.nodes[i].s_p.clone() });
                    assert(out@ =~= before + entry_ops(l[p as int], left));
                },
                Some(c) => {
                    if self.nodes[i].s_p == self.nodes[i].s_k {
                        out.push(Operation::Insert { left: left, obj: c, s_k: s.clone() });
                        assert(out@ =~= before + entry_ops(l[p as int], left));
                    } else {
                        out.push(Operation::Insert { left: left, obj: c, s_k: s.clone() });
                        out.push(
                            Operation::Update { target: s.clone(), obj: c, s_k: self.nodes[i].s_p.clone() },
                        );
                        assert(out@ =~= before + entry_ops(l[p as int], left));
                    }
                },
            }
            left = Some(s);
            cur = self.nodes[i].link;
            p = p + 1;
        }
        assert(l.take(p as int) =~= l);
        out
    }

    /// The number of local operations so far.
    pub fn counter(&self) -> (r: u64)
        ensures
            r == self@.counter,
    {
        self.counter
    }

    /// Walks the list and collects the characters of the live nodes in order.
    pub fn to_string(&self) -> (r: String)
        requires
            self.wf(),
        ensures
            r@ == text_of(self@.entries),
    {
        let ghost ord = self.order@;
        let ghost l = self@.entries;
        let mut out = String::new();
        let mut cur = self.head;
        let mut p: usize = 0;
        while cur.is_some()
            invariant
                self.wf(),
                ord == self.order@,
                l == self@.entries,
                p <= ord.len(),
                cur == (if p < ord.len() {
                    Some(ord[p as int])
                } else {
                    None::<usize>
                }),
                out@ == text_of(l.take(p as int)),
            decreases ord.len() - p,
        {
            let i = cur.unwrap();
            proof {
                self.lemma_entry(p as int);
                lemma_visible_step(l, p as int);
            }
            match self.nodes[i].obj {
                Some(c) => push_char(&mut out, c),
                None => {},
            }
            cur = self.nodes[i].link;
            p = p + 1;
        }
        assert(l.take(p as int) =~= l);
        out
    }
}


/// A replica of the document.
pub struct Rga {
    arena: Arena,
}

impl View for Rga {
    type V = RgaState;

    closed spec fn view(&self) -> RgaState {
        self.arena@
    }
}

impl Rga {
    /// The list of the replica runs through every node of its arena once, and
    /// no two nodes share an identifier.
    #[verifier::type_invariant]
    pub closed spec fn wf(&self) -> bool {
        self.arena.wf()
    }

    /// A replica's entries have unique identifiers and sound live entries.
    pub proof fn lemma_wf(&self)
        requires
            self.wf(),
        ensures
            entries_ok(self@.entries),
    {
        self.arena.lemma_wf();
    }

    /// An empty document.
    pub fn new(site_id: u64, session: u64) -> (r: Self)
        ensures
            r@ == (RgaState { entries: Seq::empty(), site_id, session, counter: 0 }),
    {
        Rga { arena: Arena::new(site_id, session) }
    }

    /// Algorithm 8 (remote insert): a node identified by `s_k` and holding
    /// `obj` goes right of the node identified by `left` (`None`: at the head),
    /// after every node there that outranks it. An insert whose identifier is
    /// already present, or whose left node is unknown, changes nothing.
    pub fn remote_insert(&mut self, left: Option<S4Vector>, obj: char, s_k: S4Vector)
        ensures
            final(self)@ == (RgaState {
                entries: remote_insert_spec(old(self)@.entries, left, obj, s_k),
                ..old(self)@
            }),
    {
        let mut tmp = Rga::new(0, 0);
        std::mem::swap(self, &mut tmp);
        proof {
            use_type_invariant(&tmp);
        }
        let Rga { mut arena } = tmp;
        arena.remote_insert(left, obj, s_k);
        *self = Rga { arena };
    }

    /// Algorithm 9 (remote delete): the node identified by `target` becomes a
    /// tombstone, last touched by `s_o`. A delete of an unknown node changes
    /// nothing.
    pub fn remote_delete(&mut self, target: S4Vector, s_o: S4Vector)
        ensures
            final(self)@ == (RgaState {
                entries: remote_delete_spec(old(self)@.entries, target, s_o),
                ..old(self)@
            }),
    {
        let mut tmp = Rga::new(0, 0);
        std::mem::swap(self, &mut tmp);
        proof {
            use_type_invariant(&tmp);
        }
        let Rga { mut arena } = tmp;
        arena.remote_delete(target, s_o);
        *self = Rga { arena };
    }

    /// Algorithm 10 (remote update): the node identified by `target` takes
    /// `obj`, last touched by `s_o`, unless it is a tombstone (a delete always
    /// wins over an update) or its last operation outranks `s_o`. An update of
    /// an unknown node changes nothing.
    pub fn remote_update(&mut self, target: S4Vector, obj: char, s_o: S4Vector)
        ensures
            final(self)@ == (RgaState {
                entries: remote_update_spec(old(self)@.entries, target, obj, s_o),
                ..old(self)@
            }),
    {
        let mut tmp = Rga::new(0, 0);
        std::mem::swap(self, &mut tmp);
        proof {
            use_type_invariant(&tmp);
        }
        let Rga { mut arena } = tmp;
        arena.remote_update(target, obj, s_o);
        *self = Rga { arena };
    }

    /// Applies a remote operation with the algorithm for its kind.
    pub fn apply(&mut self, op: Operation)
        ensures
            final(self)@ == (RgaState { entries: apply_spec(old(self)@.entries, op), ..old(self)@ }),
    {
        let mut tmp = Rga::new(0, 0);
        std::mem::swap(self, &mut tmp);
        proof {
            use_type_invariant(&tmp);
        }
        let Rga { mut arena } = tmp;
        arena.apply(op);
        *self = Rga { arena };
    }

    /// Inserts `obj` after the `pos`-th live character (`0`: at the head),
    /// and returns the operation to send to the other replicas; `None`, with
    /// nothing changed, when there are fewer than `pos` live characters.
    pub fn local_insert(&mut self, pos: usize, obj: char) -> (r: Option<Operation>)
        requires
            old(self)@.counter < u64::MAX,
        ensures
            local_insert_post(old(self)@, final(self)@, pos as int, obj, r),
    {
        let mut tmp = Rga::new(0, 0);
        std::mem::swap(self, &mut tmp);
        proof {
            use_type_invariant(&tmp);
        }
        let Rga { mut arena } = tmp;
        let r = arena.local_insert(pos, obj);
        *self = Rga { arena };
        r
    }

    /// Deletes the `pos`-th live character, counting from 1, and returns the
    /// operation to send; `None`, with nothing changed, for `pos == 0` or when
    /// there are fewer than `pos` live characters.
    pub fn local_delete(&mut self, pos: usize) -> (r: Option<Operation>)
        requires
            old(self)@.counter < u64::MAX,
        ensures
            local_delete_post(old(self)@, final(self)@, pos as int, r),
    {
        let mut tmp = Rga::new(0, 0);
        std::mem::swap(self, &mut tmp);
        proof {
            use_type_invariant(&tmp);
        }
        let Rga { mut arena } = tmp;
        let r = arena.local_delete(pos);
        *self = Rga { arena };
        r
    }

    /// Replaces the `pos`-th live character, counting from 1, with `obj`, and
    /// returns the operation to send; `None`, with nothing changed, for
    /// `pos == 0` or when there are fewer than `pos` live characters.
    pub fn local_update(&mut self, pos: usize, obj: char) -> (r: Option<Operation>)
        requires
            old(self)@.counter < u64::MAX,
        ensures
            local_update_post(old(self)@, final(self)@, pos as int, obj, r),
    {
        let mut tmp = Rga::new(0, 0);
        std::mem::swap(self, &mut tmp);
        proof {
            use_type_invariant(&tmp);
        }
        let Rga { mut arena } = tmp;
        let r = arena.local_update(pos, obj);
        *self = Rga { arena };
        r
    }

    /// Returns `true` if the node identified by `s_k` is present and a
    /// tombstone.
    pub fn is_tombstoned(&self, s_k: &S4Vector) -> (r: bool)
        ensures
            r == is_tombstone_key(self@.entries, *s_k),
    {
        proof {
            use_type_invariant(self);
        }
        self.arena.is_tombstoned(s_k)
    }

    /// The identifiers of the tombstones, in document order.
    pub fn tombstoned_keys(&self) -> (r: Vec<S4Vector>)
        ensures
            r@ == tombstone_keys(self@.entries),
    {
        proof {
            use_type_invariant(self);
        }
        self.arena.tombstoned_keys()
    }

    /// Removes the node identified by `s_k` from the list if it is a
    /// tombstone; a live or unknown node stays.
    pub fn gc_node(&mut self, s_k: &S4Vector)
        ensures
            final(self)@ == (RgaState { entries: gc_spec(old(self)@.entries, *s_k), ..old(self)@ }),
    {
        let mut tmp = Rga::new(0, 0);
        std::mem::swap(self, &mut tmp);
        proof {
            use_type_invariant(&tmp);
        }
        let Rga { mut arena } = tmp;
        arena.gc_node(s_k);
        *self = Rga { arena };
    }

    /// The operations that recreate this document on an empty replica: for
    /// each node in document order, its insert right of the node before it,
    /// then the delete or update that was its last operation.
    pub fn hydration_ops(&self) -> (r: Vec<Operation>)
        ensures
            r@ == hydration_spec(self@.entries),
            apply_all(Seq::empty(), r@) == self@.entries,
    {
        proof {
            use_type_invariant(self);
        }
        self.arena.hydration_ops()
    }

    /// The number of local operations so far.
    pub fn counter(&self) -> (r: u64)
        ensures
            r == self@.counter,
    {
        proof {
            use_type_invariant(self);
        }
        self.arena.counter()
    }

    /// Walks the list and collects the characters of the live nodes in order.
    pub fn to_string(&self) -> (r: String)
        ensures
            r@ == text_of(self@.entries),
    {
        proof {
            use_type_invariant(self);
        }
        self.arena.to_string()
    }
}

} // verus!
