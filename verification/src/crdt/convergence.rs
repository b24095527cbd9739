//! Why replicas of the linked-list RGA converge: operations that do not name
//! each other give the same document in either order.
use vstd::prelude::*;
use crate::s4vector::S4Vector;
use crate::s4vector::s4_lt;
use crate::crdt::rga::Entry;
use crate::crdt::rga::has_key;
use crate::crdt::rga::key_index;
use crate::crdt::rga::keys_unique;
use crate::crdt::rga::insert_start;
use crate::crdt::rga::scan_from;
use crate::crdt::rga::insert_applies;
use crate::crdt::rga::remote_insert_spec;
use crate::crdt::rga::lemma_key_index;
use crate::crdt::rga::remote_delete_spec;
use crate::crdt::rga::remote_update_spec;
use crate::crdt::rga::apply_spec;
use crate::crdt::rga::Operation;

verus! {

/// The entry an insert creates.
pub open spec fn new_entry(s: S4Vector, obj: char) -> Entry {
    Entry { s_k: s, obj: Some(obj), s_p: s }
}

/// What the scan of an insert passes over and where it stops.
pub proof fn lemma_scan(l: Seq<Entry>, s: S4Vector, j: int)
    requires
        0 <= j <= l.len(),
    ensures
        j <= scan_from(l, s, j) <= l.len(),
        forall|k: int| j <= k < scan_from(l, s, j) ==> s4_lt(s, #[trigger] l[k].s_k),
        scan_from(l, s, j) < l.len() ==> !s4_lt(s, l[scan_from(l, s, j)].s_k),
    decreases l.len() - j,
{
    if j < l.len() && s4_lt(s, l[j].s_k) {
        lemma_scan(l, s, j + 1);
    }
}

/// The scan stops at the first position it cannot pass.
pub proof fn lemma_scan_at(l: Seq<Entry>, s: S4Vector, j: int, m: int)
    requires
        0 <= j <= m <= l.len(),
        forall|k: int| j <= k < m ==> s4_lt(s, #[trigger] l[k].s_k),
        m < l.len() ==> !s4_lt(s, l[m].s_k),
    ensures
        scan_from(l, s, j) == m,
    decreases m - j,
{
    if j < m {
        lemma_scan_at(l, s, j + 1, m);
    }
}

/// The scan over a list with one more entry `e` at `q`, started at or before
/// `q`.
pub proof fn lemma_scan_insert(l: Seq<Entry>, q: int, e: Entry, s: S4Vector, st: int)
    requires
        0 <= st <= q <= l.len(),
    ensures
        scan_from(l, s, st) < q ==> scan_from(l.insert(q, e), s, st) == scan_from(l, s, st),
        scan_from(l, s, st) >= q && s4_lt(s, e.s_k) ==> scan_from(l.insert(q, e), s, st)
            == scan_from(l, s, st) + 1,
        scan_from(l, s, st) >= q && !s4_lt(s, e.s_k) ==> scan_from(l.insert(q, e), s, st) == q,
{
    let l1 = l.insert(q, e);
    let r = scan_from(l, s, st);
    lemma_scan(l, s, st);
    if r < q {
        assert forall|k: int| st <= k < r implies s4_lt(s, #[trigger] l1[k].s_k) by {
            assert(l1[k] == l[k]);
        }
        assert(l1[r] == l[r]);
        lemma_scan_at(l1, s, st, r);
    } else if s4_lt(s, e.s_k) {
        assert forall|k: int| st <= k < r + 1 implies s4_lt(s, #[trigger] l1[k].s_k) by {
            if k < q {
                assert(l1[k] == l[k]);
            } else if k > q {
                assert(l1[k] == l[k - 1]);
            }
        }
        if r < l.len() {
            assert(l1[r + 1] == l[r]);
        }
        lemma_scan_at(l1, s, st, r + 1);
    } else {
        assert forall|k: int| st <= k < q implies s4_lt(s, #[trigger] l1[k].s_k) by {
            assert(l1[k] == l[k]);
        }
        lemma_scan_at(l1, s, st, q);
    }
}

/// The scan over a list with one more entry at `q`, started after `q`.
pub proof fn lemma_scan_insert_after(l: Seq<Entry>, q: int, e: Entry, s: S4Vector, st: int)
    requires
        0 <= q < st <= l.len(),
    ensures
        scan_from(l.insert(q, e), s, st + 1) == scan_from(l, s, st) + 1,
{
    let l1 = l.insert(q, e);
    let r = scan_from(l, s, st);
    lemma_scan(l, s, st);
    assert forall|k: int| st + 1 <= k < r + 1 implies s4_lt(s, #[trigger] l1[k].s_k) by {
        assert(l1[k] == l[k - 1]);
    }
    if r < l.len() {
        assert(l1[r + 1] == l[r]);
    }
    lemma_scan_at(l1, s, st + 1, r + 1);
}

/// Identifiers after inserting an entry at `q`.
pub proof fn lemma_keys_insert(l: Seq<Entry>, q: int, e: Entry)
    requires
        keys_unique(l),
        !has_key(l, e.s_k),
        0 <= q <= l.len(),
    ensures
        keys_unique(l.insert(q, e)),
        forall|k: S4Vector| #[trigger]
            has_key(l.insert(q, e), k) == (has_key(l, k) || k == e.s_k),
        forall|k: S4Vector|
            has_key(l, k) ==> #[trigger] key_index(l.insert(q, e), k) == if key_index(l, k) < q {
                key_index(l, k)
            } else {
                key_index(l, k) + 1
            },
{
    let l1 = l.insert(q, e);
    assert forall|i: int, j: int| 0 <= i < j < l1.len() implies l1[i].s_k != l1[j].s_k by {
        if i == q {
            assert(l1[j] == l[j - 1]);
        } else if j == q {
            assert(l1[i] == l[i]);
        } else if i < q && j > q {
            assert(l1[j] == l[j - 1]);
        } else if i > q {
            assert(l1[i] == l[i - 1]);
            assert(l1[j] == l[j - 1]);
        }
    }
    assert forall|k: S4Vector| #[trigger] has_key(l1, k) == (has_key(l, k) || k == e.s_k) by {
        if has_key(l, k) {
            let i = choose|i: int| 0 <= i < l.len() && l[i].s_k == k;
            if i < q {
                assert(l1[i] == l[i]);
            } else {
                assert(l1[i + 1] == l[i]);
            }
        }
        if k == e.s_k {
            assert(l1[q] == e);
        }
        if has_key(l1, k) {
            let i = choose|i: int| 0 <= i < l1.len() && l1[i].s_k == k;
            if i < q {
                assert(l1[i] == l[i]);
            } else if i > q {
                assert(l1[i] == l[i - 1]);
            }
        }
    }
    assert forall|k: S4Vector| has_key(l, k) implies #[trigger] key_index(l1, k) == if key_index(
        l,
        k,
    ) < q {
        key_index(l, k)
    } else {
        key_index(l, k) + 1
    } by {
        let i = key_index(l, k);
        if i < q {
            assert(l1[i] == l[i]);
            lemma_key_index(l1, i);
        } else {
            assert(l1[i + 1] == l[i]);
            lemma_key_index(l1, i + 1);
        }
    }
}

/// Two inserts at positions `a <= b` of the list they both go into, in either
/// order.
pub proof fn lemma_double_insert(l: Seq<Entry>, a: int, b: int, x: Entry, y: Entry)
    requires
        0 <= a <= b <= l.len(),
    ensures
        l.insert(a, x).insert(b + 1, y) == l.insert(b, y).insert(a, x),
{
    assert(l.insert(a, x).insert(b + 1, y) =~= l.insert(b, y).insert(a, x));
}

/// Where two inserts that both take effect end up: each at the position its
/// own scan over `l` finds; at the same position, the one of higher priority
/// goes first.
pub open spec fn both_inserted(l: Seq<Entry>, p1: int, e1: Entry, p2: int, e2: Entry) -> Seq<
    Entry,
> {
    if p1 < p2 {
        l.insert(p1, e1).insert(p2 + 1, e2)
    } else if p2 < p1 {
        l.insert(p2, e2).insert(p1 + 1, e1)
    } else if s4_lt(e2.s_k, e1.s_k) {
        l.insert(p1, e1).insert(p1 + 1, e2)
    } else {
        l.insert(p2, e2).insert(p2 + 1, e1)
    }
}

/// One insert after another, when both take effect and neither names the
/// other's node.
proof fn lemma_insert_insert(
    l: Seq<Entry>,
    a1: Option<S4Vector>,
    c1: char,
    s1: S4Vector,
    a2: Option<S4Vector>,
    c2: char,
    s2: S4Vector,
)
    requires
        keys_unique(l),
        s4_lt(s1, s2) || s4_lt(s2, s1),
        a2 != Some(s1),
        insert_applies(l, a1, s1),
        insert_applies(l, a2, s2),
    ensures
        remote_insert_spec(remote_insert_spec(l, a1, c1, s1), a2, c2, s2) == both_inserted(
            l,
            scan_from(l, s1, insert_start(l, a1)),
            new_entry(s1, c1),
            scan_from(l, s2, insert_start(l, a2)),
            new_entry(s2, c2),
        ),
{
    let e1 = new_entry(s1, c1);
    let e2 = new_entry(s2, c2);
    let st1 = insert_start(l, a1);
    let st2 = insert_start(l, a2);
    if let Some(a) = a1 {
        let i = choose|i: int| 0 <= i < l.len() && l[i].s_k == a;
        lemma_key_index(l, i);
    }
    if let Some(a) = a2 {
        let i = choose|i: int| 0 <= i < l.len() && l[i].s_k == a;
        lemma_key_index(l, i);
    }
    let p1 = scan_from(l, s1, st1);
    let p2 = scan_from(l, s2, st2);
    lemma_scan(l, s1, st1);
    lemma_scan(l, s2, st2);
    let l1 = l.insert(p1, e1);
    lemma_keys_insert(l, p1, e1);
    assert(remote_insert_spec(l, a1, c1, s1) == l1);
    assert(s1 != s2);
    assert(insert_applies(l1, a2, s2));
    let st2b = insert_start(l1, a2);
    assert(st2b == if st2 > p1 {
        st2 + 1
    } else {
        st2
    });
    if st2 > p1 {
        lemma_scan_insert_after(l, p1, e1, s2, st2);
    } else {
        lemma_scan_insert(l, p1, e1, s2, st2);
        if p2 < p1 {
            lemma_double_insert(l, p2, p1, e2, e1);
        } else if !s4_lt(s2, s1) {
            if p2 > p1 {
                assert(s4_lt(s2, l[p1].s_k));
                assert(!s4_lt(s1, l[p1].s_k));
            }
            assert(p2 == p1);
        }
    }
}

/// An insert that does not take effect on `l` does not take effect after
/// another insert whose node it does not name.
proof fn lemma_insert_still_void(
    l: Seq<Entry>,
    a1: Option<S4Vector>,
    s1: S4Vector,
    a2: Option<S4Vector>,
    c2: char,
    s2: S4Vector,
)
    requires
        keys_unique(l),
        a1 != Some(s2),
        !insert_applies(l, a1, s1),
    ensures
        !insert_applies(remote_insert_spec(l, a2, c2, s2), a1, s1),
{
    if insert_applies(l, a2, s2) {
        let p2 = scan_from(l, s2, insert_start(l, a2));
        if let Some(a) = a2 {
            let i = choose|i: int| 0 <= i < l.len() && l[i].s_k == a;
            lemma_key_index(l, i);
        }
        lemma_scan(l, s2, insert_start(l, a2));
        lemma_keys_insert(l, p2, new_entry(s2, c2));
    }
}

/// Concurrent inserts commute: two inserts with distinct priorities, neither
/// naming the other's node as its left node, give the same document in either
/// order.
pub proof fn lemma_inserts_commute(
    l: Seq<Entry>,
    a1: Option<S4Vector>,
    c1: char,
    s1: S4Vector,
    a2: Option<S4Vector>,
    c2: char,
    s2: S4Vector,
)
    requires
        keys_unique(l),
        s4_lt(s1, s2) || s4_lt(s2, s1),
        a1 != Some(s2),
        a2 != Some(s1),
    ensures
        remote_insert_spec(remote_insert_spec(l, a1, c1, s1), a2, c2, s2) == remote_insert_spec(
            remote_insert_spec(l, a2, c2, s2),
            a1,
            c1,
            s1,
        ),
{
    if insert_applies(l, a1, s1) && insert_applies(l, a2, s2) {
        lemma_insert_insert(l, a1, c1, s1, a2, c2, s2);
        lemma_insert_insert(l, a2, c2, s2, a1, c1, s1);
    } else if !insert_applies(l, a1, s1) {
        lemma_insert_still_void(l, a1, s1, a2, c2, s2);
    } else {
        lemma_insert_still_void(l, a2, s2, a1, c1, s1);
    }
}

/// The scan looks at identifiers only.
proof fn lemma_scan_same_keys(l1: Seq<Entry>, l2: Seq<Entry>, s: S4Vector, j: int)
    requires
        0 <= j,
        l1.len() == l2.len(),
        forall|i: int| 0 <= i < l1.len() ==> (#[trigger] l1[i]).s_k == l2[i].s_k,
    ensures
        scan_from(l1, s, j) == scan_from(l2, s, j),
    decreases l1.len() - j,
{
    if j < l1.len() && s4_lt(s, l1[j].s_k) {
        lemma_scan_same_keys(l1, l2, s, j + 1);
    }
}

/// Changing an entry in place, identifier kept, changes neither the
/// identifiers nor where inserts go.
pub proof fn lemma_keys_update(l: Seq<Entry>, k: int, e: Entry)
    requires
        keys_unique(l),
        0 <= k < l.len(),
        e.s_k == l[k].s_k,
    ensures
        keys_unique(l.update(k, e)),
        forall|x: S4Vector| #[trigger] has_key(l.update(k, e), x) == has_key(l, x),
        forall|x: S4Vector| has_key(l, x) ==> #[trigger] key_index(l.update(k, e), x) == key_index(l, x),
        forall|x: S4Vector, j: int|
            0 <= j ==> #[trigger] scan_from(l.update(k, e), x, j) == scan_from(l, x, j),
        forall|a: Option<S4Vector>|
            (a is None || has_key(l, a->0)) ==> #[trigger] insert_start(l.update(k, e), a)
                == insert_start(l, a),
        forall|a: Option<S4Vector>, x: S4Vector| #[trigger] insert_applies(l.update(k, e), a, x)
            == insert_applies(l, a, x),
{
    let l1 = l.update(k, e);
    assert forall|i: int, j: int| 0 <= i < j < l1.len() implies l1[i].s_k != l1[j].s_k by {
        assert(l[i].s_k != l[j].s_k);
    }
    assert forall|x: S4Vector| #[trigger] has_key(l1, x) == has_key(l, x) by {
        if has_key(l, x) {
            let i = choose|i: int| 0 <= i < l.len() && l[i].s_k == x;
            assert(l1[i].s_k == x);
        }
        if has_key(l1, x) {
            let i = choose|i: int| 0 <= i < l1.len() && l1[i].s_k == x;
            assert(l[i].s_k == x);
        }
    }
    assert forall|x: S4Vector| has_key(l, x) implies #[trigger] key_index(l1, x) == key_index(l, x) by {
        let i = key_index(l, x);
        lemma_key_index(l1, i);
    }
    assert forall|x: S4Vector, j: int| 0 <= j implies #[trigger] scan_from(l1, x, j) == scan_from(
        l,
        x,
        j,
    ) by {
        lemma_scan_same_keys(l1, l, x, j);
    }
    assert forall|a: Option<S4Vector>| (a is None || has_key(l, a->0)) implies #[trigger] insert_start(
        l1,
        a,
    ) == insert_start(l, a) by {
        if let Some(x) = a {
            assert(key_index(l1, x) == key_index(l, x));
        }
    }
}

/// An insert around an in-place change of the entry at `k`: the change lands
/// on the same node, wherever the insert put it.
proof fn lemma_insert_then_change(
    l: Seq<Entry>,
    a: Option<S4Vector>,
    c: char,
    s: S4Vector,
    k: int,
    x: Entry,
)
    requires
        keys_unique(l),
        0 <= k < l.len(),
        x.s_k == l[k].s_k,
        x.s_k != s,
    ensures
        ({
            let li = remote_insert_spec(l, a, c, s);
            &&& keys_unique(li)
            &&& has_key(li, x.s_k)
            &&& 0 <= key_index(li, x.s_k) < li.len()
            &&& li[key_index(li, x.s_k)] == l[k]
            &&& remote_insert_spec(l.update(k, x), a, c, s) == li.update(key_index(li, x.s_k), x)
        }),
{
    let li = remote_insert_spec(l, a, c, s);
    lemma_key_index(l, k);
    lemma_keys_update(l, k, x);
    if insert_applies(l, a, s) {
        if let Some(y) = a {
            let i = choose|i: int| 0 <= i < l.len() && l[i].s_k == y;
            lemma_key_index(l, i);
        }
        let st = insert_start(l, a);
        let p = scan_from(l, s, st);
        lemma_scan(l, s, st);
        let e = new_entry(s, c);
        lemma_keys_insert(l, p, e);
        assert(insert_start(l.update(k, x), a) == st);
        assert(scan_from(l.update(k, x), s, st) == p);
        let ki = key_index(li, x.s_k);
        if k < p {
            assert(ki == k);
            assert(l.update(k, x).insert(p, e) =~= li.update(ki, x));
        } else {
            assert(ki == k + 1);
            assert(l.update(k, x).insert(p, e) =~= li.update(ki, x));
        }
    }
}

/// An insert and a delete of another node commute.
pub proof fn lemma_insert_delete_commute(
    l: Seq<Entry>,
    a: Option<S4Vector>,
    c: char,
    s: S4Vector,
    t: S4Vector,
    d: S4Vector,
)
    requires
        keys_unique(l),
        t != s,
    ensures
        remote_delete_spec(remote_insert_spec(l, a, c, s), t, d) == remote_insert_spec(
            remote_delete_spec(l, t, d),
            a,
            c,
            s,
        ),
{
    let li = remote_insert_spec(l, a, c, s);
    if has_key(l, t) {
        let k = key_index(l, t);
        lemma_insert_then_change(l, a, c, s, k, Entry { s_k: t, obj: None, s_p: d });
    } else if insert_applies(l, a, s) {
        let p = scan_from(l, s, insert_start(l, a));
        if let Some(y) = a {
            let i = choose|i: int| 0 <= i < l.len() && l[i].s_k == y;
            lemma_key_index(l, i);
        }
        lemma_scan(l, s, insert_start(l, a));
        lemma_keys_insert(l, p, new_entry(s, c));
    }
}

/// An insert and an update of another node commute.
pub proof fn lemma_insert_update_commute(
    l: Seq<Entry>,
    a: Option<S4Vector>,
    c: char,
    s: S4Vector,
    t: S4Vector,
    o: char,
    u: S4Vector,
)
    requires
        keys_unique(l),
        t != s,
    ensures
        remote_update_spec(remote_insert_spec(l, a, c, s), t, o, u) == remote_insert_spec(
            remote_update_spec(l, t, o, u),
            a,
            c,
            s,
        ),
{
    let li = remote_insert_spec(l, a, c, s);
    if has_key(l, t) {
        let k = key_index(l, t);
        let x = Entry { s_k: t, obj: Some(o), s_p: u };
        lemma_insert_then_change(l, a, c, s, k, x);
    } else if insert_applies(l, a, s) {
        let p = scan_from(l, s, insert_start(l, a));
        if let Some(y) = a {
            let i = choose|i: int| 0 <= i < l.len() && l[i].s_k == y;
            lemma_key_index(l, i);
        }
        lemma_scan(l, s, insert_start(l, a));
        lemma_keys_insert(l, p, new_entry(s, c));
    }
}

/// Deletes of different nodes commute, and so do two deletes of one node
/// with the same vector.
pub proof fn lemma_deletes_commute(
    l: Seq<Entry>,
    t1: S4Vector,
    d1: S4Vector,
    t2: S4Vector,
    d2: S4Vector,
)
    requires
        keys_unique(l),
        t1 != t2 || d1 == d2,
    ensures
        remote_delete_spec(remote_delete_spec(l, t1, d1), t2, d2) == remote_delete_spec(
            remote_delete_spec(l, t2, d2),
            t1,
            d1,
        ),
{
    if has_key(l, t1) {
        let k1 = key_index(l, t1);
        lemma_keys_update(l, k1, Entry { s_k: t1, obj: None, s_p: d1 });
    }
    if has_key(l, t2) {
        let k2 = key_index(l, t2);
        lemma_keys_update(l, k2, Entry { s_k: t2, obj: None, s_p: d2 });
    }
    if has_key(l, t1) && has_key(l, t2) && t1 != t2 {
        let k1 = key_index(l, t1);
        let k2 = key_index(l, t2);
        assert(k1 != k2);
        assert(remote_delete_spec(remote_delete_spec(l, t1, d1), t2, d2) =~= remote_delete_spec(
            remote_delete_spec(l, t2, d2),
            t1,
            d1,
        ));
    }
}

/// A delete and an update commute; on one node the delete wins in either
/// order.
pub proof fn lemma_delete_update_commute(
    l: Seq<Entry>,
    t1: S4Vector,
    d1: S4Vector,
    t2: S4Vector,
    o: char,
    u: S4Vector,
)
    requires
        keys_unique(l),
    ensures
        remote_delete_spec(remote_update_spec(l, t2, o, u), t1, d1) == remote_update_spec(
            remote_delete_spec(l, t1, d1),
            t2,
            o,
            u,
        ),
{
    if has_key(l, t1) {
        let k1 = key_index(l, t1);
        lemma_keys_update(l, k1, Entry { s_k: t1, obj: None, s_p: d1 });
    }
    if has_key(l, t2) {
        let k2 = key_index(l, t2);
        lemma_keys_update(l, k2, Entry { s_k: t2, obj: Some(o), s_p: u });
    }
    if has_key(l, t1) && has_key(l, t2) {
        let k1 = key_index(l, t1);
        let k2 = key_index(l, t2);
        if t1 != t2 {
            assert(k1 != k2);
        }
        assert(remote_delete_spec(remote_update_spec(l, t2, o, u), t1, d1) =~= remote_update_spec(
            remote_delete_spec(l, t1, d1),
            t2,
            o,
            u,
        ));
    }
}

/// Updates of different nodes commute, and so do two updates of one node
/// with distinct priorities: the one of higher priority wins in either order.
pub proof fn lemma_updates_commute(
    l: Seq<Entry>,
    t1: S4Vector,
    o1: char,
    u1: S4Vector,
    t2: S4Vector,
    o2: char,
    u2: S4Vector,
)
    requires
        keys_unique(l),
        t1 != t2 || s4_lt(u1, u2) || s4_lt(u2, u1),
    ensures
        remote_update_spec(remote_update_spec(l, t1, o1, u1), t2, o2, u2) == remote_update_spec(
            remote_update_spec(l, t2, o2, u2),
            t1,
            o1,
            u1,
        ),
{
    if has_key(l, t1) {
        let k1 = key_index(l, t1);
        lemma_keys_update(l, k1, Entry { s_k: t1, obj: Some(o1), s_p: u1 });
    }
    if has_key(l, t2) {
        let k2 = key_index(l, t2);
        lemma_keys_update(l, k2, Entry { s_k: t2, obj: Some(o2), s_p: u2 });
    }
    if has_key(l, t1) && has_key(l, t2) {
        let k1 = key_index(l, t1);
        let k2 = key_index(l, t2);
        if t1 != t2 {
            assert(k1 != k2);
        }
        assert(remote_update_spec(remote_update_spec(l, t1, o1, u1), t2, o2, u2)
            =~= remote_update_spec(remote_update_spec(l, t2, o2, u2), t1, o1, u1));
    }
}

/// Two operations that may be applied in either order: inserts with distinct
/// priorities that do not anchor on each other's node; an insert and a delete
/// or update of another node; deletes of different nodes (or with one
/// vector); any delete and update; updates of different nodes or with
/// distinct priorities.
pub open spec fn independent(x: Operation, y: Operation) -> bool {
    match (x, y) {
        (
            Operation::Insert { left: a1, s_k: s1, .. },
            Operation::Insert { left: a2, s_k: s2, .. },
        ) => (s4_lt(s1, s2) || s4_lt(s2, s1)) && a1 != Some(s2) && a2 != Some(s1),
        (Operation::Insert { s_k, .. }, Operation::Delete { target, .. }) => target != s_k,
        (Operation::Insert { s_k, .. }, Operation::Update { target, .. }) => target != s_k,
        (Operation::Delete { target, .. }, Operation::Insert { s_k, .. }) => target != s_k,
        (Operation::Update { target, .. }, Operation::Insert { s_k, .. }) => target != s_k,
        (
            Operation::Delete { target: t1, s_k: d1 },
            Operation::Delete { target: t2, s_k: d2 },
        ) => t1 != t2 || d1 == d2,
        (Operation::Delete { .. }, Operation::Update { .. }) => true,
        (Operation::Update { .. }, Operation::Delete { .. }) => true,
        (
            Operation::Update { target: t1, s_k: u1, .. },
            Operation::Update { target: t2, s_k: u2, .. },
        ) => t1 != t2 || s4_lt(u1, u2) || s4_lt(u2, u1),
    }
}

/// Replicas converge: two independent operations give the same document
/// whichever a replica applies first.
pub proof fn lemma_independent_operations_commute(l: Seq<Entry>, x: Operation, y: Operation)
    requires
        keys_unique(l),
        independent(x, y),
    ensures
        apply_spec(apply_spec(l, x), y) == apply_spec(apply_spec(l, y), x),
{
    match (x, y) {
        (Operation::Insert { left: a1, obj: c1, s_k: s1 }, Operation::Insert { left: a2, obj: c2, s_k: s2 }) => {
            lemma_inserts_commute(l, a1, c1, s1, a2, c2, s2);
        },
        (Operation::Insert { left, obj, s_k }, Operation::Delete { target, s_k: d }) => {
            lemma_insert_delete_commute(l, left, obj, s_k, target, d);
        },
        (Operation::Delete { target, s_k: d }, Operation::Insert { left, obj, s_k }) => {
            lemma_insert_delete_commute(l, left, obj, s_k, target, d);
        },
        (Operation::Insert { left, obj, s_k }, Operation::Update { target, obj: o, s_k: u }) => {
            lemma_insert_update_commute(l, left, obj, s_k, target, o, u);
        },
        (Operation::Update { target, obj: o, s_k: u }, Operation::Insert { left, obj, s_k }) => {
            lemma_insert_update_commute(l, left, obj, s_k, target, o, u);
        },
        (Operation::Delete { target: t1, s_k: d1 }, Operation::Delete { target: t2, s_k: d2 }) => {
            lemma_deletes_commute(l, t1, d1, t2, d2);
        },
        (Operation::Delete { target: t1, s_k: d1 }, Operation::Update { target: t2, obj, s_k: u }) => {
            lemma_delete_update_commute(l, t1, d1, t2, obj, u);
        },
        (Operation::Update { target: t2, obj, s_k: u }, Operation::Delete { target: t1, s_k: d1 }) => {
            lemma_delete_update_commute(l, t1, d1, t2, obj, u);
        },
        (
            Operation::Update { target: t1, obj: o1, s_k: u1 },
            Operation::Update { target: t2, obj: o2, s_k: u2 },
        ) => {
            lemma_updates_commute(l, t1, o1, u1, t2, o2, u2);
        },
    }
}

/// Every operation keeps the identifiers of a document unique.
pub proof fn lemma_apply_keeps_keys_unique(l: Seq<Entry>, op: Operation)
    requires
        keys_unique(l),
    ensures
        keys_unique(apply_spec(l, op)),
{
    match op {
        Operation::Insert { left, obj, s_k } => {
            if insert_applies(l, left, s_k) {
                if let Some(y) = left {
                    let i = choose|i: int| 0 <= i < l.len() && l[i].s_k == y;
                    lemma_key_index(l, i);
                }
                lemma_scan(l, s_k, insert_start(l, left));
                lemma_keys_insert(l, scan_from(l, s_k, insert_start(l, left)), new_entry(s_k, obj));
            }
        },
        Operation::Delete { target, s_k } => {
            if has_key(l, target) {
                lemma_keys_update(l, key_index(l, target), Entry { s_k: target, obj: None, s_p: s_k });
            }
        },
        Operation::Update { target, obj, s_k } => {
            if has_key(l, target) {
                lemma_keys_update(
                    l,
                    key_index(l, target),
                    Entry { s_k: target, obj: Some(obj), s_p: s_k },
                );
            }
        },
    }
}

} // verus!
