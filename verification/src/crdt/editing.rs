//! What local edits do to the text of the linked-list RGA.
use vstd::prelude::*;
use crate::s4vector::S4Vector;
use crate::s4vector::s4_lt;
use crate::crdt::rga::Entry;
use crate::crdt::rga::has_key;
use crate::crdt::rga::keys_unique;
use crate::crdt::rga::insert_start;
use crate::crdt::rga::remote_insert_spec;
use crate::crdt::rga::remote_delete_spec;
use crate::crdt::rga::remote_update_spec;
use crate::crdt::rga::visible_count;
use crate::crdt::rga::text_of;
use crate::crdt::rga::is_nth_visible;
use crate::crdt::rga::anchor_at;
use crate::crdt::rga::target_at;
use crate::crdt::rga::lemma_key_index;
use crate::crdt::rga::lemma_visible_step;
use crate::crdt::convergence::lemma_scan_at;
use crate::crdt::rga::RgaState;
use crate::crdt::rga::Operation;
use crate::crdt::rga::apply_spec;
use crate::crdt::rga::local_insert_post;
use crate::crdt::rga::local_delete_post;
use crate::crdt::rga::local_update_post;
use crate::crdt::rga::gc_spec;
use crate::crdt::rga::is_tombstone_key;

verus! {

/// The text of two lists one after the other.
pub proof fn lemma_text_concat(a: Seq<Entry>, b: Seq<Entry>)
    ensures
        text_of(a + b) == text_of(a) + text_of(b),
    decreases b.len(),
{
    if b.len() == 0 {
        assert(a + b =~= a);
        assert(text_of(a) + text_of(b) =~= text_of(a));
    } else {
        lemma_text_concat(a, b.drop_last());
        assert((a + b).drop_last() =~= a + b.drop_last());
        assert((a + b).last() == b.last());
        match b.last().obj {
            Some(c) => {
                assert(text_of(a) + text_of(b.drop_last()).push(c) =~= (text_of(a) + text_of(
                    b.drop_last(),
                )).push(c));
            },
            None => {},
        }
    }
}

/// The text holds one character per live entry.
pub proof fn lemma_text_len(l: Seq<Entry>)
    ensures
        text_of(l).len() == visible_count(l),
    decreases l.len(),
{
    if l.len() > 0 {
        lemma_text_len(l.drop_last());
    }
}

/// The text of a single entry.
proof fn lemma_text_one(e: Entry)
    ensures
        text_of(seq![e]) == (match e.obj {
            Some(c) => seq![c],
            None => Seq::<char>::empty(),
        }),
{
    assert(seq![e].drop_last() =~= Seq::<Entry>::empty());
    assert(text_of(Seq::<Entry>::empty()) == Seq::<char>::empty());
    assert(seq![e].last() == e);
    match e.obj {
        Some(c) => {
            assert(Seq::<char>::empty().push(c) =~= seq![c]);
        },
        None => {},
    }
}

/// The text around position `p`: what lies before it, the entry there, and
/// what follows.
proof fn lemma_text_split(l: Seq<Entry>, p: int)
    requires
        0 <= p < l.len(),
    ensures
        text_of(l) == text_of(l.take(p)) + text_of(seq![l[p]]) + text_of(l.skip(p + 1)),
{
    assert(l =~= l.take(p) + seq![l[p]] + l.skip(p + 1));
    lemma_text_concat(l.take(p) + seq![l[p]], l.skip(p + 1));
    lemma_text_concat(l.take(p), seq![l[p]]);
}

/// A local insert at `pos` whose vector no node outranks puts its character
/// at `pos` of the text: after the `pos`-th live character, or first.
pub proof fn lemma_local_insert_text(
    l: Seq<Entry>,
    pos: int,
    left: Option<S4Vector>,
    obj: char,
    s: S4Vector,
)
    requires
        keys_unique(l),
        0 <= pos <= visible_count(l),
        anchor_at(l, pos, left),
        !has_key(l, s),
        forall|i: int| 0 <= i < l.len() ==> !s4_lt(s, #[trigger] l[i].s_k),
    ensures
        text_of(remote_insert_spec(l, left, obj, s)) == text_of(l).insert(pos, obj),
{
    let st = insert_start(l, left);
    if pos != 0 {
        let p0 = choose|p: int| is_nth_visible(l, p, pos) && left == Some(l[p].s_k);
        lemma_key_index(l, p0);
        lemma_visible_step(l, p0);
        assert(st == p0 + 1);
        assert(visible_count(l.take(st)) == pos);
    } else {
        assert(l.take(0) =~= Seq::<Entry>::empty());
        assert(visible_count(l.take(st)) == pos);
    }
    lemma_scan_at(l, s, st, st);
    let e = Entry { s_k: s, obj: Some(obj), s_p: s };
    let l2 = l.insert(st, e);
    assert(remote_insert_spec(l, left, obj, s) == l2);
    assert(l2 =~= l.take(st) + seq![e] + l.skip(st));
    assert(l =~= l.take(st) + l.skip(st));
    lemma_text_concat(l.take(st) + seq![e], l.skip(st));
    lemma_text_concat(l.take(st), seq![e]);
    lemma_text_concat(l.take(st), l.skip(st));
    lemma_text_one(e);
    lemma_text_len(l.take(st));
    assert(text_of(l2) =~= text_of(l).insert(pos, obj));
}

/// A delete of the `pos`-th live node removes the `pos`-th character.
pub proof fn lemma_local_delete_text(l: Seq<Entry>, pos: int, t: S4Vector, d: S4Vector)
    requires
        keys_unique(l),
        target_at(l, pos, t),
    ensures
        text_of(remote_delete_spec(l, t, d)) == text_of(l).remove(pos - 1),
{
    let p = choose|p: int| is_nth_visible(l, p, pos) && t == l[p].s_k;
    lemma_key_index(l, p);
    let e = Entry { s_k: t, obj: None, s_p: d };
    let l2 = l.update(p, e);
    assert(remote_delete_spec(l, t, d) == l2);
    lemma_text_split(l, p);
    lemma_text_split(l2, p);
    assert(l2.take(p) =~= l.take(p));
    assert(l2.skip(p + 1) =~= l.skip(p + 1));
    lemma_text_one(e);
    lemma_text_one(l[p]);
    lemma_text_len(l.take(p));
    assert(text_of(l2) =~= text_of(l).remove(pos - 1));
}

/// An update of the `pos`-th live node, with a vector that no node's last
/// operation outranks, replaces the `pos`-th character.
pub proof fn lemma_local_update_text(l: Seq<Entry>, pos: int, t: S4Vector, obj: char, u: S4Vector)
    requires
        keys_unique(l),
        target_at(l, pos, t),
        forall|i: int| 0 <= i < l.len() ==> !s4_lt(u, #[trigger] l[i].s_p),
    ensures
        text_of(remote_update_spec(l, t, obj, u)) == text_of(l).update(pos - 1, obj),
{
    let p = choose|p: int| is_nth_visible(l, p, pos) && t == l[p].s_k;
    lemma_key_index(l, p);
    assert(!s4_lt(u, l[p].s_p));
    let e = Entry { s_k: t, obj: Some(obj), s_p: u };
    let l2 = l.update(p, e);
    assert(remote_update_spec(l, t, obj, u) == l2);
    lemma_text_split(l, p);
    lemma_text_split(l2, p);
    assert(l2.take(p) =~= l.take(p));
    assert(l2.skip(p + 1) =~= l.skip(p + 1));
    lemma_text_one(e);
    lemma_text_one(l[p]);
    lemma_text_len(l.take(p));
    assert(text_of(l2) =~= text_of(l).update(pos - 1, obj));
}

/// The operation a local edit returns does, at a replica whose entries are
/// those the edit started from, what the edit did locally.
pub proof fn lemma_local_operation_replays(
    v: RgaState,
    w: RgaState,
    pos: int,
    obj: char,
    op: Operation,
)
    ensures
        local_insert_post(v, w, pos, obj, Some(op)) ==> apply_spec(v.entries, op) == w.entries,
        local_delete_post(v, w, pos, Some(op)) ==> apply_spec(v.entries, op) == w.entries,
        local_update_post(v, w, pos, obj, Some(op)) ==> apply_spec(v.entries, op) == w.entries,
{
}

/// Collecting a tombstone leaves the text unchanged.
pub proof fn lemma_gc_keeps_text(l: Seq<Entry>, s: S4Vector)
    requires
        keys_unique(l),
    ensures
        text_of(gc_spec(l, s)) == text_of(l),
{
    if is_tombstone_key(l, s) {
        let p = choose|i: int| 0 <= i < l.len() && l[i].s_k == s;
        lemma_key_index(l, p);
        let l2 = l.remove(p);
        lemma_text_split(l, p);
        assert(l2 =~= l.take(p) + l.skip(p + 1));
        lemma_text_concat(l.take(p), l.skip(p + 1));
        lemma_text_one(l[p]);
        assert(text_of(l) =~= text_of(l.take(p)) + text_of(l.skip(p + 1)));
    }
}

} // verus!
