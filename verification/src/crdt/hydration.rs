//! Replaying a replica's hydration operations on an empty replica recreates
//! its document exactly.
use vstd::prelude::*;
use crate::s4vector::S4Vector;
use crate::crdt::rga::Entry;
use crate::crdt::rga::Operation;
use crate::crdt::rga::apply_all;
use crate::crdt::rga::apply_spec;
use crate::crdt::rga::entry_ops;
use crate::crdt::rga::entry_char;
use crate::crdt::rga::entries_ok;
use crate::crdt::rga::hydration_spec;
use crate::crdt::rga::has_key;
use crate::crdt::rga::keys_unique;
use crate::crdt::rga::live_ok;
use crate::crdt::rga::lemma_key_index;
use crate::crdt::convergence::lemma_scan_at;

verus! {

/// Applying two lists of operations one after the other.
pub proof fn lemma_apply_all_concat(l: Seq<Entry>, a: Seq<Operation>, b: Seq<Operation>)
    ensures
        apply_all(l, a + b) == apply_all(apply_all(l, a), b),
    decreases b.len(),
{
    if b.len() == 0 {
        assert(a + b =~= a);
    } else {
        lemma_apply_all_concat(l, a, b.drop_last());
        assert((a + b).drop_last() =~= a + b.drop_last());
        assert((a + b).last() == b.last());
    }
}

/// The operations of one entry, applied to the entries before it, append it.
proof fn lemma_entry_ops(m: Seq<Entry>, e: Entry)
    requires
        keys_unique(m.push(e)),
        live_ok(e),
    ensures
        apply_all(
            m,
            entry_ops(
                e,
                if m.len() == 0 {
                    None
                } else {
                    Some(m.last().s_k)
                },
            ),
        ) == m.push(e),
{
    let left: Option<S4Vector> = if m.len() == 0 {
        None
    } else {
        Some(m.last().s_k)
    };
    let l = m.push(e);
    assert forall|i: int, j: int| 0 <= i < j < m.len() implies m[i].s_k != m[j].s_k by {
        assert(l[i] == m[i]);
        assert(l[j] == m[j]);
    }
    assert(!has_key(m, e.s_k)) by {
        if has_key(m, e.s_k) {
            let i = choose|i: int| 0 <= i < m.len() && m[i].s_k == e.s_k;
            assert(l[i] == m[i]);
            assert(l[m.len() as int] == e);
        }
    }
    if m.len() > 0 {
        lemma_key_index(m, m.len() - 1);
    }
    let ins = Entry { s_k: e.s_k, obj: Some(entry_char(e)), s_p: e.s_k };
    lemma_scan_at(m, e.s_k, m.len() as int, m.len() as int);
    assert(apply_spec(m, Operation::Insert { left, obj: entry_char(e), s_k: e.s_k }) == m.insert(
        m.len() as int,
        ins,
    ));
    assert(m.insert(m.len() as int, ins) =~= m.push(ins));
    let mi = m.push(ins);
    assert(keys_unique(mi)) by {
        assert forall|i: int, j: int| 0 <= i < j < mi.len() implies mi[i].s_k != mi[j].s_k by {
            assert(l[i].s_k == mi[i].s_k);
            assert(l[j].s_k == mi[j].s_k);
        }
    }
    lemma_key_index(mi, m.len() as int);
    let x = Operation::Insert { left, obj: entry_char(e), s_k: e.s_k };
    lemma_apply_one(m, x);
    match e.obj {
        None => {
            let y = Operation::Delete { target: e.s_k, s_k: e.s_p };
            lemma_apply_two(m, x, y);
            assert(mi.update(m.len() as int, e) =~= m.push(e));
        },
        Some(c) => {
            if e.s_p == e.s_k {
                assert(ins == e);
            } else {
                let y = Operation::Update { target: e.s_k, obj: c, s_k: e.s_p };
                lemma_apply_two(m, x, y);
                assert(mi.update(m.len() as int, e) =~= m.push(e));
            }
        },
    }
}

/// Applying a single operation.
proof fn lemma_apply_one(l: Seq<Entry>, x: Operation)
    ensures
        apply_all(l, seq![x]) == apply_spec(l, x),
{
    assert(seq![x].drop_last() =~= Seq::<Operation>::empty());
    assert(apply_all(l, Seq::<Operation>::empty()) == l);
    assert(seq![x].last() == x);
}

/// Applying two operations.
proof fn lemma_apply_two(l: Seq<Entry>, x: Operation, y: Operation)
    ensures
        apply_all(l, seq![x, y]) == apply_spec(apply_spec(l, x), y),
{
    assert(seq![x, y].drop_last() =~= seq![x]);
    assert(seq![x, y].last() == y);
    lemma_apply_one(l, x);
}

/// Replaying the hydration operations of a list on an empty replica gives
/// that list back, tombstones and last operations included.
pub proof fn lemma_hydration_replays(l: Seq<Entry>)
    requires
        entries_ok(l),
    ensures
        apply_all(Seq::empty(), hydration_spec(l)) == l,
    decreases l.len(),
{
    if l.len() > 0 {
        let m = l.drop_last();
        assert(entries_ok(m)) by {
            assert forall|i: int, j: int| 0 <= i < j < m.len() implies m[i].s_k != m[j].s_k by {
                assert(l[i] == m[i]);
                assert(l[j] == m[j]);
            }
            assert forall|i: int| 0 <= i < m.len() implies live_ok(#[trigger] m[i]) by {
                assert(l[i] == m[i]);
            }
        }
        lemma_hydration_replays(m);
        let left: Option<S4Vector> = if m.len() == 0 {
            None
        } else {
            Some(m.last().s_k)
        };
        lemma_apply_all_concat(Seq::empty(), hydration_spec(m), entry_ops(l.last(), left));
        assert(m.push(l.last()) =~= l);
        assert(live_ok(l[l.len() - 1]));
        lemma_entry_ops(m, l.last());
    }
}

} // verus!
