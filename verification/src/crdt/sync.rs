//! The sync server of the vector-addressed protocol. For every connected
//! client the server keeps a replica and the operations of the other clients
//! that the client has not taken yet. A sync applies a client's edits to its
//! replica, queues the resulting operations for everyone else, hands the
//! client what was queued for it, and collects the tombstones that every
//! replica holds (Roh et al. 2011, section 5.6). The sockets belong to the
//! caller.
use vstd::prelude::*;
use crate::s4vector::S4Vector;
use crate::crdt::rga::Rga;
use crate::crdt::rga::RgaState;
use crate::crdt::rga::Operation;
use crate::crdt::rga::apply_all;
use crate::crdt::rga::gc_spec;
use crate::crdt::rga::is_tombstone_key;
use crate::crdt::rga::text_of;
use crate::crdt::rga::tombstone_keys;
use crate::crdt::rga::entries_ok;
use crate::crdt::rga::lemma_gc_entries_ok;
use crate::crdt::rga::Entry;
use crate::crdt::rga::has_key;
use crate::crdt::rga::key_index;
use crate::crdt::rga::keys_unique;
use crate::crdt::rga::lemma_key_index;
use crate::crdt::editing::lemma_gc_keeps_text;
use crate::crdt::client_op::ClientOp;
use crate::crdt::client_op::client_op_post;
use crate::crdt::client_op::client_op_step;
use crate::crdt::client_op::lemma_client_op_unique;

verus! {

/// What the server keeps for one client: its site id, its replica, and the
/// operations queued for it.
pub ghost struct SiteView {
    pub site_id: u64,
    pub doc: RgaState,
    pub pending: Seq<Operation>,
}

/// One connected client.
struct SiteClient {
    site_id: u64,
    rga: Rga,
    pending_ops: Vec<Operation>,
}

spec fn site_view(c: SiteClient) -> SiteView {
    SiteView { site_id: c.site_id, doc: c.rga@, pending: c.pending_ops@ }
}

/// The clients of a sync server, in the order they connected.
pub struct SyncRegistry {
    clients: Vec<SiteClient>,
}

impl View for SyncRegistry {
    type V = Seq<SiteView>;

    closed spec fn view(&self) -> Seq<SiteView> {
        views(self.clients@)
    }
}

/// Some client has site id `id`.
pub open spec fn has_site(v: Seq<SiteView>, id: u64) -> bool {
    exists|i: int| 0 <= i < v.len() && v[i].site_id == id
}

/// The position of the client with site id `id` (meaningful when there is one).
pub open spec fn site_index(v: Seq<SiteView>, id: u64) -> int {
    choose|i: int| 0 <= i < v.len() && v[i].site_id == id
}

/// The replica a client joining as `site_id` starts with: the document of the
/// first client, or an empty one.
pub open spec fn joined_doc(v: Seq<SiteView>, site_id: u64) -> RgaState {
    RgaState {
        entries: if v.len() > 0 {
            v[0].doc.entries
        } else {
            Seq::empty()
        },
        site_id,
        session: 0,
        counter: 0,
    }
}

/// A replica after a client's edits, in order, and the operations they gave.
pub open spec fn run_client_ops(v: RgaState, ops: Seq<ClientOp>) -> (RgaState, Seq<Operation>)
    decreases ops.len(),
{
    if ops.len() == 0 {
        (v, Seq::empty())
    } else {
        let (v1, sent) = run_client_ops(v, ops.drop_last());
        let (v2, r) = client_op_step(ops.last(), v1);
        (
            v2,
            match r {
                Some(o) => sent.push(o),
                None => sent,
            },
        )
    }
}

/// The clients after the client at `i` synced the edits `ops`: its replica
/// has the edits and then what was queued for it, and its queue is empty;
/// every other client has the edits' operations queued.
pub open spec fn synced(v: Seq<SiteView>, i: int, ops: Seq<ClientOp>) -> Seq<SiteView> {
    let (d1, sent) = run_client_ops(v[i].doc, ops);
    Seq::new(
        v.len(),
        |j: int|
            if j == i {
                SiteView {
                    site_id: v[i].site_id,
                    doc: RgaState { entries: apply_all(d1.entries, v[i].pending), ..d1 },
                    pending: Seq::empty(),
                }
            } else {
                SiteView { pending: v[j].pending + sent, ..v[j] }
            },
    )
}

/// Every client's replica holds `k` as a tombstone.
pub open spec fn all_tombstoned(v: Seq<SiteView>, k: S4Vector) -> bool {
    forall|j: int| 0 <= j < v.len() ==> is_tombstone_key(#[trigger] v[j].doc.entries, k)
}

/// Every client's replica without the tombstone `k`.
pub open spec fn collect_everywhere(v: Seq<SiteView>, k: S4Vector) -> Seq<SiteView> {
    Seq::new(
        v.len(),
        |j: int|
            SiteView {
                doc: RgaState { entries: gc_spec(v[j].doc.entries, k), ..v[j].doc },
                ..v[j]
            },
    )
}

/// The garbage-collection pass over the candidate keys, in order: a key that
/// every replica holds as a tombstone is collected everywhere.
pub open spec fn gc_pass(v: Seq<SiteView>, keys: Seq<S4Vector>) -> Seq<SiteView>
    decreases keys.len(),
{
    if keys.len() == 0 {
        v
    } else {
        let w = gc_pass(v, keys.drop_last());
        if all_tombstoned(w, keys.last()) {
            collect_everywhere(w, keys.last())
        } else {
            w
        }
    }
}

/// A copy of a list of operations.
fn copy_ops(ops: &Vec<Operation>) -> (r: Vec<Operation>)
    ensures
        r@ == ops@,
{
    let r = ops.clone();
    assert(r@ =~= ops@);
    r
}

/// Appends `src` to `dst`.
fn extend_ops(dst: &mut Vec<Operation>, src: &Vec<Operation>)
    ensures
        final(dst)@ == old(dst)@ + src@,
{
    let ghost d0 = dst@;
    let mut t: usize = 0;
    while t < src.len()
        invariant
            t <= src@.len(),
            dst@ == d0 + src@.take(t as int),
        decreases src@.len() - t,
    {
        dst.push(src[t].clone());
        t = t + 1;
        assert(d0 + src@.take(t as int) =~= (d0 + src@.take(t - 1)).push(src@[t - 1]));
    }
    assert(src@.take(t as int) =~= src@);
}

/// Runs a client's edits on its replica, in order; returns the operations
/// they gave.
fn run_edits(rga: &mut Rga, ops: &Vec<ClientOp>) -> (r: Vec<Operation>)
    requires
        old(rga)@.counter + ops@.len() < u64::MAX,
    ensures
        (final(rga)@, r@) == run_client_ops(old(rga)@, ops@),
{
    let ghost v0 = rga@;
    let mut sent: Vec<Operation> = Vec::new();
    let mut k: usize = 0;
    while k < ops.len()
        invariant
            k <= ops@.len(),
            v0.counter + ops@.len() < u64::MAX,
            rga@.counter <= v0.counter + k,
            (rga@, sent@) == run_client_ops(v0, ops@.take(k as int)),
        decreases ops@.len() - k,
    {
        let ghost before = rga@;
        assert(ops@.take(k + 1).drop_last() =~= ops@.take(k as int));
        assert(ops@.take(k + 1).last() == ops@[k as int]);
        let r = ops[k].apply_to(rga);
        proof {
            let op = ops@[k as int];
            let chosen = client_op_step(op, before);
            let witness = (rga@, r);
            assert(client_op_post(op, before, witness.0, witness.1));
            assert(client_op_post(op, before, chosen.0, chosen.1));
            lemma_client_op_unique(op, before, rga@, r, chosen.0, chosen.1);
        }
        match r {
            Some(o) => sent.push(o),
            None => {},
        }
        k = k + 1;
    }
    assert(ops@.take(k as int) =~= ops@);
    sent
}

/// Applies `ops` to `rga` in order.
fn apply_ops(rga: &mut Rga, ops: &Vec<Operation>)
    ensures
        final(rga)@ == (RgaState { entries: apply_all(old(rga)@.entries, ops@), ..old(rga)@ }),
{
    let ghost v0 = rga@;
    let mut k: usize = 0;
    while k < ops.len()
        invariant
            k <= ops@.len(),
            rga@ == (RgaState { entries: apply_all(v0.entries, ops@.take(k as int)), ..v0 }),
        decreases ops@.len() - k,
    {
        assert(ops@.take(k + 1).drop_last() =~= ops@.take(k as int));
        rga.apply(ops[k].clone());
        k = k + 1;
    }
    assert(ops@.take(k as int) =~= ops@);
}

/// The views of a list of clients.
spec fn views(cs: Seq<SiteClient>) -> Seq<SiteView> {
    cs.map_values(|c: SiteClient| site_view(c))
}

/// Every replica is well formed, and site ids are distinct.
spec fn clients_ok(cs: Seq<SiteClient>) -> bool {
    &&& forall|i: int| 0 <= i < cs.len() ==> (#[trigger] cs[i]).rga.wf()
    &&& forall|i: int, j: int| 0 <= i < j < cs.len() ==> cs[i].site_id != cs[j].site_id
}

/// Removing a client keeps the others sound.
proof fn lemma_clients_remove(cs: Seq<SiteClient>, i: int)
    requires
        clients_ok(cs),
        0 <= i < cs.len(),
    ensures
        clients_ok(cs.remove(i)),
        views(cs.remove(i)) == views(cs).remove(i),
{
    let cs2 = cs.remove(i);
    assert forall|k: int| 0 <= k < cs2.len() implies (#[trigger] cs2[k]).rga.wf() by {
        let k0 = if k < i { k } else { k + 1 };
        assert(cs2[k] == cs[k0]);
    }
    assert forall|a: int, b: int| 0 <= a < b < cs2.len() implies cs2[a].site_id != cs2[b].site_id by {
        let a0 = if a < i { a } else { a + 1 };
        let b0 = if b < i { b } else { b + 1 };
        assert(cs2[a] == cs[a0]);
        assert(cs2[b] == cs[b0]);
    }
    assert(views(cs2) =~= views(cs).remove(i));
}

/// Putting back a client whose site id no other client has.
proof fn lemma_clients_insert(cs: Seq<SiteClient>, i: int, c: SiteClient)
    requires
        clients_ok(cs),
        0 <= i <= cs.len(),
        c.rga.wf(),
        forall|k: int| 0 <= k < cs.len() ==> (#[trigger] cs[k]).site_id != c.site_id,
    ensures
        clients_ok(cs.insert(i, c)),
        views(cs.insert(i, c)) == views(cs).insert(i, site_view(c)),
{
    let cs2 = cs.insert(i, c);
    assert forall|k: int| 0 <= k < cs2.len() implies (#[trigger] cs2[k]).rga.wf() by {
        if k < i {
            assert(cs2[k] == cs[k]);
        } else if k > i {
            assert(cs2[k] == cs[k - 1]);
        }
    }
    assert forall|a: int, b: int| 0 <= a < b < cs2.len() implies cs2[a].site_id != cs2[b].site_id by {
        if a < i {
            assert(cs2[a] == cs[a]);
        } else if a > i {
            assert(cs2[a] == cs[a - 1]);
        }
        if b < i {
            assert(cs2[b] == cs[b]);
        } else if b > i {
            assert(cs2[b] == cs[b - 1]);
        }
    }
    assert(views(cs2) =~= views(cs).insert(i, site_view(c)));
}

/// Garbage collection keeps every client's text: it only collects
/// tombstones.
pub proof fn lemma_gc_pass_keeps_text(v: Seq<SiteView>, keys: Seq<S4Vector>)
    requires
        forall|j: int| 0 <= j < v.len() ==> entries_ok(#[trigger] v[j].doc.entries),
    ensures
        gc_pass(v, keys).len() == v.len(),
        forall|j: int|
            0 <= j < v.len() ==> entries_ok(#[trigger] gc_pass(v, keys)[j].doc.entries),
        forall|j: int|
            0 <= j < v.len() ==> text_of(#[trigger] gc_pass(v, keys)[j].doc.entries) == text_of(
                v[j].doc.entries,
            ),
    decreases keys.len(),
{
    if keys.len() > 0 {
        lemma_gc_pass_keeps_text(v, keys.drop_last());
        let w = gc_pass(v, keys.drop_last());
        let k = keys.last();
        if all_tombstoned(w, k) {
            let w2 = collect_everywhere(w, k);
            assert forall|j: int| 0 <= j < v.len() implies entries_ok(#[trigger] w2[j].doc.entries)
                && text_of(w2[j].doc.entries) == text_of(v[j].doc.entries) by {
                assert(entries_ok(w[j].doc.entries));
                lemma_gc_entries_ok(w[j].doc.entries, k);
                lemma_gc_keeps_text(w[j].doc.entries, k);
            }
        }
    }
}


/// Collecting `k` from a list with unique keys removes at most the entry of
/// `k`, and only when it is a tombstone; every other entry stays as it was.
pub proof fn lemma_gc_spec_keys(l: Seq<Entry>, k: S4Vector, s: S4Vector)
    requires
        keys_unique(l),
    ensures
        keys_unique(gc_spec(l, k)),
        has_key(gc_spec(l, k), s) ==> has_key(l, s) && gc_spec(l, k)[key_index(gc_spec(l, k), s)]
            == l[key_index(l, s)],
        has_key(l, s) && s != k ==> has_key(gc_spec(l, k), s),
        has_key(l, s) && !has_key(gc_spec(l, k), s) ==> s == k && is_tombstone_key(l, k),
{
    if is_tombstone_key(l, k) {
        let p = choose|i: int| 0 <= i < l.len() && l[i].s_k == k;
        lemma_key_index(l, p);
        let r = l.remove(p);
        assert(gc_spec(l, k) == r);
        assert forall|i: int, j: int| 0 <= i < j < r.len() implies r[i].s_k != r[j].s_k by {
            let i0 = if i < p { i } else { i + 1 };
            let j0 = if j < p { j } else { j + 1 };
            assert(r[i] == l[i0] && r[j] == l[j0]);
        }
        if has_key(r, s) {
            let q = key_index(r, s);
            let q0 = if q < p { q } else { q + 1 };
            assert(r[q] == l[q0]);
            lemma_key_index(l, q0);
        }
        if has_key(l, s) {
            let q = key_index(l, s);
            if q != p {
                let q1 = if q < p { q } else { q - 1 };
                assert(r[q1] == l[q]);
                assert(has_key(r, s));
            }
        }
    }
}

/// What the collection pass does to replicas with unique keys: it only
/// removes entries and keeps the others as they were; an entry leaves a
/// replica only if every replica held it as a tombstone before the pass; a
/// node that every replica held as a tombstone is either kept by all of them
/// or by none; and a candidate that every replica held as a tombstone leaves
/// every replica.
pub proof fn lemma_gc_pass_keys(v: Seq<SiteView>, keys: Seq<S4Vector>)
    requires
        forall|j: int| 0 <= j < v.len() ==> keys_unique(#[trigger] v[j].doc.entries),
    ensures
        gc_pass(v, keys).len() == v.len(),
        forall|j: int| 0 <= j < v.len() ==> keys_unique(#[trigger] gc_pass(v, keys)[j].doc.entries),
        forall|j: int, s: S4Vector|
            0 <= j < v.len() && #[trigger] has_key(gc_pass(v, keys)[j].doc.entries, s) ==> has_key(
                v[j].doc.entries,
                s,
            ) && gc_pass(v, keys)[j].doc.entries[key_index(gc_pass(v, keys)[j].doc.entries, s)]
                == v[j].doc.entries[key_index(v[j].doc.entries, s)],
        forall|j: int, s: S4Vector|
            0 <= j < v.len() && #[trigger] has_key(v[j].doc.entries, s) && !has_key(
                gc_pass(v, keys)[j].doc.entries,
                s,
            ) ==> forall|a: int| 0 <= a < v.len() ==> is_tombstone_key(#[trigger] v[a].doc.entries, s),
        forall|s: S4Vector, a: int, b: int|
            #![trigger has_key(gc_pass(v, keys)[a].doc.entries, s), has_key(gc_pass(v, keys)[b].doc.entries, s)]
            0 <= a < v.len() && 0 <= b < v.len() && (forall|c: int|
                0 <= c < v.len() ==> is_tombstone_key(#[trigger] v[c].doc.entries, s)) && has_key(
                gc_pass(v, keys)[a].doc.entries,
                s,
            ) ==> has_key(gc_pass(v, keys)[b].doc.entries, s),
        forall|s: S4Vector, a: int|
            0 <= a < v.len() && keys.contains(s) && (forall|c: int|
                0 <= c < v.len() ==> is_tombstone_key(#[trigger] v[c].doc.entries, s)) ==> !(#[trigger] has_key(
                gc_pass(v, keys)[a].doc.entries,
                s,
            )),
    decreases keys.len(),
{
    if keys.len() == 0 {
        assert(gc_pass(v, keys) == v);
        assert(!keys.contains(keys[0]) || keys.len() > 0);
    } else {
        let front = keys.drop_last();
        let k = keys.last();
        lemma_gc_pass_keys(v, front);
        let w = gc_pass(v, front);
        let g = gc_pass(v, keys);
        assert(keys =~= front.push(k));
        if all_tombstoned(w, k) {
            assert(g == collect_everywhere(w, k));
            assert forall|a: int| 0 <= a < v.len() implies (#[trigger] g[a]).doc.entries == gc_spec(
                w[a].doc.entries,
                k,
            ) by {}
            assert forall|j: int| 0 <= j < v.len() implies keys_unique(#[trigger] g[j].doc.entries) by {
                lemma_gc_spec_keys(w[j].doc.entries, k, k);
            }
            assert forall|j: int, s: S4Vector|
                0 <= j < v.len() && #[trigger] has_key(g[j].doc.entries, s) implies has_key(
                v[j].doc.entries,
                s,
            ) && g[j].doc.entries[key_index(g[j].doc.entries, s)] == v[j].doc.entries[key_index(
                v[j].doc.entries,
                s,
            )] by {
                lemma_gc_spec_keys(w[j].doc.entries, k, s);
                assert(has_key(w[j].doc.entries, s));
            }
            assert forall|j: int, s: S4Vector|
                0 <= j < v.len() && #[trigger] has_key(v[j].doc.entries, s) && !has_key(
                    g[j].doc.entries,
                    s,
                ) implies forall|a: int| 0 <= a < v.len() ==> is_tombstone_key(
                #[trigger] v[a].doc.entries,
                s,
            ) by {
                lemma_gc_spec_keys(w[j].doc.entries, k, s);
                if has_key(w[j].doc.entries, s) {
                    assert(s == k);
                    assert forall|a: int| 0 <= a < v.len() implies is_tombstone_key(
                        #[trigger] v[a].doc.entries,
                        s,
                    ) by {
                        assert(is_tombstone_key(w[a].doc.entries, k));
                        assert(has_key(w[a].doc.entries, k));
                    }
                }
            }
            assert forall|s: S4Vector, a: int, b: int|
                #![trigger has_key(g[a].doc.entries, s), has_key(g[b].doc.entries, s)]
                0 <= a < v.len() && 0 <= b < v.len() && (forall|c: int|
                    0 <= c < v.len() ==> is_tombstone_key(#[trigger] v[c].doc.entries, s)) && has_key(
                    g[a].doc.entries,
                    s,
                ) implies has_key(g[b].doc.entries, s) by {
                lemma_gc_spec_keys(w[a].doc.entries, k, s);
                lemma_gc_spec_keys(w[b].doc.entries, k, s);
                if s == k {
                    assert(is_tombstone_key(w[a].doc.entries, k));
                    assert(!has_key(g[a].doc.entries, s));
                } else {
                    assert(has_key(w[a].doc.entries, s));
                    assert(has_key(w[b].doc.entries, s));
                }
            }
            assert forall|s: S4Vector, a: int|
                0 <= a < v.len() && keys.contains(s) && (forall|c: int|
                    0 <= c < v.len() ==> is_tombstone_key(#[trigger] v[c].doc.entries, s)) implies !(#[trigger] has_key(
                g[a].doc.entries,
                s,
            )) by {
                lemma_gc_spec_keys(w[a].doc.entries, k, s);
                if s == k {
                    assert(is_tombstone_key(w[a].doc.entries, k));
                } else {
                    let x = choose|x: int| 0 <= x < keys.len() && keys[x] == s;
                    assert(x < front.len());
                    assert(front[x] == s);
                    assert(front.contains(s));
                    assert(!has_key(w[a].doc.entries, s));
                }
            }
        } else {
            assert(g == w);
            assert forall|s: S4Vector, a: int|
                0 <= a < v.len() && keys.contains(s) && (forall|c: int|
                    0 <= c < v.len() ==> is_tombstone_key(#[trigger] v[c].doc.entries, s)) implies !(#[trigger] has_key(
                g[a].doc.entries,
                s,
            )) by {
                if s == k {
                    let a0 = choose|a0: int| 0 <= a0 < w.len() && !is_tombstone_key(#[trigger] w[a0].doc.entries, k);
                    assert(is_tombstone_key(v[a0].doc.entries, k));
                    if has_key(w[a0].doc.entries, k) {
                        assert(has_key(v[a0].doc.entries, k));
                    }
                    assert(!has_key(w[a0].doc.entries, k));
                    if has_key(w[a].doc.entries, k) {
                        assert(has_key(w[a0].doc.entries, k));
                    }
                } else {
                    let x = choose|x: int| 0 <= x < keys.len() && keys[x] == s;
                    assert(x < front.len());
                    assert(front[x] == s);
                    assert(front.contains(s));
                }
            }
        }
    }
}

impl SyncRegistry {
    /// Every client's replica is well formed, and site ids are distinct.
    #[verifier::type_invariant]
    spec fn wf(self) -> bool {
        clients_ok(self.clients@)
    }

    /// No client is connected.
    pub fn new() -> (r: Self)
        ensures
            r@ == Seq::<SiteView>::empty(),
    {
        let r = SyncRegistry { clients: Vec::new() };
        assert(r@ =~= Seq::<SiteView>::empty());
        r
    }

    /// Registers `site_id` with a replica rebuilt from the first client's
    /// hydration operations (an empty one when no client is connected), and
    /// returns its text. A site id that is connected already starts over.
    pub fn connect(&mut self, site_id: u64) -> (r: String)
        ensures
            r@ == text_of(joined_doc(old(self)@, site_id).entries),
            final(self)@ == if has_site(old(self)@, site_id) {
                old(self)@.update(
                    site_index(old(self)@, site_id),
                    SiteView {
                        site_id,
                        doc: joined_doc(old(self)@, site_id),
                        pending: Seq::empty(),
                    },
                )
            } else {
                old(self)@.push(
                    SiteView {
                        site_id,
                        doc: joined_doc(old(self)@, site_id),
                        pending: Seq::empty(),
                    },
                )
            },
    {
        let ghost v = self@;
        let mut tmp = SyncRegistry::new();
        std::mem::swap(self, &mut tmp);
        proof {
            use_type_invariant(&tmp);
        }
        let SyncRegistry { mut clients } = tmp;
        let mut rga = Rga::new(site_id, 0);
        if clients.len() > 0 {
            let ops = clients[0].rga.hydration_ops();
            let mut k: usize = 0;
            while k < ops.len()
                invariant
                    k <= ops@.len(),
                    rga@ == (RgaState {
                        entries: apply_all(Seq::empty(), ops@.take(k as int)),
                        site_id,
                        session: 0,
                        counter: 0,
                    }),
                decreases ops@.len() - k,
            {
                assert(ops@.take(k + 1).drop_last() =~= ops@.take(k as int));
                rga.apply(ops[k].clone());
                k = k + 1;
            }
            assert(ops@.take(k as int) =~= ops@);
        } else {
            assert(rga@.entries == joined_doc(v, site_id).entries);
        }
        let text = rga.to_string();
        let client = SiteClient { site_id, rga, pending_ops: Vec::new() };
        proof {
            use_type_invariant(&client.rga);
        }
        let ghost cs = clients@;
        let ghost cl = client;
        match find_site(&clients, site_id) {
            Some(i) => {
                clients.set(i, client);
                proof {
                    lemma_clients_remove(cs, i as int);
                    assert forall|k: int| 0 <= k < cs.remove(i as int).len() implies (#[trigger] cs.remove(
                        i as int,
                    )[k]).site_id != site_id by {
                        let k0 = if k < i { k } else { k + 1 };
                        assert(cs.remove(i as int)[k] == cs[k0]);
                        assert(views(cs)[k0].site_id == cs[k0].site_id);
                    }
                    lemma_clients_insert(cs.remove(i as int), i as int, cl);
                    assert(cs.update(i as int, cl) =~= cs.remove(i as int).insert(i as int, cl));
                }
                assert(views(clients@) =~= v.update(
                    i as int,
                    SiteView { site_id, doc: joined_doc(v, site_id), pending: Seq::empty() },
                ));
            },
            None => {
                clients.push(client);
                proof {
                    assert forall|k: int| 0 <= k < cs.len() implies (#[trigger] cs[k]).site_id
                        != site_id by {
                        assert(views(cs)[k].site_id == cs[k].site_id);
                    }
                    lemma_clients_insert(cs, cs.len() as int, cl);
                    assert(cs.push(cl) =~= cs.insert(cs.len() as int, cl));
                }
                assert(views(clients@) =~= v.push(
                    SiteView { site_id, doc: joined_doc(v, site_id), pending: Seq::empty() },
                ));
            },
        }
        *self = SyncRegistry { clients };
        text
    }

    /// Removes the client with site id `site_id`, if connected.
    pub fn disconnect(&mut self, site_id: u64)
        ensures
            final(self)@ == if has_site(old(self)@, site_id) {
                old(self)@.remove(site_index(old(self)@, site_id))
            } else {
                old(self)@
            },
    {
        let ghost v = self@;
        let mut tmp = SyncRegistry::new();
        std::mem::swap(self, &mut tmp);
        proof {
            use_type_invariant(&tmp);
        }
        let SyncRegistry { mut clients } = tmp;
        match find_site(&clients, site_id) {
            Some(i) => {
                let ghost cs = clients@;
                clients.remove(i);
                proof {
                    lemma_clients_remove(cs, i as int);
                }
            },
            None => {},
        }
        *self = SyncRegistry { clients };
    }

    /// Syncs the client `from_site`: its edits `ops` are applied to its
    /// replica and their operations queued for every other client; then the
    /// operations queued for it are applied and its queue emptied. Returns the
    /// client's text and the number of clients, and finally collects every
    /// tombstone of the client's replica that all replicas hold: a node leaves
    /// a replica only if every replica held it as a tombstone before the
    /// collection, and each such tombstone of the client's replica leaves
    /// every replica. `None`, with nothing changed, for an unknown site.
    pub fn process_sync(&mut self, from_site: u64, ops: Vec<ClientOp>) -> (r: Option<(String, usize)>)
        requires
            forall|i: int|
                0 <= i < old(self)@.len() && old(self)@[i].site_id == from_site ==> old(
                    self,
                )@[i].doc.counter + ops@.len() < u64::MAX,
        ensures
            !has_site(old(self)@, from_site) ==> r is None && final(self)@ == old(self)@,
            has_site(old(self)@, from_site) ==> {
                let i = site_index(old(self)@, from_site);
                let v3 = synced(old(self)@, i, ops@);
                &&& r matches Some((text, count)) && text@ == text_of(v3[i].doc.entries) && count
                    == old(self)@.len()
                &&& text_of(final(self)@[i].doc.entries) == text_of(v3[i].doc.entries)
                &&& final(self)@ == gc_pass(v3, tombstone_keys(v3[i].doc.entries))
                &&& final(self)@.len() == v3.len()
                &&& forall|j: int, s: S4Vector|
                    0 <= j < v3.len() && #[trigger] has_key(v3[j].doc.entries, s) && !has_key(
                        final(self)@[j].doc.entries,
                        s,
                    ) ==> forall|a: int|
                        0 <= a < v3.len() ==> is_tombstone_key(#[trigger] v3[a].doc.entries, s)
                &&& forall|j: int, s: S4Vector|
                    0 <= j < v3.len() && #[trigger] has_key(final(self)@[j].doc.entries, s) ==> has_key(
                        v3[j].doc.entries,
                        s,
                    ) && final(self)@[j].doc.entries[key_index(final(self)@[j].doc.entries, s)]
                        == v3[j].doc.entries[key_index(v3[j].doc.entries, s)]
                &&& forall|s: S4Vector, a: int|
                    0 <= a < v3.len() && tombstone_keys(v3[i].doc.entries).contains(s) && (forall|c: int|
                        0 <= c < v3.len() ==> is_tombstone_key(#[trigger] v3[c].doc.entries, s)) ==> !(
                    #[trigger] has_key(final(self)@[a].doc.entries, s))
            },
    {
        let ghost v = self@;
        let mut tmp = SyncRegistry::new();
        std::mem::swap(self, &mut tmp);
        proof {
            use_type_invariant(&tmp);
        }
        let SyncRegistry { mut clients } = tmp;
        let i = match find_site(&clients, from_site) {
            None => {
                *self = SyncRegistry { clients };
                return None;
            },
            Some(i) => i,
        };
        let ghost cs = clients@;
        let mut c = clients.remove(i);
        proof {
            lemma_clients_remove(cs, i as int);
            assert(site_view(c) == v[i as int]);
        }
        let sent = run_edits(&mut c.rga, &ops);
        queue_for_all(&mut clients, &sent);
        let mut pending: Vec<Operation> = Vec::new();
        std::mem::swap(&mut pending, &mut c.pending_ops);
        apply_ops(&mut c.rga, &pending);
        let text = c.rga.to_string();
        let candidates = c.rga.tombstoned_keys();
        let ghost rest = clients@;
        proof {
            use_type_invariant(&c.rga);
            let vr = views(cs.remove(i as int));
            assert(views(rest).len() == vr.len());
            assert forall|k: int| 0 <= k < rest.len() implies (#[trigger] rest[k]).site_id
                != c.site_id by {
                let k0 = if k < i { k } else { k + 1 };
                assert(views(rest)[k] == site_view(rest[k]));
                assert(views(rest)[k].site_id == vr[k].site_id);
                assert(vr[k] == views(cs).remove(i as int)[k]);
                assert(views(cs)[k0] == site_view(cs[k0]));
                assert(cs[k0].site_id != cs[i as int].site_id);
            }
            lemma_clients_insert(rest, i as int, c);
        }
        clients.insert(i, c);
        let ghost v3 = synced(v, i as int, ops@);
        assert(views(clients@) =~= v3);
        proof {
            assert forall|j: int| 0 <= j < v3.len() implies entries_ok(#[trigger] v3[j].doc.entries) by {
                assert(v3[j] == site_view(clients@[j]));
                let cj = clients@[j];
                assert(cj.rga.wf());
                cj.rga.lemma_wf();
            }
            lemma_gc_pass_keeps_text(v3, candidates@);
        }
        let count = clients.len();
        let mut t: usize = 0;
        while t < candidates.len()
            invariant
                t <= candidates@.len(),
                clients_ok(clients@),
                views(clients@) == gc_pass(v3, candidates@.take(t as int)),
            decreases candidates@.len() - t,
        {
            assert(candidates@.take(t + 1).drop_last() =~= candidates@.take(t as int));
            if tombstoned_everywhere(&clients, &candidates[t]) {
                collect_key(&mut clients, &candidates[t]);
            }
            t = t + 1;
        }
        assert(candidates@.take(t as int) =~= candidates@);
        proof {
            assert forall|j: int| 0 <= j < v3.len() implies keys_unique(#[trigger] v3[j].doc.entries) by {
                assert(entries_ok(v3[j].doc.entries));
            }
            lemma_gc_pass_keys(v3, candidates@);
        }
        *self = SyncRegistry { clients };
        Some((text, count))
    }

    /// The counter of the local operations of the client `site_id`, which a
    /// sync must not overflow; `None` for an unknown site.
    pub fn local_clock(&self, site_id: u64) -> (r: Option<u64>)
        ensures
            r == if has_site(self@, site_id) {
                Some(self@[site_index(self@, site_id)].doc.counter)
            } else {
                None::<u64>
            },
    {
        proof {
            use_type_invariant(self);
        }
        match find_site(&self.clients, site_id) {
            Some(i) => {
                Some(self.clients[i].rga.counter())
            },
            None => None,
        }
    }

    /// The number of connected clients.
    pub fn client_count(&self) -> (r: usize)
        ensures
            r == self@.len(),
    {
        self.clients.len()
    }
}

/// The position of the client with site id `id`.
fn find_site(clients: &Vec<SiteClient>, id: u64) -> (r: Option<usize>)
    requires
        clients_ok(clients@),
    ensures
        match r {
            Some(i) => i < views(clients@).len() && views(clients@)[i as int].site_id == id && site_index(views(clients@), id)
                == i,
            None => !has_site(views(clients@), id),
        },
{
    let mut i: usize = 0;
    while i < clients.len()
        invariant
            clients_ok(clients@),
            i <= clients@.len(),
            forall|k: int| 0 <= k < i ==> (#[trigger] views(clients@)[k]).site_id != id,
        decreases clients@.len() - i,
    {
        if clients[i].site_id == id {
            proof {
                let j = site_index(views(clients@), id);
                assert(0 <= i < views(clients@).len() && views(clients@)[i as int].site_id == id);
                if j != i {
                    if j < i {
                        assert(views(clients@)[j].site_id != views(clients@)[i as int].site_id);
                    } else {
                        assert(views(clients@)[i as int].site_id != views(clients@)[j].site_id);
                    }
                }
            }
            return Some(i);
        }
        i = i + 1;
    }
    None
}

/// Queues `sent` for every client.
fn queue_for_all(clients: &mut Vec<SiteClient>, sent: &Vec<Operation>)
    requires
        clients_ok(old(clients)@),
    ensures
        clients_ok(final(clients)@),
        views(final(clients)@) == Seq::new(
            views(old(clients)@).len(),
            |j: int| SiteView { pending: views(old(clients)@)[j].pending + sent@, ..views(old(clients)@)[j] },
        ),
{
    let ghost v = views(clients@);
    let mut j: usize = 0;
    while j < clients.len()
        invariant
            j <= clients@.len(),
            clients_ok(clients@),
            views(clients@).len() == v.len(),
            forall|k: int|
                0 <= k < j ==> #[trigger] views(clients@)[k] == (SiteView {
                    pending: v[k].pending + sent@,
                    ..v[k]
                }),
            forall|k: int| j <= k < v.len() ==> #[trigger] views(clients@)[k] == v[k],
        decreases clients@.len() - j,
    {
        let ghost cs = clients@;
        let mut c = clients.remove(j);
        proof {
            lemma_clients_remove(cs, j as int);
        }
        proof {
            assert(views(cs)[j as int] == site_view(cs[j as int]));
        }
        extend_ops(&mut c.pending_ops, sent);
        let ghost rest = clients@;
        proof {
            assert forall|k: int| 0 <= k < rest.len() implies (#[trigger] rest[k]).site_id
                != c.site_id by {
                let k0 = if k < j { k } else { k + 1 };
                assert(rest[k] == cs[k0]);
                assert(cs[k0].site_id != cs[j as int].site_id);
            }
            lemma_clients_insert(rest, j as int, c);
        }
        clients.insert(j, c);
        proof {
            assert forall|k: int| 0 <= k < j + 1 implies #[trigger] views(clients@)[k] == (SiteView {
                pending: v[k].pending + sent@,
                ..v[k]
            }) by {
                if k < j {
                    assert(views(clients@)[k] == views(cs)[k]);
                }
            }
            assert forall|k: int| j + 1 <= k < v.len() implies #[trigger] views(clients@)[k] == v[k] by {
                assert(views(clients@)[k] == views(cs)[k]);
            }
        }
        j = j + 1;
    }
    assert(views(clients@) =~= Seq::new(
        v.len(),
        |k: int| SiteView { pending: v[k].pending + sent@, ..v[k] },
    ));
}

/// Whether every replica holds `k` as a tombstone.
fn tombstoned_everywhere(clients: &Vec<SiteClient>, k: &S4Vector) -> (r: bool)
    requires
        clients_ok(clients@),
    ensures
        r == all_tombstoned(views(clients@), *k),
{
    let mut j: usize = 0;
    while j < clients.len()
        invariant
            j <= clients@.len(),
            clients_ok(clients@),
            forall|a: int| 0 <= a < j ==> is_tombstone_key(#[trigger] views(clients@)[a].doc.entries, *k),
        decreases clients@.len() - j,
    {
        if !clients[j].rga.is_tombstoned(k) {
            assert(!is_tombstone_key(views(clients@)[j as int].doc.entries, *k));
            return false;
        }
        j = j + 1;
    }
    true
}

/// Collects the tombstone `k` in every replica.
fn collect_key(clients: &mut Vec<SiteClient>, k: &S4Vector)
    requires
        clients_ok(old(clients)@),
    ensures
        clients_ok(final(clients)@),
        views(final(clients)@) == collect_everywhere(views(old(clients)@), *k),
{
    let ghost v = views(clients@);
    let mut j: usize = 0;
    while j < clients.len()
        invariant
            j <= clients@.len(),
            clients_ok(clients@),
            views(clients@).len() == v.len(),
            forall|a: int|
                0 <= a < j ==> #[trigger] views(clients@)[a] == collect_everywhere(v, *k)[a],
            forall|a: int| j <= a < v.len() ==> #[trigger] views(clients@)[a] == v[a],
        decreases clients@.len() - j,
    {
        let ghost cs = clients@;
        let mut c = clients.remove(j);
        proof {
            lemma_clients_remove(cs, j as int);
            assert(views(cs)[j as int] == site_view(cs[j as int]));
        }
        c.rga.gc_node(k);
        let ghost rest = clients@;
        proof {
            use_type_invariant(&c.rga);
            assert forall|a: int| 0 <= a < rest.len() implies (#[trigger] rest[a]).site_id
                != c.site_id by {
                let a0 = if a < j { a } else { a + 1 };
                assert(rest[a] == cs[a0]);
                assert(cs[a0].site_id != cs[j as int].site_id);
            }
            lemma_clients_insert(rest, j as int, c);
        }
        clients.insert(j, c);
        proof {
            assert forall|a: int| 0 <= a < j + 1 implies #[trigger] views(clients@)[a] == collect_everywhere(
                v,
                *k,
            )[a] by {
                if a < j {
                    assert(views(clients@)[a] == views(cs)[a]);
                }
            }
            assert forall|a: int| j + 1 <= a < v.len() implies #[trigger] views(clients@)[a] == v[a] by {
                assert(views(clients@)[a] == views(cs)[a]);
            }
        }
        j = j + 1;
    }
    assert(views(clients@) =~= collect_everywhere(v, *k));
}

} // verus!
