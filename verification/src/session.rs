//! The shared document session of the server.
//!
//! The server keeps its own [`Replica`], an operation log that hydrates newly
//! connected clients, the connected clients and their cursor positions. Each
//! method takes one event (a connection, a disconnection, a message from a
//! client) and returns the message to send to the connected clients, if any,
//! with the connection that must not receive it. The network plumbing that
//! delivers those messages lives outside this library.
use vstd::prelude::*;
use std::collections::HashMap;
use crate::op::Op;
use crate::op::OpView;
use crate::op::ApplyOutcome;
use crate::replica::Replica;
use crate::replica::ReplicaView;
use crate::replica::ops_view;
use crate::replica::batch_step;
use crate::replica::remote_step;
use crate::replay::rebuild_log;
use crate::replay::replay;
use crate::replica::distinct_ids;
use crate::model::RgaView;
use crate::model::empty_view;
use crate::model::text;
use crate::rga::RgaError;
use crate::compaction::count_tombstones;
use crate::compaction::compacted;

verus! {

broadcast use vstd::std_specs::hash::group_hash_axioms;

/// A client's current cursor position.
#[derive(Debug)]
pub struct Presence {
    pub replica_id: String,
    pub cursor: usize,
}

/// The value of a [`Presence`].
pub ghost struct PresenceView {
    pub replica_id: Seq<char>,
    pub cursor: usize,
}

impl View for Presence {
    type V = PresenceView;

    open spec fn view(&self) -> PresenceView {
        PresenceView { replica_id: self.replica_id@, cursor: self.cursor }
    }
}

impl Clone for Presence {
    fn clone(&self) -> (res: Self)
        ensures
            res@ == self@,
    {
        Presence { replica_id: self.replica_id.clone(), cursor: self.cursor }
    }
}

/// The identity a connected client has announced.
#[derive(Debug)]
pub struct ClientInfo {
    pub replica_id: Option<String>,
    pub session_id: Option<String>,
}

/// The value of a [`ClientInfo`]: the announced replica and session ids.
pub open spec fn client_view(c: ClientInfo) -> (Option<Seq<char>>, Option<Seq<char>>) {
    (
        match c.replica_id {
            Some(s) => Some(s@),
            None => None,
        },
        match c.session_id {
            Some(s) => Some(s@),
            None => None,
        },
    )
}

/// A message from the server to its clients.
#[derive(Debug)]
pub enum ServerMsg {
    /// Sent on connection: the operation log, the cursor positions and the
    /// number of clients.
    Hydrate { ops: Vec<Op>, presence: Vec<Presence>, clients: usize },
    /// Operations accepted from another client.
    Ops { ops: Vec<Op> },
    /// Cursor positions, sent on connection changes and cursor moves.
    Presence { presence: Vec<Presence>, clients: usize },
    /// Sent after tombstone removal with the number of nodes removed.
    GarbageCollect { removed: usize },
}

/// A message to send to every connected client except `skip`.
#[derive(Debug)]
pub struct Broadcast {
    pub message: ServerMsg,
    pub skip: Option<u64>,
}

/// The values of a list of cursor positions.
pub open spec fn presence_view(ps: Seq<Presence>) -> Seq<PresenceView> {
    ps.map_values(|p: Presence| p@)
}

/// No two entries belong to the same replica.
pub open spec fn keys_distinct(ps: Seq<PresenceView>) -> bool {
    forall|i: int, j: int|
        0 <= i < ps.len() && 0 <= j < ps.len() && i != j ==> ps[i].replica_id != ps[j].replica_id
}

/// Some entry belongs to replica `rid`.
pub open spec fn has_key(ps: Seq<PresenceView>, rid: Seq<char>) -> bool {
    exists|i: int| 0 <= i < ps.len() && ps[i].replica_id == rid
}

/// Entry `i` is the first entry of replica `rid`.
pub open spec fn first_of(ps: Seq<PresenceView>, rid: Seq<char>, i: int) -> bool {
    &&& 0 <= i < ps.len()
    &&& ps[i].replica_id == rid
    &&& forall|j: int| 0 <= j < i ==> (#[trigger] ps[j]).replica_id != rid
}

/// The index of the first entry of replica `rid`.
pub open spec fn key_index(ps: Seq<PresenceView>, rid: Seq<char>) -> int {
    choose|i: int| first_of(ps, rid, i)
}

/// The first entry of a replica is unique.
pub proof fn lemma_first_of_unique(ps: Seq<PresenceView>, rid: Seq<char>, i: int)
    requires
        first_of(ps, rid, i),
    ensures
        key_index(ps, rid) == i,
        has_key(ps, rid),
{
    let k = key_index(ps, rid);
    assert(first_of(ps, rid, k));
    if k < i {
        assert(ps[k].replica_id != rid);
    } else if i < k {
        assert(ps[i].replica_id != rid);
    }
}

/// The positions with `p` recorded for its replica, replacing an earlier
/// entry of that replica.
pub open spec fn presence_put(ps: Seq<PresenceView>, p: PresenceView) -> Seq<PresenceView> {
    if has_key(ps, p.replica_id) {
        ps.update(key_index(ps, p.replica_id), p)
    } else {
        ps.push(p)
    }
}

/// The positions without the entry of replica `rid`.
pub open spec fn presence_remove(ps: Seq<PresenceView>, rid: Seq<char>) -> Seq<PresenceView> {
    if has_key(ps, rid) {
        ps.remove(key_index(ps, rid))
    } else {
        ps
    }
}

/// A cursor map keeps one entry per replica: recording a position replaces the
/// replica's entry, and removing a replica leaves no entry of it.
pub proof fn lemma_presence_map(ps: Seq<PresenceView>, p: PresenceView, rid: Seq<char>)
    requires
        keys_distinct(ps),
    ensures
        keys_distinct(presence_put(ps, p)),
        has_key(presence_put(ps, p), p.replica_id),
        presence_put(ps, p)[key_index(presence_put(ps, p), p.replica_id)] == p,
        keys_distinct(presence_remove(ps, rid)),
        !has_key(presence_remove(ps, rid), rid),
{
    let put = presence_put(ps, p);
    if has_key(ps, p.replica_id) {
        let i = choose|i: int| 0 <= i < ps.len() && ps[i].replica_id == p.replica_id;
        assert(first_of(ps, p.replica_id, i));
        lemma_first_of_unique(ps, p.replica_id, i);
        assert(first_of(put, p.replica_id, i));
        lemma_first_of_unique(put, p.replica_id, i);
    } else {
        let n = ps.len() as int;
        assert(put[n] == p);
        assert(first_of(put, p.replica_id, n));
        lemma_first_of_unique(put, p.replica_id, n);
    }
    let rem = presence_remove(ps, rid);
    if has_key(ps, rid) {
        let i = choose|i: int| 0 <= i < ps.len() && ps[i].replica_id == rid;
        assert(first_of(ps, rid, i));
        lemma_first_of_unique(ps, rid, i);
        assert forall|j: int| 0 <= j < rem.len() implies rem[j].replica_id != rid by {
            if j < i {
                assert(rem[j] == ps[j]);
            } else {
                assert(rem[j] == ps[j + 1]);
            }
        }
        assert forall|a: int, b: int|
            0 <= a < rem.len() && 0 <= b < rem.len() && a != b implies rem[a].replica_id
            != rem[b].replica_id by {
            let a0 = if a < i { a } else { a + 1 };
            let b0 = if b < i { b } else { b + 1 };
            assert(rem[a] == ps[a0]);
            assert(rem[b] == ps[b0]);
        }
    }
}

/// The operations of `ops` whose outcome in `outs` is
/// [`ApplyOutcome::Applied`], in order.
pub open spec fn accepted_ops(ops: Seq<OpView>, outs: Seq<ApplyOutcome>) -> Seq<OpView>
    decreases ops.len(),
{
    if ops.len() == 0 || outs.len() == 0 {
        Seq::empty()
    } else {
        let rest = accepted_ops(ops.drop_last(), outs.drop_last());
        if outs.last() == ApplyOutcome::Applied {
            rest.push(ops.last())
        } else {
            rest
        }
    }
}

/// Applying a batch appends to the replica's log exactly the operations that
/// were applied, in order.
pub proof fn lemma_batch_log(r: ReplicaView, ops: Seq<OpView>)
    ensures
        batch_step(r, ops).1.len() == ops.len(),
        batch_step(r, ops).0.log == r.log + accepted_ops(ops, batch_step(r, ops).1),
    decreases ops.len(),
{
    if ops.len() == 0 {
        assert(r.log + Seq::<OpView>::empty() =~= r.log);
    } else {
        lemma_batch_log(r, ops.drop_last());
        let (r1, outs) = batch_step(r, ops.drop_last());
        let outs2 = batch_step(r, ops).1;
        assert(outs2.drop_last() =~= outs);
        let acc = accepted_ops(ops.drop_last(), outs);
        if outs2.last() == ApplyOutcome::Applied {
            assert(r.log + acc.push(ops.last()) =~= (r.log + acc).push(ops.last()));
        }
    }
}

/// The decimal digit character for `d` (below ten).
pub open spec fn digit_char(d: nat) -> char {
    (48 + d) as char
}

/// The decimal representation of `n`, without leading zeros.
pub open spec fn decimal(n: nat) -> Seq<char>
    decreases n,
{
    if n < 10 {
        seq![digit_char(n)]
    } else {
        decimal(n / 10).push(digit_char(n % 10))
    }
}

/// Appends the decimal representation of `n` to `out`.
pub(crate) fn push_decimal(out: &mut String, n: u128)
    ensures
        final(out)@ == old(out)@ + decimal(n as nat),
    decreases n,
{
    if n >= 10 {
        push_decimal(out, n / 10);
    }
    let d = (n % 10) as u8;
    let c = (48u8 + d) as char;
    crate::rga::push_char(out, c);
    proof {
        assert(old(out)@ + decimal(n as nat) =~= if n >= 10 {
            (old(out)@ + decimal((n / 10) as nat)).push(c)
        } else {
            old(out)@.push(c)
        });
    }
}

/// The session id of the server's replica for a start time of `nanos`
/// nanoseconds since the Unix epoch: `server-` followed by the decimal
/// number.
pub fn server_session_id(nanos: u128) -> (r: String)
    ensures
        r@ == "server-"@ + decimal(nanos as nat),
{
    let mut out = "server-".to_owned();
    push_decimal(&mut out, nanos);
    out
}

/// The value of a [`DocumentSession`].
pub ghost struct SessionView {
    pub replica: ReplicaView,
    pub op_log: Seq<OpView>,
    pub clients: Map<u64, (Option<Seq<char>>, Option<Seq<char>>)>,
    pub presence: Seq<PresenceView>,
}

/// The server replica together with the log handed to new clients, which is
/// always the replica's own log.
#[derive(Debug)]
struct SharedDocument {
    replica: Replica,
    op_log: Vec<Op>,
}

impl SharedDocument {
    /// The log handed to new clients is the replica's own log.
    #[verifier::type_invariant]
    spec fn log_is_replica_log(self) -> bool {
        ops_view(self.op_log@) == self.replica@.log
    }

    /// A document around a replica that has logged nothing yet.
    fn new(replica: Replica) -> (r: Self)
        requires
            replica@.log.len() == 0,
        ensures
            r.replica@ == replica@,
            ops_view(r.op_log@) == Seq::<OpView>::empty(),
    {
        let op_log: Vec<Op> = Vec::new();
        assert(ops_view(op_log@) =~= replica@.log);
        SharedDocument { replica, op_log }
    }

    /// Applies one remote operation to the replica and, when it is applied,
    /// appends it to the log.
    fn apply(&mut self, op: &Op) -> (r: ApplyOutcome)
        ensures
            (final(self).replica@, r) == remote_step(old(self).replica@, op@),
            ops_view(final(self).op_log@) == if r == ApplyOutcome::Applied {
                ops_view(old(self).op_log@).push(op@)
            } else {
                ops_view(old(self).op_log@)
            },
    {
        let mut tmp = SharedDocument::new(Replica::new(String::new(), String::new()));
        std::mem::swap(self, &mut tmp);
        proof {
            use_type_invariant(&tmp);
        }
        let SharedDocument { mut replica, mut op_log } = tmp;
        let ghost l0 = ops_view(op_log@);
        let outcome = replica.apply_remote(op.clone());
        if outcome == ApplyOutcome::Applied {
            op_log.push(op.clone());
            assert(ops_view(op_log@) =~= l0.push(op@));
        }
        *self = SharedDocument { replica, op_log };
        outcome
    }

    /// Removes the tombstones of the replica (keeping its text) and hands out
    /// the rewritten log from then on. Returns the number of nodes removed.
    fn collect(&mut self) -> (r: usize)
        ensures
            r == count_tombstones(old(self).replica@.rga.nodes),
            text(final(self).replica@.rga) == text(old(self).replica@.rga),
            r == 0 ==> final(self).replica@ == old(self).replica@,
            r > 0 ==> compacted(old(self).replica@.rga, final(self).replica@.rga)
                && final(self).replica@ == (ReplicaView {
                rga: final(self).replica@.rga,
                log: rebuild_log(final(self).replica@.rga),
                ..old(self).replica@
            }),
            ops_view(final(self).op_log@) == final(self).replica@.log,
    {
        let mut tmp = SharedDocument::new(Replica::new(String::new(), String::new()));
        std::mem::swap(self, &mut tmp);
        let SharedDocument { mut replica, op_log: _ } = tmp;
        let removed = replica.clear_deleted_nodes();
        let op_log = replica.hydration_ops();
        *self = SharedDocument { replica, op_log };
        removed
    }
}

/// Shared document state for all connected clients.
#[derive(Debug)]
pub struct DocumentSession {
    doc: SharedDocument,
    clients: HashMap<u64, ClientInfo>,
    presence: Vec<Presence>,
}

impl View for DocumentSession {
    type V = SessionView;

    closed spec fn view(&self) -> SessionView {
        SessionView {
            replica: self.doc.replica@,
            op_log: ops_view(self.doc.op_log@),
            clients: self.clients@.map_values(|c: ClientInfo| client_view(c)),
            presence: presence_view(self.presence@),
        }
    }
}

/// The index of the entry of replica `rid` in `ps`, if any.
fn find_presence(ps: &Vec<Presence>, rid: &String) -> (r: Option<usize>)
    ensures
        match r {
            Some(i) => i < ps.len() && has_key(presence_view(ps@), rid@) && i == key_index(
                presence_view(ps@),
                rid@,
            ),
            None => !has_key(presence_view(ps@), rid@),
        },
{
    let mut i: usize = 0;
    while i < ps.len()
        invariant
            i <= ps.len(),
            forall|k: int| 0 <= k < i ==> (#[trigger] presence_view(ps@)[k]).replica_id != rid@,
        decreases ps.len() - i,
    {
        if ps[i].replica_id == *rid {
            proof {
                lemma_first_of_unique(presence_view(ps@), rid@, i as int);
            }
            return Some(i);
        }
        i = i + 1;
    }
    None
}

/// Copies a list of cursor positions.
fn copy_presence(ps: &Vec<Presence>) -> (r: Vec<Presence>)
    ensures
        presence_view(r@) == presence_view(ps@),
{
    let mut out: Vec<Presence> = Vec::new();
    let mut i: usize = 0;
    while i < ps.len()
        invariant
            i <= ps.len(),
            presence_view(out@) =~= presence_view(ps@).take(i as int),
        decreases ps.len() - i,
    {
        let ghost prev = presence_view(out@);
        let p = ps[i].clone();
        let ghost pv = p@;
        out.push(p);
        assert(presence_view(out@) =~= prev.push(pv));
        assert(presence_view(ps@).take(i + 1) =~= presence_view(ps@).take(i as int).push(
            presence_view(ps@)[i as int],
        ));
        i = i + 1;
    }
    assert(presence_view(ps@).take(i as int) =~= presence_view(ps@));
    out
}

/// Copies an operation list.
fn copy_ops(ops: &Vec<Op>) -> (r: Vec<Op>)
    ensures
        ops_view(r@) == ops_view(ops@),
{
    let r = ops.clone();
    assert(ops_view(r@) =~= ops_view(ops@));
    r
}

impl DocumentSession {
    /// An empty session whose replica is named `server` with the given
    /// session id.
    pub fn new(session_id: String) -> (r: Self)
        ensures
            r@.replica.rga == crate::model::empty_view(),
            r@.replica.applied.len() == 0,
            r@.replica.log.len() == 0,
            r@.replica.replica_id == "server"@,
            r@.replica.session_id == session_id@,
            r@.replica.lamport == 0,
            r@.op_log.len() == 0,
            r@.clients == Map::<u64, (Option<Seq<char>>, Option<Seq<char>>)>::empty(),
            r@.presence.len() == 0,
    {
        let r = DocumentSession {
            doc: SharedDocument::new(Replica::new("server".to_string(), session_id)),
            clients: HashMap::new(),
            presence: Vec::new(),
        };
        assert(ops_view(r.doc.op_log@) =~= Seq::<OpView>::empty());
        assert(r@.clients =~= Map::<u64, (Option<Seq<char>>, Option<Seq<char>>)>::empty());
        assert(presence_view(r.presence@) =~= Seq::<PresenceView>::empty());
        r
    }

    /// The number of connected clients.
    pub fn client_count(&self) -> (r: usize)
        ensures
            r == self@.clients.len(),
    {
        assert(self@.clients.dom() =~= self.clients@.dom());
        self.clients.len()
    }

    /// Registers a new connection (with no identity yet) and returns the
    /// hydration message for it: the operation log, the cursor positions and
    /// the number of clients.
    pub fn connect(&mut self, connection_id: u64) -> (r: ServerMsg)
        ensures
            final(self)@ == (SessionView {
                clients: old(self)@.clients.insert(connection_id, (None, None)),
                ..old(self)@
            }),
            match r {
                ServerMsg::Hydrate { ops, presence, clients } => ops_view(ops@) == old(self)@.op_log
                    && replay(empty_view(), ops_view(ops@)) == Ok::<RgaView, RgaError>(
                    old(self)@.replica.rga,
                ) && distinct_ids(ops_view(ops@)) && presence_view(presence@) == old(self)@.presence && clients
                    == final(self)@.clients.len(),
                _ => false,
            },
    {
        proof {
            use_type_invariant(&self.doc);
            use_type_invariant(&self.doc.replica);
        }
        self.clients.insert(connection_id, ClientInfo { replica_id: None, session_id: None });
        assert(self@.clients =~= old(self)@.clients.insert(connection_id, (None, None)));
        assert(self@.clients.dom() =~= self.clients@.dom());
        ServerMsg::Hydrate {
            ops: copy_ops(&self.doc.op_log),
            presence: copy_presence(&self.presence),
            clients: self.clients.len(),
        }
    }

    /// Removes a connection and the cursor position of its replica, and
    /// returns the cursor positions to send to all remaining clients.
    pub fn disconnect(&mut self, connection_id: u64) -> (r: Broadcast)
        ensures
            final(self)@ == (SessionView {
                clients: old(self)@.clients.remove(connection_id),
                presence: match old(self)@.clients.get(connection_id) {
                    Some((Some(rid), _)) => presence_remove(old(self)@.presence, rid),
                    _ => old(self)@.presence,
                },
                ..old(self)@
            }),
            r.skip is None,
            match r.message {
                ServerMsg::Presence { presence, clients } => presence_view(presence@)
                    == final(self)@.presence && clients == final(self)@.clients.len(),
                _ => false,
            },
    {
        let removed = self.clients.remove(&connection_id);
        assert(self@.clients =~= old(self)@.clients.remove(connection_id));
        if let Some(client) = removed {
            if let Some(replica_id) = client.replica_id {
                match find_presence(&self.presence, &replica_id) {
                    Some(i) => {
                        self.presence.remove(i);
                        assert(presence_view(self.presence@) =~= presence_remove(
                            presence_view(old(self).presence@),
                            replica_id@,
                        ));
                    },
                    None => {},
                }
            }
        }
        assert(self@.clients.dom() =~= self.clients@.dom());
        Broadcast {
            message: ServerMsg::Presence {
                presence: copy_presence(&self.presence),
                clients: self.clients.len(),
            },
            skip: None,
        }
    }

    /// Records the identity a client announces. Returns `false` (and changes
    /// nothing) for an unknown connection.
    pub fn set_identity(&mut self, connection_id: u64, replica_id: String, session_id: String) -> (r:
        bool)
        ensures
            r == old(self)@.clients.contains_key(connection_id),
            r ==> final(self)@ == (SessionView {
                clients: old(self)@.clients.insert(
                    connection_id,
                    (Some(replica_id@), Some(session_id@)),
                ),
                ..old(self)@
            }),
            !r ==> final(self)@ == old(self)@,
    {
        if !self.clients.contains_key(&connection_id) {
            return false;
        }
        self.clients.insert(
            connection_id,
            ClientInfo { replica_id: Some(replica_id), session_id: Some(session_id) },
        );
        assert(self@.clients =~= old(self)@.clients.insert(
            connection_id,
            (Some(replica_id@), Some(session_id@)),
        ));
        true
    }

    /// Applies operations from a client to the shared replica, appending the
    /// applied ones to the log. Returns one outcome per operation and, when
    /// some were applied, those operations for every client but the sender;
    /// `None` (and no change) for an unknown connection.
    pub fn process_ops(&mut self, from_connection: u64, ops: Vec<Op>) -> (r: Option<
        (Vec<ApplyOutcome>, Option<Broadcast>),
    >)
        ensures
            !old(self)@.clients.contains_key(from_connection) ==> r is None && final(self)@ == old(
                self,
            )@,
            old(self)@.clients.contains_key(from_connection) ==> (r matches Some((outcomes, out)) && {
                let (rep, outs) = batch_step(old(self)@.replica, ops_view(ops@));
                let accepted = accepted_ops(ops_view(ops@), outs);
                &&& outcomes@ == outs
                &&& final(self)@ == (SessionView {
                    replica: rep,
                    op_log: old(self)@.op_log + accepted,
                    ..old(self)@
                })
                &&& if accepted.len() == 0 {
                    out is None
                } else {
                    out matches Some(b) && b.skip == Some(from_connection) && (
                    b.message matches ServerMsg::Ops { ops: sent } && ops_view(sent@) == accepted)
                }
            }),
    {
        if !self.clients.contains_key(&from_connection) {
            return None;
        }
        let ghost start = self@;
        let ghost ov = ops_view(ops@);
        let mut outcomes: Vec<ApplyOutcome> = Vec::new();
        let mut accepted: Vec<Op> = Vec::new();
        let mut k: usize = 0;
        while k < ops.len()
            invariant
                k <= ops.len(),
                ov == ops_view(ops@),
                (self@.replica, outcomes@) == batch_step(start.replica, ov.take(k as int)),
                ops_view(accepted@) == accepted_ops(ov.take(k as int), outcomes@),
                self@ == (SessionView {
                    replica: self@.replica,
                    op_log: start.op_log + ops_view(accepted@),
                    ..start
                }),
            decreases ops.len() - k,
        {
            assert(ov.take(k + 1).drop_last() =~= ov.take(k as int));
            let ghost prev_acc = ops_view(accepted@);
            let ghost prev_log = self@.op_log;
            let ghost prev_outs = outcomes@;
            let outcome = self.doc.apply(&ops[k]);
            outcomes.push(outcome);
            assert(outcomes@.drop_last() =~= prev_outs);
            if outcome == ApplyOutcome::Applied {
                accepted.push(ops[k].clone());
                assert(ops_view(accepted@) =~= prev_acc.push(ov[k as int]));
                assert(self@.op_log =~= prev_log.push(ov[k as int]));
            }
            k = k + 1;
        }
        assert(ov.take(k as int) =~= ov);
        proof {
            lemma_batch_log(start.replica, ov);
        }
        if accepted.len() == 0 {
            return Some((outcomes, None));
        }
        Some(
            (
                outcomes,
                Some(Broadcast { message: ServerMsg::Ops { ops: accepted }, skip: Some(from_connection) }),
            ),
        )
    }

    /// Records the cursor position of a client (and the replica it belongs
    /// to) and returns the cursor positions to send to all clients; `None`
    /// (and no change) for an unknown connection.
    pub fn update_presence(&mut self, connection_id: u64, presence: Presence) -> (r: Option<
        Broadcast,
    >)
        ensures
            !old(self)@.clients.contains_key(connection_id) ==> r is None && final(self)@ == old(
                self,
            )@,
            old(self)@.clients.contains_key(connection_id) ==> (r matches Some(b) && {
                &&& final(self)@ == (SessionView {
                    clients: old(self)@.clients.insert(
                        connection_id,
                        (Some(presence@.replica_id), old(self)@.clients[connection_id].1),
                    ),
                    presence: presence_put(old(self)@.presence, presence@),
                    ..old(self)@
                })
                &&& b.skip is None
                &&& b.message matches ServerMsg::Presence { presence: ps, clients }
                &&& presence_view(ps@) == final(self)@.presence
                &&& clients == final(self)@.clients.len()
            }),
    {
        let session_id = match self.clients.get(&connection_id) {
            Some(client) => client.session_id.clone(),
            None => {
                return None;
            },
        };
        assert(self@.clients[connection_id] == client_view(self.clients@[connection_id]));
        self.clients.insert(
            connection_id,
            ClientInfo { replica_id: Some(presence.replica_id.clone()), session_id },
        );
        assert(self@.clients =~= old(self)@.clients.insert(
            connection_id,
            (Some(presence@.replica_id), old(self)@.clients[connection_id].1),
        ));
        let ghost pv = presence@;
        match find_presence(&self.presence, &presence.replica_id) {
            Some(i) => {
                self.presence.set(i, presence);
                assert(presence_view(self.presence@) =~= presence_put(
                    presence_view(old(self).presence@),
                    pv,
                ));
            },
            None => {
                self.presence.push(presence);
                assert(presence_view(self.presence@) =~= presence_put(
                    presence_view(old(self).presence@),
                    pv,
                ));
            },
        }
        assert(self@.clients.dom() =~= self.clients@.dom());
        Some(
            Broadcast {
                message: ServerMsg::Presence {
                    presence: copy_presence(&self.presence),
                    clients: self.clients.len(),
                },
                skip: None,
            },
        )
    }

    /// Removes the tombstones of the shared document (its text stays the
    /// same), rewrites the log from the surviving nodes, and returns the
    /// number of nodes removed for every client but the sender; `None` (and no
    /// change) for an unknown connection.
    pub fn garbage_collect(&mut self, from_connection: u64) -> (r: Option<Broadcast>)
        ensures
            !old(self)@.clients.contains_key(from_connection) ==> r is None && final(self)@ == old(
                self,
            )@,
            old(self)@.clients.contains_key(from_connection) ==> (r matches Some(b) && {
                let removed = count_tombstones(old(self)@.replica.rga.nodes);
                &&& b.skip == Some(from_connection)
                &&& b.message matches ServerMsg::GarbageCollect { removed: n }
                &&& n == removed
                &&& text(final(self)@.replica.rga) == text(old(self)@.replica.rga)
                &&& removed == 0 ==> final(self)@.replica == old(self)@.replica
                &&& removed > 0 ==> compacted(old(self)@.replica.rga, final(self)@.replica.rga)
                    && final(self)@.replica == (ReplicaView {
                    rga: final(self)@.replica.rga,
                    log: rebuild_log(final(self)@.replica.rga),
                    ..old(self)@.replica
                })
                &&& final(self)@ == (SessionView {
                    replica: final(self)@.replica,
                    op_log: final(self)@.replica.log,
                    ..old(self)@
                })
            }),
    {
        if !self.clients.contains_key(&from_connection) {
            return None;
        }
        let removed = self.doc.collect();
        Some(
            Broadcast {
                message: ServerMsg::GarbageCollect { removed },
                skip: Some(from_connection),
            },
        )
    }
}

} // verus!
