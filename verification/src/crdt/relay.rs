//! The relay server of the character-id protocol: it keeps the history of
//! operations for peers that join later and forwards each batch to the other
//! peers. The sockets belong to the caller; this state decides what is sent,
//! and to whom.
use vstd::prelude::*;
use crate::crdt::op::Op;
use crate::crdt::op::OpBatch;

verus! {

/// A message of the relay protocol.
#[derive(Debug)]
pub enum Message {
    /// A peer announces itself.
    Join { replica_id: u64 },
    /// The reply to a join: the operations so far and the number of peers.
    Welcome { history: Vec<Op>, peer_count: usize },
    /// A batch of operations flushed by a peer.
    Ops(OpBatch),
    /// A peer connected.
    PeerJoined { replica_id: u64 },
    /// A peer disconnected.
    PeerLeft { replica_id: u64 },
    /// A peer's own flush delay, in milliseconds; the server ignores it.
    UpdateDelay { delay_ms: u64 },
    /// An acknowledgement.
    Ack,
    /// An error report.
    Error { message: String },
}

/// A message to send to every peer but `exclude`.
#[derive(Debug)]
pub struct Outgoing {
    pub message: Message,
    pub exclude: u64,
}

/// What the relay does with a message from a peer.
#[derive(Debug)]
pub enum Handling {
    /// Send this to the other peers.
    Forward(Outgoing),
    /// Nothing to do.
    Ignore,
    /// A message a peer should not send to the server.
    Unexpected,
}

/// The value of a [`RelayState`]: the operations so far, and the connected
/// peers in the order they joined.
pub ghost struct RelayView {
    pub history: Seq<Op>,
    pub peers: Seq<u64>,
}

/// The relay server's state.
pub struct RelayState {
    op_history: Vec<Op>,
    peers: Vec<u64>,
}

impl View for RelayState {
    type V = RelayView;

    closed spec fn view(&self) -> RelayView {
        RelayView { history: self.op_history@, peers: self.peers@ }
    }
}

/// `s` without the value `x`, the rest in order.
pub open spec fn without(s: Seq<u64>, x: u64) -> Seq<u64>
    decreases s.len(),
{
    if s.len() == 0 {
        Seq::empty()
    } else if s.last() == x {
        without(s.drop_last(), x)
    } else {
        without(s.drop_last(), x).push(s.last())
    }
}

/// A copy of a list of operations.
fn copy_ops(ops: &Vec<Op>) -> (r: Vec<Op>)
    ensures
        r@ == ops@,
{
    let r = ops.clone();
    assert(r@ =~= ops@);
    r
}

/// What a connection does with a message received before the peer has
/// joined: a join names the peer, and anything else is ignored (`None`).
pub fn join_request(msg: &Message) -> (r: Option<u64>)
    ensures
        r == match msg {
            Message::Join { replica_id } => Some(*replica_id),
            _ => None::<u64>,
        },
{
    match msg {
        Message::Join { replica_id } => Some(*replica_id),
        _ => None,
    }
}

impl RelayState {
    /// An empty relay.
    pub fn new() -> (r: Self)
        ensures
            r@.history == Seq::<Op>::empty(),
            r@.peers == Seq::<u64>::empty(),
    {
        RelayState { op_history: Vec::new(), peers: Vec::new() }
    }

    /// The welcome for a peer that just announced itself: the whole history
    /// and the number of peers already connected.
    pub fn welcome(&self) -> (r: Message)
        ensures
            r matches Message::Welcome { history, peer_count } && history@ == self@.history
                && peer_count == self@.peers.len(),
    {
        Message::Welcome { history: copy_ops(&self.op_history), peer_count: self.peers.len() }
    }

    /// Registers `replica_id` (once, however often it joins) and tells the
    /// other peers.
    pub fn join(&mut self, replica_id: u64) -> (r: Outgoing)
        ensures
            final(self)@.history == old(self)@.history,
            final(self)@.peers == if old(self)@.peers.contains(replica_id) {
                old(self)@.peers
            } else {
                old(self)@.peers.push(replica_id)
            },
            r == (Outgoing { message: Message::PeerJoined { replica_id }, exclude: replica_id }),
    {
        let mut i: usize = 0;
        while i < self.peers.len()
            invariant
                i <= self.peers.len(),
                forall|k: int| 0 <= k < i ==> self.peers@[k] != replica_id,
            decreases self.peers.len() - i,
        {
            if self.peers[i] == replica_id {
                return Outgoing { message: Message::PeerJoined { replica_id }, exclude: replica_id };
            }
            i = i + 1;
        }
        self.peers.push(replica_id);
        Outgoing { message: Message::PeerJoined { replica_id }, exclude: replica_id }
    }

    /// Handles a message from `from`: a batch of operations goes to the
    /// history and on to the other peers; a delay update needs nothing; any
    /// other message is unexpected.
    pub fn handle_message(&mut self, from: u64, msg: Message) -> (r: Handling)
        ensures
            match msg {
                Message::Ops(batch) => {
                    &&& final(self)@.history == old(self)@.history + batch.ops@
                    &&& final(self)@.peers == old(self)@.peers
                    &&& r == Handling::Forward(Outgoing { message: Message::Ops(batch), exclude: from })
                },
                Message::UpdateDelay { .. } => r is Ignore && final(self)@ == old(self)@,
                _ => r is Unexpected && final(self)@ == old(self)@,
            },
    {
        match msg {
            Message::Ops(batch) => {
                let mut i: usize = 0;
                let ghost h0 = self.op_history@;
                while i < batch.ops.len()
                    invariant
                        i <= batch.ops.len(),
                        self.op_history@ == h0 + batch.ops@.take(i as int),
                        self.peers@ == old(self)@.peers,
                    decreases batch.ops.len() - i,
                {
                    self.op_history.push(batch.ops[i].clone());
                    i = i + 1;
                    assert(batch.ops@.take(i as int) =~= batch.ops@.take(i - 1).push(
                        batch.ops@[i - 1],
                    ));
                }
                assert(batch.ops@.take(i as int) =~= batch.ops@);
                Handling::Forward(Outgoing { message: Message::Ops(batch), exclude: from })
            },
            Message::UpdateDelay { .. } => Handling::Ignore,
            _ => Handling::Unexpected,
        }
    }

    /// Removes `replica_id` and tells the other peers.
    pub fn leave(&mut self, replica_id: u64) -> (r: Outgoing)
        ensures
            final(self)@.history == old(self)@.history,
            final(self)@.peers == without(old(self)@.peers, replica_id),
            r == (Outgoing { message: Message::PeerLeft { replica_id }, exclude: replica_id }),
    {
        let mut kept: Vec<u64> = Vec::new();
        let mut i: usize = 0;
        while i < self.peers.len()
            invariant
                i <= self.peers.len(),
                kept@ == without(self.peers@.take(i as int), replica_id),
            decreases self.peers.len() - i,
        {
            let p = self.peers[i];
            proof {
                assert(self.peers@.take(i + 1).drop_last() =~= self.peers@.take(i as int));
            }
            if p != replica_id {
                kept.push(p);
            }
            i = i + 1;
        }
        assert(self.peers@.take(i as int) =~= self.peers@);
        self.peers = kept;
        Outgoing { message: Message::PeerLeft { replica_id }, exclude: replica_id }
    }

    /// The peers a message that excludes `exclude` goes to.
    pub fn recipients(&self, exclude: u64) -> (r: Vec<u64>)
        ensures
            r@ == without(self@.peers, exclude),
    {
        let mut out: Vec<u64> = Vec::new();
        let mut i: usize = 0;
        while i < self.peers.len()
            invariant
                i <= self.peers.len(),
                out@ == without(self.peers@.take(i as int), exclude),
            decreases self.peers.len() - i,
        {
            let p = self.peers[i];
            proof {
                assert(self.peers@.take(i + 1).drop_last() =~= self.peers@.take(i as int));
            }
            if p != exclude {
                out.push(p);
            }
            i = i + 1;
        }
        assert(self.peers@.take(i as int) =~= self.peers@);
        out
    }
}

} // verus!
