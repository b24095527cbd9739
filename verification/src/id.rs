//! Identifiers for operations and RGA nodes.
//!
//! Every operation carries a unique [`OperationId`]. A node is created by an
//! insert operation, so a [`NodeId`] is the identifier of that insert.
//!
//! The total order on identifiers breaks ties between inserts that share a
//! parent node. It compares, in this order:
//!
//! 1. the Lamport timestamp,
//! 2. the replica id (byte-wise, as `String` ordering does),
//! 3. the session id (byte-wise),
//! 4. the local sequence number.
use vstd::prelude::*;
use vstd::utf8::encode_utf8;
use vstd::utf8::encode_utf8_decode_utf8;
use crate::rga::push_char;
use vstd::string::StringExecFns;
use crate::session::decimal;
use crate::session::push_decimal;

verus! {

/// Id of one logical replica, such as a browser profile.
pub type ReplicaId = String;

/// Id of one runtime session of a replica.
pub type SessionId = String;

/// Id of a node in the RGA tree: the id of the insert that created it.
pub type NodeId = OperationId;

/// A globally unique identifier of a single operation.
#[derive(Debug, PartialEq, Eq, Hash)]
pub struct OperationId {
    /// Runtime session that produced the operation.
    pub session_id: SessionId,
    /// Logical replica that produced the operation.
    pub replica_id: ReplicaId,
    /// Lamport timestamp observed by the producing replica.
    pub lamport: u64,
    /// Local sequence number within the producing replica.
    pub seq: u64,
}

/// Mathematical value of an [`OperationId`]: its two strings as character
/// sequences and its two counters.
pub ghost struct IdView {
    pub session_id: Seq<char>,
    pub replica_id: Seq<char>,
    pub lamport: u64,
    pub seq: u64,
}

impl View for OperationId {
    type V = IdView;

    open spec fn view(&self) -> IdView {
        IdView {
            session_id: self.session_id@,
            replica_id: self.replica_id@,
            lamport: self.lamport,
            seq: self.seq,
        }
    }
}

impl OperationId {
    /// `session_id:replica_id:lamport:seq`, the counters in decimal.
    pub fn to_string(&self) -> (r: String)
        ensures
            r@ == self.session_id@ + seq![':'] + self.replica_id@ + seq![':'] + decimal(
                self.lamport as nat,
            ) + seq![':'] + decimal(self.seq as nat),
    {
        let mut out = self.session_id.clone();
        push_char(&mut out, ':');
        out.append(self.replica_id.as_str());
        push_char(&mut out, ':');
        push_decimal(&mut out, self.lamport as u128);
        push_char(&mut out, ':');
        push_decimal(&mut out, self.seq as u128);
        assert(out@ =~= self.session_id@ + seq![':'] + self.replica_id@ + seq![':'] + decimal(
            self.lamport as nat,
        ) + seq![':'] + decimal(self.seq as nat));
        out
    }
}

impl Clone for OperationId {
    fn clone(&self) -> (res: Self)
        ensures
            res == *self,
    {
        OperationId {
            session_id: self.session_id.clone(),
            replica_id: self.replica_id.clone(),
            lamport: self.lamport,
            seq: self.seq,
        }
    }
}

/// The value of an optional operation id.
pub open spec fn opt_id_view(o: Option<OperationId>) -> Option<IdView> {
    match o {
        Some(id) => Some(id@),
        None => None,
    }
}

/// Lexicographic order on byte strings (a proper prefix comes first).
pub open spec fn bytes_lt(a: Seq<u8>, b: Seq<u8>) -> bool
    decreases a.len(),
{
    if a.len() == 0 {
        b.len() > 0
    } else if b.len() == 0 {
        false
    } else if a[0] != b[0] {
        a[0] < b[0]
    } else {
        bytes_lt(a.drop_first(), b.drop_first())
    }
}

/// Order of two strings, as Rust orders `String`s: byte-wise on their UTF-8
/// encodings.
pub open spec fn text_lt(a: Seq<char>, b: Seq<char>) -> bool {
    bytes_lt(encode_utf8(a), encode_utf8(b))
}

/// The total order on operation ids: Lamport timestamp, then replica id, then
/// session id, then sequence number.
pub open spec fn id_lt(a: IdView, b: IdView) -> bool {
    if a.lamport != b.lamport {
        a.lamport < b.lamport
    } else if a.replica_id != b.replica_id {
        text_lt(a.replica_id, b.replica_id)
    } else if a.session_id != b.session_id {
        text_lt(a.session_id, b.session_id)
    } else {
        a.seq < b.seq
    }
}

/// Compares two byte strings lexicographically.
fn bytes_less(a: &[u8], b: &[u8]) -> (r: bool)
    ensures
        r == bytes_lt(a@, b@),
{
    let mut i: usize = 0;
    assert(a@.skip(0) =~= a@);
    assert(b@.skip(0) =~= b@);
    while i < a.len() && i < b.len()
        invariant
            i <= a@.len(),
            i <= b@.len(),
            bytes_lt(a@, b@) == bytes_lt(a@.skip(i as int), b@.skip(i as int)),
        decreases a@.len() - i,
    {
        if a[i] != b[i] {
            return a[i] < b[i];
        }
        assert(a@.skip(i as int).drop_first() =~= a@.skip(i + 1));
        assert(b@.skip(i as int).drop_first() =~= b@.skip(i + 1));
        i = i + 1;
    }
    i >= a.len() && i < b.len()
}

/// Compares two strings the way `String`'s ordering does.
fn text_less(a: &String, b: &String) -> (r: bool)
    ensures
        r == text_lt(a@, b@),
{
    bytes_less(a.as_str().as_bytes(), b.as_str().as_bytes())
}

impl OperationId {
    /// Creates a new operation identifier.
    pub fn new(session_id: SessionId, replica_id: ReplicaId, lamport: u64, seq: u64) -> (r: Self)
        ensures
            r.session_id == session_id,
            r.replica_id == replica_id,
            r.lamport == lamport,
            r.seq == seq,
    {
        OperationId { session_id, replica_id, lamport, seq }
    }

    /// Returns `true` if this id is ordered before `other`.
    pub fn precedes(&self, other: &OperationId) -> (r: bool)
        ensures
            r == id_lt(self@, other@),
    {
        if self.lamport != other.lamport {
            return self.lamport < other.lamport;
        }
        if self.replica_id != other.replica_id {
            return text_less(&self.replica_id, &other.replica_id);
        }
        if self.session_id != other.session_id {
            return text_less(&self.session_id, &other.session_id);
        }
        self.seq < other.seq
    }

    /// Returns `true` if both ids have the same strings and counters.
    pub fn same_as(&self, other: &OperationId) -> (r: bool)
        ensures
            r == (self@ == other@),
    {
        self.lamport == other.lamport && self.seq == other.seq && self.replica_id
            == other.replica_id && self.session_id == other.session_id
    }
}

/// No byte string comes before itself.
pub proof fn lemma_bytes_lt_irreflexive(a: Seq<u8>)
    ensures
        !bytes_lt(a, a),
    decreases a.len(),
{
    if a.len() > 0 {
        lemma_bytes_lt_irreflexive(a.drop_first());
    }
}

/// The byte-string order is transitive.
pub proof fn lemma_bytes_lt_transitive(a: Seq<u8>, b: Seq<u8>, c: Seq<u8>)
    requires
        bytes_lt(a, b),
        bytes_lt(b, c),
    ensures
        bytes_lt(a, c),
    decreases a.len(),
{
    if a.len() > 0 && b.len() > 0 && c.len() > 0 && a[0] == b[0] && b[0] == c[0] {
        lemma_bytes_lt_transitive(a.drop_first(), b.drop_first(), c.drop_first());
    }
}

/// Two different byte strings are ordered one way or the other.
pub proof fn lemma_bytes_lt_total(a: Seq<u8>, b: Seq<u8>)
    requires
        a != b,
    ensures
        bytes_lt(a, b) || bytes_lt(b, a),
    decreases a.len(),
{
    if a.len() == 0 {
        assert(b.len() > 0) by {
            if b.len() == 0 {
                assert(a =~= b);
            }
        }
    } else if b.len() > 0 && a[0] == b[0] {
        if a.drop_first() == b.drop_first() {
            assert(a =~= seq![a[0]] + a.drop_first());
            assert(b =~= seq![b[0]] + b.drop_first());
        }
        lemma_bytes_lt_total(a.drop_first(), b.drop_first());
    }
}

/// The byte-string order is asymmetric.
pub proof fn lemma_bytes_lt_asymmetric(a: Seq<u8>, b: Seq<u8>)
    requires
        bytes_lt(a, b),
    ensures
        !bytes_lt(b, a),
{
    if bytes_lt(b, a) {
        lemma_bytes_lt_transitive(a, b, a);
        lemma_bytes_lt_irreflexive(a);
    }
}

/// Two different strings are ordered one way or the other.
pub proof fn lemma_text_lt_total(a: Seq<char>, b: Seq<char>)
    requires
        a != b,
    ensures
        text_lt(a, b) || text_lt(b, a),
{
    encode_utf8_decode_utf8(a);
    encode_utf8_decode_utf8(b);
    lemma_bytes_lt_total(encode_utf8(a), encode_utf8(b));
}

/// No operation id precedes itself.
pub proof fn lemma_id_lt_irreflexive(a: IdView)
    ensures
        !id_lt(a, a),
{
}

/// Precedence between operation ids is transitive.
pub proof fn lemma_id_lt_transitive(a: IdView, b: IdView, c: IdView)
    requires
        id_lt(a, b),
        id_lt(b, c),
    ensures
        id_lt(a, c),
{
    if a.lamport == b.lamport && b.lamport == c.lamport {
        if a.replica_id != b.replica_id && b.replica_id != c.replica_id {
            lemma_bytes_lt_transitive(
                encode_utf8(a.replica_id),
                encode_utf8(b.replica_id),
                encode_utf8(c.replica_id),
            );
            if a.replica_id == c.replica_id {
                lemma_bytes_lt_asymmetric(encode_utf8(a.replica_id), encode_utf8(b.replica_id));
            }
        } else if a.replica_id == b.replica_id && b.replica_id == c.replica_id {
            if a.session_id != b.session_id && b.session_id != c.session_id {
                lemma_bytes_lt_transitive(
                    encode_utf8(a.session_id),
                    encode_utf8(b.session_id),
                    encode_utf8(c.session_id),
                );
                if a.session_id == c.session_id {
                    lemma_bytes_lt_asymmetric(
                        encode_utf8(a.session_id),
                        encode_utf8(b.session_id),
                    );
                }
            }
        }
    }
}

/// Two different operation ids are ordered one way or the other.
pub proof fn lemma_id_lt_total(a: IdView, b: IdView)
    requires
        a != b,
    ensures
        id_lt(a, b) || id_lt(b, a),
{
    if a.lamport == b.lamport {
        if a.replica_id != b.replica_id {
            lemma_text_lt_total(a.replica_id, b.replica_id);
        } else if a.session_id != b.session_id {
            lemma_text_lt_total(a.session_id, b.session_id);
        }
    }
}

/// Precedence between operation ids is asymmetric.
pub proof fn lemma_id_lt_asymmetric(a: IdView, b: IdView)
    requires
        id_lt(a, b),
    ensures
        !id_lt(b, a),
{
    if id_lt(b, a) {
        lemma_id_lt_transitive(a, b, a);
    }
}

} // verus!
