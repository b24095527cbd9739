//! Identifiers of characters: a Lamport timestamp and the replica that made it.
use vstd::prelude::*;
use crate::session::decimal;
use crate::session::push_decimal;
use crate::rga::push_char;

verus! {

/// Identifies one inserted character. Ordered by `lamport`, then by
/// `replica_id`.
#[derive(Debug, Clone, Copy, PartialEq, Eq, Hash, PartialOrd, Ord, Structural)]
pub struct CharId {
    pub lamport: u64,
    pub replica_id: u64,
}

impl CharId {
    /// Creates an identifier.
    pub fn new(lamport: u64, replica_id: u64) -> (r: Self)
        ensures
            r == (CharId { lamport, replica_id }),
    {
        CharId { lamport, replica_id }
    }

    /// `lamport@replica_id`, both in decimal.
    pub fn to_string(&self) -> (r: String)
        ensures
            r@ == decimal(self.lamport as nat) + seq!['@'] + decimal(self.replica_id as nat),
    {
        let mut out = String::new();
        push_decimal(&mut out, self.lamport as u128);
        push_char(&mut out, '@');
        push_decimal(&mut out, self.replica_id as u128);
        assert(out@ =~= decimal(self.lamport as nat) + seq!['@'] + decimal(self.replica_id as nat));
        out
    }
}

} // verus!
