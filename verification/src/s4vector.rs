//! Quadruple vectors (Roh et al. 2011, section 5.1): globally unique,
//! totally ordered identifiers for operations.
//!
//! Fields: `ssn`, the session number (grows on membership change or fresh
//! start); `sid`, the site id; `sum`, the sum of the vector clock entries at
//! operation time (here a local counter); `seq`, the site's own vector clock
//! entry.
use vstd::prelude::*;
use crate::session::decimal;
use crate::session::push_decimal;
use crate::rga::push_char;

verus! {

/// A quadruple vector.
#[derive(Debug, PartialEq, Eq, Hash, Structural)]
pub struct S4Vector {
    pub ssn: u64,
    pub sid: u64,
    pub sum: u64,
    pub seq: u64,
}

impl Clone for S4Vector {
    fn clone(&self) -> (res: Self)
        ensures
            res == *self,
    {
        S4Vector { ssn: self.ssn, sid: self.sid, sum: self.sum, seq: self.seq }
    }
}

/// The priority order of Definition 9: `a` precedes `b` when its session is
/// older, or the sessions agree and its sum is smaller, or both agree and its
/// site id is smaller.
pub open spec fn s4_lt(a: S4Vector, b: S4Vector) -> bool {
    ||| a.ssn < b.ssn
    ||| a.ssn == b.ssn && a.sum < b.sum
    ||| a.ssn == b.ssn && a.sum == b.sum && a.sid < b.sid
}

impl S4Vector {
    /// Creates a quadruple vector.
    pub fn new(ssn: u64, sid: u64, sum: u64, seq: u64) -> (r: Self)
        ensures
            r == (S4Vector { ssn, sid, sum, seq }),
    {
        S4Vector { ssn, sid, sum, seq }
    }

    /// Returns `true` if `self` has lower priority than `other`.
    pub fn precedes(&self, other: &S4Vector) -> (r: bool)
        ensures
            r == s4_lt(*self, *other),
    {
        if self.ssn != other.ssn {
            return self.ssn < other.ssn;
        }
        if self.sum != other.sum {
            return self.sum < other.sum;
        }
        self.sid < other.sid
    }

    /// `⟨ssn,sid,sum,seq⟩`, each number in decimal.
    pub fn to_string(&self) -> (r: String)
        ensures
            r@ == seq!['⟨'] + decimal(self.ssn as nat) + seq![','] + decimal(self.sid as nat)
                + seq![','] + decimal(self.sum as nat) + seq![','] + decimal(self.seq as nat)
                + seq!['⟩'],
    {
        let mut out = String::new();
        push_char(&mut out, '⟨');
        push_decimal(&mut out, self.ssn as u128);
        push_char(&mut out, ',');
        push_decimal(&mut out, self.sid as u128);
        push_char(&mut out, ',');
        push_decimal(&mut out, self.sum as u128);
        push_char(&mut out, ',');
        push_decimal(&mut out, self.seq as u128);
        push_char(&mut out, '⟩');
        assert(out@ =~= seq!['⟨'] + decimal(self.ssn as nat) + seq![','] + decimal(self.sid as nat)
            + seq![','] + decimal(self.sum as nat) + seq![','] + decimal(self.seq as nat)
            + seq!['⟩']);
        out
    }
}

/// Precedence is a strict order: irreflexive and transitive.
pub proof fn lemma_s4_lt_strict(a: S4Vector, b: S4Vector, c: S4Vector)
    ensures
        !s4_lt(a, a),
        s4_lt(a, b) && s4_lt(b, c) ==> s4_lt(a, c),
        s4_lt(a, b) ==> !s4_lt(b, a),
{
}

/// Two vectors that differ in session, sum or site are ordered one way or the
/// other; the sequence number plays no part.
pub proof fn lemma_s4_lt_total(a: S4Vector, b: S4Vector)
    requires
        a.ssn != b.ssn || a.sum != b.sum || a.sid != b.sid,
    ensures
        s4_lt(a, b) || s4_lt(b, a),
{
}

} // verus!
