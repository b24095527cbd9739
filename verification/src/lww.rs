//! Last-writer-wins register CRDT.
//!
//! The document itself uses the RGA; a last-writer-wins register is a smaller
//! CRDT for metadata-style values where only the newest value counts, such as
//! a document title or a colour.
use vstd::prelude::*;
use crate::id::IdView;
use crate::id::OperationId;
use crate::id::id_lt;
use crate::id::lemma_id_lt_total;
use crate::id::lemma_id_lt_asymmetric;
use crate::id::lemma_id_lt_transitive;
use crate::id::lemma_id_lt_irreflexive;
use vstd::std_specs::cmp::PartialEqSpec;

verus! {

/// A register that keeps the value with the greatest operation id.
#[derive(Debug, Clone, PartialEq, Eq)]
pub struct LwwRegister<T> {
    inner: Option<(T, OperationId)>,
}

/// The value of a register: its value and timestamp, if any.
pub type LwwView<T> = Option<(T, IdView)>;

impl<T> View for LwwRegister<T> {
    type V = LwwView<T>;

    closed spec fn view(&self) -> LwwView<T> {
        match self.inner {
            Some((v, t)) => Some((v, t@)),
            None => None,
        }
    }
}

/// The state that wins between `a` and `b`: `b` when it is newer than `a`
/// (or `a` is empty), otherwise `a`.
pub open spec fn lww_join<T>(a: LwwView<T>, b: LwwView<T>) -> LwwView<T> {
    match (a, b) {
        (_, None) => a,
        (None, Some(_)) => b,
        (Some((_, ta)), Some((_, tb))) => if id_lt(ta, tb) {
            b
        } else {
            a
        },
    }
}

/// A write with timestamp `t` becomes visible on a register in state `a`.
pub open spec fn lww_accepts<T>(a: LwwView<T>, t: IdView) -> bool {
    match a {
        None => true,
        Some((_, ta)) => id_lt(ta, t),
    }
}

impl<T> LwwRegister<T> {
    /// Creates an empty register.
    pub fn new() -> (r: Self)
        ensures
            r@ is None,
    {
        LwwRegister { inner: None }
    }

    /// The currently visible value, if any.
    pub fn value(&self) -> (r: Option<&T>)
        ensures
            match self@ {
                Some((v, _)) => r == Some(&v),
                None => r is None,
            },
    {
        match &self.inner {
            Some((v, _)) => Some(v),
            None => None,
        }
    }

    /// The timestamp of the currently visible value, if any.
    pub fn timestamp(&self) -> (r: Option<&OperationId>)
        ensures
            match self@ {
                Some((_, t)) => r is Some && r->0@ == t,
                None => r is None,
            },
    {
        match &self.inner {
            Some((_, t)) => Some(t),
            None => None,
        }
    }

    /// Writes `value` with `timestamp`. Returns `true` when the write became
    /// the visible value; older writes and writes with the current timestamp
    /// are ignored.
    pub fn set(&mut self, value: T, timestamp: OperationId) -> (r: bool)
        ensures
            r == lww_accepts(old(self)@, timestamp@),
            r ==> final(self)@ == Some((value, timestamp@)),
            !r ==> final(self)@ == old(self)@,
    {
        let newer = match &self.inner {
            Some((_, current)) => current.precedes(&timestamp),
            None => true,
        };
        if !newer {
            return false;
        }
        self.inner = Some((value, timestamp));
        true
    }
}

impl<T: Clone + PartialEq> LwwRegister<T> {
    /// Merges another register into this one: a write of the other register
    /// that is newer than this one's is taken over (a clone of its value, with
    /// its timestamp). Returns `true` when the merge changed the visible value;
    /// taking over a newer timestamp with an equal value returns `false`.
    /// Whether the two values are equal is decided by `T`'s `==`.
    pub fn merge(&mut self, other: &Self) -> (r: bool)
        ensures
            match other@ {
                None => !r && final(self)@ == old(self)@,
                Some((v, t)) => {
                    &&& lww_accepts(old(self)@, t) ==> (final(self)@ matches Some((v2, t2)) && t2 == t
                        && cloned::<T>(v, v2))
                    &&& !lww_accepts(old(self)@, t) ==> !r && final(self)@ == old(self)@
                    &&& r ==> lww_accepts(old(self)@, t)
                    &&& <T as PartialEqSpec>::obeys_eq_spec() ==> r == (lww_accepts(old(self)@, t) && !(
                    old(self)@ matches Some((cur, _)) && cur.eq_spec(&v)))
                },
            },
    {
        match &other.inner {
            Some((v, t)) => {
                let same = match &self.inner {
                    Some((cur, _)) => cur == v,
                    None => false,
                };
                let adopted = self.set(v.clone(), t.clone());
                adopted && !same
            },
            None => false,
        }
    }
}

impl<T> Default for LwwRegister<T> {
    fn default() -> (r: Self)
        ensures
            r@ is None,
    {
        Self::new()
    }
}

/// A set that is accepted leaves the register in the joined state.
pub proof fn lemma_lww_set_joins<T>(a: LwwView<T>, value: T, t: IdView)
    ensures
        lww_join(a, Some((value, t))) == if lww_accepts(a, t) {
            Some((value, t))
        } else {
            a
        },
{
}

/// The two states agree on the value wherever they have the same timestamp
/// (operation ids are unique, so one id names one write).
pub open spec fn lww_consistent<T>(a: LwwView<T>, b: LwwView<T>) -> bool {
    match (a, b) {
        (Some((va, ta)), Some((vb, tb))) => ta == tb ==> va == vb,
        _ => true,
    }
}

/// Merging is commutative for states that agree on a shared timestamp: both
/// orders keep the newer write.
pub proof fn lemma_lww_join_commutes<T>(a: LwwView<T>, b: LwwView<T>)
    requires
        lww_consistent(a, b),
    ensures
        lww_join(a, b) == lww_join(b, a),
{
    match (a, b) {
        (Some((_, ta)), Some((_, tb))) => {
            if ta == tb {
                lemma_id_lt_irreflexive(ta);
            } else {
                lemma_id_lt_total(ta, tb);
                if id_lt(ta, tb) {
                    lemma_id_lt_asymmetric(ta, tb);
                }
            }
        },
        _ => {},
    }
}

/// The timestamp of a merge is the greater of the two (an empty register
/// counting as older than any write), and merging the same state again
/// changes nothing and is not accepted.
pub proof fn lemma_lww_join_newest<T>(a: LwwView<T>, b: LwwView<T>)
    ensures
        match (a, b) {
            (None, _) => lww_join(a, b) == b,
            (_, None) => lww_join(a, b) == a,
            (Some((_, ta)), Some((_, tb))) => lww_join(a, b) matches Some((_, t)) && (t == ta || t
                == tb) && !id_lt(t, ta) && !id_lt(t, tb),
        },
        lww_join(lww_join(a, b), b) == lww_join(a, b),
        b matches Some((_, tb)) ==> !lww_accepts(lww_join(a, b), tb),
{
    match (a, b) {
        (Some((_, ta)), Some((_, tb))) => {
            lemma_id_lt_irreflexive(ta);
            lemma_id_lt_irreflexive(tb);
            if ta != tb {
                lemma_id_lt_total(ta, tb);
            }
            if id_lt(ta, tb) {
                lemma_id_lt_asymmetric(ta, tb);
            } else if id_lt(tb, ta) {
                lemma_id_lt_asymmetric(tb, ta);
            }
        },
        (None, Some((_, tb))) => {
            lemma_id_lt_irreflexive(tb);
        },
        _ => {},
    }
}

/// Merging is associative.
pub proof fn lemma_lww_join_associative<T>(a: LwwView<T>, b: LwwView<T>, c: LwwView<T>)
    ensures
        lww_join(lww_join(a, b), c) == lww_join(a, lww_join(b, c)),
{
    match (a, b, c) {
        (Some((_, ta)), Some((_, tb)), Some((_, tc))) => {
            if id_lt(ta, tb) && id_lt(tb, tc) {
                lemma_id_lt_transitive(ta, tb, tc);
            }
            if !id_lt(ta, tb) && !id_lt(tb, tc) && id_lt(ta, tc) {
                if ta == tb {
                } else {
                    lemma_id_lt_total(ta, tb);
                    lemma_id_lt_transitive(tb, ta, tc);
                }
            }
        },
        _ => {},
    }
}

/// Merging a state into itself changes nothing.
pub proof fn lemma_lww_join_idempotent<T>(a: LwwView<T>)
    ensures
        lww_join(a, a) == a,
{
    if let Some((_, ta)) = a {
        lemma_id_lt_irreflexive(ta);
    }
}

} // verus!
