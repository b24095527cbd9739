//! Edits as a browser client sends them: by visible position, with no
//! vectors.
use vstd::prelude::*;
use crate::s4vector::S4Vector;
use crate::crdt::rga::Rga;
use crate::crdt::rga::Operation;
use crate::crdt::rga::local_insert_post;
use crate::crdt::rga::local_delete_post;
use crate::crdt::rga::local_update_post;
use crate::crdt::rga::RgaState;
use crate::crdt::rga::anchor_at;
use crate::crdt::rga::target_at;
use crate::crdt::rga::lemma_nth_visible_unique;
use crate::crdt::rga::visible_count;
use crate::crdt::rga::fresh_vector;
use crate::crdt::rga::stepped;
use crate::crdt::rga::remote_insert_spec;
use crate::crdt::rga::remote_delete_spec;
use crate::crdt::rga::remote_update_spec;
use crate::crdt::rga::is_nth_visible;

verus! {

/// A position-based edit from a client. `op` is `"insert"`, `"delete"` or
/// `"update"`; `ch` holds the character of an insert or an update.
#[derive(Debug)]
pub struct ClientOp {
    pub op: String,
    pub pos: usize,
    pub ch: Option<char>,
}

/// What a client edit does to a replica in state `v`, leaving it in state
/// `w` and returning `r`.
pub open spec fn client_op_post(op: ClientOp, v: RgaState, w: RgaState, r: Option<Operation>) -> bool {
    if op.op@ == "insert"@ {
        match op.ch {
            Some(c) => local_insert_post(v, w, op.pos as int, c, r),
            None => r is None && w == v,
        }
    } else if op.op@ == "delete"@ {
        local_delete_post(v, w, op.pos as int, r)
    } else if op.op@ == "update"@ {
        match op.ch {
            Some(c) => local_update_post(v, w, op.pos as int, c, r),
            None => r is None && w == v,
        }
    } else {
        r is None && w == v
    }
}

/// The state and result of a client edit: the only pair that
/// [`client_op_post`] admits.
pub open spec fn client_op_step(op: ClientOp, v: RgaState) -> (RgaState, Option<Operation>) {
    choose|p: (RgaState, Option<Operation>)| client_op_post(op, v, p.0, p.1)
}

/// A client edit has one outcome: the anchor or target it names is unique.
pub proof fn lemma_client_op_unique(
    op: ClientOp,
    v: RgaState,
    w1: RgaState,
    r1: Option<Operation>,
    w2: RgaState,
    r2: Option<Operation>,
)
    requires
        client_op_post(op, v, w1, r1),
        client_op_post(op, v, w2, r2),
    ensures
        w1 == w2,
        r1 == r2,
{
    let pos = op.pos as int;
    if op.op@ == "insert"@ {
        if let Some(c) = op.ch {
            if pos <= visible_count(v.entries) && pos != 0 {
                let a1 = choose|left: Option<S4Vector>|
                    {
                        &&& anchor_at(v.entries, pos, left)
                        &&& r1 == Some(Operation::Insert { left, obj: c, s_k: fresh_vector(v) })
                        &&& w1 == stepped(
                            v,
                            remote_insert_spec(v.entries, left, c, fresh_vector(v)),
                        )
                    };
                let a2 = choose|left: Option<S4Vector>|
                    {
                        &&& anchor_at(v.entries, pos, left)
                        &&& r2 == Some(Operation::Insert { left, obj: c, s_k: fresh_vector(v) })
                        &&& w2 == stepped(
                            v,
                            remote_insert_spec(v.entries, left, c, fresh_vector(v)),
                        )
                    };
                let p1 = choose|p: int| is_nth_visible(v.entries, p, pos) && a1 == Some(v.entries[p].s_k);
                let p2 = choose|p: int| is_nth_visible(v.entries, p, pos) && a2 == Some(v.entries[p].s_k);
                lemma_nth_visible_unique(v.entries, p1, p2, pos);
            }
        }
    } else if op.op@ == "delete"@ {
        if pos != 0 && pos <= visible_count(v.entries) {
            let t1 = choose|target: S4Vector|
                {
                    &&& target_at(v.entries, pos, target)
                    &&& r1 == Some(Operation::Delete { target, s_k: fresh_vector(v) })
                    &&& w1 == stepped(
                        v,
                        remote_delete_spec(v.entries, target, fresh_vector(v)),
                    )
                };
            let t2 = choose|target: S4Vector|
                {
                    &&& target_at(v.entries, pos, target)
                    &&& r2 == Some(Operation::Delete { target, s_k: fresh_vector(v) })
                    &&& w2 == stepped(
                        v,
                        remote_delete_spec(v.entries, target, fresh_vector(v)),
                    )
                };
            let p1 = choose|p: int| is_nth_visible(v.entries, p, pos) && t1 == v.entries[p].s_k;
            let p2 = choose|p: int| is_nth_visible(v.entries, p, pos) && t2 == v.entries[p].s_k;
            lemma_nth_visible_unique(v.entries, p1, p2, pos);
        }
    } else if op.op@ == "update"@ {
        if let Some(c) = op.ch {
            if pos != 0 && pos <= visible_count(v.entries) {
                let t1 = choose|target: S4Vector|
                    {
                        &&& target_at(v.entries, pos, target)
                        &&& r1 == Some(Operation::Update { target, obj: c, s_k: fresh_vector(v) })
                        &&& w1 == stepped(
                            v,
                            remote_update_spec(v.entries, target, c, fresh_vector(v)),
                        )
                    };
                let t2 = choose|target: S4Vector|
                    {
                        &&& target_at(v.entries, pos, target)
                        &&& r2 == Some(Operation::Update { target, obj: c, s_k: fresh_vector(v) })
                        &&& w2 == stepped(
                            v,
                            remote_update_spec(v.entries, target, c, fresh_vector(v)),
                        )
                    };
                let p1 = choose|p: int| is_nth_visible(v.entries, p, pos) && t1 == v.entries[p].s_k;
                let p2 = choose|p: int| is_nth_visible(v.entries, p, pos) && t2 == v.entries[p].s_k;
                lemma_nth_visible_unique(v.entries, p1, p2, pos);
            }
        }
    }
}

impl ClientOp {
    /// Performs the edit on `rga` as a local edit and returns the operation to
    /// send to the other replicas. An insert or update without a character,
    /// or an edit of an unknown kind, does nothing and returns `None`.
    pub fn apply_to(&self, rga: &mut Rga) -> (r: Option<Operation>)
        requires
            old(rga)@.counter < u64::MAX,
        ensures
            client_op_post(*self, old(rga)@, final(rga)@, r),
    {
        if self.op == "insert".to_owned() {
            match self.ch {
                Some(c) => rga.local_insert(self.pos, c),
                None => None,
            }
        } else if self.op == "delete".to_owned() {
            rga.local_delete(self.pos)
        } else if self.op == "update".to_owned() {
            match self.ch {
                Some(c) => rga.local_update(self.pos, c),
                None => None,
            }
        } else {
            None
        }
    }
}

} // verus!
