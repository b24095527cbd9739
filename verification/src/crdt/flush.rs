//! The flush timer of a relay peer: local operations wait in a queue and are
//! sent as one batch once the peer's delay has passed. The timer and the
//! socket belong to the caller; this step decides, at each tick, whether to
//! send and what.
use vstd::prelude::*;
use crate::crdt::op::Op;
use crate::crdt::op::OpBatch;

verus! {

/// One tick of `tick_ms` milliseconds of the flush timer of peer
/// `replica_id`, `elapsed_ms` after the last flush. When the time since the
/// last flush reaches `delay_ms`, the timer restarts and the queued operations
/// are taken out of `pending`, to be sent as one batch if there are any.
/// Returns the new time since the last flush and the batch to send, if any.
pub fn flush_tick(
    replica_id: u64,
    elapsed_ms: u64,
    tick_ms: u64,
    delay_ms: u64,
    pending: &mut Vec<Op>,
) -> (r: (u64, Option<OpBatch>))
    requires
        elapsed_ms + tick_ms <= u64::MAX,
    ensures
        elapsed_ms + tick_ms >= delay_ms ==> {
            &&& r.0 == 0
            &&& final(pending)@ == Seq::<Op>::empty()
            &&& old(pending)@.len() == 0 ==> r.1 is None
            &&& old(pending)@.len() > 0 ==> (r.1 matches Some(b) && b.from_replica == replica_id
                && b.ops@ == old(pending)@)
        },
        elapsed_ms + tick_ms < delay_ms ==> r.0 == elapsed_ms + tick_ms && r.1 is None
            && final(pending)@ == old(pending)@,
{
    let elapsed = elapsed_ms + tick_ms;
    if elapsed < delay_ms {
        return (elapsed, None);
    }
    let mut ops: Vec<Op> = Vec::new();
    std::mem::swap(&mut ops, pending);
    if ops.len() == 0 {
        return (0, None);
    }
    (0, Some(OpBatch::new(replica_id, ops)))
}

} // verus!
