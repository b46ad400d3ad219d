//! The connection's bulk-writer model. The reader injects an explicit
//! disconnect record into the bulk queue when it detects the client is gone;
//! the bulk writer forwards records in order and stops at that record, so
//! nothing queued after the disconnect point is ever sent.

use crate::protocol::ServerEvent;
use vstd::prelude::*;

verus! {

/// Whether a record is the disconnect notice.
pub open spec fn spec_is_disconnect(e: ServerEvent) -> bool {
    e is ClientDisconnected
}

/// What the bulk writer sends out of a queue: the records before the first
/// disconnect notice, in queue order.
pub fn bulk_outputs(queue: Vec<ServerEvent>) -> (r: Vec<ServerEvent>)
    ensures
        r@.len() <= queue@.len(),
        r@ == queue@.subrange(0, r@.len() as int),
        forall|k: int| 0 <= k < r@.len() ==> !spec_is_disconnect(#[trigger] queue@[k]),
        r@.len() < queue@.len() ==> spec_is_disconnect(queue@[r@.len() as int]),
{
    let ghost q0 = queue@;
    let mut rest = queue;
    let mut r: Vec<ServerEvent> = Vec::new();
    loop
        invariant_except_break
            r@.len() <= q0.len(),
            r@ =~= q0.subrange(0, r@.len() as int),
            rest@ =~= q0.subrange(r@.len() as int, q0.len() as int),
            forall|k: int| 0 <= k < r@.len() ==> !spec_is_disconnect(#[trigger] q0[k]),
        ensures
            r@.len() <= q0.len(),
            r@ =~= q0.subrange(0, r@.len() as int),
            forall|k: int| 0 <= k < r@.len() ==> !spec_is_disconnect(#[trigger] q0[k]),
            r@.len() < q0.len() ==> spec_is_disconnect(q0[r@.len() as int]),
        decreases rest@.len(),
    {
        if rest.len() == 0 {
            break;
        }
        let stop = match &rest[0] {
            ServerEvent::ClientDisconnected => true,
            _ => false,
        };
        proof {
            assert(rest@[0] == q0[r@.len() as int]);
        }
        if stop {
            break;
        }
        let ghost r_before = r@;
        let ghost rest_before = rest@;
        let e = rest.remove(0);
        r.push(e);
        proof {
            rest_before.remove_ensures(0);
            assert(r@ =~= q0.subrange(0, r@.len() as int));
            assert(rest@ =~= q0.subrange(r@.len() as int, q0.len() as int));
        }
    }
    r
}

/// Once the disconnect notice stands in the queue, no record after it is
/// ever sent: the writer's output is a prefix that ends at or before the
/// notice, so a record queued after the disconnect point lies beyond
/// everything sent.
pub proof fn lemma_no_record_after_disconnect(
    queue: Seq<ServerEvent>,
    out: Seq<ServerEvent>,
    i: int,
    j: int,
)
    requires
        out.len() <= queue.len(),
        out == queue.subrange(0, out.len() as int),
        forall|k: int| 0 <= k < out.len() ==> !spec_is_disconnect(#[trigger] queue[k]),
        0 <= i < j < queue.len(),
        spec_is_disconnect(queue[i]),
    ensures
        out.len() <= i,
        j >= out.len(),
{
    if out.len() > i {
        assert(!spec_is_disconnect(queue[i]));
    }
}

} // verus!
