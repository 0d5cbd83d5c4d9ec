//! The queue's ordering and cancellation laws, proved once over the abstract
//! pending sequence that every `Scheduler` contract speaks of.

use vstd::prelude::*;
use crate::event::Event;
use crate::scheduler::{PendingEntry, sorted, distinct_ids, index_of_id, lemma_index_of_id,
    entry_lt, insert_position, lemma_insert_position};

verus! {

/// Removals yield non-decreasing timestamps: in a well-formed pending
/// sequence, every later entry's timestamp is at least every earlier one's.
/// `remove_next` always returns the first entry and drops it, so the
/// timestamps of successive removals walk this sequence left to right.
pub proof fn lemma_removal_times_nondecreasing<T>(p: Seq<PendingEntry<T>>, i: int, j: int)
    requires
        sorted(p),
        0 <= i <= j < p.len(),
    ensures
        p[i].0 <= p[j].0,
{
    if i < j {
        assert(entry_lt(p[i], p[j]));
    }
}

/// FIFO tie-break: two pending entries with equal timestamps stand in the
/// order of their sequence numbers, and `insert` issues sequence numbers in
/// strictly increasing order, so events sharing a timestamp are removed in
/// their insertion order.
pub proof fn lemma_fifo_tie_break<T>(p: Seq<PendingEntry<T>>, i: int, j: int)
    requires
        sorted(p),
        0 <= i < j < p.len(),
        p[i].0 == p[j].0,
    ensures
        p[i].1 < p[j].1,
{
    assert(entry_lt(p[i], p[j]));
}

/// `peek_next` is idempotent: its contract pins the returned event's fields to
/// the first pending entry, so any two events both satisfying that contract
/// against one unchanged pending sequence are the same event. (`peek_next`
/// takes `&self`, so it cannot change the pending sequence or what `is_empty`
/// returns.)
pub proof fn lemma_peek_idempotent<T>(p: Seq<PendingEntry<T>>, e1: Event<T>, e2: Event<T>)
    requires
        p.len() > 0,
        e1.start_time as nat == p[0].0,
        e1.payload == p[0].2,
        e2.start_time as nat == p[0].0,
        e2.payload == p[0].2,
    ensures
        e1 == e2,
{
}

/// Cancellation removes exactly the handled entry: the pending sequence
/// shrinks by one, and no entry carrying the cancelled sequence number
/// remains — so no later `remove_next`, whose result is always drawn from the
/// pending sequence, can return the cancelled event.
pub proof fn lemma_cancel_removes_handle<T>(p: Seq<PendingEntry<T>>, id: nat)
    requires
        distinct_ids(p),
        index_of_id(p, id) >= 0,
    ensures
        p.remove(index_of_id(p, id)).len() == p.len() - 1,
        forall|k: int| 0 <= k < p.remove(index_of_id(p, id)).len()
            ==> (#[trigger] p.remove(index_of_id(p, id))[k]).1 != id,
{
    let pos = index_of_id(p, id);
    lemma_index_of_id(p, id);
    p.remove_ensures(pos);
    assert forall|k: int| 0 <= k < p.remove(pos).len() implies
        (#[trigger] p.remove(pos)[k]).1 != id by {
        let k0: int = if k < pos { k } else { k + 1 };
        assert(p.remove(pos)[k] == p[k0]);
        assert(p[k0].1 != p[pos].1);
    }
}

/// A departed event never returns: `insert` issues only the fresh sequence
/// number `n`, above every number issued before, so a pending sequence free of
/// a sequence number below `n` is still free of it after the insertion. Hence
/// once an event is cancelled or removed, no later `remove_next` can return
/// it, whatever is inserted afterwards.
pub proof fn lemma_departed_id_stays_absent<T>(p: Seq<PendingEntry<T>>, t: nat, n: nat, x: T, id: nat)
    requires
        id < n,
        forall|k: int| 0 <= k < p.len() ==> (#[trigger] p[k]).1 != id,
    ensures
        forall|k: int| 0 <= k < p.insert(insert_position(p, t), (t, n, x)).len()
            ==> (#[trigger] p.insert(insert_position(p, t), (t, n, x))[k]).1 != id,
{
    lemma_insert_position(p, t);
    let pos = insert_position(p, t);
    p.insert_ensures(pos, (t, n, x));
    let q = p.insert(pos, (t, n, x));
    assert forall|k: int| 0 <= k < q.len() implies (#[trigger] q[k]).1 != id by {
        if k < pos {
            assert(q[k] == p[k]);
        } else if k == pos {
            assert(q[k].1 == n);
        } else {
            assert(q[k] == p[k - 1]);
        }
    }
}

} // verus!
