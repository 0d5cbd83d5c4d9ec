//! A time-ordered queue of pending events with FIFO tie-break and
//! identity-based cancellation.

use vstd::prelude::*;
use crate::event::Event;

verus! {

/// An opaque identity token issued at insertion, used to cancel or remove one
/// specific event independent of timestamp collisions.
#[derive(Clone, Copy, Debug, PartialEq, Eq, Structural)]
pub struct Handle {
    id: usize,
}

impl Handle {
    /// The sequence number this handle stands for, for use in contracts.
    pub closed spec fn id(self) -> nat {
        self.id as nat
    }
}

/// One pending entry of the abstract queue model: the event's timestamp, the
/// sequence number issued at its insertion, and its payload.
pub type PendingEntry<T> = (nat, nat, T);

/// Strict order on pending entries: earlier timestamp first, ties broken by
/// earlier sequence number.
pub open spec fn entry_lt<T>(a: PendingEntry<T>, b: PendingEntry<T>) -> bool {
    a.0 < b.0 || (a.0 == b.0 && a.1 < b.1)
}

/// The pending sequence is strictly sorted by `(start_time, sequence)`.
pub open spec fn sorted<T>(p: Seq<PendingEntry<T>>) -> bool {
    forall|i: int, j: int| 0 <= i < j < p.len() ==> entry_lt(#[trigger] p[i], #[trigger] p[j])
}

/// No two pending entries carry the same sequence number.
pub open spec fn distinct_ids<T>(p: Seq<PendingEntry<T>>) -> bool {
    forall|i: int, j: int| 0 <= i < p.len() && 0 <= j < p.len() && i != j
        ==> (#[trigger] p[i]).1 != (#[trigger] p[j]).1
}

/// Every pending sequence number is below `bound` (the next number to issue).
pub open spec fn ids_below<T>(p: Seq<PendingEntry<T>>, bound: nat) -> bool {
    forall|i: int| 0 <= i < p.len() ==> (#[trigger] p[i]).1 < bound
}

/// The position at which an event with timestamp `t` enters the pending
/// sequence: after every entry whose timestamp is at most `t` (so that equal
/// timestamps keep their insertion order), before the first later one.
pub open spec fn insert_position<T>(p: Seq<PendingEntry<T>>, t: nat) -> int
    decreases p.len(),
{
    if p.len() == 0 {
        0
    } else if p[0].0 > t {
        0
    } else {
        1 + insert_position(p.drop_first(), t)
    }
}

/// `insert_position` is the first index whose entry's timestamp exceeds `t`.
pub proof fn lemma_insert_position<T>(p: Seq<PendingEntry<T>>, t: nat)
    ensures
        0 <= insert_position(p, t) <= p.len(),
        forall|j: int| 0 <= j < insert_position(p, t) ==> (#[trigger] p[j]).0 <= t,
        insert_position(p, t) < p.len() ==> p[insert_position(p, t)].0 > t,
    decreases p.len(),
{
    if p.len() == 0 {
    } else if p[0].0 > t {
    } else {
        lemma_insert_position(p.drop_first(), t);
        assert forall|j: int| 0 <= j < insert_position(p, t) implies (#[trigger] p[j]).0 <= t by {
            if j > 0 {
                assert(p.drop_first()[j - 1] == p[j]);
            }
        }
        if insert_position(p, t) < p.len() {
            assert(p.drop_first()[insert_position(p.drop_first(), t)] == p[insert_position(p, t)]);
        }
    }
}

/// The index of the pending entry carrying sequence number `id`, or `-1` when
/// no entry carries it.
pub open spec fn index_of_id<T>(p: Seq<PendingEntry<T>>, id: nat) -> int
    decreases p.len(),
{
    if p.len() == 0 {
        -1
    } else if p[0].1 == id {
        0
    } else if index_of_id(p.drop_first(), id) == -1 {
        -1
    } else {
        1 + index_of_id(p.drop_first(), id)
    }
}

/// `index_of_id` finds the first entry carrying `id`, and `-1` means no entry
/// carries it.
pub proof fn lemma_index_of_id<T>(p: Seq<PendingEntry<T>>, id: nat)
    ensures
        index_of_id(p, id) == -1 || 0 <= index_of_id(p, id) < p.len(),
        index_of_id(p, id) == -1 ==> forall|j: int| 0 <= j < p.len() ==> (#[trigger] p[j]).1 != id,
        index_of_id(p, id) >= 0 ==> p[index_of_id(p, id)].1 == id,
        forall|j: int| 0 <= j < index_of_id(p, id) ==> (#[trigger] p[j]).1 != id,
    decreases p.len(),
{
    if p.len() == 0 {
    } else if p[0].1 == id {
    } else {
        lemma_index_of_id(p.drop_first(), id);
        assert forall|j: int| 0 <= j < p.len() && index_of_id(p, id) == -1
            implies (#[trigger] p[j]).1 != id by {
            if j > 0 {
                assert(p.drop_first()[j - 1] == p[j]);
            }
        }
        assert forall|j: int| 0 <= j < index_of_id(p, id) implies (#[trigger] p[j]).1 != id by {
            if j > 0 {
                assert(p.drop_first()[j - 1] == p[j]);
            }
        }
        if index_of_id(p, id) >= 0 {
            assert(p.drop_first()[index_of_id(p.drop_first(), id)] == p[index_of_id(p, id)]);
        }
    }
}

/// An abstract time-ordered collection of pending events.
///
/// The abstract state is `pending()`: the pending entries in retrieval order,
/// strictly sorted by `(start_time, sequence number)`, where sequence numbers
/// are issued in strictly increasing order at insertion. `next_id()` is the
/// sequence number the next insertion will be issued. Every operation keeps
/// the well-formedness predicate `wf()`.
pub trait Scheduler<T>: Sized {
    /// The pending events in retrieval order.
    spec fn pending(&self) -> Seq<PendingEntry<T>>;

    /// The sequence number the next insertion will be issued.
    spec fn next_id(&self) -> nat;

    /// The scheduler's internal invariant.
    spec fn wf(&self) -> bool;

    /// A well-formed scheduler's pending entries are strictly sorted by
    /// `(start_time, sequence number)`, carry pairwise distinct sequence
    /// numbers, and all their sequence numbers lie below `next_id()`.
    proof fn wf_properties(&self)
        requires
            self.wf(),
        ensures
            sorted(self.pending()),
            distinct_ids(self.pending()),
            ids_below(self.pending(), self.next_id()),
    ;

    /// Inserts an event, issuing a fresh handle for later cancellation. The
    /// event enters the pending sequence after every entry whose timestamp is
    /// at most its own — past, present and future timestamps are all accepted,
    /// and equal timestamps keep their insertion order.
    fn insert(&mut self, event: Event<T>) -> (h: Handle)
        requires
            old(self).wf(),
            old(self).next_id() < usize::MAX as nat,
        ensures
            final(self).wf(),
            h.id() == old(self).next_id(),
            final(self).next_id() == old(self).next_id() + 1,
            final(self).pending() == old(self).pending().insert(
                insert_position(old(self).pending(), event.start_time as nat),
                (event.start_time as nat, old(self).next_id(), event.payload),
            ),
            final(self).pending().len() == old(self).pending().len() + 1,
    ;

    /// Returns a reference to the earliest-due event without removing it, or
    /// `None` exactly when no event is pending. Takes `&self`, so it never
    /// changes the pending sequence.
    fn peek_next(&self) -> (r: Option<&Event<T>>)
        requires
            self.wf(),
        ensures
            r is Some <==> self.pending().len() > 0,
            r matches Some(e) ==> e.start_time as nat == self.pending()[0].0
                && e.payload == self.pending()[0].2,
    ;

    /// Removes and returns the earliest-due event (ties broken in insertion
    /// order), or `None` exactly when no event is pending.
    fn remove_next(&mut self) -> (r: Option<Event<T>>)
        requires
            old(self).wf(),
        ensures
            final(self).wf(),
            final(self).next_id() == old(self).next_id(),
            old(self).pending().len() == 0 ==> r is None
                && final(self).pending() == old(self).pending(),
            old(self).pending().len() > 0 ==> (r matches Some(e)
                && e.start_time as nat == old(self).pending()[0].0
                && e.payload == old(self).pending()[0].2
                && final(self).pending() == old(self).pending().drop_first()
                && final(self).pending().len() == old(self).pending().len() - 1),
    ;

    /// Cancels the pending event the handle was issued for. Returns `true`
    /// and removes exactly that entry when it is still pending; returns
    /// `false` and leaves the state unchanged when it is not (already
    /// removed, already cancelled, or never issued by this scheduler).
    fn cancel(&mut self, h: Handle) -> (found: bool)
        requires
            old(self).wf(),
        ensures
            final(self).wf(),
            final(self).next_id() == old(self).next_id(),
            found <==> index_of_id(old(self).pending(), h.id()) >= 0,
            found ==> final(self).pending() == old(self).pending().remove(
                index_of_id(old(self).pending(), h.id()),
            ) && final(self).pending().len() == old(self).pending().len() - 1,
            !found ==> final(self).pending() == old(self).pending(),
    ;

    /// Removes the pending event the handle was issued for: the same
    /// operation as `cancel`, under the second name the interface offers.
    fn remove(&mut self, h: Handle) -> (found: bool)
        requires
            old(self).wf(),
        ensures
            final(self).wf(),
            final(self).next_id() == old(self).next_id(),
            found <==> index_of_id(old(self).pending(), h.id()) >= 0,
            found ==> final(self).pending() == old(self).pending().remove(
                index_of_id(old(self).pending(), h.id()),
            ) && final(self).pending().len() == old(self).pending().len() - 1,
            !found ==> final(self).pending() == old(self).pending(),
    ;

    /// True exactly when no event is pending: every inserted event has been
    /// removed or cancelled.
    fn is_empty(&self) -> (r: bool)
        ensures
            r <==> self.pending().len() == 0,
    ;
}

/// The reference `Scheduler` implementation: a stable time-ordered queue.
///
/// Entries are held sorted by `(start_time, sequence number)`, so the
/// earliest-due event always stands first; the sequence number, issued from a
/// monotonically increasing counter at insertion, doubles as the identity
/// behind the handles that `cancel` and `remove` take.
pub struct TimeOrderedQueue<T> {
    entries: Vec<(usize, Event<T>)>,
    next_seq: usize,
}

impl<T> TimeOrderedQueue<T> {
    /// Creates an empty queue.
    pub fn new() -> (q: TimeOrderedQueue<T>)
        ensures
            q.wf(),
            q.pending() == Seq::<PendingEntry<T>>::empty(),
            q.next_id() == 0,
    {
        let q = TimeOrderedQueue { entries: Vec::new(), next_seq: 0 };
        proof {
            assert(q.pending() =~= Seq::<PendingEntry<T>>::empty());
        }
        q
    }

    /// How many events are pending.
    pub fn len(&self) -> (n: usize)
        ensures
            n == self.pending().len(),
    {
        proof {
            assert(self.pending().len() == self.entries@.len());
        }
        self.entries.len()
    }

    /// How many sequence numbers have been issued so far; the next insertion
    /// is issued this number. Callers that may insert more than `usize::MAX`
    /// events over a queue's lifetime check it before inserting.
    pub fn issued(&self) -> (n: usize)
        ensures
            n as nat == self.next_id(),
    {
        self.next_seq
    }
}

impl<T> Scheduler<T> for TimeOrderedQueue<T> {
    closed spec fn pending(&self) -> Seq<PendingEntry<T>> {
        self.entries@.map(|i: int, e: (usize, Event<T>)| (e.1.start_time as nat, e.0 as nat, e.1.payload))
    }

    closed spec fn next_id(&self) -> nat {
        self.next_seq as nat
    }

    closed spec fn wf(&self) -> bool {
        sorted(self.pending()) && distinct_ids(self.pending())
            && ids_below(self.pending(), self.next_id())
    }

    proof fn wf_properties(&self) {
    }

    #[verifier::loop_isolation(false)]
    fn insert(&mut self, event: Event<T>) -> (h: Handle) {
        let id = self.next_seq;
        self.next_seq = self.next_seq + 1;
        let t = event.start_time;
        let ghost p = old(self).pending();
        let ghost entry: PendingEntry<T> = (t as nat, id as nat, event.payload);
        let mut i: usize = 0;
        while i < self.entries.len() && self.entries[i].1.start_time <= t
            invariant
                i <= self.entries@.len(),
                forall|j: int| 0 <= j < i ==> (#[trigger] self.entries@[j]).1.start_time <= t,
            decreases self.entries@.len() - i,
        {
            i = i + 1;
        }
        proof {
            lemma_insert_position(p, t as nat);
            let pos = insert_position(p, t as nat);
            assert(p.len() == self.entries@.len());
            assert forall|j: int| 0 <= j < p.len() implies
                (#[trigger] p[j]).0 == self.entries@[j].1.start_time as nat
                && p[j].1 == self.entries@[j].0 as nat by {}
            if i < pos {
                assert(p[i as int].0 <= t as nat);
                assert(self.entries@[i as int].1.start_time > t);
                assert(false);
            }
            if pos < i {
                assert(p[pos].0 > t as nat);
                assert(self.entries@[pos].1.start_time <= t);
                assert(false);
            }
            assert(i as int == pos);
        }
        let ghost pre = self.entries@;
        self.entries.insert(i, (id, event));
        proof {
            let pos = i as int;
            pre.insert_ensures(pos, (id, event));
            p.insert_ensures(pos, entry);
            let q = p.insert(pos, entry);
            assert forall|k: int| 0 <= k < self.pending().len() implies self.pending()[k] == q[k] by {
                if k < pos {
                    assert(self.entries@[k] == pre[k]);
                    assert(q[k] == p[k]);
                } else if k == pos {
                    assert(self.entries@[k] == (id, event));
                    assert(q[pos] == entry);
                } else {
                    assert(self.entries@[k] == pre[k - 1]);
                    assert(q[k] == p[k - 1]);
                }
            }
            assert(self.pending() =~= q);
            // entries before the insertion point have timestamps at most `t`
            // and sequence numbers below the fresh one; entries after it have
            // strictly later timestamps
            assert forall|a: int, b: int| 0 <= a < b < q.len() implies entry_lt(#[trigger] q[a], #[trigger] q[b]) by {
                if b < pos {
                    assert(q[a] == p[a] && q[b] == p[b]);
                } else if b == pos {
                    assert(q[a] == p[a]);
                    assert(p[a].0 <= t as nat);
                    assert(p[a].1 < id as nat);
                } else if a < pos {
                    assert(q[a] == p[a] && q[b] == p[b - 1]);
                    if pos <= b - 1 {
                        assert(p[b - 1].0 > t as nat);
                        assert(p[a].0 <= t as nat);
                    }
                } else if a == pos {
                    assert(q[b] == p[b - 1]);
                    assert(p[b - 1].0 > t as nat);
                } else {
                    assert(q[a] == p[a - 1] && q[b] == p[b - 1]);
                }
            }
            assert(sorted(q));
            assert forall|a: int, b: int|
                0 <= a < q.len() && 0 <= b < q.len() && a != b implies
                (#[trigger] q[a]).1 != (#[trigger] q[b]).1 by {
                if a != pos && b != pos {
                    let a0: int = if a < pos { a } else { a - 1 };
                    let b0: int = if b < pos { b } else { b - 1 };
                    assert(q[a] == p[a0] && q[b] == p[b0]);
                } else if a == pos {
                    let b0: int = if b < pos { b } else { b - 1 };
                    assert(q[b] == p[b0]);
                    assert(p[b0].1 < id as nat);
                } else {
                    let a0: int = if a < pos { a } else { a - 1 };
                    assert(q[a] == p[a0]);
                    assert(p[a0].1 < id as nat);
                }
            }
            assert(distinct_ids(q));
            assert forall|k: int| 0 <= k < q.len() implies (#[trigger] q[k]).1 < self.next_id() by {
                if k != pos {
                    let k0: int = if k < pos { k } else { k - 1 };
                    assert(q[k] == p[k0]);
                }
            }
            assert(ids_below(q, self.next_id()));
        }
        Handle { id }
    }

    fn peek_next(&self) -> (r: Option<&Event<T>>) {
        if self.entries.len() == 0 {
            None
        } else {
            proof {
                assert(self.pending()[0].0 == self.entries@[0].1.start_time as nat);
                assert(self.pending()[0].2 == self.entries@[0].1.payload);
            }
            Some(&self.entries[0].1)
        }
    }

    fn remove_next(&mut self) -> (r: Option<Event<T>>) {
        if self.entries.len() == 0 {
            proof {
                assert(self.pending() =~= old(self).pending());
            }
            None
        } else {
            let ghost p = old(self).pending();
            let ghost pre = self.entries@;
            let e = self.entries.remove(0);
            proof {
                pre.remove_ensures(0);
                p.remove_ensures(0);
                assert forall|k: int| 0 <= k < self.pending().len() implies
                    self.pending()[k] == p.drop_first()[k] by {
                    assert(self.entries@[k] == pre[k + 1]);
                }
                assert(self.pending() =~= p.drop_first());
                assert forall|a: int, b: int| 0 <= a < b < self.pending().len() implies
                    entry_lt(#[trigger] self.pending()[a], #[trigger] self.pending()[b]) by {
                    assert(self.pending()[a] == p[a + 1] && self.pending()[b] == p[b + 1]);
                }
                assert forall|a: int, b: int|
                    0 <= a < self.pending().len() && 0 <= b < self.pending().len() && a != b implies
                    (#[trigger] self.pending()[a]).1 != (#[trigger] self.pending()[b]).1 by {
                    assert(self.pending()[a] == p[a + 1] && self.pending()[b] == p[b + 1]);
                }
                assert forall|k: int| 0 <= k < self.pending().len() implies
                    (#[trigger] self.pending()[k]).1 < self.next_id() by {
                    assert(self.pending()[k] == p[k + 1]);
                }
                assert(e.1.start_time as nat == p[0].0);
                assert(e.1.payload == p[0].2);
            }
            Some(e.1)
        }
    }

    #[verifier::loop_isolation(false)]
    fn cancel(&mut self, h: Handle) -> (found: bool) {
        let target = h.id;
        let ghost p = old(self).pending();
        let n = self.entries.len();
        let mut i: usize = 0;
        while i < n && self.entries[i].0 != target
            invariant
                i <= n,
                forall|j: int| 0 <= j < i ==> (#[trigger] self.entries@[j]).0 != target,
            decreases n - i,
        {
            i = i + 1;
        }
        proof {
            lemma_index_of_id(p, h.id());
            assert(p.len() == self.entries@.len());
            assert forall|j: int| 0 <= j < p.len() implies
                (#[trigger] p[j]).1 == self.entries@[j].0 as nat by {}
        }
        if i < n {
            proof {
                let idx = index_of_id(p, h.id());
                assert(p[i as int].1 == h.id());
                if idx < i {
                    if idx == -1 {
                        assert(p[i as int].1 != h.id());
                    } else {
                        assert(self.entries@[idx].0 != target);
                        assert(p[idx].1 == h.id());
                    }
                    assert(false);
                }
                if i < idx {
                    assert(p[i as int].1 != h.id());
                    assert(false);
                }
                assert(idx == i as int);
            }
            let ghost pre = self.entries@;
            let _ = self.entries.remove(i);
            proof {
                let pos = i as int;
                pre.remove_ensures(pos);
                p.remove_ensures(pos);
                let q = p.remove(pos);
                assert forall|k: int| 0 <= k < self.pending().len() implies self.pending()[k] == q[k] by {
                    if k < pos {
                        assert(self.entries@[k] == pre[k]);
                    } else {
                        assert(self.entries@[k] == pre[k + 1]);
                        assert(q[k] == p[k + 1]);
                    }
                }
                assert(self.pending() =~= q);
                assert forall|a: int, b: int| 0 <= a < b < q.len() implies
                    entry_lt(#[trigger] q[a], #[trigger] q[b]) by {
                    let a0: int = if a < pos { a } else { a + 1 };
                    let b0: int = if b < pos { b } else { b + 1 };
                    assert(q[a] == p[a0] && q[b] == p[b0]);
                }
                assert forall|a: int, b: int|
                    0 <= a < q.len() && 0 <= b < q.len() && a != b implies
                    (#[trigger] q[a]).1 != (#[trigger] q[b]).1 by {
                    let a0: int = if a < pos { a } else { a + 1 };
                    let b0: int = if b < pos { b } else { b + 1 };
                    assert(q[a] == p[a0] && q[b] == p[b0]);
                }
                assert forall|k: int| 0 <= k < q.len() implies
                    (#[trigger] q[k]).1 < self.next_id() by {
                    let k0: int = if k < pos { k } else { k + 1 };
                    assert(q[k] == p[k0]);
                }
            }
            true
        } else {
            proof {
                let idx = index_of_id(p, h.id());
                if idx >= 0 {
                    assert(p[idx].1 == h.id());
                    assert(self.entries@[idx].0 != target);
                    assert(false);
                }
            }
            false
        }
    }

    fn remove(&mut self, h: Handle) -> (found: bool) {
        self.cancel(h)
    }

    fn is_empty(&self) -> (r: bool) {
        proof {
            assert(self.pending().len() == self.entries@.len());
        }
        self.entries.len() == 0
    }
}

} // verus!
