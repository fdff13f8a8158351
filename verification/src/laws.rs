//! Buffer-wide laws, stated over the well-formedness predicate and the
//! logical-contents transitions and proved once and for all.

use vstd::prelude::*;

use crate::ring::dequeue_count;
use crate::ring::dequeue_rest;
use crate::ring::dequeue_taken;
use crate::ring::enqueue_contents;
use crate::ring::RingBuffer;
use crate::ring::RING_BUFFER_SZ;

verus! {

/// Capacity invariant: a well-formed buffer holds between zero and
/// `RING_BUFFER_SZ` bytes. Since `new` establishes well-formedness and every
/// operation preserves it, this bound holds after any sequence of operations.
pub proof fn lemma_capacity_invariant(buf: RingBuffer)
    requires
        buf.wf(),
    ensures
        0 <= buf@.len() <= RING_BUFFER_SZ,
{
}

/// Consistency invariant: in a well-formed buffer the write position sits
/// exactly `len()` bytes past the read position, modulo the capacity. Every
/// enqueue and dequeue ensures well-formedness, so this relation holds after
/// each of them.
pub proof fn lemma_consistency_invariant(buf: RingBuffer)
    requires
        buf.wf(),
    ensures
        buf.tail == (buf.head + buf@.len()) % (RING_BUFFER_SZ as int),
{
}

/// Round trip: data no longer than the free space is appended without
/// eviction, and dequeuing everything afterwards returns the prior contents
/// followed by that data, byte for byte. Starting from an empty buffer, the
/// data alone comes back.
pub proof fn lemma_round_trip(s: Seq<u8>, data: Seq<u8>)
    requires
        s.len() + data.len() <= RING_BUFFER_SZ,
    ensures
        enqueue_contents(s, data, RING_BUFFER_SZ as nat) == s + data,
        dequeue_count(s + data, s.len() + data.len()) == s.len() + data.len(),
        dequeue_taken(s + data, s.len() + data.len()) == s + data,
        dequeue_rest(s + data, s.len() + data.len()) == Seq::<u8>::empty(),
        s.len() == 0 ==> enqueue_contents(s, data, RING_BUFFER_SZ as nat) == data,
{
    assert(dequeue_taken(s + data, s.len() + data.len()) =~= s + data);
    assert(dequeue_rest(s + data, s.len() + data.len()) =~= Seq::<u8>::empty());
    if s.len() == 0 {
        assert(s + data =~= data);
    }
}

/// Eviction correctness: enqueueing onto a full buffer keeps the length at
/// the capacity, and the contents become the last `RING_BUFFER_SZ` bytes of
/// the concatenation of old contents and new data — the survivors of the old
/// contents followed by all of the data.
pub proof fn lemma_eviction(s: Seq<u8>, data: Seq<u8>)
    requires
        s.len() == RING_BUFFER_SZ,
        0 < data.len() <= RING_BUFFER_SZ,
    ensures
        enqueue_contents(s, data, RING_BUFFER_SZ as nat).len() == RING_BUFFER_SZ,
        enqueue_contents(s, data, RING_BUFFER_SZ as nat) == (s + data).skip(
            s.len() + data.len() - RING_BUFFER_SZ,
        ),
        enqueue_contents(s, data, RING_BUFFER_SZ as nat) == s.skip(data.len() as int) + data,
{
    assert(enqueue_contents(s, data, RING_BUFFER_SZ as nat) =~= s.skip(data.len() as int) + data);
}

/// Partial read: a destination at least as long as the contents drains the
/// buffer and returns everything; a shorter one returns exactly its own
/// length, and the bytes left queued come out, in order, in the next read.
pub proof fn lemma_partial_read(s: Seq<u8>, m: nat)
    ensures
        m >= s.len() ==> dequeue_count(s, m) == s.len() && dequeue_taken(s, m) == s
            && dequeue_rest(s, m) == Seq::<u8>::empty(),
        m < s.len() ==> dequeue_count(s, m) == m && dequeue_taken(s, m) == s.take(m as int)
            && dequeue_rest(s, m).len() == s.len() - m && dequeue_taken(s, m) + dequeue_taken(
            dequeue_rest(s, m),
            (s.len() - m) as nat,
        ) == s,
{
    if m >= s.len() {
        assert(dequeue_taken(s, m) =~= s);
        assert(dequeue_rest(s, m) =~= Seq::<u8>::empty());
    } else {
        assert(dequeue_taken(dequeue_rest(s, m), (s.len() - m) as nat) =~= s.skip(m as int));
        assert(dequeue_taken(s, m) + dequeue_taken(dequeue_rest(s, m), (s.len() - m) as nat)
            =~= s);
    }
}

} // verus!
