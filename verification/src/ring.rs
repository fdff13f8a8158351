//! The ring buffer itself: a fixed-length byte store with `head`/`tail`/`size`
//! bookkeeping, wraparound index arithmetic, and bulk copies split into at most
//! two contiguous segments.

use vstd::prelude::*;

verus! {

use vstd::arithmetic::div_mod::lemma_add_mod_noop_right;
use vstd::arithmetic::div_mod::lemma_fundamental_div_mod_converse_mod;
use vstd::arithmetic::div_mod::lemma_mod_division_less_than_divisor;
use vstd::arithmetic::div_mod::lemma_mod_multiples_vanish;
use vstd::arithmetic::div_mod::lemma_sub_mod_noop;

/// Capacity of the buffer's backing storage, in bytes.
pub const RING_BUFFER_SZ: usize = 0x10;

/// A fixed-capacity circular byte buffer.
///
/// `head` is the position of the oldest unread byte, `tail` the position the
/// next byte will be written to, and `size` the number of valid bytes. When
/// `size == RING_BUFFER_SZ` the buffer is full and `head == tail`; the two
/// indices also coincide when the buffer is empty, so `size` alone
/// disambiguates the two states.
pub struct RingBuffer {
    pub ring: Vec<u8>,
    pub head: usize,
    pub tail: usize,
    pub size: usize,
}

impl View for RingBuffer {
    type V = Seq<u8>;

    /// The logical contents: the `size` valid bytes starting at `head`,
    /// proceeding circularly.
    open spec fn view(&self) -> Seq<u8> {
        Seq::new(
            self.size as nat,
            |i: int| self.ring@[(self.head + i) % (RING_BUFFER_SZ as int)],
        )
    }
}

/// Logical contents after enqueueing `data` onto contents `s` in a buffer of
/// capacity `cap`: the concatenation, with the oldest bytes dropped when the
/// total exceeds the capacity (overwrite-oldest eviction).
pub open spec fn enqueue_contents(s: Seq<u8>, data: Seq<u8>, cap: nat) -> Seq<u8> {
    if s.len() + data.len() <= cap {
        s + data
    } else {
        (s + data).skip(s.len() + data.len() - cap)
    }
}

/// Number of bytes a dequeue into a destination of length `m` transfers out of
/// contents `s`: all of `s`, capped at `m`.
pub open spec fn dequeue_count(s: Seq<u8>, m: nat) -> nat {
    if m <= s.len() {
        m
    } else {
        s.len()
    }
}

/// The bytes such a dequeue hands out, in insertion order.
pub open spec fn dequeue_taken(s: Seq<u8>, m: nat) -> Seq<u8> {
    s.take(dequeue_count(s, m) as int)
}

/// The bytes such a dequeue leaves queued.
pub open spec fn dequeue_rest(s: Seq<u8>, m: nat) -> Seq<u8> {
    s.skip(dequeue_count(s, m) as int)
}

/// The remainder of `x` modulo the capacity, read off from an explicit
/// decomposition `x == q * RING_BUFFER_SZ + r`.
proof fn lemma_mod_from_parts(x: int, q: int, r: int)
    requires
        x == q * (RING_BUFFER_SZ as int) + r,
        0 <= r < RING_BUFFER_SZ,
    ensures
        x % (RING_BUFFER_SZ as int) == r,
{
    lemma_fundamental_div_mod_converse_mod(x, RING_BUFFER_SZ as int, q, r);
}

/// After a two-segment split write of `data` starting at `t` — the straight
/// run `[t, RING_BUFFER_SZ)` first, then the wrapped remainder from index 0 —
/// the storage reads back circularly: position `(t + m) % RING_BUFFER_SZ`
/// holds `data[m]`, and positions at circular distance `data.len()` or more
/// from `t` are untouched.
proof fn lemma_split_write(old_ring: Seq<u8>, new_ring: Seq<u8>, t: int, data: Seq<u8>)
    requires
        old_ring.len() == RING_BUFFER_SZ,
        new_ring.len() == RING_BUFFER_SZ,
        0 <= t < RING_BUFFER_SZ,
        data.len() <= RING_BUFFER_SZ,
        forall|m: int|
            0 <= m < data.len() && t + m < RING_BUFFER_SZ ==> new_ring[t + m] == data[m],
        forall|m: int|
            0 <= m < data.len() && t + m >= RING_BUFFER_SZ
                ==> new_ring[t + m - RING_BUFFER_SZ] == data[m],
        forall|k: int|
            0 <= k < RING_BUFFER_SZ && !(t <= k < t + data.len()) && !(0 <= k < t + data.len()
                - RING_BUFFER_SZ) ==> new_ring[k] == old_ring[k],
    ensures
        forall|m: int|
            0 <= m < data.len() ==> new_ring[(t + m) % (RING_BUFFER_SZ as int)] == data[m],
        forall|k: int|
            0 <= k < RING_BUFFER_SZ && (k - t) % (RING_BUFFER_SZ as int) >= data.len()
                ==> new_ring[k] == old_ring[k],
{
    assert forall|m: int|
        0 <= m < data.len() implies new_ring[(t + m) % (RING_BUFFER_SZ as int)] == data[m] by {
        if t + m < RING_BUFFER_SZ {
            lemma_mod_from_parts(t + m, 0, t + m);
        } else {
            lemma_mod_from_parts(t + m, 1, t + m - RING_BUFFER_SZ);
        }
    }
    assert forall|k: int|
        0 <= k < RING_BUFFER_SZ && (k - t) % (RING_BUFFER_SZ as int) >= data.len()
            implies new_ring[k] == old_ring[k] by {
        if k >= t {
            lemma_mod_from_parts(k - t, 0, k - t);
        } else {
            lemma_mod_from_parts(k - t, -1, k - t + RING_BUFFER_SZ);
        }
    }
}

/// The state change of a successful bulk enqueue: once `val` has been written
/// circularly starting at the old `tail`, advancing `tail` by `val.len()` —
/// and, on overflow, clamping `size` to the capacity and dragging `head` up to
/// the new `tail` — yields a well-formed buffer whose logical contents are
/// `enqueue_contents` of the old contents.
proof fn lemma_enqueue_update(prev: RingBuffer, cur: RingBuffer, val: Seq<u8>)
    requires
        prev.wf(),
        val.len() <= RING_BUFFER_SZ,
        cur.ring@.len() == RING_BUFFER_SZ,
        forall|m: int|
            0 <= m < val.len() ==> cur.ring@[(prev.tail + m) % (RING_BUFFER_SZ as int)] == val[m],
        forall|k: int|
            0 <= k < RING_BUFFER_SZ && (k - prev.tail) % (RING_BUFFER_SZ as int) >= val.len()
                ==> cur.ring@[k] == prev.ring@[k],
        cur.tail == (prev.tail + val.len()) % (RING_BUFFER_SZ as int),
        prev.size + val.len() <= RING_BUFFER_SZ ==> cur.head == prev.head && cur.size == prev.size
            + val.len(),
        prev.size + val.len() > RING_BUFFER_SZ ==> cur.head == cur.tail && cur.size
            == RING_BUFFER_SZ,
    ensures
        cur.wf(),
        cur@ == enqueue_contents(prev@, val, RING_BUFFER_SZ as nat),
{
    let c = RING_BUFFER_SZ as int;
    let h = prev.head as int;
    let s = prev.size as int;
    let l = val.len() as int;
    let tt = prev.tail as int;
    let cut: int = if s + l <= c {
        0
    } else {
        s + l - c
    };
    let goal = enqueue_contents(prev@, val, RING_BUFFER_SZ as nat);
    // The new tail is congruent to head + size + data length.
    lemma_add_mod_noop_right(l, h + s, c);
    lemma_mod_division_less_than_divisor(h + s + l, c);
    assert(cur.tail == (h + s + l) % c);
    if s + l > c {
        // The evicted head is congruent to the old head advanced by `cut`.
        lemma_mod_multiples_vanish(1, h + s + l - c, c);
        assert(cur.head == (h + cut) % c);
    }
    assert forall|x: int| 0 <= x < cur.size implies cur@[x] == goal[x] by {
        let q = x + cut;
        // The slot read back for logical position x is (h + q) % c.
        if s + l <= c {
            assert((cur.head + x) % c == (h + q) % c);
        } else {
            lemma_add_mod_noop_right(x, h + cut, c);
            assert((cur.head + x) % c == (h + q) % c);
        }
        if q < s {
            // An old byte survives: its slot is outside the written run.
            let k = (h + q) % c;
            lemma_mod_division_less_than_divisor(h + q, c);
            lemma_sub_mod_noop(h + q, h + s, c);
            lemma_mod_from_parts(q - s, -1, q - s + c);
            assert((k - tt) % c == q - s + c);
            assert(cur.ring@[k] == prev.ring@[k]);
            assert(goal[x] == prev@[q]);
        } else {
            // A fresh byte: slot (tt + (q - s)) % c was just written.
            lemma_add_mod_noop_right(q - s, h + s, c);
            assert((tt + (q - s)) % c == (h + q) % c);
            assert(cur.ring@[(h + q) % c] == val[q - s]);
            assert(goal[x] == val[q - s]);
        }
    }
    assert(cur@ =~= goal);
}

/// The state change of a bulk dequeue: with the storage and `tail` untouched,
/// advancing `head` by `count` and shrinking `size` by `count` yields a
/// well-formed buffer whose logical contents are the old contents with the
/// first `count` bytes dropped.
proof fn lemma_dequeue_update(prev: RingBuffer, cur: RingBuffer, count: int)
    requires
        prev.wf(),
        0 <= count <= prev.size,
        cur.ring@ == prev.ring@,
        cur.tail == prev.tail,
        cur.head == (prev.head + count) % (RING_BUFFER_SZ as int),
        cur.size == prev.size - count,
    ensures
        cur.wf(),
        cur@ == prev@.skip(count),
{
    let c = RING_BUFFER_SZ as int;
    let h = prev.head as int;
    let s = prev.size as int;
    lemma_mod_division_less_than_divisor(h + count, c);
    // The untouched tail is still `size` past the advanced head, modulo c.
    lemma_add_mod_noop_right(s - count, h + count, c);
    assert(cur.tail == (cur.head + cur.size) % c);
    assert forall|x: int| 0 <= x < cur.size implies cur@[x] == prev@[count + x] by {
        lemma_add_mod_noop_right(x, h + count, c);
        assert((cur.head + x) % c == (h + count + x) % c);
    }
    assert(cur@ =~= prev@.skip(count));
}

impl RingBuffer {
    /// Well-formedness: storage has exactly the fixed capacity, the indices
    /// are in range, and `tail` sits `size` bytes past `head`, modulo the
    /// capacity. Constructors establish this and every operation preserves it.
    pub open spec fn wf(&self) -> bool {
        &&& self.ring@.len() == RING_BUFFER_SZ
        &&& self.head < RING_BUFFER_SZ
        &&& self.tail < RING_BUFFER_SZ
        &&& self.size <= RING_BUFFER_SZ
        &&& self.tail == (self.head + self.size) % (RING_BUFFER_SZ as int)
    }

    /// Creates an empty buffer with zeroed storage.
    pub fn new() -> (buf: RingBuffer)
        ensures
            buf.wf(),
            buf@ == Seq::<u8>::empty(),
            buf.head == 0,
            buf.tail == 0,
            buf.size == 0,
            forall|i: int| 0 <= i < RING_BUFFER_SZ ==> buf.ring@[i] == 0,
    {
        let buf = RingBuffer { ring: vec![0u8; RING_BUFFER_SZ], head: 0, tail: 0, size: 0 };
        proof {
            assert(buf@ =~= Seq::<u8>::empty());
        }
        buf
    }

    /// True when at least one unread byte is stored.
    pub fn has_elements(&self) -> (r: bool)
        ensures
            r == (self@.len() != 0),
    {
        self.size != 0
    }

    /// True when the buffer holds `RING_BUFFER_SZ` bytes.
    pub fn is_full(&self) -> (r: bool)
        requires
            self.wf(),
        ensures
            r == (self@.len() == RING_BUFFER_SZ),
    {
        self.size == self.ring.len()
    }

    /// Number of valid bytes currently stored.
    pub fn len(&self) -> (r: usize)
        ensures
            r == self@.len(),
    {
        self.size
    }

    /// Number of bytes that can be enqueued before eviction would occur.
    pub fn free_space(&self) -> (r: usize)
        requires
            self.wf(),
        ensures
            r == RING_BUFFER_SZ - self@.len(),
    {
        self.ring.len() - self.len()
    }

    /// Writes one byte at `tail`. When the buffer is full the oldest byte is
    /// evicted to make room, as in the length-1 case of `enqueue_slice`.
    pub fn enqueue(&mut self, val: u8)
        requires
            old(self).wf(),
        ensures
            final(self).wf(),
            final(self)@ == enqueue_contents(old(self)@, seq![val], RING_BUFFER_SZ as nat),
            final(self).tail == (old(self).tail + 1) % (RING_BUFFER_SZ as int),
            old(self).size < RING_BUFFER_SZ ==> final(self).head == old(self).head,
    {
        let ghost prev = *self;
        self.ring[self.tail] = val;
        self.tail = (self.tail + 1) % RING_BUFFER_SZ;
        if self.size == RING_BUFFER_SZ {
            self.head = self.tail;
        } else {
            self.size = self.size + 1;
        }
        proof {
            let c = RING_BUFFER_SZ as int;
            let tt = prev.tail as int;
            assert forall|m: int|
                0 <= m < 1 implies self.ring@[(tt + m) % c] == seq![val][m] by {
                lemma_mod_from_parts(tt, 0, tt);
            }
            assert forall|k: int|
                0 <= k < RING_BUFFER_SZ && (k - tt) % c >= 1 implies self.ring@[k]
                    == prev.ring@[k] by {
                lemma_mod_from_parts(0, 0, 0);
            }
            lemma_enqueue_update(prev, *self, seq![val]);
        }
    }

    /// Removes and returns the oldest byte, or `None` when the buffer is
    /// empty: the length-1 case of `dequeue_slice`.
    pub fn dequeue(&mut self) -> (r: Option<u8>)
        requires
            old(self).wf(),
        ensures
            final(self).wf(),
            old(self)@.len() == 0 ==> r is None && *final(self) == *old(self),
            old(self)@.len() != 0 ==> r == Some(old(self)@[0]) && final(self)@ == old(self)@.skip(
                1,
            ) && final(self).tail == old(self).tail && final(self).ring@ == old(self).ring@,
    {
        if self.size == 0 {
            return None;
        }
        let ghost prev = *self;
        let b = self.ring[self.head];
        self.head = (self.head + 1) % RING_BUFFER_SZ;
        self.size = self.size - 1;
        proof {
            assert(self@ =~= prev@.skip(1));
        }
        Some(b)
    }

    /// Enqueues all of `val`, evicting the oldest bytes when `val` does not
    /// fit in the free space, so that the buffer ends up holding the most
    /// recent bytes. Rejects (and leaves the buffer untouched) only when `val`
    /// is longer than the whole capacity. The write is split into at most two
    /// contiguous segments: `[tail, RING_BUFFER_SZ)` first, then the
    /// remainder from index 0.
    pub fn enqueue_slice(&mut self, val: &[u8]) -> (r: bool)
        requires
            old(self).wf(),
        ensures
            final(self).wf(),
            r == (val@.len() <= RING_BUFFER_SZ),
            !r ==> *final(self) == *old(self),
            r ==> final(self)@ == enqueue_contents(old(self)@, val@, RING_BUFFER_SZ as nat),
            r ==> final(self).tail == (old(self).tail + val@.len()) % (RING_BUFFER_SZ as int),
            r && old(self)@.len() + val@.len() <= RING_BUFFER_SZ ==> final(self).head == old(
                self,
            ).head,
    {
        if val.len() > RING_BUFFER_SZ {
            return false;
        }
        let ghost prev = *self;
        let t = self.tail;
        let space_on_rail = RING_BUFFER_SZ - t;
        let first_chunk = if val.len() <= space_on_rail {
            val.len()
        } else {
            space_on_rail
        };
        let mut i: usize = 0;
        while i < first_chunk
            invariant
                self.head == prev.head,
                self.tail == prev.tail,
                self.size == prev.size,
                t == prev.tail,
                prev.wf(),
                self.ring@.len() == RING_BUFFER_SZ,
                i <= first_chunk,
                first_chunk <= val@.len() <= RING_BUFFER_SZ,
                first_chunk <= RING_BUFFER_SZ - t,
                forall|m: int| 0 <= m < i ==> self.ring@[t + m] == val@[m],
                forall|k: int|
                    0 <= k < RING_BUFFER_SZ && !(t <= k < t + i) ==> self.ring@[k] == prev.ring@[k],
            decreases first_chunk - i,
        {
            self.ring[t + i] = val[i];
            i = i + 1;
        }
        let second_chunk = val.len() - first_chunk;
        let mut j: usize = 0;
        while j < second_chunk
            invariant
                self.head == prev.head,
                self.tail == prev.tail,
                self.size == prev.size,
                t == prev.tail,
                prev.wf(),
                self.ring@.len() == RING_BUFFER_SZ,
                j <= second_chunk,
                first_chunk <= val@.len() <= RING_BUFFER_SZ,
                second_chunk == val@.len() - first_chunk,
                second_chunk > 0 ==> first_chunk == RING_BUFFER_SZ - t,
                second_chunk <= t,
                forall|m: int| 0 <= m < first_chunk ==> self.ring@[t + m] == val@[m],
                forall|m: int| 0 <= m < j ==> self.ring@[m] == val@[first_chunk + m],
                forall|k: int|
                    0 <= k < RING_BUFFER_SZ && !(t <= k < t + first_chunk) && !(0 <= k < j)
                        ==> self.ring@[k] == prev.ring@[k],
            decreases second_chunk - j,
        {
            self.ring[j] = val[first_chunk + j];
            j = j + 1;
        }
        let new_tail = (t + val.len()) % RING_BUFFER_SZ;
        if self.size + val.len() > RING_BUFFER_SZ {
            self.head = new_tail;
            self.size = RING_BUFFER_SZ;
        } else {
            self.size = self.size + val.len();
        }
        self.tail = new_tail;
        proof {
            lemma_split_write(prev.ring@, self.ring@, t as int, val@);
            lemma_enqueue_update(prev, *self, val@);
        }
        true
    }

    /// Dequeues `min(val.len(), len())` bytes into the front of `val`, in
    /// insertion order, and returns that count. Positions of `val` past the
    /// count are left as they were. The read mirrors the enqueue split:
    /// `[head, RING_BUFFER_SZ)` first, then the remainder from index 0.
    pub fn dequeue_slice(&mut self, val: &mut Vec<u8>) -> (r: usize)
        requires
            old(self).wf(),
        ensures
            final(self).wf(),
            r == dequeue_count(old(self)@, old(val)@.len() as nat),
            final(val)@.len() == old(val)@.len(),
            final(val)@ == dequeue_taken(old(self)@, old(val)@.len() as nat) + old(val)@.skip(
                r as int,
            ),
            final(self)@ == dequeue_rest(old(self)@, old(val)@.len() as nat),
            final(self).tail == old(self).tail,
            final(self).ring@ == old(self).ring@,
    {
        let ghost prev = *self;
        let ghost dst0 = *val;
        let count = if val.len() <= self.size {
            val.len()
        } else {
            self.size
        };
        let h = self.head;
        let space_on_rail = RING_BUFFER_SZ - h;
        let first_chunk = if count <= space_on_rail {
            count
        } else {
            space_on_rail
        };
        let mut i: usize = 0;
        while i < first_chunk
            invariant
                *self == prev,
                prev.wf(),
                h == prev.head,
                count <= prev.size,
                count <= dst0@.len(),
                first_chunk <= count,
                first_chunk <= RING_BUFFER_SZ - h,
                i <= first_chunk,
                val@.len() == dst0@.len(),
                forall|m: int| 0 <= m < i ==> val@[m] == prev.ring@[h + m],
                forall|m: int| i <= m < val@.len() ==> val@[m] == dst0@[m],
            decreases first_chunk - i,
        {
            let b = self.ring[h + i];
            val[i] = b;
            i = i + 1;
        }
        let second_chunk = count - first_chunk;
        let mut j: usize = 0;
        while j < second_chunk
            invariant
                *self == prev,
                prev.wf(),
                h == prev.head,
                count <= prev.size,
                count <= dst0@.len(),
                first_chunk <= count,
                first_chunk <= RING_BUFFER_SZ - h,
                second_chunk == count - first_chunk,
                second_chunk > 0 ==> first_chunk == RING_BUFFER_SZ - h,
                j <= second_chunk,
                val@.len() == dst0@.len(),
                forall|m: int| 0 <= m < first_chunk ==> val@[m] == prev.ring@[h + m],
                forall|m: int| 0 <= m < j ==> val@[first_chunk + m] == prev.ring@[m],
                forall|m: int| first_chunk + j <= m < val@.len() ==> val@[m] == dst0@[m],
            decreases second_chunk - j,
        {
            let b = self.ring[j];
            val[first_chunk + j] = b;
            j = j + 1;
        }
        self.head = (h + count) % RING_BUFFER_SZ;
        self.size = self.size - count;
        proof {
            lemma_dequeue_update(prev, *self, count as int);
            let c = RING_BUFFER_SZ as int;
            let hh = h as int;
            // The bytes copied out are the front of the old contents.
            assert forall|m: int| 0 <= m < count implies val@[m] == prev@[m] by {
                if hh + m < c {
                    lemma_mod_from_parts(hh + m, 0, hh + m);
                } else {
                    lemma_mod_from_parts(hh + m, 1, hh + m - c);
                }
            }
            assert(val@ =~= dequeue_taken(prev@, dst0@.len() as nat) + dst0@.skip(count as int));
            assert(self@ =~= dequeue_rest(prev@, dst0@.len() as nat));
        }
        count
    }
}

} // verus!
