//! A single-producer, single-consumer ring buffer.
//!
//! Built for the threaded pipeline comparison, where the question is whether
//! splitting a short path across two cores beats running it on one.
//!
//! The protocol is in the indices. Each side owns one free-running counter,
//! `tail` or `head`, and caches its last-seen view of the other's, re-reading it
//! only when the cache says the queue is full (producer) or empty (consumer). In
//! steady state each side touches only what it already owns. [`Producer`] and
//! [`Consumer`] are those decisions, free of any storage; a stale view of the
//! other side only ever makes a queue look fuller or emptier than it is, never
//! the reverse, which is what makes the same decisions sound when the two sides
//! run on different cores. [`Ring`] is a queue built from the two.
use vstd::arithmetic::power2::{
    lemma_pow2_adds, lemma_pow2_pos, lemma_pow2_strictly_increases, lemma_pow2_unfold, pow2,
};
use vstd::prelude::*;

verus! {

/// Two to the width of an index.
pub open spec fn wrap() -> int {
    0x1_0000_0000_0000_0000
}

/// How far index `a` is ahead of index `b`.
pub open spec fn ahead(a: int, b: int) -> int {
    (a - b) % wrap()
}

/// One less than a power of two that divides the index space.
pub open spec fn is_mask(mask: u64) -> bool {
    exists|k: nat| k <= 63 && mask + 1 == #[trigger] pow2(k)
}

/// Free-running counts and the wrapped indices that stand for them agree on how
/// far apart they are, as long as that is less than the index space.
proof fn lemma_ahead(a: int, b: int)
    requires
        0 <= b <= a < b + wrap(),
    ensures
        ahead(a % wrap(), b % wrap()) == a - b,
{
    vstd::arithmetic::div_mod::lemma_sub_mod_noop(a, b, wrap());
    vstd::arithmetic::div_mod::lemma_small_mod((a - b) as nat, wrap() as nat);
}

/// A wrapped index lands in the same slot as the count it stands for.
proof fn lemma_slot_of_index(mask: u64, n: int)
    requires
        is_mask(mask),
        0 <= n,
    ensures
        (n % wrap()) % (mask + 1) == n % (mask + 1),
{
    let k = choose|k: nat| k <= 63 && mask + 1 == #[trigger] pow2(k);
    let cap = mask + 1;
    let rest = pow2((64 - k) as nat);
    lemma_pow2_adds(k, (64 - k) as nat);
    vstd::arithmetic::power2::lemma2_to64();
    lemma_pow2_pos((64 - k) as nat);
    assert(wrap() == pow2(64)) by {
        vstd::arithmetic::power2::lemma2_to64_rest();
    }
    assert(wrap() == cap * rest);
    vstd::arithmetic::div_mod::lemma_mod_mod(n, cap, rest as int);
}

/// Distinct counts less than a buffer apart are in distinct slots.
proof fn lemma_slots_distinct(cap: int, a: int, b: int)
    requires
        cap > 0,
        0 <= a < b < a + cap,
    ensures
        a % cap != b % cap,
{
    if a % cap == b % cap {
        vstd::arithmetic::div_mod::lemma_fundamental_div_mod(a, cap);
        vstd::arithmetic::div_mod::lemma_fundamental_div_mod(b, cap);
        let d = b / cap - a / cap;
        assert(b - a == cap * d) by (nonlinear_arith)
            requires
                a == cap * (a / cap) + a % cap,
                b == cap * (b / cap) + b % cap,
                a % cap == b % cap,
                d == b / cap - a / cap,
        ;
        assert(false) by (nonlinear_arith)
            requires
                b - a == cap * d,
                0 < b - a < cap,
                cap > 0,
        ;
    }
}

/// Masking an index picks its slot.
proof fn lemma_mask_is_mod(mask: u64, x: u64)
    requires
        is_mask(mask),
    ensures
        x & mask == x % ((mask + 1) as u64),
        mask + 1 <= u64::MAX,
{
    let k = choose|k: nat| k <= 63 && mask + 1 == #[trigger] pow2(k);
    if k < 63 {
        lemma_pow2_strictly_increases(k, 63);
    }
    vstd::arithmetic::power2::lemma2_to64_rest();
    vstd::bits::lemma_u64_low_bits_mask_is_mod(x, k);
}

/// The writing side: its own index, and its last view of the reader's.
#[derive(Debug, Clone, Copy)]
pub struct Producer {
    /// The buffer is a power of two long so wrapping is a mask, not a modulo.
    pub mask: u64,
    /// Most items the queue may hold, which leaves at least one slot empty.
    pub limit: u64,
    /// Next slot to write.
    pub tail: u64,
    /// Last seen `head`.
    pub cached_head: u64,
}

/// The reading side: its own index, and its last view of the writer's.
#[derive(Debug, Clone, Copy)]
pub struct Consumer {
    pub mask: u64,
    /// Next slot to read.
    pub head: u64,
    /// Last seen `tail`.
    pub cached_tail: u64,
}

impl Producer {
    /// Whether one more item fits, as far as the cached view goes.
    pub open spec fn has_room(self) -> bool {
        ahead(self.tail + 1, self.cached_head as int) <= self.limit
    }

    /// The slot to write next, unless the queue looks full.
    pub fn slot(&self) -> (r: Option<u64>)
        requires
            is_mask(self.mask),
        ensures
            r == (if self.has_room() {
                Some((self.tail as int % (self.mask + 1)) as u64)
            } else {
                None
            }),
    {
        proof {
            lemma_mask_is_mod(self.mask, self.tail);
        }
        let next: u64 = self.tail.wrapping_add(1);
        let distance: u64 = next.wrapping_sub(self.cached_head);
        assert(distance == ahead(self.tail + 1, self.cached_head as int));
        if distance > self.limit {
            None
        } else {
            Some(self.tail & self.mask)
        }
    }

    /// Take a fresh look at the reader's index.
    pub fn refresh(&mut self, head: u64)
        ensures
            *final(self) == (Producer { cached_head: head, ..*old(self) }),
    {
        self.cached_head = head;
    }

    /// Move past the slot just written; returns the index to publish.
    pub fn publish(&mut self) -> (r: u64)
        ensures
            r == (old(self).tail + 1) % wrap(),
            *final(self) == (Producer { tail: r, ..*old(self) }),
    {
        self.tail = self.tail.wrapping_add(1);
        self.tail
    }
}

impl Consumer {
    /// The slot to read next, unless the queue looks empty.
    pub fn slot(&self) -> (r: Option<u64>)
        requires
            is_mask(self.mask),
        ensures
            r == (if self.head != self.cached_tail {
                Some((self.head as int % (self.mask + 1)) as u64)
            } else {
                None
            }),
    {
        proof {
            lemma_mask_is_mod(self.mask, self.head);
        }
        if self.head == self.cached_tail {
            None
        } else {
            Some(self.head & self.mask)
        }
    }

    /// Take a fresh look at the writer's index.
    pub fn refresh(&mut self, tail: u64)
        ensures
            *final(self) == (Consumer { cached_tail: tail, ..*old(self) }),
    {
        self.cached_tail = tail;
    }

    /// Move past the slot just read; returns the index to publish.
    pub fn publish(&mut self) -> (r: u64)
        ensures
            r == (old(self).head + 1) % wrap(),
            *final(self) == (Consumer { head: r, ..*old(self) }),
    {
        self.head = self.head.wrapping_add(1);
        self.head
    }

    /// Items between two indices.
    pub fn queued(tail: u64, head: u64) -> (r: u64)
        ensures
            r == ahead(tail as int, head as int),
    {
        tail.wrapping_sub(head)
    }
}

/// However stale the producer's view of the reader is, a slot it is told to
/// write is not one the reader may still read: with `written` items written,
/// `read` of them read and `seen` of those known to the producer, the slot is
/// outside the live range and the queue stays within its limit.
pub proof fn law_writes_stay_clear(p: Producer, written: int, read: int, seen: int, live: int)
    requires
        is_mask(p.mask),
        p.limit <= p.mask,
        0 <= seen <= read <= live < written,
        written <= seen + p.limit,
        p.tail == written % wrap(),
        p.cached_head == seen % wrap(),
        p.has_room(),
    ensures
        written + 1 <= read + p.limit,
        p.tail as int % (p.mask + 1) != live % (p.mask + 1),
{
    lemma_index_ahead(p, written, seen);
    lemma_slot_of_index(p.mask, written);
    lemma_slots_distinct(p.mask + 1, live, written);
}

/// What the producer reckons from its indices is the distance between the counts
/// they stand for.
proof fn lemma_index_ahead(p: Producer, written: int, seen: int)
    requires
        is_mask(p.mask),
        0 <= seen <= written <= seen + p.mask,
        p.tail == written % wrap(),
        p.cached_head == seen % wrap(),
    ensures
        ahead(p.tail + 1, p.cached_head as int) == written + 1 - seen,
{
    lemma_mask_is_mod(p.mask, 0);
    lemma_ahead(written + 1, seen);
    vstd::arithmetic::div_mod::lemma_add_mod_noop(written, 1, wrap());
    vstd::arithmetic::div_mod::lemma_sub_mod_noop(p.tail + 1, p.cached_head as int, wrap());
    vstd::arithmetic::div_mod::lemma_small_mod(1, wrap() as nat);
    assert((p.tail + 1) % wrap() == (written + 1) % wrap());
    vstd::arithmetic::div_mod::lemma_sub_mod_noop(written + 1, seen, wrap());
    vstd::arithmetic::div_mod::lemma_mod_twice(seen, wrap());
}

/// However stale the consumer's view of the writer is, a slot it is told to read
/// has been written and not yet read.
pub proof fn law_reads_are_published(c: Consumer, written: int, read: int, seen: int)
    requires
        0 <= read <= seen <= written,
        seen < read + wrap(),
        c.head == read % wrap(),
        c.cached_tail == seen % wrap(),
        c.head != c.cached_tail,
    ensures
        read < written,
{
    if read == seen {
        assert(c.head == c.cached_tail);
    }
}

/// A queue shared by two threads, and what has crossed it.
pub struct Shared<T> {
    pub slots: Map<int, T>,
    pub producer: Producer,
    pub consumer: Consumer,
    /// Everything ever pushed, and everything ever popped.
    pub sent: Seq<T>,
    pub got: Seq<T>,
    /// How much of what was popped the producer knows of, and how much of what
    /// was pushed the consumer knows of.
    pub read_seen: int,
    pub written_seen: int,
}

/// Something one of the two threads does.
pub enum Event<T> {
    Push(T),
    Pop,
    /// The producer looks at the reader's index, and sees it as it was when this
    /// many items had been popped.
    SeeHead(int),
    /// The consumer looks at the writer's index, likewise.
    SeeTail(int),
}

impl<T> Shared<T> {
    /// An empty queue of `limit` items in a buffer of `mask + 1` slots.
    pub open spec fn fresh(mask: u64, limit: u64) -> Shared<T> {
        Shared {
            slots: Map::empty(),
            producer: Producer { mask, limit, tail: 0, cached_head: 0 },
            consumer: Consumer { mask, head: 0, cached_tail: 0 },
            sent: Seq::empty(),
            got: Seq::empty(),
            read_seen: 0,
            written_seen: 0,
        }
    }

    /// After one event. A push that finds no room and a pop that finds nothing
    /// change nothing; neither does a look that would go back in time or forward
    /// of what has happened.
    pub open spec fn after(self, e: Event<T>) -> Shared<T> {
        let cap = self.producer.mask + 1;
        match e {
            Event::Push(v) => if self.producer.has_room() {
                Shared {
                    slots: self.slots.insert(self.producer.tail as int % cap, v),
                    producer: Producer {
                        tail: ((self.producer.tail + 1) % wrap()) as u64,
                        ..self.producer
                    },
                    sent: self.sent.push(v),
                    ..self
                }
            } else {
                self
            },
            Event::Pop => if self.consumer.head != self.consumer.cached_tail {
                Shared {
                    consumer: Consumer {
                        head: ((self.consumer.head + 1) % wrap()) as u64,
                        ..self.consumer
                    },
                    got: self.got.push(self.slots[self.consumer.head as int % cap]),
                    ..self
                }
            } else {
                self
            },
            Event::SeeHead(n) => if self.read_seen <= n <= self.got.len() {
                Shared {
                    producer: Producer { cached_head: (n % wrap()) as u64, ..self.producer },
                    read_seen: n,
                    ..self
                }
            } else {
                self
            },
            Event::SeeTail(n) => if self.written_seen <= n <= self.sent.len() {
                Shared {
                    consumer: Consumer { cached_tail: (n % wrap()) as u64, ..self.consumer },
                    written_seen: n,
                    ..self
                }
            } else {
                self
            },
        }
    }

    /// After events in turn.
    pub open spec fn history(mask: u64, limit: u64, events: Seq<Event<T>>) -> Shared<T>
        decreases events.len(),
    {
        if events.len() == 0 {
            Shared::fresh(mask, limit)
        } else {
            Shared::history(mask, limit, events.drop_last()).after(events.last())
        }
    }

    /// The indices stand for the counts, and every item in flight is in its slot.
    spec fn in_order(self, mask: u64, limit: u64) -> bool {
        let cap = mask + 1;
        let written = self.sent.len() as int;
        let read = self.got.len() as int;
        &&& self.producer.mask == mask
        &&& self.producer.limit == limit
        &&& limit <= mask
        &&& self.consumer.mask == mask
        &&& 0 <= self.read_seen <= read <= self.written_seen <= written <= self.read_seen + limit
        &&& self.producer.tail == written % wrap()
        &&& self.producer.cached_head == self.read_seen % wrap()
        &&& self.consumer.head == read % wrap()
        &&& self.consumer.cached_tail == self.written_seen % wrap()
        &&& self.got == self.sent.take(read)
        &&& forall|n: int|
            read <= n < written ==> #[trigger] self.slots[n % cap] == self.sent[n]
    }
}

proof fn lemma_event_keeps_order<T>(s: Shared<T>, e: Event<T>, mask: u64, limit: u64)
    requires
        is_mask(mask),
        s.in_order(mask, limit),
    ensures
        s.after(e).in_order(mask, limit),
{
    let cap = mask + 1;
    let written = s.sent.len() as int;
    let read = s.got.len() as int;
    let next = s.after(e);
    lemma_mask_is_mod(mask, 0);
    match e {
        Event::Push(v) => {
            if s.producer.has_room() {
                lemma_index_ahead(s.producer, written, s.read_seen);
                lemma_slot_of_index(mask, written);
                assert(next.producer.tail == (written + 1) % wrap()) by {
                    vstd::arithmetic::div_mod::lemma_add_mod_noop(written, 1, wrap());
                    vstd::arithmetic::div_mod::lemma_small_mod(1, wrap() as nat);
                }
                assert forall|n: int| read <= n < written + 1 implies #[trigger] next.slots[n % cap]
                    == next.sent[n] by {
                    if n < written {
                        lemma_slots_distinct(cap as int, n, written);
                        assert(s.slots[n % cap] == s.sent[n]);
                    }
                }
                assert(next.got =~= next.sent.take(read));
            }
        },
        Event::Pop => {
            if s.consumer.head != s.consumer.cached_tail {
                assert(read < s.written_seen) by {
                    if read == s.written_seen {
                        assert(s.consumer.head == s.consumer.cached_tail);
                    }
                }
                lemma_slot_of_index(mask, read);
                assert(next.consumer.head == (read + 1) % wrap()) by {
                    vstd::arithmetic::div_mod::lemma_add_mod_noop(read, 1, wrap());
                    vstd::arithmetic::div_mod::lemma_small_mod(1, wrap() as nat);
                }
                assert(s.slots[read % cap] == s.sent[read]);
                assert(next.got =~= next.sent.take(read + 1));
            }
        },
        Event::SeeHead(n) => {},
        Event::SeeTail(n) => {},
    }
}

proof fn lemma_history_in_order<T>(mask: u64, limit: u64, events: Seq<Event<T>>)
    requires
        is_mask(mask),
        limit <= mask,
    ensures
        Shared::history(mask, limit, events).in_order(mask, limit),
    decreases events.len(),
{
    if events.len() == 0 {
        let s = Shared::<T>::fresh(mask, limit);
        assert(s.got =~= s.sent.take(0));
    } else {
        lemma_history_in_order(mask, limit, events.drop_last());
        lemma_event_keeps_order(
            Shared::history(mask, limit, events.drop_last()),
            events.last(),
            mask,
            limit,
        );
    }
}

/// However the steps of the two threads interleave, and however stale each one's
/// view of the other is, every item crosses once and in order: what was popped is
/// what was pushed first, and the queue never holds more than fits.
pub proof fn law_every_interleaving_keeps_order<T>(mask: u64, limit: u64, events: Seq<Event<T>>)
    requires
        is_mask(mask),
        limit <= mask,
    ensures
        ({
            let s = Shared::history(mask, limit, events);
            &&& s.got.len() <= s.sent.len() <= s.got.len() + limit
            &&& s.got == s.sent.take(s.got.len() as int)
        }),
{
    lemma_history_in_order(mask, limit, events);
}

/// An item that was pushed and not popped can be popped once its index is seen,
/// and it is the oldest one; a queue with room takes an item once its reader is
/// seen.
pub proof fn law_looking_is_enough<T>(mask: u64, limit: u64, events: Seq<Event<T>>, v: T)
    requires
        is_mask(mask),
        limit <= mask,
    ensures
        ({
            let s = Shared::history(mask, limit, events);
            let looked = s.after(Event::SeeTail(s.sent.len() as int));
            let popped = looked.after(Event::Pop);
            let freed = s.after(Event::SeeHead(s.got.len() as int));
            let pushed = freed.after(Event::Push(v));
            &&& s.got.len() < s.sent.len() ==> popped.got == s.got.push(s.sent[s.got.len() as int])
            &&& s.sent.len() < s.got.len() + limit ==> pushed.sent == s.sent.push(v)
        }),
{
    let s = Shared::history(mask, limit, events);
    lemma_history_in_order(mask, limit, events);
    let looked = s.after(Event::SeeTail(s.sent.len() as int));
    lemma_event_keeps_order(s, Event::SeeTail(s.sent.len() as int), mask, limit);
    let read = s.got.len() as int;
    let written = s.sent.len() as int;
    lemma_mask_is_mod(mask, 0);
    if read < written {
        assert(looked.consumer.head != looked.consumer.cached_tail) by {
            lemma_ahead(written, read);
            vstd::arithmetic::div_mod::lemma_small_mod(0, wrap() as nat);
        }
        lemma_slot_of_index(mask, read);
        assert(s.slots[read % (mask + 1)] == s.sent[read]);
    }
    let freed = s.after(Event::SeeHead(read));
    lemma_event_keeps_order(s, Event::SeeHead(read), mask, limit);
    if written < read + limit {
        lemma_index_ahead(freed.producer, written, read);
    }
}

/// A bounded first-in, first-out queue in one block of slots.
pub struct Ring<T> {
    slots: Vec<Option<T>>,
    producer: Producer,
    consumer: Consumer,
    /// Items ever written, ever read, and how many of each the other side knows.
    counts: Ghost<Counts>,
}

/// The free-running counts behind a ring's indices.
pub struct Counts {
    pub written: int,
    pub read: int,
    pub read_seen: int,
    pub written_seen: int,
}

impl<T> Ring<T> {
    /// The item at count `n`.
    spec fn item(self, n: int) -> Option<T> {
        self.slots@[n % (self.producer.mask + 1)]
    }

    /// How many items fit.
    pub closed spec fn capacity(self) -> nat {
        self.producer.limit as nat
    }

    pub closed spec fn wf(self) -> bool {
        let c = self.counts@;
        let mask = self.producer.mask;
        &&& is_mask(mask)
        &&& self.consumer.mask == mask
        &&& self.slots@.len() == mask + 1
        &&& mask < usize::MAX
        &&& self.producer.limit <= mask
        &&& 0 <= c.read_seen <= c.read <= c.written_seen <= c.written <= c.read_seen
            + self.producer.limit
        &&& self.producer.tail == c.written % wrap()
        &&& self.producer.cached_head == c.read_seen % wrap()
        &&& self.consumer.head == c.read % wrap()
        &&& self.consumer.cached_tail == c.written_seen % wrap()
        &&& forall|n: int| c.read <= n < c.written ==> (#[trigger] self.item(n)) is Some
    }
}

impl<T> View for Ring<T> {
    type V = Seq<T>;

    /// The items queued, oldest first.
    closed spec fn view(&self) -> Seq<T> {
        Seq::new(
            (self.counts@.written - self.counts@.read) as nat,
            |i: int| self.item(self.counts@.read + i)->Some_0,
        )
    }
}

/// Create a queue holding up to `capacity - 1` items.
///
/// At least one slot is always left empty so a full queue is distinguishable from
/// an empty one without a separate counter, which would be a third contended
/// field. The buffer is rounded up to a power of two; the limit is not.
pub fn channel<T>(capacity: usize) -> (r: Ring<T>)
    requires
        capacity <= usize::MAX / 2,
    ensures
        r.wf(),
        r@ == Seq::<T>::empty(),
        capacity >= 1 ==> r.capacity() == capacity - 1,
        capacity == 0 ==> r.capacity() == 0,
{
    let mut cap: usize = 1;
    let ghost mut k: nat = 0;
    proof {
        vstd::arithmetic::power2::lemma2_to64();
        vstd::arithmetic::power2::lemma2_to64_rest();
    }
    while cap < capacity
        invariant
            capacity <= usize::MAX / 2,
            cap == pow2(k),
            1 <= cap <= usize::MAX,
        decreases 2 * capacity - cap,
    {
        proof {
            lemma_pow2_unfold(k + 1);
            k = k + 1;
        }
        cap = cap * 2;
    }
    proof {
        if k > 63 {
            lemma_pow2_strictly_increases(63, k);
            lemma_pow2_unfold(64);
            if k > 64 {
                lemma_pow2_strictly_increases(64, k);
            }
        }
    }
    let mask: u64 = (cap - 1) as u64;
    let limit: u64 = if capacity == 0 {
        0
    } else {
        (capacity - 1) as u64
    };
    assert(mask + 1 == pow2(k));
    let mut slots: Vec<Option<T>> = Vec::with_capacity(cap);
    let mut i: usize = 0;
    while i < cap
        invariant
            i <= cap,
            slots@.len() == i,
        decreases cap - i,
    {
        slots.push(None);
        i = i + 1;
    }
    let r = Ring {
        slots,
        producer: Producer { mask, limit, tail: 0, cached_head: 0 },
        consumer: Consumer { mask, head: 0, cached_tail: 0 },
        counts: Ghost(Counts { written: 0, read: 0, read_seen: 0, written_seen: 0 }),
    };
    assert(r@ =~= Seq::<T>::empty());
    r
}

impl<T> Ring<T> {
    /// Enqueue, or hand the value back if the queue is full.
    pub fn push(&mut self, value: T) -> (r: Result<(), T>)
        requires
            old(self).wf(),
        ensures
            final(self).wf(),
            final(self).capacity() == old(self).capacity(),
            match r {
                Ok(()) => old(self)@.len() < old(self).capacity() && final(self)@ == old(
                    self,
                )@.push(value),
                Err(v) => old(self)@.len() == old(self).capacity() && v == value && final(self)@
                    == old(self)@,
            },
    {
        let ghost c = self.counts@;
        let ghost mask = self.producer.mask;
        proof {
            lemma_index_ahead(self.producer, c.written, c.read_seen);
            lemma_slot_of_index(mask, c.written);
            lemma_mask_is_mod(mask, 0);
        }
        // Only consult the reader's index when the cached view says full.
        let mut slot: Option<u64> = self.producer.slot();
        if slot.is_none() {
            self.producer.refresh(self.consumer.head);
            self.counts = Ghost(Counts { read_seen: c.read, ..c });
            proof {
                lemma_index_ahead(self.producer, c.written, c.read);
                assert forall|n: int| c.read <= n < c.written implies (#[trigger] self.item(
                    n,
                )) is Some by {
                    assert(old(self).item(n) is Some);
                }
            }
            slot = self.producer.slot();
        }
        match slot {
            None => {
                assert(self@ =~= old(self)@);
                Err(value)
            },
            Some(s) => {
                let ghost seen = self.counts@.read_seen;
                self.slots.set(s as usize, Some(value));
                self.producer.publish();
                self.counts = Ghost(Counts { written: c.written + 1, ..self.counts@ });
                proof {
                    vstd::arithmetic::div_mod::lemma_add_mod_noop(c.written, 1, wrap());
                    vstd::arithmetic::div_mod::lemma_small_mod(1, wrap() as nat);
                    assert forall|n: int| c.read <= n < c.written implies (#[trigger] self.item(n))
                        == old(self).item(n) && self.item(n) is Some by {
                        assert(old(self).item(n) is Some);
                        lemma_slots_distinct(mask + 1, n, c.written);
                    }
                    assert(self.item(c.written) == Some(value));
                    assert(self@ =~= old(self)@.push(value));
                }
                Ok(())
            },
        }
    }

    /// Dequeue, or `None` if empty.
    pub fn pop(&mut self) -> (r: Option<T>)
        requires
            old(self).wf(),
        ensures
            final(self).wf(),
            final(self).capacity() == old(self).capacity(),
            match r {
                Some(v) => old(self)@.len() > 0 && v == old(self)@[0] && final(self)@ == old(
                    self,
                )@.drop_first(),
                None => old(self)@.len() == 0 && final(self)@ == old(self)@,
            },
    {
        let ghost c = self.counts@;
        let ghost mask = self.producer.mask;
        proof {
            lemma_mask_is_mod(mask, 0);
            lemma_slot_of_index(mask, c.read);
            lemma_ahead(c.written_seen, c.read);
            lemma_ahead(c.written, c.read);
            vstd::arithmetic::div_mod::lemma_small_mod(0, wrap() as nat);
        }
        let mut slot: Option<u64> = self.consumer.slot();
        if slot.is_none() {
            self.consumer.refresh(self.producer.tail);
            self.counts = Ghost(Counts { written_seen: c.written, ..c });
            proof {
                assert forall|n: int| c.read <= n < c.written implies (#[trigger] self.item(
                    n,
                )) is Some by {
                    assert(old(self).item(n) is Some);
                }
            }
            slot = self.consumer.slot();
        }
        match slot {
            None => {
                assert(self@ =~= old(self)@);
                None
            },
            Some(s) => {
                assert(old(self).item(c.read) is Some);
                let value = self.slots[s as usize].take();
                self.consumer.publish();
                self.counts = Ghost(Counts { read: c.read + 1, ..self.counts@ });
                proof {
                    vstd::arithmetic::div_mod::lemma_add_mod_noop(c.read, 1, wrap());
                    vstd::arithmetic::div_mod::lemma_small_mod(1, wrap() as nat);
                    assert forall|n: int| c.read + 1 <= n < c.written implies (#[trigger] self.item(
                        n,
                    )) == old(self).item(n) && self.item(n) is Some by {
                        assert(old(self).item(n) is Some);
                        lemma_slots_distinct(mask + 1, c.read, n);
                    }
                    assert(self@ =~= old(self)@.drop_first());
                }
                value
            },
        }
    }

    /// Items currently queued.
    pub fn len(&self) -> (r: usize)
        requires
            self.wf(),
        ensures
            r == self@.len(),
    {
        proof {
            lemma_mask_is_mod(self.producer.mask, 0);
            lemma_ahead(self.counts@.written, self.counts@.read);
        }
        Consumer::queued(self.producer.tail, self.consumer.head) as usize
    }

    pub fn is_empty(&self) -> (r: bool)
        requires
            self.wf(),
        ensures
            r == (self@.len() == 0),
    {
        self.len() == 0
    }
}

}
