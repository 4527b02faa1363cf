use std::cell::Cell;
use std::collections::HashSet;
use std::rc::Rc;

use latency_ladder::pipeline::spsc::{channel, Consumer, Producer};

#[derive(Debug)]
struct Counted(Rc<Cell<u32>>);

impl Drop for Counted {
    fn drop(&mut self) {
        self.0.set(self.0.get() + 1);
    }
}

#[test]
fn round_trips_in_order() {
    let mut q = channel::<u64>(8);
    for i in 0..7 {
        q.push(i).unwrap();
    }
    for i in 0..7 {
        assert_eq!(q.pop(), Some(i));
    }
    assert_eq!(q.pop(), None);
}

/// One slot is deliberately sacrificed to tell full from empty.
#[test]
fn capacity_is_one_less_than_the_buffer() {
    let mut q = channel::<u32>(4);
    for i in 0..3 {
        q.push(i).unwrap();
    }
    assert_eq!(q.push(99), Err(99), "the fourth slot stays empty");
    assert_eq!(q.pop(), Some(0));
    q.push(99).unwrap();
}

#[test]
fn wraps_around_many_times() {
    let mut q = channel::<u64>(4);
    for i in 0..10_000u64 {
        q.push(i).unwrap();
        assert_eq!(q.pop(), Some(i));
    }
    assert!(q.is_empty());
}

/// The buffer is a power of two long, but the queue holds what it was made for.
#[test]
fn capacity_is_not_rounded_up() {
    let mut q = channel::<u32>(5);
    for i in 0..4 {
        assert_eq!(q.push(i), Ok(()));
    }
    assert_eq!(q.push(4), Err(4));
    assert_eq!(q.len(), 4);
    assert_eq!(q.pop(), Some(0));
    assert_eq!(q.push(4), Ok(()));
    let left: Vec<u32> = (0..4).map(|_| q.pop().unwrap()).collect();
    assert_eq!(left, vec![1, 2, 3, 4]);
    for none in [0, 1] {
        assert_eq!(channel::<u32>(none).push(7), Err(7), "no room at all");
    }
}

/// A queued item's destructor must still run when the queue is dropped.
#[test]
fn dropping_a_non_empty_queue_drops_its_items() {
    let drops = Rc::new(Cell::new(0));
    {
        let mut q = channel::<Counted>(8);
        for _ in 0..5 {
            q.push(Counted(Rc::clone(&drops))).unwrap();
        }
        drop(q.pop()); // one drained and dropped here
        assert_eq!(drops.get(), 1);
    }
    assert_eq!(
        drops.get(),
        5,
        "the four still queued must be dropped with the queue"
    );
}

/// Two threads at a queue of two slots: what each has done, and where it is
/// between writing or reading a slot and publishing its index.
#[derive(Clone, Copy, PartialEq, Eq, Hash)]
struct Schedule {
    slots: [Option<usize>; 2],
    head: u64,
    tail: u64,
    writer: (u64, u64),
    reader: (u64, u64),
    wrote: bool,
    read: bool,
    sent: usize,
    got: usize,
}

fn start() -> Schedule {
    Schedule {
        slots: [None; 2],
        head: 0,
        tail: 0,
        writer: (0, 0),
        reader: (0, 0),
        wrote: false,
        read: false,
        sent: 0,
        got: 0,
    }
}

/// The producer's next step: look again, write a slot, or publish it.
fn produce(mut s: Schedule, items: &[usize]) -> Schedule {
    let mut p = Producer {
        mask: 1,
        limit: 1,
        tail: s.writer.0,
        cached_head: s.writer.1,
    };
    if s.wrote {
        s.tail = p.publish();
        s.wrote = false;
        s.sent += 1;
    } else if s.sent < items.len() {
        match p.slot() {
            None => p.refresh(s.head),
            Some(i) => {
                assert_eq!(s.slots[i as usize], None, "a live slot is never overwritten");
                s.slots[i as usize] = Some(items[s.sent]);
                s.wrote = true;
            }
        }
    }
    s.writer = (p.tail, p.cached_head);
    s
}

/// The consumer's next step: look again, read a slot, or publish that it did.
fn consume(mut s: Schedule, items: &[usize]) -> Schedule {
    let mut c = Consumer {
        mask: 1,
        head: s.reader.0,
        cached_tail: s.reader.1,
    };
    if s.read {
        s.head = c.publish();
        s.read = false;
    } else if s.got < items.len() {
        match c.slot() {
            None => c.refresh(s.tail),
            Some(i) => {
                let v = s.slots[i as usize].take().expect("a visible index implies a visible value");
                assert_eq!(v, items[s.got], "items must arrive in order");
                s.got += 1;
                s.read = true;
            }
        }
    }
    s.reader = (c.head, c.cached_tail);
    s
}

/// Every schedule of the two threads, followed to its end.
fn explore(items: &[usize]) -> usize {
    let mut seen = HashSet::new();
    let mut open = vec![start()];
    let mut complete = 0;
    while let Some(s) = open.pop() {
        if !seen.insert(s) {
            continue;
        }
        if s.sent == items.len() && s.got == items.len() && !s.read {
            complete += 1;
        }
        open.push(produce(s, items));
        open.push(consume(s, items));
    }
    complete
}

/// Every item crosses exactly once and in order, under every interleaving. Three
/// items over two slots force the queue to wrap and to hit both boundaries.
#[test]
fn transfer_is_correct_under_every_interleaving() {
    assert!(explore(&[0, 1, 2]) > 0, "some schedule finishes");
}

/// A consumer that runs ahead must observe emptiness, never a torn or stale slot.
#[test]
fn a_pop_never_observes_an_unpublished_slot() {
    assert!(explore(&[42]) > 0, "some schedule finishes");
    // Written but not published: the consumer must not see it.
    let written = produce(start(), &[42]);
    assert!(written.wrote);
    let looked = consume(consume(written, &[42]), &[42]);
    assert_eq!(looked.got, 0);
    let published = produce(looked, &[42]);
    assert_eq!(consume(consume(published, &[42]), &[42]).got, 1);
}
