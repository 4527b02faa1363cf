//! Gap detection, duplicate suppression, and A/B feed arbitration.
//!
//! Exchanges publish market data twice, down physically separate paths, and a
//! receiver is expected to consume both and take whichever copy of each segment
//! arrives first. The two feeds carry *identical* sequence numbers, so A/B
//! arbitration is not a separate algorithm: it is deduplication by sequence
//! number over the merged stream.
//!
//! Three states have to be told apart, and conflating any two is a real bug:
//!
//! * `got == expected`: deliver.
//! * `got < expected`: already seen. The B-feed copy, or a retransmit. Drop it.
//! * `got > expected`: a gap. Segments are held, in order, until the missing
//!   ones arrive; if they do not, the stream is unrecoverable without a
//!   retransmission request to the recovery service.
//!
//! UDP reorders, so a gap is *not* immediately a loss, which is why segments
//! ahead of their turn are held rather than discarded.
use std::collections::BTreeMap;
use vstd::prelude::*;

use crate::tree::{
    greatest, is_least, largest, least, lemma_ends_exist, lemma_integer_keys, smallest,
};

verus! {

/// What the receiver should do with a segment.
#[derive(Debug, Clone, Copy, PartialEq, Eq, Structural)]
pub enum Action {
    /// In order. Process its messages now.
    Deliver,
    /// Seen before: the other side of an A/B pair, or a retransmit.
    Duplicate,
    /// Ahead of the expected sequence. Held pending the missing segments.
    Buffered { expected: i64, got: i64 },
    /// The session id changed, so sequence numbers restarted.
    SessionReset,
    /// Carries no messages; does not advance the sequence.
    Heartbeat,
}

/// Counters worth reporting at the end of a run.
#[derive(Debug, Clone, Copy, PartialEq, Eq, Structural)]
pub struct Stats {
    pub delivered: u64,
    pub duplicates: u64,
    pub buffered: u64,
    pub gaps_opened: u64,
    pub gaps_healed: u64,
    pub messages_lost: u64,
    pub session_resets: u64,
    pub heartbeats: u64,
}

impl Default for Stats {
    fn default() -> (r: Stats)
        ensures
            r@ == StatsView::zero(),
    {
        Stats {
            delivered: 0,
            duplicates: 0,
            buffered: 0,
            gaps_opened: 0,
            gaps_healed: 0,
            messages_lost: 0,
            session_resets: 0,
            heartbeats: 0,
        }
    }
}

/// The counters as unbounded numbers.
pub struct StatsView {
    pub delivered: int,
    pub duplicates: int,
    pub buffered: int,
    pub gaps_opened: int,
    pub gaps_healed: int,
    pub messages_lost: int,
    pub session_resets: int,
    pub heartbeats: int,
}

impl View for Stats {
    type V = StatsView;

    open spec fn view(&self) -> StatsView {
        StatsView {
            delivered: self.delivered as int,
            duplicates: self.duplicates as int,
            buffered: self.buffered as int,
            gaps_opened: self.gaps_opened as int,
            gaps_healed: self.gaps_healed as int,
            messages_lost: self.messages_lost as int,
            session_resets: self.session_resets as int,
            heartbeats: self.heartbeats as int,
        }
    }
}

impl StatsView {
    pub open spec fn zero() -> StatsView {
        StatsView {
            delivered: 0,
            duplicates: 0,
            buffered: 0,
            gaps_opened: 0,
            gaps_healed: 0,
            messages_lost: 0,
            session_resets: 0,
            heartbeats: 0,
        }
    }

    /// Every counter but the loss count can grow by `n`.
    pub open spec fn room(self, n: nat) -> bool {
        &&& self.delivered + n <= u64::MAX
        &&& self.duplicates + n <= u64::MAX
        &&& self.buffered + n <= u64::MAX
        &&& self.gaps_opened + n <= u64::MAX
        &&& self.gaps_healed + n <= u64::MAX
        &&& self.session_resets + n <= u64::MAX
        &&& self.heartbeats + n <= u64::MAX
    }
}

/// Sequencing state.
#[verifier::ext_equal]
pub struct SeqView {
    pub session: Option<u32>,
    pub expected: int,
    /// Message counts of the segments ahead of `expected`, by first sequence.
    pub held: Map<i64, u16>,
    pub max_held: nat,
    pub stats: StatsView,
}

impl SeqView {
    /// A sequencer that has seen nothing.
    pub open spec fn fresh(max_held: nat) -> SeqView {
        SeqView {
            session: None,
            expected: 0,
            held: Map::empty(),
            max_held,
            stats: StatsView::zero(),
        }
    }

    /// Everything held is ahead of what is awaited and carries messages, a
    /// sequencer without a session holds nothing, and the buffer is bounded.
    pub open spec fn wf(self) -> bool {
        &&& i64::MIN <= self.expected <= i64::MAX
        &&& self.held.dom().finite()
        &&& self.held.dom().len() <= self.max_held
        &&& self.session is None ==> self.held.dom().is_empty()
        &&& forall|k: i64| #[trigger]
            self.held.contains_key(k) ==> self.expected < k && 1 <= self.held[k] && k
                + self.held[k] <= i64::MAX
    }

    /// Release one held segment: delivered if it is the one awaited, dropped if
    /// it has been overtaken.
    pub open spec fn released(self, k: i64) -> SeqView {
        let held = self.held.remove(k);
        let in_turn = k == self.expected;
        SeqView {
            expected: if in_turn {
                k + self.held[k]
            } else {
                self.expected
            },
            held,
            stats: StatsView {
                delivered: self.stats.delivered + if in_turn {
                    1int
                } else {
                    0
                },
                duplicates: self.stats.duplicates + if in_turn {
                    0int
                } else {
                    1
                },
                gaps_healed: self.stats.gaps_healed + if held.dom().is_empty() {
                    1int
                } else {
                    0
                },
                ..self.stats
            },
            ..self
        }
    }

    /// Release held segments, lowest first, until the lowest is still ahead.
    pub open spec fn drained(self) -> SeqView
        decreases self.held.dom().len(),
    {
        let k = least(self.held);
        if self.held.dom().finite() && self.held.contains_key(k) && k <= self.expected {
            self.released(k).drained()
        } else {
            self
        }
    }

    /// Take in `[first, first + count)` as the next messages in turn.
    pub open spec fn taken(self, first: int, count: int) -> SeqView {
        SeqView {
            expected: first + count,
            stats: StatsView { delivered: self.stats.delivered + 1, ..self.stats },
            ..self
        }
    }

    /// Offer a segment: the state after, and what to do with it.
    pub open spec fn observed(self, session: u32, first: i64, count: u16) -> (SeqView, Action) {
        let joined = if self.session is None {
            SeqView { session: Some(session), expected: first as int, ..self }
        } else {
            self
        };
        if count == 0 {
            (
                SeqView {
                    stats: StatsView {
                        heartbeats: joined.stats.heartbeats + 1,
                        ..joined.stats
                    },
                    ..joined
                },
                Action::Heartbeat,
            )
        } else if joined.session != Some(session) {
            let cleared = SeqView {
                session: Some(session),
                held: Map::empty(),
                stats: StatsView {
                    session_resets: self.stats.session_resets + 1,
                    ..self.stats
                },
                ..self
            };
            (cleared.taken(first as int, count as int), Action::SessionReset)
        } else if first < joined.expected {
            (
                SeqView {
                    stats: StatsView {
                        duplicates: joined.stats.duplicates + 1,
                        ..joined.stats
                    },
                    ..joined
                },
                Action::Duplicate,
            )
        } else if first > joined.expected {
            let fits = joined.held.dom().len() < joined.max_held;
            (
                SeqView {
                    held: if fits {
                        joined.held.insert(first, count)
                    } else {
                        joined.held
                    },
                    stats: StatsView {
                        gaps_opened: joined.stats.gaps_opened + if joined.held.dom().is_empty() {
                            1int
                        } else {
                            0
                        },
                        buffered: joined.stats.buffered + if fits {
                            1int
                        } else {
                            0
                        },
                        ..joined.stats
                    },
                    ..joined
                },
                Action::Buffered { expected: joined.expected as i64, got: first },
            )
        } else {
            (joined.taken(first as int, count as int).drained(), Action::Deliver)
        }
    }

    /// Every counter still fits once the segment is offered, and so do its sequence
    /// numbers, unless they are never looked at.
    pub open spec fn can_observe(self, session: u32, first: i64, count: u16) -> bool {
        let (next, action) = self.observed(session, first, count);
        &&& next.stats.room(0)
        &&& first + count <= i64::MAX || action is Duplicate
    }

    /// How many messages lie between what is awaited and the lowest held segment.
    pub open spec fn missing(self) -> int {
        if self.held.dom().is_empty() || least(self.held) < self.expected {
            0
        } else {
            least(self.held) - self.expected
        }
    }

    /// The largest sequence number anything held starts at, or the one awaited
    /// if nothing is held.
    pub open spec fn furthest(self) -> int {
        if self.held.dom().is_empty() {
            self.expected
        } else {
            greatest(self.held) as int
        }
    }

    /// Give up on the gap below the lowest held segment.
    pub open spec fn resynced(self) -> SeqView {
        let k = least(self.held);
        let lost = SeqView {
            held: self.held.remove(k),
            stats: StatsView {
                messages_lost: self.stats.messages_lost + self.missing(),
                ..self.stats
            },
            ..self
        };
        lost.taken(k as int, self.held[k] as int).drained()
    }
}

/// What draining keeps: it only ever moves forward, and restores order.
pub proof fn lemma_drained(st: SeqView)
    requires
        st.held.dom().finite(),
        i64::MIN <= st.expected <= i64::MAX,
        forall|k: i64| #[trigger]
            st.held.contains_key(k) ==> 1 <= st.held[k] && k + st.held[k] <= i64::MAX,
    ensures
        ({
            let d = st.drained();
            &&& d.session == st.session
            &&& d.max_held == st.max_held
            &&& d.held.submap_of(st.held)
            &&& d.held.dom().finite()
            &&& d.held.dom().len() <= st.held.dom().len()
            &&& st.expected <= d.expected <= i64::MAX
            &&& forall|k: i64| #[trigger]
                d.held.contains_key(k) ==> d.expected < k && 1 <= d.held[k] && k + d.held[k]
                    <= i64::MAX
            &&& st.stats.delivered <= d.stats.delivered
            &&& st.stats.duplicates <= d.stats.duplicates
            &&& d.stats.delivered + d.stats.duplicates + d.held.dom().len() == st.stats.delivered
                + st.stats.duplicates + st.held.dom().len()
            &&& st.stats.gaps_healed <= d.stats.gaps_healed
            &&& d.stats.gaps_healed <= st.stats.gaps_healed + 1
            &&& st.held.dom().is_empty() ==> d.stats.gaps_healed == st.stats.gaps_healed
            &&& d.stats.buffered == st.stats.buffered
            &&& d.stats.gaps_opened == st.stats.gaps_opened
            &&& d.stats.messages_lost == st.stats.messages_lost
            &&& d.stats.session_resets == st.stats.session_resets
            &&& d.stats.heartbeats == st.stats.heartbeats
        }),
    decreases st.held.dom().len(),
{
    let k = least(st.held);
    if !st.held.dom().is_empty() {
        lemma_ends_exist(st.held);
        if k <= st.expected {
            lemma_drained(st.released(k));
        }
    } else {
        assert forall|j: i64| !st.held.contains_key(j) by {
            assert(!st.held.dom().contains(j));
        }
    }
}

/// What offering a segment keeps: the state stays sound, the buffer stays
/// within its bound, and within a session the awaited number never goes back.
pub proof fn lemma_observed(st: SeqView, session: u32, first: i64, count: u16)
    requires
        st.wf(),
        first + count <= i64::MAX,
    ensures
        ({
            let next = st.observed(session, first, count).0;
            &&& next.wf()
            &&& next.max_held == st.max_held
            &&& next.session is Some
            &&& st.session == Some(session) ==> next.session == st.session && st.expected
                <= next.expected
            &&& next.stats.delivered + next.held.dom().len() <= st.stats.delivered
                + st.held.dom().len() + 1
            &&& next.stats.duplicates + next.held.dom().len() <= st.stats.duplicates
                + st.held.dom().len() + 1
            &&& next.held.dom().len() <= st.held.dom().len() + 1
            &&& next.stats.buffered <= st.stats.buffered + 1
            &&& next.stats.gaps_opened <= st.stats.gaps_opened + 1
            &&& next.stats.gaps_healed <= st.stats.gaps_healed + 1
            &&& next.stats.session_resets <= st.stats.session_resets + 1
            &&& next.stats.heartbeats <= st.stats.heartbeats + 1
            &&& next.stats.messages_lost == st.stats.messages_lost
        }),
{
    let joined = if st.session is None {
        SeqView { session: Some(session), expected: first as int, ..st }
    } else {
        st
    };
    if count != 0 && joined.session == Some(session) && first == joined.expected {
        lemma_drained(joined.taken(first as int, count as int));
    }
}

/// Whatever is held after a segment is offered was held before or is that
/// segment, and is of the same session.
pub proof fn lemma_held_comes_from(st: SeqView, session: u32, first: i64, count: u16, k: i64)
    requires
        st.wf(),
        first + count <= i64::MAX,
        st.observed(session, first, count).0.held.contains_key(k),
    ensures
        st.held.contains_key(k) || k == first,
        st.expected <= st.observed(session, first, count).0.expected,
{
    let joined = if st.session is None {
        SeqView { session: Some(session), expected: first as int, ..st }
    } else {
        st
    };
    if st.session is None {
        assert(!st.held.dom().contains(k));
    }
    if count != 0 && joined.session == Some(session) && first == joined.expected {
        lemma_drained(joined.taken(first as int, count as int));
    }
}

/// Giving up on a gap keeps the state sound, and counts what was skipped.
pub proof fn lemma_resynced(st: SeqView)
    requires
        st.wf(),
        !st.held.dom().is_empty(),
    ensures
        ({
            let next = st.resynced();
            &&& next.wf()
            &&& next.session == st.session
            &&& next.max_held == st.max_held
            &&& next.held.dom().len() < st.held.dom().len()
            &&& next.held.submap_of(st.held)
            &&& st.expected < next.expected
            &&& least(st.held) < next.expected
            &&& next.stats.messages_lost == st.stats.messages_lost + (least(st.held) - st.expected)
            &&& next.stats.delivered + next.held.dom().len() <= st.stats.delivered
                + st.held.dom().len()
            &&& next.stats.duplicates + next.held.dom().len() <= st.stats.duplicates
                + st.held.dom().len()
            &&& next.stats.gaps_healed <= st.stats.gaps_healed + 1
            &&& next.stats.buffered == st.stats.buffered
            &&& next.stats.gaps_opened == st.stats.gaps_opened
            &&& next.stats.session_resets == st.stats.session_resets
            &&& next.stats.heartbeats == st.stats.heartbeats
        }),
{
    lemma_ends_exist(st.held);
    let k = least(st.held);
    let lost = SeqView {
        held: st.held.remove(k),
        stats: StatsView {
            messages_lost: st.stats.messages_lost + st.missing(),
            ..st.stats
        },
        ..st
    };
    lemma_drained(lost.taken(k as int, st.held[k] as int));
}

/// Per-channel sequencing state.
pub struct Sequencer {
    session: Option<u32>,
    expected: i64,
    /// Segments ahead of `expected`: their message counts, keyed by their first
    /// sequence number.
    held: BTreeMap<i64, u16>,
    max_held: usize,
    pub stats: Stats,
}

impl View for Sequencer {
    type V = SeqView;

    closed spec fn view(&self) -> SeqView {
        SeqView {
            session: self.session,
            expected: self.expected as int,
            held: self.held@,
            max_held: self.max_held as nat,
            stats: self.stats@,
        }
    }
}

impl Default for Sequencer {
    fn default() -> (r: Sequencer)
        ensures
            r@ == SeqView::fresh(1024),
            r@.wf(),
    {
        Sequencer::new(1024)
    }
}

impl Sequencer {
    /// `max_held` bounds the reorder buffer. Without a bound, a permanently lost
    /// segment would make the buffer grow for the rest of the session.
    pub fn new(max_held: usize) -> (r: Sequencer)
        ensures
            r@ == SeqView::fresh(max_held as nat),
            r@.wf(),
    {
        Sequencer {
            session: None,
            expected: 0,
            held: BTreeMap::new(),
            max_held,
            stats: Stats::default(),
        }
    }

    /// Sequence number currently awaited.
    pub fn expected(&self) -> (r: i64)
        ensures
            r == self@.expected,
    {
        self.expected
    }

    /// The counters.
    pub fn counters(&self) -> (r: Stats)
        ensures
            r@ == self@.stats,
    {
        self.stats
    }

    /// Offer a segment, identified by its session, first sequence and count.
    pub fn observe(&mut self, session: u32, first_sequence: i64, message_count: u16) -> (r: Action)
        requires
            old(self)@.wf(),
            old(self)@.can_observe(session, first_sequence, message_count),
        ensures
            final(self)@.wf(),
            (final(self)@, r) == old(self)@.observed(session, first_sequence, message_count),
    {
        broadcast use vstd::std_specs::btree::group_btree_axioms;

        proof {
            lemma_integer_keys();
        }
        // A heartbeat proves liveness and nothing else. Treating its sequence as
        // authoritative would let a quiet channel silently reset `expected`.
        if message_count == 0 {
            self.stats.heartbeats = self.stats.heartbeats + 1;
            if self.session.is_none() {
                self.session = Some(session);
                self.expected = first_sequence;
            }
            return Action::Heartbeat;
        }
        match self.session {
            None => {
                // Join mid-stream: whatever arrives first defines the origin.
                self.session = Some(session);
                self.expected = first_sequence;
            },
            Some(s) => {
                if s != session {
                    self.session = Some(session);
                    self.held.clear();
                    self.stats.session_resets = self.stats.session_resets + 1;
                    self.stats.delivered = self.stats.delivered + 1;
                    self.expected = first_sequence + message_count as i64;
                    return Action::SessionReset;
                }
            },
        }
        if first_sequence < self.expected {
            self.stats.duplicates = self.stats.duplicates + 1;
            return Action::Duplicate;
        }
        if first_sequence > self.expected {
            let expected = self.expected;
            if self.held.is_empty() {
                self.stats.gaps_opened = self.stats.gaps_opened + 1;
            }
            if self.held.len() < self.max_held {
                self.held.insert(first_sequence, message_count);
                self.stats.buffered = self.stats.buffered + 1;
            }
            return Action::Buffered { expected, got: first_sequence };
        }
        proof {
            let joined = SeqView { expected: first_sequence as int, ..self@ };
            lemma_drained(joined.taken(first_sequence as int, message_count as int));
        }
        self.expected = first_sequence + message_count as i64;
        self.stats.delivered = self.stats.delivered + 1;
        self.drain_held();
        Action::Deliver
    }

    /// Release any held segments that are now contiguous.
    fn drain_held(&mut self)
        requires
            old(self)@.drained().stats.room(0),
            forall|k: i64| #[trigger]
                old(self)@.held.contains_key(k) ==> 1 <= old(self)@.held[k] && k
                    + old(self)@.held[k] <= i64::MAX,
        ensures
            final(self)@ == old(self)@.drained(),
    {
        broadcast use vstd::std_specs::btree::group_btree_axioms;

        loop
            invariant
                self@.drained() == old(self)@.drained(),
                self@.drained().stats.room(0),
                forall|k: i64| #[trigger]
                    self@.held.contains_key(k) ==> 1 <= self@.held[k] && k + self@.held[k]
                        <= i64::MAX,
            decreases self@.held.dom().len(),
        {
            proof {
                lemma_integer_keys();
            }
            match smallest(&self.held) {
                None => {
                    assert(!self@.held.contains_key(least(self@.held))) by {
                        assert(!self@.held.dom().contains(least(self@.held)));
                    }
                    return ;
                },
                Some((seq, count)) => {
                    if seq > self.expected {
                        return ;
                    }
                    let ghost before = self@;
                    proof {
                        lemma_drained(before.released(seq));
                    }
                    self.held.remove(&seq);
                    // A held segment can also be a duplicate once the gap closes.
                    if seq == self.expected {
                        self.expected = seq + count as i64;
                        self.stats.delivered = self.stats.delivered + 1;
                    } else {
                        self.stats.duplicates = self.stats.duplicates + 1;
                    }
                    if self.held.is_empty() {
                        self.stats.gaps_healed = self.stats.gaps_healed + 1;
                    }
                    assert(self@ =~= before.released(seq));
                },
            }
        }
    }

    /// Abandon an unfillable gap and resume from the earliest held segment.
    ///
    /// On a live feed this is what follows an unanswered retransmission request.
    /// The messages skipped are counted rather than hidden, because a receiver
    /// that quietly resynchronises is indistinguishable from one that never
    /// dropped anything.
    pub fn force_resync(&mut self) -> (r: Option<i64>)
        requires
            old(self)@.wf(),
            !old(self)@.held.dom().is_empty() ==> old(self)@.resynced().stats.room(0),
            old(self)@.stats.messages_lost + old(self)@.missing() <= u64::MAX,
        ensures
            final(self)@.wf(),
            match r {
                None => old(self)@.held.dom().is_empty() && final(self)@ == old(self)@,
                Some(k) => is_least(old(self)@.held, k) && final(self)@ == old(self)@.resynced(),
            },
    {
        broadcast use vstd::std_specs::btree::group_btree_axioms;

        proof {
            lemma_integer_keys();
        }
        match smallest(&self.held) {
            None => None,
            Some((seq, count)) => {
                proof {
                    let lost = SeqView {
                        held: self@.held.remove(seq),
                        stats: StatsView {
                            messages_lost: self@.stats.messages_lost + self@.missing(),
                            ..self@.stats
                        },
                        ..self@
                    };
                    lemma_drained(lost.taken(seq as int, count as int));
                }
                let lost: i128 = seq as i128 - self.expected as i128;
                self.stats.messages_lost = self.stats.messages_lost + lost as u64;
                self.held.remove(&seq);
                self.expected = seq + count as i64;
                self.stats.delivered = self.stats.delivered + 1;
                self.drain_held();
                Some(seq)
            },
        }
    }

    /// The largest sequence number anything held starts at, or the one awaited
    /// if nothing is held.
    pub fn furthest(&self) -> (r: i64)
        ensures
            r == self@.furthest(),
    {
        match largest(&self.held) {
            Some((k, _)) => {
                assert(self@.held.dom().contains(k));
                k
            },
            None => self.expected,
        }
    }

    /// Number of segments currently held pending a gap.
    pub fn held_len(&self) -> (r: usize)
        ensures
            r == self@.held.dom().len(),
    {
        broadcast use vstd::std_specs::btree::group_btree_axioms;

        proof {
            lemma_integer_keys();
        }
        self.held.len()
    }
}


/// A sequencer's counters are those it shows.
proof fn law_a_sequencer_shows_its_counters(s: Sequencer)
    ensures
        s@.stats == s.stats@,
{
}

}
