//! The tick-to-trade path: wire bytes in, order bytes out.
//!
//! ```text
//!   receive   strip Ethernet / VLAN / IPv4 / UDP        [iextp::frame]
//!   sequence  IEX-TP segment, gaps, A/B arbitration     [iextp::segment, sequencer]
//!   parse     DEEP message decode                       [deep]
//!   book      apply the price level update              [book]
//!   decide    the (deliberately trivial) strategy       [strategy]
//!   encode    OUCH-style Enter Order to a buffer        [order]
//! ```
//!
//! Stage costs come from *cumulative prefixes*, each in its own pass over the
//! same data: run receive alone and time it, then receive and sequence, then
//! parse as well, and so on. Each stage's cost is the difference between
//! consecutive prefixes, and the inner loop contains no clock at all.
//!
//! Latency is measured from when a message was *due*, not from when work on it
//! happened to start: [`Replay`] charges a stall to every message behind it,
//! which is what a real feed would do.
use std::collections::BTreeMap;
use vstd::prelude::*;

pub mod conduct;
pub mod hist;
pub mod laws;
pub mod order;
pub mod reordering;
pub mod spsc;
pub mod strategy;

pub use hist::Histogram;
pub use order::{encode_enter_order, EncodeError, NewOrder, TokenGen, ENTER_ORDER_LEN};
pub use strategy::{Params, Quote, Strategy};

use crate::book::levels::Levels;
use crate::book::{Book, BookView, Touch};
use crate::deep::messages::{decoded, parse, Message, MessageView, PriceLevelUpdate};
use crate::iextp::frame;
use crate::iextp::segment::{law_bodies_never_exceed_the_count, segment, Segment, SegmentView};
use crate::iextp::sequencer::{lemma_observed, lemma_resynced, Action, SeqView, Sequencer, Stats};
use crate::tree::{greatest, least, lemma_ends_exist, lemma_integer_keys, smallest_key};
use hist::HistView;
use order::{message, price_fits, token};
use strategy::decision;

verus! {

/// How far down the path to run. Used for cumulative-prefix stage timing.
#[derive(Debug, Clone, Copy, PartialEq, Eq, PartialOrd, Ord, Structural)]
pub enum Stage {
    Receive,
    Sequence,
    Parse,
    BookUpdate,
    Decide,
    Encode,
}

impl Stage {
    /// How deep a stage is.
    pub open spec fn depth(self) -> int {
        match self {
            Stage::Receive => 0,
            Stage::Sequence => 1,
            Stage::Parse => 2,
            Stage::BookUpdate => 3,
            Stage::Decide => 4,
            Stage::Encode => 5,
        }
    }

    /// What a stage is called.
    pub open spec fn title(self) -> Seq<char> {
        match self {
            Stage::Receive => "receive (eth/vlan/ip/udp)"@,
            Stage::Sequence => "sequence (IEX-TP, A/B)"@,
            Stage::Parse => "parse (DEEP)"@,
            Stage::BookUpdate => "book update"@,
            Stage::Decide => "decide (strategy)"@,
            Stage::Encode => "encode (OUCH order)"@,
        }
    }

    /// Every stage, shallowest first.
    pub fn all() -> (r: [Stage; 6])
        ensures
            forall|i: int| 0 <= i < 6 ==> (#[trigger] r@[i]).depth() == i,
    {
        [
            Stage::Receive,
            Stage::Sequence,
            Stage::Parse,
            Stage::BookUpdate,
            Stage::Decide,
            Stage::Encode,
        ]
    }

    pub fn name(self) -> (r: &'static str)
        ensures
            r@ == self.title(),
    {
        match self {
            Stage::Receive => "receive (eth/vlan/ip/udp)",
            Stage::Sequence => "sequence (IEX-TP, A/B)",
            Stage::Parse => "parse (DEEP)",
            Stage::BookUpdate => "book update",
            Stage::Decide => "decide (strategy)",
            Stage::Encode => "encode (OUCH order)",
        }
    }
}

/// Segment payloads held while a gap is open, at most.
///
/// The sequencer buffers sequence *numbers*, which is all it needs to classify
/// arrivals, but a receiver has to replay the messages once the gap closes, and
/// for that it needs the bytes. Bounded, because an unbounded buffer behind a
/// permanently lost segment is just a slower way to fail.
pub const MAX_PENDING_SEGMENTS: usize = 256;

/// Held segments tolerated before the stream is resynchronised.
///
/// A gap is not immediately a loss: UDP reorders. But a segment that was
/// genuinely dropped never arrives, and a receiver that waits for it forever
/// stops delivering anything.
pub const MAX_HELD_BEFORE_RESYNC: usize = 64;

/// More messages than one frame can release: every pending segment and its own,
/// each full.
pub const FRAME_MESSAGES: u64 = 0x200_0000;

#[derive(Debug, Clone, Copy, PartialEq, Eq, Structural)]
pub struct Counters {
    pub packets: u64,
    pub messages: u64,
    pub book_updates: u64,
    pub quotes: u64,
    pub orders_encoded: u64,
    pub encode_errors: u64,
    /// Times the stream was resynchronised past an unfillable gap.
    pub resyncs: u64,
    /// Books dropped because a resync made their state untrustworthy.
    pub book_resets: u64,
    /// Messages skipped by those resynchronisations. Counted, never hidden: a
    /// receiver that quietly resynchronises is indistinguishable from one that
    /// never dropped anything.
    pub messages_lost: u64,
}

impl Default for Counters {
    fn default() -> (r: Counters)
        ensures
            r@ == CountersView::zero(),
    {
        Counters {
            packets: 0,
            messages: 0,
            book_updates: 0,
            quotes: 0,
            orders_encoded: 0,
            encode_errors: 0,
            resyncs: 0,
            book_resets: 0,
            messages_lost: 0,
        }
    }
}

/// The counters as unbounded numbers.
pub struct CountersView {
    pub packets: int,
    pub messages: int,
    pub book_updates: int,
    pub quotes: int,
    pub orders_encoded: int,
    pub encode_errors: int,
    pub resyncs: int,
    pub book_resets: int,
    pub messages_lost: int,
}

impl View for Counters {
    type V = CountersView;

    open spec fn view(&self) -> CountersView {
        CountersView {
            packets: self.packets as int,
            messages: self.messages as int,
            book_updates: self.book_updates as int,
            quotes: self.quotes as int,
            orders_encoded: self.orders_encoded as int,
            encode_errors: self.encode_errors as int,
            resyncs: self.resyncs as int,
            book_resets: self.book_resets as int,
            messages_lost: self.messages_lost as int,
        }
    }
}

impl CountersView {
    pub open spec fn zero() -> CountersView {
        CountersView {
            packets: 0,
            messages: 0,
            book_updates: 0,
            quotes: 0,
            orders_encoded: 0,
            encode_errors: 0,
            resyncs: 0,
            book_resets: 0,
            messages_lost: 0,
        }
    }
}

/// The sequencer once enough gaps have been given up on.
pub open spec fn settled(seq: SeqView) -> SeqView
    decreases seq.held.dom().len(),
{
    if seq.held.dom().len() >= MAX_HELD_BEFORE_RESYNC && seq.resynced().held.dom().len()
        < seq.held.dom().len() {
        settled(seq.resynced())
    } else {
        seq
    }
}

/// How many gaps that takes.
pub open spec fn resyncs(seq: SeqView) -> nat
    decreases seq.held.dom().len(),
{
    if seq.held.dom().len() >= MAX_HELD_BEFORE_RESYNC && seq.resynced().held.dom().len()
        < seq.held.dom().len() {
        1 + resyncs(seq.resynced())
    } else {
        0
    }
}

/// The state of the whole path.
#[verifier::ext_equal]
pub struct PipeView {
    pub book: BookView,
    pub seq: SeqView,
    pub params: Params,
    /// Order tokens handed out.
    pub issued: nat,
    /// Most recently encoded order.
    pub out: Seq<u8>,
    /// Segment payloads held while a gap is open, by first sequence.
    pub pending: Map<i64, Seq<u8>>,
    /// Whether the decision looks the symbol up again.
    pub redundant_lookup: bool,
    pub counters: CountersView,
}

impl PipeView {
    /// A path that has seen nothing.
    pub open spec fn fresh() -> PipeView {
        PipeView {
            book: BookView::empty(),
            seq: SeqView::fresh(1024),
            params: Params { min_spread: 200, shares: 100 },
            issued: 0,
            out: Seq::new(ENTER_ORDER_LEN as nat, |i: int| 0),
            pending: Map::empty(),
            redundant_lookup: false,
            counters: CountersView::zero(),
        }
    }

    pub open spec fn wf(self) -> bool {
        &&& self.seq.wf()
        &&& self.pending.dom().finite()
        &&& self.pending.dom().len() <= MAX_PENDING_SEGMENTS
    }

    /// After a quote: a token is spent and the order encoded, unless its price
    /// does not fit the wire.
    pub open spec fn ordered(self, q: Quote) -> PipeView {
        let fits = price_fits(q.price);
        PipeView {
            issued: self.issued + 1,
            out: if fits {
                message(token(self.issued), q.side, q.shares, q.symbol, q.price)
            } else {
                self.out
            },
            counters: CountersView {
                quotes: self.counters.quotes + 1,
                orders_encoded: self.counters.orders_encoded + if fits {
                    1int
                } else {
                    0
                },
                encode_errors: self.counters.encode_errors + if fits {
                    0int
                } else {
                    1
                },
                ..self.counters
            },
            ..self
        }
    }

    /// After a price level update: the book, then the decision on the touch it
    /// leaves, then the order, as far down as `upto`.
    pub open spec fn updated(self, u: PriceLevelUpdate, upto: Stage) -> PipeView {
        let booked = PipeView {
            book: self.book.updated(u),
            counters: CountersView {
                book_updates: self.counters.book_updates + 1,
                ..self.counters
            },
            ..self
        };
        match decision(self.params, u.symbol, self.book.touch_after(u)) {
            Some(q) => if upto is Encode {
                booked.ordered(q)
            } else {
                booked
            },
            None => booked,
        }
    }

    /// After one message body. One that does not decode is passed over.
    pub open spec fn handled(self, body: Seq<u8>, upto: Stage) -> PipeView {
        match decoded(body) {
            Err(_) => self,
            Ok(m) => {
                let counted = PipeView {
                    counters: CountersView {
                        messages: self.counters.messages + 1,
                        ..self.counters
                    },
                    ..self
                };
                if upto.depth() <= Stage::Parse.depth() {
                    counted
                } else {
                    match m {
                        MessageView::PriceLevel(u) => counted.updated(u, upto),
                        _ => PipeView { book: counted.book.applied(m), ..counted },
                    }
                }
            },
        }
    }

    /// After several message bodies in turn.
    pub open spec fn run(self, bodies: Seq<Seq<u8>>, upto: Stage) -> PipeView
        decreases bodies.len(),
    {
        if bodies.len() == 0 {
            self
        } else {
            self.handled(bodies[0], upto).run(bodies.drop_first(), upto)
        }
    }

    /// After the messages of a segment payload.
    pub open spec fn delivered(self, payload: Seq<u8>) -> PipeView {
        match segment(payload) {
            Err(_) => self,
            Ok(s) => self.run(s.bodies(), Stage::Encode),
        }
    }

    /// After one more packet arrives.
    pub open spec fn counted(self) -> PipeView {
        PipeView {
            counters: CountersView { packets: self.counters.packets + 1, ..self.counters },
            ..self
        }
    }

    /// After a segment has been offered to the sequencer. When a new session
    /// begins, the book and what was put by belong to a stream that no longer
    /// exists, and are dropped.
    pub open spec fn observed(self, s: SegmentView) -> PipeView {
        let seen = PipeView {
            seq: self.seq.observed(s.session, s.first_sequence, s.message_count).0,
            ..self
        };
        if self.action(s) is SessionReset {
            PipeView { book: seen.book.cleared(), pending: Map::empty(), ..seen }
        } else {
            seen
        }
    }

    /// What the sequencer makes of a segment.
    pub open spec fn action(self, s: SegmentView) -> Action {
        self.seq.observed(s.session, s.first_sequence, s.message_count).1
    }

    /// After gaps that will not fill have been given up on.
    pub open spec fn resynced(self) -> PipeView {
        PipeView {
            seq: settled(self.seq),
            counters: CountersView {
                resyncs: self.counters.resyncs + resyncs(self.seq),
                messages_lost: self.counters.messages_lost + (
                settled(self.seq).stats.messages_lost - self.seq.stats.messages_lost),
                ..self.counters
            },
            ..self
        }
    }

    /// After one captured frame, as far down the path as `upto`.
    pub open spec fn framed(self, bytes: Seq<u8>, upto: Stage) -> PipeView {
        match frame::datagram(bytes) {
            Err(_) => self.counted(),
            Ok(d) => match segment(d.payload) {
                Err(_) => self.counted(),
                Ok(s) => if upto is Receive {
                    self.counted()
                } else {
                    let next = self.counted().observed(s).resynced();
                    match self.action(s) {
                        Action::Deliver | Action::SessionReset => if upto is Sequence {
                            next
                        } else {
                            next.run(s.bodies(), upto)
                        },
                        _ => next,
                    }
                },
            },
        }
    }

    /// After a segment that arrived early is put by, if there is room.
    pub open spec fn put_by(self, first: i64, payload: Seq<u8>) -> PipeView {
        if self.pending.dom().len() < MAX_PENDING_SEGMENTS {
            PipeView { pending: self.pending.insert(first, payload), ..self }
        } else {
            self
        }
    }

    /// After giving up on gaps: messages were skipped, so the book reflects a
    /// state that never existed, and is dropped.
    pub open spec fn recovered(self) -> PipeView {
        if self.seq.held.dom().len() >= MAX_HELD_BEFORE_RESYNC {
            let r = self.resynced();
            PipeView {
                book: r.book.cleared(),
                counters: CountersView {
                    book_resets: r.counters.book_resets + 1,
                    ..r.counters
                },
                ..r
            }
        } else {
            self
        }
    }

    /// After every segment put by that the sequencer has now passed is replayed,
    /// lowest first.
    pub open spec fn caught_up(self) -> PipeView
        decreases self.pending.dom().len(),
    {
        let k = least(self.pending);
        if self.pending.dom().finite() && self.pending.contains_key(k) && k < self.seq.expected {
            let rest = self.pending.remove(k);
            (PipeView { pending: rest, ..self.delivered(self.pending[k]) }).caught_up()
        } else {
            self
        }
    }

    /// After one captured frame on the production path: early segments are kept
    /// and replayed once their turn comes.
    pub open spec fn received(self, bytes: Seq<u8>) -> PipeView {
        match frame::datagram(bytes) {
            Err(_) => self.counted(),
            Ok(d) => match segment(d.payload) {
                Err(_) => self.counted(),
                Ok(s) => {
                    let seen = self.counted().observed(s);
                    match self.action(s) {
                        Action::Deliver | Action::SessionReset => seen.delivered(
                            d.payload,
                        ).recovered().caught_up(),
                        Action::Buffered { .. } => seen.put_by(
                            s.first_sequence,
                            d.payload,
                        ).recovered().caught_up(),
                        _ => seen,
                    }
                },
            },
        }
    }

    /// The message counters have room for `n` more messages.
    pub open spec fn room(self, n: int) -> bool {
        &&& self.counters.messages + n <= u64::MAX
        &&& self.counters.book_updates + n <= u64::MAX
        &&& self.counters.quotes + n <= u64::MAX
        &&& self.counters.orders_encoded + n <= u64::MAX
        &&& self.counters.encode_errors + n <= u64::MAX
        &&& self.issued + n <= u64::MAX
        &&& self.book.stats.updates + n <= u64::MAX
        &&& self.book.stats.deletes + n <= u64::MAX
        &&& self.book.stats.deletes_of_absent + n <= u64::MAX
        &&& self.book.stats.crossed_when_stable + n <= u64::MAX
        &&& self.book.stats.crossed_mid_event + n <= u64::MAX
        &&& self.book.stats.locked_when_stable + n <= u64::MAX
        &&& self.book.stats.trades + n <= u64::MAX
        &&& self.book.stats.traded_shares + n * 0x1_0000_0000 <= u64::MAX
    }

    /// How far ahead of what is awaited the sequencer has been shown, once it
    /// sees a segment that starts at `first`.
    pub open spec fn reach(self, first: int) -> int {
        let far = self.seq.furthest();
        (if first > far {
            first
        } else {
            far
        }) - self.seq.expected
    }

    /// A segment's sequence numbers fit, and so does the count of messages lost
    /// if everything between were given up on.
    pub open spec fn accepts_segment(self, s: SegmentView) -> bool {
        &&& s.next_sequence() <= i64::MAX
        &&& self.seq.stats.messages_lost + self.reach(s.first_sequence as int) <= u64::MAX
        &&& self.counters.messages_lost + self.reach(s.first_sequence as int) <= u64::MAX
    }

    /// No counter can overflow on this frame.
    pub open spec fn accepts(self, bytes: Seq<u8>) -> bool {
        &&& self.room(FRAME_MESSAGES as int)
        &&& self.counters.packets < u64::MAX
        &&& self.counters.book_resets < u64::MAX
        &&& self.counters.resyncs + self.seq.held.dom().len() + 1 <= u64::MAX
        &&& self.seq.stats.room(self.seq.held.dom().len() + 3)
        &&& match frame::datagram(bytes) {
            Err(_) => true,
            Ok(d) => match segment(d.payload) {
                Err(_) => true,
                Ok(s) => self.accepts_segment(s),
            },
        }
    }
}

/// A pipeline after frames in turn, by the production path.
pub open spec fn fed(st: PipeView, frames: Seq<Seq<u8>>) -> PipeView
    decreases frames.len(),
{
    if frames.len() == 0 {
        st
    } else {
        fed(st, frames.drop_last()).received(frames.last())
    }
}

/// A pipeline after frames in turn, stopping each after `upto`.
pub open spec fn fed_upto(st: PipeView, frames: Seq<Seq<u8>>, upto: Stage) -> PipeView
    decreases frames.len(),
{
    if frames.len() == 0 {
        st
    } else {
        fed_upto(st, frames.drop_last(), upto).framed(frames.last(), upto)
    }
}

/// What handling a message leaves alone, and how much it can count.
proof fn lemma_handled(st: PipeView, body: Seq<u8>, upto: Stage, n: int)
    ensures
        st.handled(body, upto).seq == st.seq,
        st.handled(body, upto).pending == st.pending,
        st.handled(body, upto).params == st.params,
        st.handled(body, upto).counters.packets == st.counters.packets,
        st.handled(body, upto).counters.resyncs == st.counters.resyncs,
        st.handled(body, upto).counters.book_resets == st.counters.book_resets,
        st.handled(body, upto).counters.messages_lost == st.counters.messages_lost,
        st.room(n + 1) ==> st.handled(body, upto).room(n),
{
}

/// What a run of messages leaves alone, and how much it can count.
pub proof fn lemma_run(st: PipeView, bodies: Seq<Seq<u8>>, upto: Stage, n: int)
    ensures
        st.run(bodies, upto).seq == st.seq,
        st.run(bodies, upto).pending == st.pending,
        st.run(bodies, upto).params == st.params,
        st.run(bodies, upto).counters.packets == st.counters.packets,
        st.run(bodies, upto).counters.resyncs == st.counters.resyncs,
        st.run(bodies, upto).counters.book_resets == st.counters.book_resets,
        st.run(bodies, upto).counters.messages_lost == st.counters.messages_lost,
        st.room(n + bodies.len()) ==> st.run(bodies, upto).room(n),
    decreases bodies.len(),
{
    if bodies.len() > 0 {
        lemma_handled(st, bodies[0], upto, n + bodies.len() - 1);
        lemma_run(st.handled(bodies[0], upto), bodies.drop_first(), upto, n);
    }
}

/// Messages do the same whether or not the decision looks the symbol up again.
proof fn lemma_run_ignores_lookup(
    st: PipeView,
    again: bool,
    bodies: Seq<Seq<u8>>,
    upto: Stage,
)
    ensures
        (PipeView { redundant_lookup: again, ..st }).run(bodies, upto) == (PipeView {
            redundant_lookup: again,
            ..st.run(bodies, upto)
        }),
    decreases bodies.len(),
{
    if bodies.len() > 0 {
        let other = PipeView { redundant_lookup: again, ..st };
        assert(other.handled(bodies[0], upto) == (PipeView {
            redundant_lookup: again,
            ..st.handled(bodies[0], upto)
        }));
        lemma_run_ignores_lookup(
            st.handled(bodies[0], upto),
            again,
            bodies.drop_first(),
            upto,
        );
    }
}

proof fn lemma_delivered_ignores_lookup(st: PipeView, again: bool, payload: Seq<u8>)
    ensures
        (PipeView { redundant_lookup: again, ..st }).delivered(payload) == (PipeView {
            redundant_lookup: again,
            ..st.delivered(payload)
        }),
{
    match segment(payload) {
        Err(_) => {},
        Ok(s) => {
            lemma_run_ignores_lookup(st, again, s.bodies(), Stage::Encode);
        },
    }
}

proof fn lemma_caught_up_ignores_lookup(st: PipeView, again: bool)
    ensures
        (PipeView { redundant_lookup: again, ..st }).caught_up() == (PipeView {
            redundant_lookup: again,
            ..st.caught_up()
        }),
    decreases st.pending.dom().len(),
{
    let k = least(st.pending);
    if st.pending.dom().finite() && st.pending.contains_key(k) && k < st.seq.expected {
        let rest = st.pending.remove(k);
        let next = PipeView { pending: rest, ..st.delivered(st.pending[k]) };
        lemma_delivered_ignores_lookup(st, again, st.pending[k]);
        lemma_caught_up_ignores_lookup(next, again);
    }
}

/// A decision that looks the symbol up again decides the same: nothing a frame does
/// depends on it, and no frame changes it.
pub proof fn law_a_second_lookup_changes_nothing(
    st: PipeView,
    again: bool,
    bytes: Seq<u8>,
    upto: Stage,
)
    ensures
        (PipeView { redundant_lookup: again, ..st }).framed(bytes, upto) == (PipeView {
            redundant_lookup: again,
            ..st.framed(bytes, upto)
        }),
        (PipeView { redundant_lookup: again, ..st }).received(bytes) == (PipeView {
            redundant_lookup: again,
            ..st.received(bytes)
        }),
        st.framed(bytes, upto).redundant_lookup == st.redundant_lookup,
        st.received(bytes).redundant_lookup == st.redundant_lookup,
{
    lemma_framed_ignores_lookup(st, again, bytes, upto);
    lemma_framed_ignores_lookup(st, st.redundant_lookup, bytes, upto);
    lemma_received_ignores_lookup(st, again, bytes);
    lemma_received_ignores_lookup(st, st.redundant_lookup, bytes);
}

proof fn lemma_framed_ignores_lookup(st: PipeView, again: bool, bytes: Seq<u8>, upto: Stage)
    ensures
        (PipeView { redundant_lookup: again, ..st }).framed(bytes, upto) == (PipeView {
            redundant_lookup: again,
            ..st.framed(bytes, upto)
        }),
{
    if let Ok(d) = frame::datagram(bytes) {
        if let Ok(s) = segment(d.payload) {
            let next = st.counted().observed(s).resynced();
            lemma_run_ignores_lookup(next, again, s.bodies(), upto);
        }
    }
}

proof fn lemma_received_ignores_lookup(st: PipeView, again: bool, bytes: Seq<u8>)
    ensures
        (PipeView { redundant_lookup: again, ..st }).received(bytes) == (PipeView {
            redundant_lookup: again,
            ..st.received(bytes)
        }),
{
    if let Ok(d) = frame::datagram(bytes) {
        if let Ok(s) = segment(d.payload) {
            let seen = st.counted().observed(s);
            lemma_delivered_ignores_lookup(seen, again, d.payload);
            lemma_caught_up_ignores_lookup(seen.delivered(d.payload).recovered(), again);
            lemma_caught_up_ignores_lookup(
                seen.put_by(s.first_sequence, d.payload).recovered(),
                again,
            );
        }
    }
}

/// What settling keeps, and that what it gives up on lies between what was
/// awaited and the furthest thing held.
pub proof fn lemma_settled(seq: SeqView)
    requires
        seq.wf(),
    ensures
        ({
            let s = settled(seq);
            &&& s.wf()
            &&& s.session == seq.session
            &&& s.max_held == seq.max_held
            &&& seq.expected <= s.expected
            &&& s.held.submap_of(seq.held)
            &&& s.held.dom().len() + resyncs(seq) <= seq.held.dom().len()
            &&& s.held.dom().len() < MAX_HELD_BEFORE_RESYNC
            &&& seq.stats.messages_lost <= s.stats.messages_lost
            &&& s.stats.messages_lost - seq.stats.messages_lost <= seq.furthest() - seq.expected
            &&& s.stats.messages_lost - seq.stats.messages_lost <= s.expected - seq.expected
        }),
    decreases seq.held.dom().len(),
{
    if seq.held.dom().len() >= MAX_HELD_BEFORE_RESYNC {
        lemma_ends_exist(seq.held);
        lemma_resynced(seq);
        let next = seq.resynced();
        lemma_settled(next);
        lemma_submap_trans(settled(next).held, next.held, seq.held);
        if !next.held.dom().is_empty() {
            lemma_ends_exist(next.held);
            assert(seq.held.contains_key(greatest(next.held)));
        }
    } else if !seq.held.dom().is_empty() {
        lemma_ends_exist(seq.held);
    }
}

/// The full path, generic over the book's level container.
pub struct Pipeline<L: Levels> {
    pub book: Book<L>,
    pub seq: Sequencer,
    pub strategy: Strategy,
    tokens: TokenGen,
    out: [u8; ENTER_ORDER_LEN],
    /// Segment payloads held while a gap is open, keyed by first sequence.
    pending: BTreeMap<i64, Vec<u8>>,
    /// When set, `decide` re-looks-up the symbol instead of using the touch the
    /// update returned. Exists only so the two can be measured against each
    /// other; the outcome is the same.
    pub redundant_lookup: bool,
    pub counters: Counters,
}

impl<L: Levels> View for Pipeline<L> {
    type V = PipeView;

    closed spec fn view(&self) -> PipeView {
        PipeView {
            book: self.book@,
            seq: self.seq@,
            params: self.strategy.params,
            issued: self.tokens@,
            out: self.out@,
            pending: self.pending@.map_values(|v: Vec<u8>| v@),
            redundant_lookup: self.redundant_lookup,
            counters: self.counters@,
        }
    }
}

impl<L: Levels> Default for Pipeline<L> {
    fn default() -> (r: Pipeline<L>)
        ensures
            r.wf(),
            r@ == PipeView::fresh(),
            !r@.redundant_lookup,
    {
        Pipeline::with_capacity(8192)
    }
}

impl<L: Levels> Pipeline<L> {
    pub closed spec fn wf(self) -> bool {
        &&& self.book.wf()
        &&& self@.wf()
    }

    pub fn with_capacity(symbols: usize) -> (r: Pipeline<L>)
        ensures
            r.wf(),
            r@ == PipeView::fresh(),
            !r@.redundant_lookup,
    {
        broadcast use vstd::std_specs::btree::group_btree_axioms;

        let r = Pipeline {
            book: Book::with_capacity(symbols),
            seq: Sequencer::default(),
            strategy: Strategy::default(),
            tokens: TokenGen::default(),
            out: [0u8; ENTER_ORDER_LEN],
            pending: BTreeMap::new(),
            redundant_lookup: false,
            counters: Counters::default(),
        };
        proof {
            lemma_integer_keys();
            assert(r@.out =~= PipeView::fresh().out);
            assert(r@.pending =~= Map::<i64, Seq<u8>>::empty());
        }
        r
    }

    /// Most recently encoded order bytes.
    pub fn last_order(&self) -> (r: &[u8; ENTER_ORDER_LEN])
        ensures
            r@ == self@.out,
    {
        &self.out
    }

    /// The counters.
    pub fn counts(&self) -> (r: Counters)
        ensures
            r@ == self@.counters,
    {
        self.counters
    }

    /// The sequencer's counters.
    pub fn sequence_counts(&self) -> (r: Stats)
        ensures
            r@ == self@.seq.stats,
    {
        self.seq.counters()
    }

    /// The sequencer.
    pub fn current_sequencer(&self) -> (r: &Sequencer)
        requires
            self.wf(),
        ensures
            r@.wf(),
            r@ == self@.seq,
    {
        &self.seq
    }

    /// Whether the decision looks the symbol up again.
    pub fn looks_up_again(&self) -> (r: bool)
        ensures
            r == self@.redundant_lookup,
    {
        self.redundant_lookup
    }

    /// What the strategy decides by.
    pub fn params(&self) -> (r: Params)
        ensures
            r == self@.params,
    {
        self.strategy.params
    }

    /// The book.
    pub fn current_book(&self) -> (r: &Book<L>)
        requires
            self.wf(),
        ensures
            r.wf(),
            r@ == self@.book,
    {
        &self.book
    }

    /// Whether the message counters have room for one more frame.
    fn has_room(&self) -> (r: bool)
        ensures
            r == self@.room(FRAME_MESSAGES as int),
    {
        let most: u64 = u64::MAX - FRAME_MESSAGES;
        let s = self.book.counters();
        self.counters.messages <= most && self.counters.book_updates <= most
            && self.counters.quotes <= most && self.counters.orders_encoded <= most
            && self.counters.encode_errors <= most && self.tokens.issued() <= most && s.updates
            <= most && s.deletes <= most && s.deletes_of_absent <= most && s.crossed_when_stable
            <= most && s.crossed_mid_event <= most && s.locked_when_stable <= most && s.trades
            <= most && s.traded_shares <= u64::MAX - FRAME_MESSAGES * 0x1_0000_0000
    }

    /// Whether a frame can be taken in without any counter overflowing.
    pub fn can_accept(&self, bytes: &[u8]) -> (r: bool)
        requires
            self.wf(),
        ensures
            r == self@.accepts(bytes@),
    {
        let held: u128 = self.seq.held_len() as u128;
        let q = self.seq.counters();
        let most: u128 = u64::MAX as u128;
        if !self.has_room() || self.counters.packets == u64::MAX || self.counters.book_resets
            == u64::MAX {
            return false;
        }
        if self.counters.resyncs as u128 + held + 1 > most {
            return false;
        }
        if q.delivered as u128 + held + 3 > most || q.duplicates as u128 + held + 3 > most
            || q.buffered as u128 + held + 3 > most || q.gaps_opened as u128 + held + 3 > most
            || q.gaps_healed as u128 + held + 3 > most || q.session_resets as u128 + held + 3
            > most || q.heartbeats as u128 + held + 3 > most {
            return false;
        }
        match frame::parse(bytes) {
            Err(_) => true,
            Ok(dg) => match Segment::parse(dg.payload) {
                Err(_) => true,
                Ok(seg) => self.can_accept_segment(&seg),
            },
        }
    }

    fn can_accept_segment(&self, seg: &Segment<'_>) -> (r: bool)
        requires
            self.wf(),
        ensures
            r == self@.accepts_segment(seg@),
    {
        let first: i128 = seg.first_sequence as i128;
        let most: i128 = u64::MAX as i128;
        let far: i128 = self.seq.furthest() as i128;
        let top: i128 = if first > far {
            first
        } else {
            far
        };
        let reach: i128 = top - self.seq.expected() as i128;
        first + seg.message_count as i128 <= i64::MAX as i128
            && self.seq.counters().messages_lost as i128 + reach <= most
            && self.counters.messages_lost as i128 + reach <= most
    }

    /// Spend a token on a quote and encode the order.
    fn send(&mut self, q: Quote)
        requires
            old(self).wf(),
            old(self)@.counters.quotes < u64::MAX,
            old(self)@.counters.orders_encoded < u64::MAX,
            old(self)@.counters.encode_errors < u64::MAX,
            old(self)@.issued < u64::MAX,
        ensures
            final(self).wf(),
            final(self)@ == old(self)@.ordered(q),
    {
        self.counters.quotes = self.counters.quotes + 1;
        let o = NewOrder {
            token: self.tokens.next_token(),
            side: q.side,
            shares: q.shares,
            symbol: q.symbol,
            price: q.price,
        };
        match encode_enter_order(&o, &mut self.out) {
            Ok(_) => {
                self.counters.orders_encoded = self.counters.orders_encoded + 1;
            },
            Err(_) => {
                self.counters.encode_errors = self.counters.encode_errors + 1;
            },
        }
    }

    /// Take one message body as far down the path as `upto`.
    fn on_body(&mut self, body: &[u8], upto: Stage)
        requires
            old(self).wf(),
            old(self)@.room(1),
        ensures
            final(self).wf(),
            final(self)@ == old(self)@.handled(body@, upto),
    {
        let msg = match parse(body) {
            Ok(m) => m,
            Err(_) => {
                return ;
            },
        };
        self.counters.messages = self.counters.messages + 1;
        if upto == Stage::Receive || upto == Stage::Sequence || upto == Stage::Parse {
            return ;
        }
        let u = match msg {
            Message::PriceLevel(u) => u,
            _ => {
                self.book.apply(&msg);
                return ;
            },
        };
        let touch = self.book.apply_price_level(&u);
        self.counters.book_updates = self.counters.book_updates + 1;
        if upto == Stage::BookUpdate {
            return ;
        }
        // The touch comes back from the update, which already had to read both
        // sides. `decide` therefore performs no lookup of its own.
        let quote = if self.redundant_lookup {
            match self.book.get(u.symbol) {
                Some(sb) => self.strategy.on_touch(
                    u.symbol,
                    Touch {
                        bid: sb.best_bid(),
                        ask: sb.best_ask(),
                        stable: sb.is_stable(),
                    },
                ),
                None => None,
            }
        } else {
            self.strategy.on_touch(u.symbol, touch)
        };
        if upto == Stage::Decide {
            return ;
        }
        if let Some(q) = quote {
            self.send(q);
        }
    }

    /// Give up on gaps that will not fill. Without this the reorder buffer grows
    /// behind a segment that was genuinely lost and delivery stops.
    fn resync(&mut self)
        requires
            old(self).wf(),
            old(self)@.seq.stats.delivered + old(self)@.seq.held.dom().len() < u64::MAX,
            old(self)@.seq.stats.duplicates + old(self)@.seq.held.dom().len() < u64::MAX,
            old(self)@.seq.stats.buffered + old(self)@.seq.held.dom().len() < u64::MAX,
            old(self)@.seq.stats.gaps_opened + old(self)@.seq.held.dom().len() < u64::MAX,
            old(self)@.seq.stats.gaps_healed + old(self)@.seq.held.dom().len() < u64::MAX,
            old(self)@.seq.stats.session_resets + old(self)@.seq.held.dom().len() < u64::MAX,
            old(self)@.seq.stats.heartbeats + old(self)@.seq.held.dom().len() < u64::MAX,
            old(self)@.counters.resyncs + old(self)@.seq.held.dom().len() <= u64::MAX,
            old(self)@.seq.stats.messages_lost + old(self)@.seq.furthest() - old(
                self,
            )@.seq.expected <= u64::MAX,
            old(self)@.counters.messages_lost + old(self)@.seq.furthest() - old(
                self,
            )@.seq.expected <= u64::MAX,
        ensures
            final(self).wf(),
            final(self)@ == old(self)@.resynced(),
    {
        let ghost start = self@.seq;
        let before: u64 = self.seq.counters().messages_lost;
        let ghost top = start.furthest();
        proof {
            lemma_settled(start);
            if !start.held.dom().is_empty() {
                lemma_ends_exist(start.held);
            }
        }
        while self.seq.held_len() >= MAX_HELD_BEFORE_RESYNC
            invariant
                self.wf(),
                settled(self@.seq) == settled(start),
                self@.counters.resyncs + resyncs(self@.seq) == old(self)@.counters.resyncs
                    + resyncs(start),
                self@.counters.resyncs + self@.seq.held.dom().len() <= u64::MAX,
                self@.seq.stats.delivered + self@.seq.held.dom().len() < u64::MAX,
                self@.seq.stats.duplicates + self@.seq.held.dom().len() < u64::MAX,
                self@.seq.stats.buffered + self@.seq.held.dom().len() < u64::MAX,
                self@.seq.stats.gaps_opened + self@.seq.held.dom().len() < u64::MAX,
                self@.seq.stats.gaps_healed + self@.seq.held.dom().len() < u64::MAX,
                self@.seq.stats.session_resets + self@.seq.held.dom().len() < u64::MAX,
                self@.seq.stats.heartbeats + self@.seq.held.dom().len() < u64::MAX,
                start.expected <= self@.seq.expected,
                self@.seq.held.submap_of(start.held),
                start.stats.messages_lost + top - start.expected <= u64::MAX,
                forall|k: i64| #[trigger] start.held.contains_key(k) ==> k <= top,
                self@.seq.stats.messages_lost - start.stats.messages_lost <= self@.seq.expected
                    - start.expected,
                self@ == (PipeView {
                    seq: self@.seq,
                    counters: CountersView {
                        resyncs: self@.counters.resyncs,
                        ..old(self)@.counters
                    },
                    ..old(self)@
                }),
            decreases self@.seq.held.dom().len(),
        {
            proof {
                lemma_ends_exist(self@.seq.held);
                lemma_resynced(self@.seq);
                assert(start.held.contains_key(least(self@.seq.held)));
            }
            let ghost held = self@.seq.held;
            let _ = self.seq.force_resync();
            self.counters.resyncs = self.counters.resyncs + 1;
            assert(self@.seq.held.submap_of(start.held)) by {
                lemma_submap_trans(self@.seq.held, held, start.held);
            }
        }
        let lost: u64 = self.seq.counters().messages_lost - before;
        self.counters.messages_lost = self.counters.messages_lost + lost;
    }

    /// Offer a segment to the sequencer, and start afresh when a session ends.
    fn observe(&mut self, seg: &Segment<'_>) -> (r: Action)
        requires
            old(self).wf(),
            old(self)@.seq.stats.room(old(self)@.seq.held.dom().len() + 3),
            old(self)@.counters.resyncs + old(self)@.seq.held.dom().len() + 1 <= u64::MAX,
            old(self)@.accepts_segment(seg@),
        ensures
            final(self).wf(),
            final(self)@ == old(self)@.observed(seg@),
            r == old(self)@.action(seg@),
            ({
                let q = final(self)@.seq;
                &&& q.stats.room(q.held.dom().len() + 1)
                &&& final(self)@.counters.resyncs + q.held.dom().len() <= u64::MAX
                &&& q.stats.messages_lost + q.furthest() - q.expected <= u64::MAX
                &&& final(self)@.counters.messages_lost + q.furthest() - q.expected <= u64::MAX
            }),
    {
        broadcast use vstd::std_specs::btree::group_btree_axioms;

        proof {
            lemma_observed(self@.seq, seg.session, seg.first_sequence, seg.message_count);
            lemma_reach(self@, seg@);
        }
        let action = self.seq.observe(seg.session, seg.first_sequence, seg.message_count);
        if action == Action::SessionReset {
            self.book.clear();
            self.pending = BTreeMap::new();
            proof {
                lemma_integer_keys();
                assert(self@.pending =~= Map::<i64, Seq<u8>>::empty());
            }
        }
        action
    }

    /// Run one captured frame through the path, stopping after `upto`.
    pub fn on_frame(&mut self, bytes: &[u8], upto: Stage)
        requires
            old(self).wf(),
            old(self)@.accepts(bytes@),
        ensures
            final(self).wf(),
            final(self)@ == old(self)@.framed(bytes@, upto),
            final(self)@.redundant_lookup == old(self)@.redundant_lookup,
    {
        proof {
            law_a_second_lookup_changes_nothing(self@, false, bytes@, upto);
        }
        self.counters.packets = self.counters.packets + 1;
        let dg = match frame::parse(bytes) {
            Ok(d) => d,
            Err(_) => {
                return ;
            },
        };
        if upto == Stage::Receive {
            return ;
        }
        let seg = match Segment::parse(dg.payload) {
            Ok(s) => s,
            Err(_) => {
                return ;
            },
        };
        let action = self.observe(&seg);
        self.resync();
        match action {
            Action::Deliver => {},
            Action::SessionReset => {},
            _ => {
                return ;
            },
        }
        if upto == Stage::Sequence {
            return ;
        }
        let mut rest = seg.messages();
        let ghost goal = self@.run(rest@, upto);
        proof {
            law_bodies_never_exceed_the_count(seg@.block, seg@.message_count as nat);
        }
        loop
            invariant_except_break
                self.wf(),
                self@.run(rest@, upto) == goal,
                self@.room(rest@.len() as int),
            ensures
                self.wf(),
                self@ == goal,
            decreases rest@.len(),
        {
            match rest.next() {
                None => {
                    break;
                },
                Some(body) => {
                    proof {
                        lemma_handled(self@, body@, upto, rest@.len() as int);
                    }
                    self.on_body(body, upto);
                },
            }
        }
    }

    /// Process one message body on the production path.
    fn deliver_body(&mut self, body: &[u8])
        requires
            old(self).wf(),
            old(self)@.room(1),
        ensures
            final(self).wf(),
            final(self)@ == old(self)@.handled(body@, Stage::Encode),
    {
        let msg = match parse(body) {
            Ok(m) => m,
            Err(_) => {
                return ;
            },
        };
        self.counters.messages = self.counters.messages + 1;
        let u = match msg {
            Message::PriceLevel(u) => u,
            _ => {
                self.book.apply(&msg);
                return ;
            },
        };
        let touch = self.book.apply_price_level(&u);
        self.counters.book_updates = self.counters.book_updates + 1;
        if let Some(q) = self.strategy.on_touch(u.symbol, touch) {
            self.send(q);
        }
    }

    /// Process one segment's messages.
    fn deliver_segment(&mut self, payload: &[u8])
        requires
            old(self).wf(),
            old(self)@.room(0xffff),
        ensures
            final(self).wf(),
            final(self)@ == old(self)@.delivered(payload@),
    {
        let seg = match Segment::parse(payload) {
            Ok(s) => s,
            Err(_) => {
                return ;
            },
        };
        let mut rest = seg.messages();
        let ghost goal = self@.run(rest@, Stage::Encode);
        proof {
            law_bodies_never_exceed_the_count(seg@.block, seg@.message_count as nat);
        }
        loop
            invariant_except_break
                self.wf(),
                self@.run(rest@, Stage::Encode) == goal,
                self@.room(rest@.len() as int),
            ensures
                self.wf(),
                self@ == goal,
            decreases rest@.len(),
        {
            match rest.next() {
                None => {
                    break;
                },
                Some(body) => {
                    proof {
                        lemma_handled(self@, body@, Stage::Encode, rest@.len() as int);
                    }
                    self.deliver_body(body);
                },
            }
        }
    }

    /// Keep an early segment's bytes. The sequencer knows the segment arrived;
    /// only the caller can replay what was in it.
    fn put_by(&mut self, first: i64, payload: &[u8])
        requires
            old(self).wf(),
        ensures
            final(self).wf(),
            final(self)@ == old(self)@.put_by(first, payload@),
    {
        broadcast use vstd::std_specs::btree::group_btree_axioms;

        proof {
            lemma_integer_keys();
            assert(self@.pending.dom() =~= self.pending@.dom());
        }
        if self.pending.len() < MAX_PENDING_SEGMENTS {
            let copy = vstd::slice::slice_to_vec(payload);
            self.pending.insert(first, copy);
            assert(self@.pending =~= old(self)@.pending.insert(first, payload@));
        }
    }

    /// Replay any buffered segments the sequencer has now advanced past.
    fn drain_pending(&mut self)
        requires
            old(self).wf(),
            old(self)@.room(0xffff * old(self)@.pending.dom().len() as int),
        ensures
            final(self).wf(),
            final(self)@ == old(self)@.caught_up(),
    {
        broadcast use vstd::std_specs::btree::group_btree_axioms;

        loop
            invariant_except_break
                self.wf(),
                self@.caught_up() == old(self)@.caught_up(),
                self@.room(0xffff * self@.pending.dom().len() as int),
            ensures
                self.wf(),
                self@ == old(self)@.caught_up(),
            decreases self@.pending.dom().len(),
        {
            proof {
                lemma_integer_keys();
                assert(self@.pending.dom() =~= self.pending@.dom());
                lemma_same_least(self.pending@, self@.pending);
            }
            match smallest_key(&self.pending) {
                None => {
                    assert(!self@.pending.contains_key(least(self@.pending))) by {
                        assert(!self@.pending.dom().contains(least(self@.pending)));
                    }
                    break;
                },
                Some(seq) => {
                    if seq >= self.seq.expected() {
                        break;
                    }
                    let ghost before = self@;
                    match self.pending.remove(&seq) {
                        None => {
                            break;
                        },
                        Some(bytes) => {
                            let ghost taken = self@;
                            proof {
                                let n = before.pending.dom().len() as int;
                                assert(taken.pending =~= before.pending.remove(seq));
                                assert(0xffff * n == 0xffff * (n - 1) + 0xffff);
                                assert(taken.room(0xffff * (n - 1) + 0xffff));
                                lemma_delivered(taken, bytes@, 0xffff * (n - 1));
                                lemma_delivered_ignores_pending(
                                    before,
                                    taken.pending,
                                    bytes@,
                                );
                            }
                            self.deliver_segment(bytes.as_slice());
                        },
                    }
                },
            }
        }
    }

    /// The production path: no `Stage` parameter, so no prefix branches.
    pub fn on_frame_fast(&mut self, bytes: &[u8])
        requires
            old(self).wf(),
            old(self)@.accepts(bytes@),
        ensures
            final(self).wf(),
            final(self)@ == old(self)@.received(bytes@),
            final(self)@.redundant_lookup == old(self)@.redundant_lookup,
    {
        proof {
            law_a_second_lookup_changes_nothing(self@, false, bytes@, Stage::Encode);
        }
        self.counters.packets = self.counters.packets + 1;
        let dg = match frame::parse(bytes) {
            Ok(d) => d,
            Err(_) => {
                return ;
            },
        };
        let seg = match Segment::parse(dg.payload) {
            Ok(s) => s,
            Err(_) => {
                return ;
            },
        };
        let action = self.observe(&seg);
        match action {
            Action::Deliver => {
                proof {
                    lemma_delivered(self@, dg.payload@, 0xffff * 256int);
                }
                self.deliver_segment(dg.payload);
            },
            Action::SessionReset => {
                proof {
                    lemma_delivered(self@, dg.payload@, 0xffff * 256int);
                }
                self.deliver_segment(dg.payload);
            },
            Action::Buffered { .. } => {
                self.put_by(seg.first_sequence, dg.payload);
            },
            _ => {
                return ;
            },
        }
        // Give up on a gap that will not fill.
        if self.seq.held_len() >= MAX_HELD_BEFORE_RESYNC {
            self.resync();
            // A resync means messages were skipped, so the book now reflects a
            // state that never existed: levels whose deletes were lost stay
            // forever. There is no way to know which symbols are affected, so the
            // only sound response is to drop it and rebuild.
            self.book.clear();
            self.counters.book_resets = self.counters.book_resets + 1;
        }
        self.drain_pending();
    }
}

proof fn lemma_submap_trans(a: Map<i64, u16>, b: Map<i64, u16>, c: Map<i64, u16>)
    requires
        a.submap_of(b),
        b.submap_of(c),
    ensures
        a.submap_of(c),
{
    assert forall|k: i64| #[trigger] a.dom().contains(k) implies c.dom().contains(k) && a[k]
        == c[k] by {
        assert(b.dom().contains(k));
        assert(a[k] == b[k]);
        assert(c.dom().contains(k));
        assert(b[k] == c[k]);
    }
}

/// Maps with the same keys have the same smallest one.
proof fn lemma_same_least<A, B>(a: Map<i64, A>, b: Map<i64, B>)
    requires
        a.dom() == b.dom(),
        a.dom().finite(),
    ensures
        !a.dom().is_empty() ==> least(a) == least(b),
{
    if !a.dom().is_empty() {
        lemma_ends_exist(a);
        lemma_ends_exist(b);
        assert(b.dom().contains(least(a)) && a.dom().contains(least(b)));
        assert(b.contains_key(least(a)) && a.contains_key(least(b)));
    }
}

/// What processing a segment leaves alone, and how much it can count.
pub proof fn lemma_delivered(st: PipeView, payload: Seq<u8>, n: int)
    ensures
        st.delivered(payload).seq == st.seq,
        st.delivered(payload).pending == st.pending,
        st.delivered(payload).params == st.params,
        st.delivered(payload).counters.packets == st.counters.packets,
        st.delivered(payload).counters.resyncs == st.counters.resyncs,
        st.delivered(payload).counters.book_resets == st.counters.book_resets,
        st.delivered(payload).counters.messages_lost == st.counters.messages_lost,
        st.room(n + 0xffff) ==> st.delivered(payload).room(n),
{
    match segment(payload) {
        Err(_) => {},
        Ok(s) => {
            law_bodies_never_exceed_the_count(s.block, s.message_count as nat);
            lemma_run(st, s.bodies(), Stage::Encode, n);
        },
    }
}

/// Processing messages does not look at what is put by.
proof fn lemma_run_ignores_pending(
    st: PipeView,
    pending: Map<i64, Seq<u8>>,
    bodies: Seq<Seq<u8>>,
    upto: Stage,
)
    ensures
        (PipeView { pending, ..st }).run(bodies, upto) == (PipeView {
            pending,
            ..st.run(bodies, upto)
        }),
    decreases bodies.len(),
{
    if bodies.len() > 0 {
        let other = PipeView { pending, ..st };
        assert(other.handled(bodies[0], upto) == (PipeView {
            pending,
            ..st.handled(bodies[0], upto)
        }));
        lemma_run_ignores_pending(
            st.handled(bodies[0], upto),
            pending,
            bodies.drop_first(),
            upto,
        );
    }
}

proof fn lemma_delivered_ignores_pending(
    st: PipeView,
    pending: Map<i64, Seq<u8>>,
    payload: Seq<u8>,
)
    ensures
        (PipeView { pending, ..st }).delivered(payload) == (PipeView {
            pending,
            ..st.delivered(payload)
        }),
{
    match segment(payload) {
        Err(_) => {},
        Ok(s) => {
            lemma_run_ignores_pending(st, pending, s.bodies(), Stage::Encode);
        },
    }
}

/// Offering a segment shows the sequencer nothing further than the segment or
/// what it already held.
proof fn lemma_reach(st: PipeView, s: SegmentView)
    requires
        st.wf(),
        s.next_sequence() <= i64::MAX,
    ensures
        ({
            let q = st.observed(s).seq;
            q.furthest() - q.expected <= st.reach(s.first_sequence as int)
        }),
        st.reach(s.first_sequence as int) >= 0,
{
    let seq = st.seq;
    let q = st.observed(s).seq;
    lemma_observed(seq, s.session, s.first_sequence, s.message_count);
    if !seq.held.dom().is_empty() {
        lemma_ends_exist(seq.held);
    }
    if !q.held.dom().is_empty() {
        lemma_ends_exist(q.held);
        let top = greatest(q.held);
        crate::iextp::sequencer::lemma_held_comes_from(
            seq,
            s.session,
            s.first_sequence,
            s.message_count,
            top,
        );
        if seq.held.contains_key(top) {
            assert(seq.held.dom().contains(top));
        }
    }
}

/// Replay driver with coordinated-omission correction.
///
/// `rate_per_sec` is the *offered* load. Each message's scheduled arrival is
/// `start + i / rate`, and latency is measured from that instant, so a stall is
/// charged to every message queued behind it, which plain service-time timing
/// would never show.
pub struct Replay {
    pub rate_per_sec: u64,
    /// Latency from scheduled arrival. The honest number.
    pub corrected: Histogram,
    /// Time spent processing once started. Shown alongside to make the gap
    /// between the two visible rather than arguable.
    pub service: Histogram,
    pub behind: u64,
}

/// How much later `b` is than `a`, or nothing if it is not.
pub open spec fn elapsed(a: u64, b: u64) -> u64 {
    if b > a {
        (b - a) as u64
    } else {
        0
    }
}

/// Time passes one way: what has elapsed makes up the difference to a later time, and
/// to an earlier one it is nothing.
pub proof fn law_elapsed_makes_up_the_difference(a: u64, b: u64)
    ensures
        a <= b ==> a + elapsed(a, b) == b,
        b <= a ==> elapsed(a, b) == 0,
{
}

impl Replay {
    pub open spec fn wf(self) -> bool {
        &&& self.corrected@.wf()
        &&& self.service@.wf()
        &&& self.corrected@.total == self.service@.total
        &&& self.behind <= self.service@.total
    }

    pub fn new(rate_per_sec: u64) -> (r: Replay)
        ensures
            r.wf(),
            r.rate_per_sec == rate_per_sec,
            r.corrected@ == HistView::empty(),
            r.service@ == HistView::empty(),
            r.behind == 0,
    {
        Replay { rate_per_sec, corrected: Histogram::new(), service: Histogram::new(), behind: 0 }
    }

    /// Record one item, given when it was scheduled, started and finished.
    pub fn record(&mut self, scheduled_nanos: u64, started_nanos: u64, finished_nanos: u64)
        requires
            old(self).wf(),
            old(self).service@.total < u64::MAX,
        ensures
            final(self).wf(),
            final(self).rate_per_sec == old(self).rate_per_sec,
            final(self).service@ == old(self).service@.recorded(
                elapsed(started_nanos, finished_nanos),
            ),
            final(self).corrected@ == old(self).corrected@.recorded(
                elapsed(scheduled_nanos, finished_nanos),
            ),
            final(self).behind == old(self).behind + (if started_nanos > scheduled_nanos {
                1int
            } else {
                0
            }),
    {
        self.service.record(finished_nanos.saturating_sub(started_nanos));
        self.corrected.record(finished_nanos.saturating_sub(scheduled_nanos));
        if started_nanos > scheduled_nanos {
            self.behind = self.behind + 1;
        }
    }
}


/// A pipeline's parts are those it shows.
proof fn law_a_pipeline_shows_its_parts<L: Levels>(p: Pipeline<L>)
    ensures
        p@.book == p.book@,
        p@.seq == p.seq@,
        p@.params == p.strategy.params,
        p@.redundant_lookup == p.redundant_lookup,
        p@.counters == p.counters@,
{
}

}
