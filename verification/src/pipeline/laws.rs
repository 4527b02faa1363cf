//! What holds of the path as a whole.
use vstd::prelude::*;

use crate::book::SymbolView;
use crate::iextp::carried;
use crate::iextp::segment::SegmentView;
use crate::iextp::sequencer::{lemma_drained, lemma_observed, lemma_resynced, SeqView};
use crate::pipeline::{
    lemma_delivered, lemma_run, lemma_settled, resyncs, PipeView, Stage, MAX_HELD_BEFORE_RESYNC,
};
use crate::tree::{least, lemma_ends_exist};

verus! {

/// `a` has counted nothing that `b` has not.
pub open spec fn no_more(a: PipeView, b: PipeView) -> bool {
    &&& a.counters.packets == b.counters.packets
    &&& a.counters.messages <= b.counters.messages
    &&& a.counters.book_updates <= b.counters.book_updates
    &&& a.counters.quotes <= b.counters.quotes
    &&& a.counters.orders_encoded <= b.counters.orders_encoded
    &&& a.counters.encode_errors <= b.counters.encode_errors
    &&& a.counters.resyncs <= b.counters.resyncs
    &&& a.counters.messages_lost <= b.counters.messages_lost
    &&& a.issued <= b.issued
}

/// Two runs of the same messages to different depths, side by side.
spec fn alongside(a: PipeView, b: PipeView, upto_a: Stage, upto_b: Stage) -> bool {
    &&& no_more(a, b)
    &&& a.params == b.params
    &&& a.seq == b.seq
    &&& upto_a.depth() >= Stage::BookUpdate.depth() ==> a.book == b.book
    &&& upto_a is Encode ==> a == b
}

proof fn lemma_runs_alongside(
    a: PipeView,
    b: PipeView,
    upto_a: Stage,
    upto_b: Stage,
    bodies: Seq<Seq<u8>>,
)
    requires
        Stage::Parse.depth() <= upto_a.depth() <= upto_b.depth(),
        alongside(a, b, upto_a, upto_b),
    ensures
        alongside(a.run(bodies, upto_a), b.run(bodies, upto_b), upto_a, upto_b),
    decreases bodies.len(),
{
    if bodies.len() > 0 {
        let body = bodies[0];
        assert(alongside(a.handled(body, upto_a), b.handled(body, upto_b), upto_a, upto_b));
        lemma_runs_alongside(
            a.handled(body, upto_a),
            b.handled(body, upto_b),
            upto_a,
            upto_b,
            bodies.drop_first(),
        );
    }
}

/// Running messages only ever adds to what has been counted.
proof fn lemma_run_adds(st: PipeView, bodies: Seq<Seq<u8>>, upto: Stage)
    ensures
        no_more(st, st.run(bodies, upto)),
    decreases bodies.len(),
{
    if bodies.len() > 0 {
        assert(no_more(st, st.handled(bodies[0], upto)));
        lemma_run_adds(st.handled(bodies[0], upto), bodies.drop_first(), upto);
    }
}

/// Each prefix of the path does no more than a deeper one: whatever the frame
/// and the state before it, stopping earlier never counts more of anything.
pub proof fn law_prefixes_do_no_more(st: PipeView, bytes: Seq<u8>, a: Stage, b: Stage)
    requires
        st.wf(),
        a.depth() <= b.depth(),
        carried(bytes) matches Some((_, s)) ==> s.next_sequence() <= i64::MAX,
    ensures
        no_more(st.framed(bytes, a), st.framed(bytes, b)),
        a.depth() <= Stage::Sequence.depth() ==> st.framed(bytes, a).counters.messages
            == st.counters.messages,
        a.depth() <= Stage::Parse.depth() ==> st.framed(bytes, a).counters.book_updates
            == st.counters.book_updates,
        a.depth() <= Stage::Decide.depth() ==> st.framed(bytes, a).issued == st.issued
            && st.framed(bytes, a).out == st.out,
{
    match carried(bytes) {
        None => {},
        Some((payload, s)) => {
            let seen = st.counted().observed(s);
            let next = seen.resynced();
            lemma_observed(st.seq, s.session, s.first_sequence, s.message_count);
            lemma_settled(seen.seq);
            lemma_run_adds(next, s.bodies(), a);
            lemma_run_adds(next, s.bodies(), b);
            if a.depth() >= Stage::Parse.depth() {
                lemma_runs_alongside(next, next, a, b, s.bodies());
            }
            lemma_prefix_stops(next, s.bodies(), a);
        },
    }
}

/// A prefix stops where it says it does.
proof fn lemma_prefix_stops(st: PipeView, bodies: Seq<Seq<u8>>, upto: Stage)
    ensures
        upto.depth() <= Stage::Parse.depth() ==> st.run(bodies, upto).counters.book_updates
            == st.counters.book_updates,
        upto.depth() <= Stage::Decide.depth() ==> st.run(bodies, upto).issued == st.issued
            && st.run(bodies, upto).out == st.out,
    decreases bodies.len(),
{
    if bodies.len() > 0 {
        lemma_prefix_stops(st.handled(bodies[0], upto), bodies.drop_first(), upto);
    }
}

/// A duplicate segment, the losing side of an A/B pair, touches nothing but the
/// packet count and the sequencer's duplicate count, on either path.
pub proof fn law_duplicates_touch_nothing(st: PipeView, bytes: Seq<u8>, upto: Stage)
    requires
        carried(bytes) matches Some((_, s)) && st.action(s) is Duplicate,
    ensures
        st.received(bytes) == st.counted().observed(carried(bytes)->Some_0.1),
        st.framed(bytes, upto).book == st.book,
        st.framed(bytes, upto).issued == st.issued,
        st.framed(bytes, upto).out == st.out,
        st.framed(bytes, upto).counters.messages == st.counters.messages,
{
}

proof fn lemma_caught_up(st: PipeView)
    ensures
        st.caught_up().seq == st.seq,
        st.caught_up().params == st.params,
        st.pending.dom().finite() ==> forall|k: i64| #[trigger]
            st.caught_up().pending.contains_key(k) ==> st.seq.expected <= k,
    decreases st.pending.dom().len(),
{
    let k = least(st.pending);
    if st.pending.dom().finite() && st.pending.contains_key(k) && k < st.seq.expected {
        let rest = st.pending.remove(k);
        lemma_delivered(st, st.pending[k], 0);
        lemma_caught_up(PipeView { pending: rest, ..st.delivered(st.pending[k]) });
    } else if st.pending.dom().finite() && !st.pending.dom().is_empty() {
        lemma_ends_exist(st.pending);
    } else {
        assert forall|j: i64| st.pending.dom().finite() && #[trigger] st.pending.contains_key(
            j,
        ) implies st.seq.expected <= j by {
            assert(st.pending.dom().contains(j));
        }
    }
}

/// Replaying what was put by leaves nothing behind that the sequencer has
/// passed: a segment that arrived early is not forgotten once its turn comes.
pub proof fn law_nothing_overdue_stays_put_by(st: PipeView)
    requires
        st.wf(),
    ensures
        forall|k: i64| #[trigger]
            st.caught_up().pending.contains_key(k) ==> st.seq.expected <= k,
        st.caught_up().seq == st.seq,
{
    lemma_caught_up(st);
}

/// A frame that has been delivered is applied once: offered again straight
/// after, it is a duplicate and the book, the orders and the message counts stay
/// as they were.
pub proof fn law_a_frame_is_applied_once(st: PipeView, bytes: Seq<u8>)
    requires
        st.wf(),
        carried(bytes) matches Some((_, s)) && s.next_sequence() <= i64::MAX && s.message_count
            > 0 && (st.action(s) is Deliver || st.action(s) is SessionReset),
    ensures
        ({
            let once = st.received(bytes);
            let twice = once.received(bytes);
            &&& once.action(carried(bytes)->Some_0.1) is Duplicate
            &&& twice.book == once.book
            &&& twice.out == once.out
            &&& twice.issued == once.issued
            &&& twice.pending == once.pending
            &&& twice.counters.messages == once.counters.messages
        }),
{
    let (payload, s) = carried(bytes)->Some_0;
    let seen = st.counted().observed(s);
    lemma_observed(st.seq, s.session, s.first_sequence, s.message_count);
    lemma_taken_past(st.seq, s);
    lemma_delivered(seen, payload, 0);
    let done = seen.delivered(payload);
    lemma_settled(done.seq);
    lemma_caught_up(done.recovered());
    let once = st.received(bytes);
    assert(once.seq == done.recovered().seq);
    law_duplicates_touch_nothing(once, bytes, Stage::Encode);
}

/// A delivered segment is behind what is awaited next.
proof fn lemma_taken_past(seq: SeqView, s: SegmentView)
    requires
        seq.wf(),
        s.message_count > 0,
        s.next_sequence() <= i64::MAX,
        seq.observed(s.session, s.first_sequence, s.message_count).1 is Deliver || seq.observed(
            s.session,
            s.first_sequence,
            s.message_count,
        ).1 is SessionReset,
    ensures
        ({
            let q = seq.observed(s.session, s.first_sequence, s.message_count).0;
            s.first_sequence < q.expected && q.session == Some(s.session)
        }),
{
    let joined = if seq.session is None {
        SeqView { session: Some(s.session), expected: s.first_sequence as int, ..seq }
    } else {
        seq
    };
    if joined.session == Some(s.session) && s.first_sequence == joined.expected {
        lemma_drained(joined.taken(s.first_sequence as int, s.message_count as int));
    }
}

/// On an unbroken stream the production path does exactly what the full prefix
/// does: with nothing put by and too little held to resynchronise, a frame in
/// turn leaves the same state behind on both.
pub proof fn law_production_path_is_the_full_prefix(st: PipeView, bytes: Seq<u8>)
    requires
        st.pending == Map::<i64, Seq<u8>>::empty(),
        carried(bytes) matches Some((_, s)) && st.observed(s).seq.held.dom().len()
            < MAX_HELD_BEFORE_RESYNC && (st.action(s) is Deliver || st.action(s) is SessionReset),
    ensures
        st.received(bytes) == st.framed(bytes, Stage::Encode),
{
    let (payload, s) = carried(bytes)->Some_0;
    let seen = st.counted().observed(s);
    assert(seen.resynced() =~= seen);
    lemma_run(seen, s.bodies(), Stage::Encode, 0);
    let done = seen.delivered(payload);
    assert(done.recovered() == done);
    assert(!done.pending.contains_key(least(done.pending)));
    assert(done.caught_up() == done);
}

/// The production path never waits for ever: it holds fewer segments than make it
/// give up on a gap, and one more frame keeps it so.
pub proof fn law_the_path_never_stalls(st: PipeView, bytes: Seq<u8>)
    requires
        st.wf(),
        st.seq.held.dom().len() < MAX_HELD_BEFORE_RESYNC,
        carried(bytes) matches Some((_, s)) ==> s.next_sequence() <= i64::MAX,
    ensures
        st.received(bytes).seq.held.dom().len() < MAX_HELD_BEFORE_RESYNC,
{
    if let Some((payload, s)) = carried(bytes) {
        let seen = st.counted().observed(s);
        lemma_observed(st.seq, s.session, s.first_sequence, s.message_count);
        lemma_delivered(seen, payload, 0);
        let done = if st.action(s) is Buffered {
            seen.put_by(s.first_sequence, payload)
        } else {
            seen.delivered(payload)
        };
        lemma_settled(done.seq);
        lemma_caught_up(done.recovered());
    }
}

/// A new session starts over: whatever the book held and whatever was put by, the
/// frame that opens it is told to an empty book, nothing stays put by or waiting,
/// and no reset is counted against the feed.
pub proof fn law_a_new_session_starts_with_an_empty_book(st: PipeView, bytes: Seq<u8>)
    requires
        carried(bytes) matches Some((_, s)) && s.message_count > 0 && st.seq.session is Some
            && st.seq.session != Some(s.session),
    ensures
        ({
            let (payload, s) = carried(bytes)->Some_0;
            let next = st.received(bytes);
            let opened = PipeView {
                book: st.book.cleared(),
                pending: Map::empty(),
                seq: next.seq,
                ..st.counted()
            };
            &&& next == opened.delivered(payload)
            &&& next.pending == Map::<i64, Seq<u8>>::empty()
            &&& next.seq.held.dom().is_empty()
            &&& next.seq.expected == s.next_sequence()
            &&& next.counters.book_resets == st.counters.book_resets
        }),
{
    let (payload, s) = carried(bytes)->Some_0;
    let seen = st.counted().observed(s);
    lemma_delivered(seen, payload, 0);
    let done = seen.delivered(payload);
    assert(done.seq.held =~= Map::<i64, u16>::empty());
    assert(done.recovered() == done);
    assert(!done.pending.contains_key(least(done.pending)));
    assert(done.caught_up() == done);
}

/// Giving up on a gap is never hidden: the messages skipped are counted, there is
/// at least one, and the book, which now reflects a state that never existed, is
/// dropped.
pub proof fn law_losses_are_counted(st: PipeView)
    requires
        st.wf(),
        st.seq.held.dom().len() >= MAX_HELD_BEFORE_RESYNC,
    ensures
        ({
            let next = st.recovered();
            &&& next.counters.messages_lost - st.counters.messages_lost
                == next.seq.stats.messages_lost - st.seq.stats.messages_lost
            &&& next.counters.messages_lost > st.counters.messages_lost
            &&& next.counters.resyncs > st.counters.resyncs
            &&& next.counters.book_resets == st.counters.book_resets + 1
            &&& next.book.symbols == Map::<u64, SymbolView>::empty()
            &&& next.book.stats == st.book.stats
        }),
{
    lemma_ends_exist(st.seq.held);
    lemma_resynced(st.seq);
    lemma_settled(st.seq);
    lemma_settled(st.seq.resynced());
}

}
