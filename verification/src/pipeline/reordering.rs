//! Whatever the network does to a stream of frames, the book comes out the same.
//!
//! Frames arrive out of order and more than once. As long as none is lost for
//! good, the production path builds the book, and writes the orders, that the
//! frames one after the other would have.
use vstd::prelude::*;

use super::{fed, lemma_delivered, PipeView, Stage, MAX_HELD_BEFORE_RESYNC};
use crate::iextp::arbitration::{
    in_step, is_stream, law_a_short_stream_never_fills_the_buffer, lemma_never_fills_front, lemma_piece_keeps_step, never_fills, piece, pieces,
    run,
};
use crate::iextp::carried;
use crate::iextp::segment::segment;
use crate::iextp::sequencer::SeqView;
use crate::tree::{is_least, least, lemma_ends_exist};

verus! {

/// Everything but the sequencer, what is put by and the packet count is the same.
pub open spec fn same_market(a: PipeView, b: PipeView) -> bool {
    &&& a.book == b.book
    &&& a.params == b.params
    &&& a.issued == b.issued
    &&& a.out == b.out
    &&& a.counters.messages == b.counters.messages
    &&& a.counters.book_updates == b.counters.book_updates
    &&& a.counters.quotes == b.counters.quotes
    &&& a.counters.orders_encoded == b.counters.orders_encoded
    &&& a.counters.encode_errors == b.counters.encode_errors
    &&& a.counters.resyncs == b.counters.resyncs
    &&& a.counters.book_resets == b.counters.book_resets
    &&& a.counters.messages_lost == b.counters.messages_lost
}

/// The messages of payloads one after the other.
pub open spec fn told(st: PipeView, payloads: Seq<Seq<u8>>) -> PipeView
    decreases payloads.len(),
{
    if payloads.len() == 0 {
        st
    } else {
        told(st, payloads.drop_last()).delivered(payloads.last())
    }
}

/// The payload a frame carries.
pub open spec fn payload(bytes: Seq<u8>) -> Seq<u8> {
    carried(bytes)->Some_0.0
}

/// The payloads that frames carry.
pub open spec fn payloads(frames: Seq<Seq<u8>>) -> Seq<Seq<u8>> {
    frames.map_values(|f: Seq<u8>| payload(f))
}

/// `frames` carry a stream of one session cut at `cuts`, a piece each.
pub open spec fn is_feed(frames: Seq<Seq<u8>>, session: u32, cuts: Seq<i64>) -> bool {
    &&& frames.len() == cuts.len() - 1
    &&& forall|i: int|
        0 <= i < frames.len() ==> (carried(#[trigger] frames[i]) matches Some((_, s)) && s.session
            == session && s.first_sequence == cuts[i] && s.message_count == cuts[i + 1] - cuts[i])
}

/// Frames in the order they arrive.
pub open spec fn arriving(frames: Seq<Seq<u8>>, order: Seq<int>) -> Seq<Seq<u8>> {
    order.map_values(|i: int| frames[i])
}

/// Too little is ever held for the stream to be resynchronised.
pub open spec fn never_gives_up(
    max_held: nat,
    session: u32,
    cuts: Seq<i64>,
    order: Seq<int>,
) -> bool {
    forall|t: int|
        0 <= t <= order.len() ==> run(
            SeqView::fresh(max_held),
            #[trigger] pieces(session, cuts, order.take(t)),
        ).held.dom().len() < MAX_HELD_BEFORE_RESYNC
}

/// The path after one frame, kept folded up.
#[verifier::opaque]
spec fn heard(st: PipeView, bytes: Seq<u8>) -> PipeView {
    st.received(bytes)
}

spec fn heard_all(st: PipeView, frames: Seq<Seq<u8>>) -> PipeView
    decreases frames.len(),
{
    if frames.len() == 0 {
        st
    } else {
        heard(heard_all(st, frames.drop_last()), frames.last())
    }
}

proof fn lemma_heard_all(st: PipeView, frames: Seq<Seq<u8>>)
    ensures
        heard_all(st, frames) == fed(st, frames),
    decreases frames.len(),
{
    if frames.len() > 0 {
        lemma_heard_all(st, frames.drop_last());
        reveal(heard);
    }
}

/// Messages do the same to the same market, and nothing else.
proof fn lemma_run_same(a: PipeView, b: PipeView, bodies: Seq<Seq<u8>>)
    requires
        same_market(a, b),
    ensures
        same_market(a.run(bodies, Stage::Encode), b.run(bodies, Stage::Encode)),
        a.run(bodies, Stage::Encode).seq == a.seq,
        a.run(bodies, Stage::Encode).pending == a.pending,
        a.run(bodies, Stage::Encode).counters.packets == a.counters.packets,
    decreases bodies.len(),
{
    if bodies.len() > 0 {
        lemma_run_same(
            a.handled(bodies[0], Stage::Encode),
            b.handled(bodies[0], Stage::Encode),
            bodies.drop_first(),
        );
    }
}

proof fn lemma_delivered_same(a: PipeView, b: PipeView, payload: Seq<u8>)
    requires
        same_market(a, b),
    ensures
        same_market(a.delivered(payload), b.delivered(payload)),
        a.delivered(payload).seq == a.seq,
        a.delivered(payload).pending == a.pending,
        a.delivered(payload).counters.packets == a.counters.packets,
{
    match segment(payload) {
        Ok(s) => {
            lemma_run_same(a, b, s.bodies());
        },
        Err(_) => {},
    }
}

/// What is put by are exactly the payloads of pieces seen from `p` on.
spec fn puts_by(
    pending: Map<i64, Seq<u8>>,
    cuts: Seq<i64>,
    ps: Seq<Seq<u8>>,
    seen: Set<int>,
    p: int,
) -> bool {
    &&& pending.dom().finite()
    &&& forall|i: int|
        p <= i < ps.len() ==> (#[trigger] seen.contains(i) <==> pending.contains_key(cuts[i]))
    &&& forall|k: i64| #[trigger]
        pending.contains_key(k) ==> exists|i: int|
            p <= i < ps.len() && #[trigger] cuts[i] == k && pending[k] == ps[i]
}

/// Replaying what was put by takes the pieces from `p` up to `q` in order.
proof fn lemma_catches_up(
    st: PipeView,
    base: PipeView,
    cuts: Seq<i64>,
    ps: Seq<Seq<u8>>,
    seen: Set<int>,
    p: int,
    q: int,
)
    requires
        is_stream(cuts),
        ps.len() == cuts.len() - 1,
        0 <= p <= q <= ps.len(),
        puts_by(st.pending, cuts, ps, seen, p),
        forall|i: int| p <= i < q ==> #[trigger] seen.contains(i),
        q < ps.len() ==> !seen.contains(q),
        st.seq.expected == cuts[q],
        same_market(st, told(base, ps.take(p))),
    ensures
        ({
            let done = st.caught_up();
            &&& done.seq == st.seq
            &&& done.counters.packets == st.counters.packets
            &&& puts_by(done.pending, cuts, ps, seen, q)
            &&& same_market(done, told(base, ps.take(q)))
        }),
    decreases q - p,
{
    let k = least(st.pending);
    if !st.pending.dom().is_empty() {
        lemma_ends_exist(st.pending);
    } else {
        assert(!st.pending.dom().contains(k));
    }
    if p == q {
        assert forall|j: i64| #[trigger] st.pending.contains_key(j) implies cuts[q] <= j by {
            let i = choose|i: int|
                p <= i < ps.len() && #[trigger] cuts[i] == j && st.pending[j] == ps[i];
            assert(i == p || cuts[p] < cuts[i]);
        }
        assert(st.caught_up() == st);
    } else {
        assert(seen.contains(p));
        assert(st.pending.contains_key(cuts[p]));
        assert(st.pending.dom().contains(cuts[p]));
        assert forall|j: i64| #[trigger] st.pending.contains_key(j) implies cuts[p] <= j by {
            let i = choose|i: int|
                p <= i < ps.len() && #[trigger] cuts[i] == j && st.pending[j] == ps[i];
            assert(i == p || cuts[p] < cuts[i]);
        }
        assert(is_least(st.pending, cuts[p]));
        assert(k == cuts[p]);
        assert(st.pending[k] == ps[p]) by {
            let i = choose|i: int|
                p <= i < ps.len() && #[trigger] cuts[i] == k && st.pending[k] == ps[i];
            if i != p {
                assert(cuts[p] < cuts[i]);
            }
        }
        assert(cuts[p] < cuts[q]);
        let rest = st.pending.remove(k);
        let next = PipeView { pending: rest, ..st.delivered(st.pending[k]) };
        assert(st.caught_up() == next.caught_up());
        lemma_delivered_same(st, told(base, ps.take(p)), ps[p]);
        assert(ps.take(p + 1).drop_last() =~= ps.take(p));
        assert(same_market(next, told(base, ps.take(p + 1))));
        assert forall|i: int| p + 1 <= i < ps.len() implies (#[trigger] seen.contains(i)
            <==> rest.contains_key(cuts[i])) by {
            assert(cuts[p] < cuts[i]);
        }
        assert forall|j: i64| #[trigger] rest.contains_key(j) implies exists|i: int|
            p + 1 <= i < ps.len() && #[trigger] cuts[i] == j && rest[j] == ps[i] by {
            assert(st.pending.contains_key(j));
            let i = choose|i: int|
                p <= i < ps.len() && #[trigger] cuts[i] == j && st.pending[j] == ps[i];
            assert(i != p);
        }
        lemma_catches_up(next, base, cuts, ps, seen, p + 1, q);
    }
}

/// The path has told the book the first `p` pieces and put by the later ones it
/// has seen.
spec fn on_course(
    st: PipeView,
    base: PipeView,
    session: u32,
    cuts: Seq<i64>,
    ps: Seq<Seq<u8>>,
    seen: Set<int>,
    p: int,
) -> bool {
    &&& in_step(st.seq, session, cuts, seen, p)
    &&& st.seq.held.dom().finite()
    &&& p < ps.len() ==> !seen.contains(p)
    &&& puts_by(st.pending, cuts, ps, seen, p)
    &&& same_market(st, told(base, ps.take(p)))
}

/// As much is put by as is held.
proof fn lemma_put_by_is_held(
    st: PipeView,
    base: PipeView,
    session: u32,
    cuts: Seq<i64>,
    ps: Seq<Seq<u8>>,
    seen: Set<int>,
    p: int,
)
    requires
        ps.len() == cuts.len() - 1,
        on_course(st, base, session, cuts, ps, seen, p),
    ensures
        st.pending.dom() == st.seq.held.dom(),
{
    assert forall|k: i64| st.pending.dom().contains(k) implies st.seq.held.dom().contains(k) by {
        assert(st.pending.contains_key(k));
        let i = choose|i: int|
            p <= i < ps.len() && #[trigger] cuts[i] == k && st.pending[k] == ps[i];
        assert(seen.contains(i));
    }
    assert forall|k: i64| st.seq.held.dom().contains(k) implies st.pending.dom().contains(k) by {
        assert(st.seq.held.contains_key(k));
        let i = choose|i: int|
            p <= i < cuts.len() - 1 && #[trigger] cuts[i] == k && st.seq.held[k] == cuts[i + 1]
                - cuts[i];
        assert(seen.contains(i));
    }
    assert(st.pending.dom() =~= st.seq.held.dom());
}

/// One more frame keeps the path on course.
proof fn lemma_frame_keeps_course(
    st: PipeView,
    base: PipeView,
    session: u32,
    cuts: Seq<i64>,
    frames: Seq<Seq<u8>>,
    seen: Set<int>,
    p: int,
    i: int,
) -> (q: int)
    requires
        is_stream(cuts),
        is_feed(frames, session, cuts),
        on_course(st, base, session, cuts, payloads(frames), seen, p),
        0 <= i < frames.len(),
        st.seq.held.dom().len() < MAX_HELD_BEFORE_RESYNC,
        st.seq.held.dom().len() < st.seq.max_held,
        ({
            let a = piece(session, cuts, i);
            st.seq.observed(a.session, a.first, a.count).0.held.dom().len()
                < MAX_HELD_BEFORE_RESYNC
        }),
    ensures
        ({
            let a = piece(session, cuts, i);
            let next = heard(st, frames[i]);
            &&& on_course(next, base, session, cuts, payloads(frames), seen.insert(i), q)
            &&& next.seq == st.seq.observed(a.session, a.first, a.count).0
            &&& next.seq.max_held == st.seq.max_held
            &&& next.counters.packets == st.counters.packets + 1
        }),
{
    let n = frames.len() as int;
    let ps = payloads(frames);
    let more = seen.insert(i);
    let a = piece(session, cuts, i);
    let (pay, s) = carried(frames[i])->Some_0;
    assert(carried(frames[i]) is Some);
    assert(pay == ps[i]);
    assert(cuts[i] < cuts[i + 1]);
    assert(s.message_count == a.count && s.first_sequence == a.first && s.session == a.session);
    let q = lemma_piece_keeps_step(st.seq, session, cuts, seen, p, i);
    let seen_it = st.counted().observed(s);
    let seq = seen_it.seq;
    let next = heard(st, frames[i]);
    reveal(heard);
    if i < p {
        assert(cuts[i] < cuts[p]);
        assert(st.action(s) is Duplicate);
        assert(next == seen_it);
        assert(q == p) by {
            if q > p {
                assert(cuts[p] < cuts[q]);
            }
        }
        assert forall|j: int| p <= j < ps.len() implies (#[trigger] more.contains(j)
            <==> st.pending.contains_key(cuts[j])) by {
            assert(seen.contains(j) <==> st.pending.contains_key(cuts[j]));
        }
        assert(puts_by(next.pending, cuts, ps, more, p));
    } else if i > p {
        assert(cuts[p] < cuts[i]);
        assert(st.action(s) is Buffered);
        assert(q == p) by {
            if q > p {
                assert(cuts[p] < cuts[q]);
            }
        }
        lemma_put_by_is_held(st, base, session, cuts, ps, seen, p);
        let kept = seen_it.put_by(s.first_sequence, pay);
        let pending = st.pending.insert(cuts[i], ps[i]);
        assert(kept.pending == pending);
        assert(kept.recovered() == kept);
        assert forall|j: int| p <= j < ps.len() implies (#[trigger] more.contains(j)
            <==> pending.contains_key(cuts[j])) by {
            if j < i {
                assert(cuts[j] < cuts[i]);
            } else if i < j {
                assert(cuts[i] < cuts[j]);
            }
            assert(seen.contains(j) <==> st.pending.contains_key(cuts[j]));
        }
        assert forall|k: i64| #[trigger] pending.contains_key(k) implies exists|j: int|
            p <= j < ps.len() && #[trigger] cuts[j] == k && pending[k] == ps[j] by {
            if k == cuts[i] {
                assert(pending[k] == ps[i]);
            } else {
                assert(st.pending.contains_key(k));
                let j = choose|j: int|
                    p <= j < ps.len() && #[trigger] cuts[j] == k && st.pending[k] == ps[j];
                assert(pending[k] == ps[j]);
            }
        }
        assert(puts_by(pending, cuts, ps, more, p));
        assert(!more.contains(p));
        lemma_catches_up(kept, base, cuts, ps, more, p, p);
        assert(next == kept.caught_up());
    } else {
        assert(st.action(s) is Deliver);
        let done = seen_it.delivered(pay);
        lemma_delivered_same(seen_it, told(base, ps.take(p)), pay);
        assert(ps.take(p + 1).drop_last() =~= ps.take(p));
        assert(same_market(done, told(base, ps.take(p + 1))));
        assert(done.seq == seq);
        assert(done.recovered() == done);
        assert(next == done.caught_up());
        assert(p < q) by {
            if q == p {
                assert(more.contains(p));
            }
        }
        assert forall|j: int| p + 1 <= j < ps.len() implies (#[trigger] more.contains(j)
            <==> done.pending.contains_key(cuts[j])) by {
            assert(seen.contains(j) <==> st.pending.contains_key(cuts[j]));
        }
        assert forall|k: i64| #[trigger] done.pending.contains_key(k) implies exists|j: int|
            p + 1 <= j < ps.len() && #[trigger] cuts[j] == k && done.pending[k] == ps[j] by {
            let j = choose|j: int|
                p <= j < ps.len() && #[trigger] cuts[j] == k && st.pending[k] == ps[j];
            assert(j != p) by {
                if j == p {
                    assert(seen.contains(p) <==> st.pending.contains_key(cuts[p]));
                }
            }
        }
        assert(puts_by(done.pending, cuts, ps, more, p + 1));
        lemma_catches_up(done, base, cuts, ps, more, p + 1, q);
    }
    q
}

/// The first frame of a stream is told to the book at once.
proof fn lemma_first_frame_on_course(
    base: PipeView,
    session: u32,
    cuts: Seq<i64>,
    frames: Seq<Seq<u8>>,
    max_held: nat,
)
    requires
        is_stream(cuts),
        is_feed(frames, session, cuts),
        base.seq == SeqView::fresh(max_held),
        base.pending == Map::<i64, Seq<u8>>::empty(),
    ensures
        ({
            let a = piece(session, cuts, 0);
            let next = heard(base, frames[0]);
            &&& on_course(next, base, session, cuts, payloads(frames), set![0int], 1)
            &&& next.seq == base.seq.observed(a.session, a.first, a.count).0
            &&& next.seq.max_held == max_held
            &&& next.counters.packets == base.counters.packets + 1
        }),
{
    let ps = payloads(frames);
    let a = piece(session, cuts, 0);
    assert(carried(frames[0]) is Some);
    let (pay, s) = carried(frames[0])->Some_0;
    assert(pay == ps[0]);
    assert(cuts[0] < cuts[1]);
    let joined = SeqView { session: Some(session), expected: a.first as int, ..base.seq };
    let taken = joined.taken(a.first as int, a.count as int);
    assert(!taken.held.contains_key(least(taken.held)));
    assert(taken.drained() == taken);
    let seen_it = base.counted().observed(s);
    assert(seen_it.seq == taken);
    let done = seen_it.delivered(pay);
    assert(ps.take(0) =~= Seq::empty());
    assert(told(base, ps.take(0)) == base);
    lemma_delivered_same(seen_it, base, pay);
    assert(ps.take(1).drop_last() =~= ps.take(0));
    assert(same_market(done, told(base, ps.take(1))));
    assert(done.recovered() == done);
    assert(!done.pending.contains_key(least(done.pending)));
    assert(done.caught_up() == done);
    assert(heard(base, frames[0]) == done) by {
        reveal(heard);
    }
}

#[verifier::spinoff_prover]
#[verifier::rlimit(30)]
proof fn lemma_arrivals_on_course(
    base: PipeView,
    session: u32,
    cuts: Seq<i64>,
    frames: Seq<Seq<u8>>,
    max_held: nat,
    order: Seq<int>,
) -> (p: int)
    requires
        is_stream(cuts),
        is_feed(frames, session, cuts),
        base.seq == SeqView::fresh(max_held),
        base.pending == Map::<i64, Seq<u8>>::empty(),
        never_fills(max_held, session, cuts, order),
        never_gives_up(max_held, session, cuts, order),
        order.len() > 0,
        order[0] == 0,
        forall|t: int| 0 <= t < order.len() ==> 0 <= #[trigger] order[t] < frames.len(),
    ensures
        ({
            let st = heard_all(base, arriving(frames, order));
            &&& on_course(st, base, session, cuts, payloads(frames), order.to_set(), p)
            &&& st.seq == run(base.seq, pieces(session, cuts, order))
            &&& st.seq.max_held == max_held
            &&& st.counters.packets == base.counters.packets + order.len()
        }),
    decreases order.len(),
{
    let i = order.last();
    let a = piece(session, cuts, i);
    let front = order.drop_last();
    let arrivals = pieces(session, cuts, order);
    let bytes = arriving(frames, order);
    assert(arrivals.last() == a);
    assert(arrivals.drop_last() =~= pieces(session, cuts, front));
    assert(bytes.last() == frames[i]);
    assert(bytes.drop_last() =~= arriving(frames, front));
    assert(order.take(order.len() as int) =~= order);
    assert(front =~= order.take(order.len() - 1));
    if order.len() == 1 {
        lemma_first_frame_on_course(base, session, cuts, frames, max_held);
        assert(arriving(frames, front).len() == 0);
        assert(heard_all(base, arriving(frames, front)) == base);
        assert(run(base.seq, pieces(session, cuts, front)) == base.seq);
        assert(order.to_set() =~= set![0int]) by {
            assert forall|j: int| set![0int].contains(j) implies order.to_set().contains(j) by {
                assert(order[0] == j);
            }
        }
        1
    } else {
        lemma_never_fills_front(max_held, session, cuts, order);
        assert forall|t: int| 0 <= t <= front.len() implies run(
            SeqView::fresh(max_held),
            #[trigger] pieces(session, cuts, front.take(t)),
        ).held.dom().len() < MAX_HELD_BEFORE_RESYNC by {
            assert(front.take(t) =~= order.take(t));
            assert(run(
                SeqView::fresh(max_held),
                pieces(session, cuts, order.take(t)),
            ).held.dom().len() < MAX_HELD_BEFORE_RESYNC);
        }
        let p = lemma_arrivals_on_course(base, session, cuts, frames, max_held, front);
        let st = heard_all(base, arriving(frames, front));
        assert(run(base.seq, pieces(session, cuts, order.take(order.len() - 1))).held.dom().len()
            < MAX_HELD_BEFORE_RESYNC);
        assert(run(base.seq, pieces(session, cuts, order.take(order.len() - 1))).held.dom().len()
            < max_held);
        assert(run(base.seq, pieces(session, cuts, order.take(order.len() as int))).held.dom().len()
            < MAX_HELD_BEFORE_RESYNC);
        let q = lemma_frame_keeps_course(
            st,
            base,
            session,
            cuts,
            frames,
            front.to_set(),
            p,
            i,
        );
        assert(front.to_set().insert(i) =~= order.to_set()) by {
            assert forall|j: int| order.to_set().contains(j) implies front.to_set().insert(
                i,
            ).contains(j) by {
                let t = choose|t: int| 0 <= t < order.len() && order[t] == j;
                if t < order.len() - 1 {
                    assert(front[t] == j);
                }
            }
            assert forall|j: int| front.to_set().insert(i).contains(j) implies order.to_set().contains(
                j,
            ) by {
                if j == i {
                    assert(order[order.len() - 1] == i);
                } else {
                    let t = choose|t: int| 0 <= t < front.len() && front[t] == j;
                    assert(order[t] == j);
                }
            }
        }
        q
    }
}

/// Frames that all arrive build the same book, and write the same orders, as
/// their messages one after the other, in whatever order and however often the
/// frames come, so long as the first to arrive is the first of the stream and
/// too little is ever missing for the stream to be resynchronised. Nothing is
/// left put by or waiting, and every frame is counted.
pub proof fn law_any_order_builds_the_same_book(
    base: PipeView,
    session: u32,
    cuts: Seq<i64>,
    frames: Seq<Seq<u8>>,
    max_held: nat,
    order: Seq<int>,
)
    requires
        is_stream(cuts),
        is_feed(frames, session, cuts),
        base.seq == SeqView::fresh(max_held),
        base.pending == Map::<i64, Seq<u8>>::empty(),
        never_fills(max_held, session, cuts, order),
        never_gives_up(max_held, session, cuts, order),
        order.len() > 0,
        order[0] == 0,
        forall|t: int| 0 <= t < order.len() ==> 0 <= #[trigger] order[t] < frames.len(),
        forall|i: int| 0 <= i < frames.len() ==> #[trigger] order.contains(i),
    ensures
        same_market(fed(base, arriving(frames, order)), told(base, payloads(frames))),
        fed(base, arriving(frames, order)).pending == Map::<i64, Seq<u8>>::empty(),
        fed(base, arriving(frames, order)).seq.expected == cuts.last(),
        fed(base, arriving(frames, order)).seq.held.dom().is_empty(),
        fed(base, arriving(frames, order)).counters.packets == base.counters.packets
            + order.len(),
{
    let n = frames.len() as int;
    let ps = payloads(frames);
    let p = lemma_arrivals_on_course(base, session, cuts, frames, max_held, order);
    lemma_heard_all(base, arriving(frames, order));
    let st = heard_all(base, arriving(frames, order));
    assert(p == n) by {
        if p < n {
            assert(order.contains(p));
            assert(order.to_set().contains(p));
        }
    }
    assert(ps.take(n) =~= ps);
    assert(st.pending =~= Map::<i64, Seq<u8>>::empty()) by {
        assert forall|k: i64| !st.pending.contains_key(k) by {
            if st.pending.contains_key(k) {
                let i = choose|i: int|
                    p <= i < ps.len() && #[trigger] cuts[i] == k && st.pending[k] == ps[i];
            }
        }
    }
}

/// A path that began with nothing has told the book every frame once, in turn, and
/// given up on none.
pub open spec fn all_told(
    st: PipeView,
    cuts: Seq<i64>,
    frames: Seq<Seq<u8>>,
    order: Seq<int>,
) -> bool {
    &&& same_market(st, told(PipeView::fresh(), payloads(frames)))
    &&& st.pending == Map::<i64, Seq<u8>>::empty()
    &&& st.seq.expected == cuts.last()
    &&& st.seq.held.dom().is_empty()
    &&& st.counters.packets == order.len()
    &&& st.counters.resyncs == 0
    &&& st.counters.book_resets == 0
    &&& st.counters.messages_lost == 0
}

/// Up to sixty-four frames of one session build the same book in whatever order
/// and however often they come, so long as the first to arrive is the first of the
/// stream: too few can be missing for any to be given up on.
pub proof fn law_a_short_feed_builds_the_same_book(
    session: u32,
    cuts: Seq<i64>,
    frames: Seq<Seq<u8>>,
    order: Seq<int>,
)
    requires
        is_stream(cuts),
        is_feed(frames, session, cuts),
        frames.len() <= MAX_HELD_BEFORE_RESYNC,
        order.len() > 0,
        order[0] == 0,
        forall|t: int| 0 <= t < order.len() ==> 0 <= #[trigger] order[t] < frames.len(),
        forall|i: int| 0 <= i < frames.len() ==> #[trigger] order.contains(i),
    ensures
        all_told(fed(PipeView::fresh(), arriving(frames, order)), cuts, frames, order),
{
    law_a_short_stream_never_fills_the_buffer(1024, session, cuts, order);
    law_any_order_builds_the_same_book(PipeView::fresh(), session, cuts, frames, 1024, order);
    lemma_told(PipeView::fresh(), payloads(frames));
}

/// Telling the messages of payloads gives up on nothing.
proof fn lemma_told(st: PipeView, ps: Seq<Seq<u8>>)
    ensures
        told(st, ps).counters.resyncs == st.counters.resyncs,
        told(st, ps).counters.book_resets == st.counters.book_resets,
        told(st, ps).counters.messages_lost == st.counters.messages_lost,
    decreases ps.len(),
{
    if ps.len() > 0 {
        lemma_told(st, ps.drop_last());
        lemma_delivered(told(st, ps.drop_last()), ps.last(), 0);
    }
}

proof fn lemma_heard_three(st: PipeView, a: Seq<u8>, b: Seq<u8>, c: Seq<u8>)
    ensures
        heard_all(st, seq![a, b, c]) == st.received(a).received(b).received(c),
{
    assert(seq![a, b, c].drop_last() =~= seq![a, b]);
    assert(seq![a, b].drop_last() =~= seq![a]);
    assert(seq![a].drop_last() =~= Seq::empty());
    reveal_with_fuel(heard_all, 4);
    reveal(heard);
}

proof fn lemma_short_feed(
    session: u32,
    cuts: Seq<i64>,
    frames: Seq<Seq<u8>>,
    order: Seq<int>,
)
    requires
        is_stream(cuts),
        is_feed(frames, session, cuts),
        frames.len() <= MAX_HELD_BEFORE_RESYNC,
        order.len() > 0,
        order[0] == 0,
        forall|t: int| 0 <= t < order.len() ==> 0 <= #[trigger] order[t] < frames.len(),
        forall|i: int| 0 <= i < frames.len() ==> #[trigger] order.contains(i),
    ensures
        all_told(heard_all(PipeView::fresh(), arriving(frames, order)), cuts, frames, order),
{
    law_a_short_feed_builds_the_same_book(session, cuts, frames, order);
    lemma_heard_all(PipeView::fresh(), arriving(frames, order));
}

/// `a`, `b` and `c` carry segments of one session, each beginning where the one
/// before ends.
pub open spec fn consecutive(a: Seq<u8>, b: Seq<u8>, c: Seq<u8>) -> bool {
    match (carried(a), carried(b), carried(c)) {
        (Some((_, x)), Some((_, y)), Some((_, z))) => {
            &&& x.session == y.session == z.session
            &&& x.message_count > 0
            &&& y.message_count > 0
            &&& z.message_count > 0
            &&& x.next_sequence() == y.first_sequence
            &&& y.next_sequence() == z.first_sequence
            &&& z.next_sequence() <= i64::MAX
        },
        _ => false,
    }
}

/// The same market, reached at the same packet and sequence number with nothing
/// waiting and nothing given up on.
pub open spec fn same_outcome(p: PipeView, q: PipeView) -> bool {
    &&& p.book == q.book
    &&& p.counters == q.counters
    &&& p.counters.resyncs == 0
    &&& p.issued == q.issued
    &&& p.out == q.out
    &&& p.seq.expected == q.seq.expected
    &&& p.seq.held.dom().is_empty()
    &&& p.pending == Map::<i64, Seq<u8>>::empty()
}

/// Where three consecutive frames cut their stream.
spec fn three_cuts(a: Seq<u8>, b: Seq<u8>, c: Seq<u8>) -> Seq<i64> {
    let z = carried(c)->Some_0.1;
    seq![
        carried(a)->Some_0.1.first_sequence,
        carried(b)->Some_0.1.first_sequence,
        z.first_sequence,
        z.next_sequence() as i64,
    ]
}

#[verifier::spinoff_prover]
proof fn lemma_three_cuts(a: Seq<u8>, b: Seq<u8>, c: Seq<u8>)
    requires
        consecutive(a, b, c),
    ensures
        is_stream(three_cuts(a, b, c)),
        is_feed(seq![a, b, c], carried(a)->Some_0.1.session, three_cuts(a, b, c)),
{
}

proof fn lemma_order_of_three(order: Seq<int>)
    requires
        order.len() == 3,
        order[0] == 0,
        order[1] == 1 && order[2] == 2 || order[1] == 2 && order[2] == 1,
    ensures
        forall|t: int| 0 <= t < 3 ==> 0 <= #[trigger] order[t] < 3,
        forall|k: int| 0 <= k < 3 ==> #[trigger] order.contains(k),
{
    assert forall|k: int| 0 <= k < 3 implies #[trigger] order.contains(k) by {
        assert(order[0] == k || order[1] == k || order[2] == k);
    }
}

proof fn lemma_three_frames(
    session: u32,
    cuts: Seq<i64>,
    frames: Seq<Seq<u8>>,
    order: Seq<int>,
)
    requires
        is_stream(cuts),
        is_feed(frames, session, cuts),
        frames.len() == 3,
        order.len() == 3,
        order[0] == 0,
        order[1] == 1 && order[2] == 2 || order[1] == 2 && order[2] == 1,
    ensures
        all_told(heard_all(PipeView::fresh(), arriving(frames, order)), cuts, frames, order),
{
    lemma_order_of_three(order);
    lemma_short_feed(session, cuts, frames, order);
}

proof fn lemma_same_outcome(
    p: PipeView,
    q: PipeView,
    cuts: Seq<i64>,
    frames: Seq<Seq<u8>>,
    one: Seq<int>,
    other: Seq<int>,
)
    requires
        all_told(p, cuts, frames, one),
        all_told(q, cuts, frames, other),
        one.len() == other.len(),
    ensures
        same_outcome(p, q),
{
}

proof fn lemma_arriving_three(a: Seq<u8>, b: Seq<u8>, c: Seq<u8>)
    ensures
        arriving(seq![a, b, c], seq![0, 2, 1]) == seq![a, c, b],
        arriving(seq![a, b, c], seq![0, 1, 2]) == seq![a, b, c],
{
}

proof fn lemma_two_orders(session: u32, cuts: Seq<i64>, frames: Seq<Seq<u8>>)
    requires
        is_stream(cuts),
        is_feed(frames, session, cuts),
        frames.len() == 3,
    ensures
        same_outcome(
            heard_all(PipeView::fresh(), arriving(frames, seq![0, 2, 1])),
            heard_all(PipeView::fresh(), arriving(frames, seq![0, 1, 2])),
        ),
{
    let swapped = seq![0, 2, 1];
    let straight = seq![0, 1, 2];
    lemma_three_frames(session, cuts, frames, swapped);
    lemma_three_frames(session, cuts, frames, straight);
    lemma_same_outcome(
        heard_all(PipeView::fresh(), arriving(frames, swapped)),
        heard_all(PipeView::fresh(), arriving(frames, straight)),
        cuts,
        frames,
        swapped,
        straight,
    );
}

proof fn lemma_swapped_frames(a: Seq<u8>, b: Seq<u8>, c: Seq<u8>)
    requires
        consecutive(a, b, c),
    ensures
        same_outcome(
            heard_all(PipeView::fresh(), seq![a, c, b]),
            heard_all(PipeView::fresh(), seq![a, b, c]),
        ),
{
    lemma_three_cuts(a, b, c);
    lemma_arriving_three(a, b, c);
    lemma_two_orders(carried(a)->Some_0.1.session, three_cuts(a, b, c), seq![a, b, c]);
}

/// A frame that comes late is replayed in its turn, not skipped: of three
/// consecutive frames the last two may change places, and the book, every counter,
/// the last order and the sequence number awaited come out the same, with nothing
/// put by or waiting.
pub proof fn law_a_late_frame_is_replayed(a: Seq<u8>, b: Seq<u8>, c: Seq<u8>)
    requires
        consecutive(a, b, c),
    ensures
        same_outcome(
            PipeView::fresh().received(a).received(c).received(b),
            PipeView::fresh().received(a).received(b).received(c),
        ),
{
    lemma_swapped_frames(a, b, c);
    lemma_heard_three(PipeView::fresh(), a, c, b);
    lemma_heard_three(PipeView::fresh(), a, b, c);
}

}
