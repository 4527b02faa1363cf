//! What the sequencer guarantees over a whole stream.
//!
//! Each segment of a stream is processed once, whichever feed it came down,
//! however often it is repeated, and in whatever order it arrives.
use vstd::prelude::*;

use crate::iextp::sequencer::{lemma_drained, lemma_observed, lemma_resynced, SeqView, StatsView};
use crate::tree::{is_least, least, lemma_ends_exist};

verus! {

/// A segment as the sequencer sees it.
pub struct Arrival {
    pub session: u32,
    pub first: i64,
    pub count: u16,
}

/// The state after a run of arrivals.
pub open spec fn run(st: SeqView, arrivals: Seq<Arrival>) -> SeqView
    decreases arrivals.len(),
{
    if arrivals.len() == 0 {
        st
    } else {
        let a = arrivals.last();
        run(st, arrivals.drop_last()).observed(a.session, a.first, a.count).0
    }
}

/// Every arrival is of the given session and its sequence numbers fit.
pub open spec fn one_session(arrivals: Seq<Arrival>, session: u32) -> bool {
    forall|i: int|
        0 <= i < arrivals.len() ==> (#[trigger] arrivals[i]).session == session
            && arrivals[i].first + arrivals[i].count <= i64::MAX
}

/// Within a session the awaited sequence number never goes back.
pub proof fn law_expected_never_goes_back(st: SeqView, session: u32, arrivals: Seq<Arrival>)
    requires
        st.wf(),
        st.session == Some(session),
        one_session(arrivals, session),
    ensures
        run(st, arrivals).wf(),
        run(st, arrivals).session == Some(session),
        st.expected <= run(st, arrivals).expected,
        run(st, arrivals).max_held == st.max_held,
        run(st, arrivals).held.dom().len() <= st.max_held,
    decreases arrivals.len(),
{
    if arrivals.len() > 0 {
        let front = arrivals.drop_last();
        assert forall|i: int| 0 <= i < front.len() implies (#[trigger] front[i]).session == session
            && front[i].first + front[i].count <= i64::MAX by {
            assert(front[i] == arrivals[i]);
        }
        law_expected_never_goes_back(st, session, front);
        let a = arrivals.last();
        lemma_observed(run(st, front), a.session, a.first, a.count);
    }
}

/// Once a segment has been delivered, every later copy of it in the same session
/// is a duplicate, whatever came in between.
pub proof fn law_delivered_once(st: SeqView, a: Arrival, later: Seq<Arrival>)
    requires
        st.wf(),
        a.count > 0,
        a.first + a.count <= i64::MAX,
        st.observed(a.session, a.first, a.count).1 is Deliver || st.observed(
            a.session,
            a.first,
            a.count,
        ).1 is SessionReset,
        one_session(later, a.session),
    ensures
        run(st.observed(a.session, a.first, a.count).0, later).observed(
            a.session,
            a.first,
            a.count,
        ).1 is Duplicate,
{
    lemma_observed(st, a.session, a.first, a.count);
    let next = st.observed(a.session, a.first, a.count).0;
    let joined = if st.session is None {
        SeqView { session: Some(a.session), expected: a.first as int, ..st }
    } else {
        st
    };
    if joined.session == Some(a.session) && a.first == joined.expected {
        lemma_drained(joined.taken(a.first as int, a.count as int));
    }
    law_expected_never_goes_back(next, a.session, later);
}

/// A heartbeat on a channel that has joined a session moves nothing but its own
/// counter.
pub proof fn law_heartbeat_moves_nothing(st: SeqView, session: u32, first: i64)
    requires
        st.session is Some,
    ensures
        st.observed(session, first, 0).1 is Heartbeat,
        st.observed(session, first, 0).0 == (SeqView {
            stats: StatsView { heartbeats: st.stats.heartbeats + 1, ..st.stats },
            ..st
        }),
{
}

/// Sequence numbers are not compared across sessions: a new session is taken up
/// where it starts and forgets what was held.
pub proof fn law_new_session_starts_over(st: SeqView, session: u32, first: i64, count: u16)
    requires
        st.session is Some,
        st.session != Some(session),
        count > 0,
    ensures
        st.observed(session, first, count).1 is SessionReset,
        st.observed(session, first, count).0.session == Some(session),
        st.observed(session, first, count).0.expected == first + count,
        st.observed(session, first, count).0.held == Map::<i64, u16>::empty(),
{
}

/// A gap that is given up on is counted, not hidden: exactly the messages between
/// the one awaited and the lowest segment held are lost, and delivery goes on
/// after that segment.
pub proof fn law_a_gap_given_up_on_is_counted(st: SeqView)
    requires
        st.wf(),
        !st.held.dom().is_empty(),
    ensures
        st.resynced().stats.messages_lost == st.stats.messages_lost + (least(st.held)
            - st.expected),
        least(st.held) > st.expected,
        st.resynced().expected > least(st.held),
        st.resynced().held.dom().len() < st.held.dom().len(),
{
    lemma_ends_exist(st.held);
    lemma_resynced(st);
}

/// A stream cut into segments at `cuts`: segment `i` is `cuts[i]..cuts[i + 1]`.
pub open spec fn is_stream(cuts: Seq<i64>) -> bool {
    &&& cuts.len() >= 2
    &&& forall|i: int, j: int| 0 <= i < j < cuts.len() ==> #[trigger] cuts[i] < #[trigger] cuts[j]
    &&& forall|i: int|
        0 <= i < cuts.len() - 1 ==> (#[trigger] cuts[i + 1]) - cuts[i] <= u16::MAX
}

/// Segment `i` of a stream.
pub open spec fn piece(session: u32, cuts: Seq<i64>, i: int) -> Arrival {
    Arrival { session, first: cuts[i], count: (cuts[i + 1] - cuts[i]) as u16 }
}

/// The pieces of a stream in the order they arrive.
pub open spec fn pieces(session: u32, cuts: Seq<i64>, order: Seq<int>) -> Seq<Arrival> {
    order.map_values(|i: int| piece(session, cuts, i))
}

/// The sequencer has processed exactly the first `p` pieces and holds exactly
/// the later ones that have been seen.
pub open spec fn in_step(
    st: SeqView,
    session: u32,
    cuts: Seq<i64>,
    seen: Set<int>,
    p: int,
) -> bool {
    &&& st.session == Some(session)
    &&& 0 <= p < cuts.len()
    &&& st.expected == cuts[p]
    &&& st.stats.delivered == p
    &&& st.stats.messages_lost == 0
    &&& st.stats.session_resets == 0
    &&& forall|i: int| 0 <= i < p ==> #[trigger] seen.contains(i)
    &&& forall|i: int|
        p <= i < cuts.len() - 1 ==> (#[trigger] seen.contains(i) <==> st.held.contains_key(
            cuts[i],
        ))
    &&& forall|k: i64| #[trigger]
        st.held.contains_key(k) ==> exists|i: int|
            p <= i < cuts.len() - 1 && #[trigger] cuts[i] == k && st.held[k] == cuts[i + 1]
                - cuts[i]
}

/// Draining carries on to the first piece that has not been seen.
proof fn lemma_drain_catches_up(
    st: SeqView,
    session: u32,
    cuts: Seq<i64>,
    seen: Set<int>,
    p: int,
) -> (q: int)
    requires
        is_stream(cuts),
        st.held.dom().finite(),
        in_step(st, session, cuts, seen, p),
    ensures
        p <= q,
        in_step(st.drained(), session, cuts, seen, q),
        q < cuts.len() - 1 ==> !seen.contains(q),
        st.drained().held.dom().finite(),
        st.drained().max_held == st.max_held,
    decreases cuts.len() - p,
{
    let n = cuts.len() - 1;
    let k = least(st.held);
    if !st.held.dom().is_empty() {
        lemma_ends_exist(st.held);
    } else {
        assert(!st.held.dom().contains(k));
    }
    if p < n && seen.contains(p) {
        assert(st.held.contains_key(cuts[p]));
        assert(st.held.dom().contains(cuts[p]));
        assert forall|j: i64| #[trigger] st.held.contains_key(j) implies cuts[p] <= j by {
            let i = choose|i: int|
                p <= i < n && #[trigger] cuts[i] == j && st.held[j] == cuts[i + 1] - cuts[i];
            assert(i == p || cuts[p] < cuts[i]);
        }
        assert(is_least(st.held, cuts[p]));
        assert(k == cuts[p]);
        let i = choose|i: int|
            p <= i < n && #[trigger] cuts[i] == k && st.held[k] == cuts[i + 1] - cuts[i];
        assert(i == p) by {
            if i != p {
                assert(cuts[p] < cuts[i]);
            }
        }
        let next = st.released(k);
        assert(next.expected == cuts[p + 1]);
        assert forall|i: int| p + 1 <= i < n implies (#[trigger] seen.contains(i)
            <==> next.held.contains_key(cuts[i])) by {
            assert(cuts[p] < cuts[i]);
        }
        assert forall|j: i64| #[trigger] next.held.contains_key(j) implies exists|i: int|
            p + 1 <= i < n && #[trigger] cuts[i] == j && next.held[j] == cuts[i + 1] - cuts[i] by {
            assert(st.held.contains_key(j));
            let i = choose|i: int|
                p <= i < n && #[trigger] cuts[i] == j && st.held[j] == cuts[i + 1] - cuts[i];
            assert(i != p);
        }
        assert(in_step(next, session, cuts, seen, p + 1));
        lemma_drain_catches_up(next, session, cuts, seen, p + 1)
    } else {
        assert forall|j: i64| #[trigger] st.held.contains_key(j) implies cuts[p] < j by {
            let i = choose|i: int|
                p <= i < n && #[trigger] cuts[i] == j && st.held[j] == cuts[i + 1] - cuts[i];
            if i == p {
                assert(st.held.contains_key(cuts[p]));
            } else {
                assert(cuts[p] < cuts[i]);
            }
        }
        assert(st.drained() == st);
        p
    }
}

/// What is held are pieces after `p`.
proof fn lemma_held_is_short(st: SeqView, session: u32, cuts: Seq<i64>, seen: Set<int>, p: int)
    requires
        is_stream(cuts),
        st.held.dom().finite(),
        in_step(st, session, cuts, seen, p),
        p < cuts.len() - 1 ==> !seen.contains(p),
    ensures
        st.held.dom().len() < cuts.len() - 1,
{
    let n = cuts.len() - 1;
    if p == n {
        assert forall|k: i64| !st.held.dom().contains(k) by {
            if st.held.dom().contains(k) {
                assert(st.held.contains_key(k));
            }
        }
        assert(st.held.dom() =~= Set::empty());
    } else {
        let after = cuts.subrange(p + 1, n);
        assert forall|k: i64| st.held.dom().contains(k) implies after.to_set().contains(k) by {
            assert(st.held.contains_key(k));
            let j = choose|j: int|
                p <= j < n && #[trigger] cuts[j] == k && st.held[k] == cuts[j + 1] - cuts[j];
            assert(j != p) by {
                if j == p {
                    assert(seen.contains(p) <==> st.held.contains_key(cuts[p]));
                }
            }
            assert(after[j - p - 1] == k);
        }
        after.lemma_cardinality_of_set();
        vstd::set_lib::lemma_len_subset(st.held.dom(), after.to_set());
    }
}

/// One more piece keeps the sequencer in step.
pub proof fn lemma_piece_keeps_step(
    st: SeqView,
    session: u32,
    cuts: Seq<i64>,
    seen: Set<int>,
    p: int,
    i: int,
) -> (q: int)
    requires
        is_stream(cuts),
        st.held.dom().len() < st.max_held,
        st.held.dom().finite(),
        in_step(st, session, cuts, seen, p),
        p < cuts.len() - 1 ==> !seen.contains(p),
        0 <= i < cuts.len() - 1,
    ensures
        ({
            let a = piece(session, cuts, i);
            let next = st.observed(a.session, a.first, a.count).0;
            &&& p <= q
            &&& in_step(next, session, cuts, seen.insert(i), q)
            &&& q < cuts.len() - 1 ==> !seen.insert(i).contains(q)
            &&& next.held.dom().finite()
            &&& next.max_held == st.max_held
        }),
{
    let n = cuts.len() - 1;
    let a = piece(session, cuts, i);
    let more = seen.insert(i);
    assert(cuts[i] < cuts[i + 1]);
    let next = st.observed(a.session, a.first, a.count).0;
    if i < p {
        assert(cuts[i] < cuts[p]);
        assert(in_step(next, session, cuts, more, p));
        p
    } else if i > p {
        assert(cuts[p] < cuts[i]);
        assert forall|j: int| p <= j < n implies (#[trigger] more.contains(j)
            <==> next.held.contains_key(cuts[j])) by {
            if j < i {
                assert(cuts[j] < cuts[i]);
            } else if i < j {
                assert(cuts[i] < cuts[j]);
            }
            assert(seen.contains(j) <==> st.held.contains_key(cuts[j]));
        }
        assert forall|k: i64| #[trigger] next.held.contains_key(k) implies exists|j: int|
            p <= j < n && #[trigger] cuts[j] == k && next.held[k] == cuts[j + 1] - cuts[j] by {
            if k == cuts[i] {
            } else {
                assert(st.held.contains_key(k));
                let j = choose|j: int|
                    p <= j < n && #[trigger] cuts[j] == k && st.held[k] == cuts[j + 1] - cuts[j];
                assert(next.held[k] == cuts[j + 1] - cuts[j]);
            }
        }
        assert(in_step(next, session, cuts, more, p));
        p
    } else {
        let taken = st.taken(a.first as int, a.count as int);
        assert(next == taken.drained());
        assert forall|j: int| p + 1 <= j < n implies (#[trigger] more.contains(j)
            <==> taken.held.contains_key(cuts[j])) by {
            assert(seen.contains(j) <==> st.held.contains_key(cuts[j]));
        }
        assert forall|k: i64| #[trigger] taken.held.contains_key(k) implies exists|j: int|
            p + 1 <= j < n && #[trigger] cuts[j] == k && taken.held[k] == cuts[j + 1] - cuts[j] by {
            assert(st.held.contains_key(k));
            let j = choose|j: int|
                p <= j < n && #[trigger] cuts[j] == k && st.held[k] == cuts[j + 1] - cuts[j];
            assert(j != p) by {
                if j == p {
                    assert(seen.contains(p) <==> st.held.contains_key(cuts[p]));
                }
            }
        }
        assert(in_step(taken, session, cuts, more, p + 1));
        lemma_drain_catches_up(taken, session, cuts, more, p + 1)
    }
}

/// The first piece of a stream is taken up where it starts.
proof fn lemma_first_in_step(
    max_held: nat,
    session: u32,
    cuts: Seq<i64>,
    order: Seq<int>,
) -> (p: int)
    requires
        is_stream(cuts),
        order.len() == 1,
        order[0] == 0,
    ensures
        p == 1,
        ({
            let st = run(SeqView::fresh(max_held), pieces(session, cuts, order));
            &&& in_step(st, session, cuts, order.to_set(), p)
            &&& !order.to_set().contains(p)
            &&& st.held.dom().finite()
            &&& st.max_held == max_held
        }),
{
    let fresh = SeqView::fresh(max_held);
    let arrivals = pieces(session, cuts, order);
    let a = piece(session, cuts, 0);
    assert(arrivals.last() == a);
    assert(cuts[0] < cuts[1]);
    assert(arrivals.drop_last() =~= Seq::empty());
    let st = run(fresh, arrivals);
    assert(run(fresh, arrivals.drop_last()) == fresh);
    let joined = SeqView { session: Some(session), expected: a.first as int, ..fresh };
    let taken = joined.taken(a.first as int, a.count as int);
    assert(taken.drained() == taken) by {
        assert(!taken.held.contains_key(least(taken.held)));
    }
    assert(st == taken);
    assert forall|j: int| order.to_set().contains(j) <==> j == 0 by {
        if j == 0 {
            assert(order[0] == 0);
        }
    }
    assert(in_step(st, session, cuts, order.to_set(), 1));
    1
}

/// The reorder buffer always has room while pieces arrive in this order.
pub open spec fn never_fills(
    max_held: nat,
    session: u32,
    cuts: Seq<i64>,
    order: Seq<int>,
) -> bool {
    forall|t: int|
        0 <= t <= order.len() ==> run(
            SeqView::fresh(max_held),
            #[trigger] pieces(session, cuts, order.take(t)),
        ).held.dom().len() < max_held
}

proof fn lemma_run_in_step(
    max_held: nat,
    session: u32,
    cuts: Seq<i64>,
    order: Seq<int>,
) -> (p: int)
    requires
        is_stream(cuts),
        never_fills(max_held, session, cuts, order),
        order.len() > 0,
        order[0] == 0,
        forall|t: int| 0 <= t < order.len() ==> 0 <= #[trigger] order[t] < cuts.len() - 1,
    ensures
        ({
            let st = run(SeqView::fresh(max_held), pieces(session, cuts, order));
            &&& in_step(st, session, cuts, order.to_set(), p)
            &&& p < cuts.len() - 1 ==> !order.to_set().contains(p)
            &&& st.held.dom().finite()
            &&& st.max_held == max_held
        }),
    decreases order.len(),
{
    let n = cuts.len() - 1;
    let fresh = SeqView::fresh(max_held);
    let arrivals = pieces(session, cuts, order);
    let i = order.last();
    let a = piece(session, cuts, i);
    assert(arrivals.last() == a);
    let front = order.drop_last();
    assert(arrivals.drop_last() =~= pieces(session, cuts, front));
    assert(cuts[i] < cuts[i + 1]);
    if order.len() == 1 {
        lemma_first_in_step(max_held, session, cuts, order)
    } else {
        lemma_never_fills_front(max_held, session, cuts, order);
        let p = lemma_run_in_step(max_held, session, cuts, front);
        let st = run(fresh, pieces(session, cuts, front));
        assert(front =~= order.take(order.len() - 1));
        assert(st.held.dom().len() < max_held);
        let q = lemma_piece_keeps_step(st, session, cuts, front.to_set(), p, i);
        assert(front.to_set().insert(i) =~= order.to_set()) by {
            assert forall|j: int| order.to_set().contains(j) implies front.to_set().insert(
                i,
            ).contains(j) by {
                let t = choose|t: int| 0 <= t < order.len() && order[t] == j;
                if t < order.len() - 1 {
                    assert(front[t] == j);
                }
            }
            assert forall|j: int| front.to_set().insert(i).contains(j) implies order.to_set().contains(
                j,
            ) by {
                if j == i {
                    assert(order[order.len() - 1] == i);
                } else {
                    let t = choose|t: int| 0 <= t < front.len() && front[t] == j;
                    assert(order[t] == j);
                }
            }
        }
        q
    }
}

/// A buffer that never fills has not filled on the way.
pub proof fn lemma_never_fills_front(
    max_held: nat,
    session: u32,
    cuts: Seq<i64>,
    order: Seq<int>,
)
    requires
        never_fills(max_held, session, cuts, order),
        order.len() > 0,
    ensures
        never_fills(max_held, session, cuts, order.drop_last()),
{
    let front = order.drop_last();
    assert forall|t: int| 0 <= t <= front.len() implies run(
        SeqView::fresh(max_held),
        #[trigger] pieces(session, cuts, front.take(t)),
    ).held.dom().len() < max_held by {
        assert(front.take(t) =~= order.take(t));
        assert(run(SeqView::fresh(max_held), pieces(session, cuts, order.take(t))).held.dom().len()
            < max_held);
    }
}

/// A stream of no more pieces than the reorder buffer holds never fills it,
/// whatever order they come in.
pub proof fn law_a_short_stream_never_fills_the_buffer(
    max_held: nat,
    session: u32,
    cuts: Seq<i64>,
    order: Seq<int>,
)
    requires
        is_stream(cuts),
        cuts.len() - 1 <= max_held,
        order.len() > 0 ==> order[0] == 0,
        forall|t: int| 0 <= t < order.len() ==> 0 <= #[trigger] order[t] < cuts.len() - 1,
    ensures
        never_fills(max_held, session, cuts, order),
        forall|t: int|
            0 <= t <= order.len() ==> run(
                SeqView::fresh(max_held),
                #[trigger] pieces(session, cuts, order.take(t)),
            ).held.dom().len() < cuts.len() - 1,
    decreases order.len(),
{
    let fresh = SeqView::fresh(max_held);
    if order.len() == 0 {
        assert forall|t: int| 0 <= t <= order.len() implies run(
            fresh,
            #[trigger] pieces(session, cuts, order.take(t)),
        ).held.dom().len() < cuts.len() - 1 by {
            assert(pieces(session, cuts, order.take(t)).len() == 0);
        }
    } else {
        let front = order.drop_last();
        law_a_short_stream_never_fills_the_buffer(max_held, session, cuts, front);
        assert forall|t: int| 0 <= t < order.len() implies run(
            fresh,
            #[trigger] pieces(session, cuts, order.take(t)),
        ).held.dom().len() < cuts.len() - 1 by {
            assert(front.take(t) =~= order.take(t));
            assert(run(fresh, pieces(session, cuts, front.take(t))).held.dom().len() < cuts.len()
                - 1);
        }
        // The last arrival: the state before it is in step, so the one after is.
        let st = run(fresh, pieces(session, cuts, front));
        let all = run(fresh, pieces(session, cuts, order));
        let i = order.last();
        assert(pieces(session, cuts, order).drop_last() =~= pieces(session, cuts, front));
        assert(pieces(session, cuts, order).last() == piece(session, cuts, i));
        assert(order.take(order.len() as int) =~= order);
        if front.len() == 0 {
            let p = lemma_first_in_step(max_held, session, cuts, order);
            lemma_held_is_short(all, session, cuts, order.to_set(), p);
        } else {
            assert(front[0] == order[0]);
            let p = lemma_run_in_step(max_held, session, cuts, front);
            assert(front =~= order.take(order.len() - 1));
            let q = lemma_piece_keeps_step(st, session, cuts, front.to_set(), p, i);
            lemma_held_is_short(all, session, cuts, front.to_set().insert(i), q);
        }
    }
}

/// A stream whose pieces all arrive is processed whole, each piece once, with
/// nothing lost and nothing left waiting, in whatever order and however often
/// the pieces come, so long as the first to arrive is the first of the stream
/// and the reorder buffer never fills.
pub proof fn law_any_order_delivers_everything_once(
    max_held: nat,
    session: u32,
    cuts: Seq<i64>,
    order: Seq<int>,
)
    requires
        is_stream(cuts),
        never_fills(max_held, session, cuts, order),
        order.len() > 0,
        order[0] == 0,
        forall|t: int| 0 <= t < order.len() ==> 0 <= #[trigger] order[t] < cuts.len() - 1,
        forall|i: int| 0 <= i < cuts.len() - 1 ==> #[trigger] order.contains(i),
    ensures
        ({
            let st = run(SeqView::fresh(max_held), pieces(session, cuts, order));
            &&& st.expected == cuts.last()
            &&& st.stats.delivered == cuts.len() - 1
            &&& st.stats.messages_lost == 0
            &&& st.held.dom().is_empty()
        }),
{
    let n = cuts.len() - 1;
    let p = lemma_run_in_step(max_held, session, cuts, order);
    let st = run(SeqView::fresh(max_held), pieces(session, cuts, order));
    assert(p == n) by {
        if p < n {
            assert(order.contains(p));
            assert(order.to_set().contains(p));
        }
    }
    assert(st.held.dom() =~= Set::empty()) by {
        assert forall|k: i64| !st.held.dom().contains(k) by {
            if st.held.dom().contains(k) {
                assert(st.held.contains_key(k));
            }
        }
    }
}

/// How many of the first `t` arrivals came down the given feed.
pub open spec fn from_feed(schedule: Seq<bool>, feed: bool) -> int
    decreases schedule.len(),
{
    if schedule.len() == 0 {
        0
    } else {
        from_feed(schedule.drop_last(), feed) + if schedule.last() == feed {
            1int
        } else {
            0
        }
    }
}

/// Two feeds carrying the same stream in order, interleaved: `schedule` says
/// which feed each arrival came down.
pub open spec fn interleaved(schedule: Seq<bool>) -> Seq<int>
    decreases schedule.len(),
{
    if schedule.len() == 0 {
        Seq::empty()
    } else {
        interleaved(schedule.drop_last()).push(from_feed(schedule.drop_last(), schedule.last()))
    }
}

/// Whatever the interleaving of two copies of a stream, the copy that is ahead
/// is delivered and the one behind is dropped: as many segments are delivered as
/// the leading feed has sent, and as many dropped as the trailing one has. No
/// segment is ever held, so this needs no reorder buffer.
pub proof fn law_the_first_copy_wins(
    max_held: nat,
    session: u32,
    cuts: Seq<i64>,
    schedule: Seq<bool>,
)
    requires
        is_stream(cuts),
        from_feed(schedule, true) <= cuts.len() - 1,
        from_feed(schedule, false) <= cuts.len() - 1,
        schedule.len() > 0,
    ensures
        ({
            let st = run(
                SeqView::fresh(max_held),
                pieces(session, cuts, interleaved(schedule)),
            );
            let a = from_feed(schedule, true);
            let b = from_feed(schedule, false);
            let ahead = if a > b {
                a
            } else {
                b
            };
            let behind = if a > b {
                b
            } else {
                a
            };
            &&& st.session == Some(session)
            &&& st.expected == cuts[ahead]
            &&& st.stats.delivered == ahead
            &&& st.stats.duplicates == behind
            &&& st.stats.buffered == 0
            &&& st.held == Map::<i64, u16>::empty()
        }),
    decreases schedule.len(),
{
    let front = schedule.drop_last();
    let feed = schedule.last();
    let i = from_feed(front, feed);
    let order = interleaved(schedule);
    let arrivals = pieces(session, cuts, order);
    lemma_feed_counts(front);
    assert(arrivals.drop_last() =~= pieces(session, cuts, interleaved(front)));
    assert(arrivals.last() == piece(session, cuts, i));
    assert(cuts[i] < cuts[i + 1]);
    let fresh = SeqView::fresh(max_held);
    let a = piece(session, cuts, i);
    if front.len() == 0 {
        assert(run(fresh, arrivals.drop_last()) == fresh) by {
            assert(arrivals.drop_last().len() == 0);
        }
        let joined = SeqView { session: Some(session), expected: a.first as int, ..fresh };
        let taken = joined.taken(a.first as int, a.count as int);
        assert(!taken.held.contains_key(least(taken.held)));
        assert(taken.drained() == taken);
    } else {
        law_the_first_copy_wins(max_held, session, cuts, front);
        let st = run(fresh, pieces(session, cuts, interleaved(front)));
        let taken = st.taken(a.first as int, a.count as int);
        assert(!taken.held.contains_key(least(taken.held)));
        assert(taken.drained() == taken);
        let p = if from_feed(front, true) > from_feed(front, false) {
            from_feed(front, true)
        } else {
            from_feed(front, false)
        };
        if i < p {
            assert(cuts[i] < cuts[p]);
        }
    }
}

proof fn lemma_feed_counts(schedule: Seq<bool>)
    ensures
        from_feed(schedule, true) >= 0,
        from_feed(schedule, false) >= 0,
        interleaved(schedule).len() == schedule.len(),
    decreases schedule.len(),
{
    if schedule.len() > 0 {
        lemma_feed_counts(schedule.drop_last());
    }
}

}
