//! Where every segment offered to a sequencer ends up.
//!
//! A segment is told apart by its session and by where it starts alone, and each one
//! is booked exactly once: delivered, held, dropped as seen before, or passed over as
//! empty.
use vstd::prelude::*;

use super::sequencer::{lemma_drained, lemma_observed, Action, SeqView, StatsView};
use crate::tree::{greatest, least, lemma_ends_exist};

verus! {

/// Where an unbroken run of held segments from `e` on ends.
pub open spec fn reach(held: Map<i64, u16>, e: int) -> int
    decreases held.dom().len(),
    when held.dom().finite()
{
    if i64::MIN <= e <= i64::MAX && held.contains_key(e as i64) {
        reach(held.remove(e as i64), e + held[e as i64])
    } else {
        e
    }
}

/// How many held segments such a run is made of.
pub open spec fn links(held: Map<i64, u16>, e: int) -> int
    decreases held.dom().len(),
    when held.dom().finite()
{
    if i64::MIN <= e <= i64::MAX && held.contains_key(e as i64) {
        1 + links(held.remove(e as i64), e + held[e as i64])
    } else {
        0
    }
}

/// What is held beyond `e`.
pub open spec fn beyond(held: Map<i64, u16>, e: int) -> Map<i64, u16> {
    held.restrict(Set::new(|k: i64| k > e))
}

/// What is held may be held: it carries messages, and its numbers fit.
spec fn holdable(held: Map<i64, u16>) -> bool {
    &&& held.dom().finite()
    &&& forall|k: i64| #[trigger]
        held.contains_key(k) ==> 1 <= held[k] && k + held[k] <= i64::MAX
}

proof fn lemma_behind_does_not_count(held: Map<i64, u16>, k: i64, e: int)
    requires
        holdable(held),
        k < e,
    ensures
        reach(held.remove(k), e) == reach(held, e),
        links(held.remove(k), e) == links(held, e),
        e <= reach(held, e),
    decreases held.dom().len(),
{
    if i64::MIN <= e <= i64::MAX && held.contains_key(e as i64) {
        let x = e as i64;
        lemma_behind_does_not_count(held.remove(x), k, e + held[x]);
        assert(held.remove(k).remove(x) =~= held.remove(x).remove(k));
        assert(held.remove(k)[x] == held[x]);
        assert(held.remove(k).contains_key(x));
    }
}

/// Draining lets go of everything up to the end of the unbroken run: the run itself is
/// delivered, what lies beside it was overtaken.
proof fn lemma_drained_is_the_run(st: SeqView)
    requires
        holdable(st.held),
        i64::MIN <= st.expected <= i64::MAX,
    ensures
        ({
            let d = st.drained();
            let gone = st.held.dom().len() - d.held.dom().len();
            &&& d.expected == reach(st.held, st.expected)
            &&& d.held == beyond(st.held, d.expected)
            &&& d.stats.delivered == st.stats.delivered + links(st.held, st.expected)
            &&& d.stats.duplicates == st.stats.duplicates + gone - links(st.held, st.expected)
            &&& d.stats.gaps_healed == st.stats.gaps_healed + if !st.held.dom().is_empty()
                && d.held.dom().is_empty() {
                1int
            } else {
                0
            }
        }),
    decreases st.held.dom().len(),
{
    let k = least(st.held);
    let d = st.drained();
    lemma_drained(st);
    if st.held.dom().is_empty() {
        assert forall|j: i64| !st.held.contains_key(j) by {
            assert(!st.held.dom().contains(j));
        }
        assert(d.held =~= beyond(st.held, d.expected));
    } else {
        lemma_ends_exist(st.held);
        if k <= st.expected {
            let r = st.released(k);
            lemma_drained_is_the_run(r);
            lemma_drained(r);
            if k == st.expected {
                assert(reach(st.held, st.expected) == reach(r.held, r.expected));
            } else {
                lemma_behind_does_not_count(st.held, k, st.expected);
            }
            assert(d.held =~= beyond(st.held, d.expected));
            if r.held.dom().is_empty() {
                assert(d.held.dom() =~= Set::empty());
            } else {
                assert(r.held.dom().len() > 0);
            }
        } else {
            assert(!st.held.contains_key(st.expected as i64));
            assert(d.held =~= beyond(st.held, d.expected));
        }
    }
}

/// The counters but for those named stand where they stood.
pub open spec fn only(
    a: StatsView,
    b: StatsView,
    delivered: int,
    duplicates: int,
    buffered: int,
    opened: int,
    healed: int,
    resets: int,
    heartbeats: int,
) -> bool {
    &&& b.delivered == a.delivered + delivered
    &&& b.duplicates == a.duplicates + duplicates
    &&& b.buffered == a.buffered + buffered
    &&& b.gaps_opened == a.gaps_opened + opened
    &&& b.gaps_healed == a.gaps_healed + healed
    &&& b.session_resets == a.session_resets + resets
    &&& b.heartbeats == a.heartbeats + heartbeats
    &&& b.messages_lost == a.messages_lost
}

/// A segment without messages is a heartbeat, whatever its session and number: nothing
/// moves but its own counter. One that comes first of all sets the session and the
/// number awaited.
pub proof fn law_an_empty_segment_is_a_heartbeat(st: SeqView, session: u32, first: i64)
    ensures
        ({
            let (next, action) = st.observed(session, first, 0);
            &&& action is Heartbeat
            &&& only(st.stats, next.stats, 0, 0, 0, 0, 0, 0, 1)
            &&& next.held == st.held
            &&& next.max_held == st.max_held
            &&& st.session is Some ==> next.session == st.session && next.expected == st.expected
            &&& st.session is None ==> next.session == Some(session) && next.expected == first
        }),
{
}

/// A segment of another session drops what was held and is delivered.
pub proof fn law_another_session_is_delivered_at_once(
    st: SeqView,
    session: u32,
    first: i64,
    count: u16,
)
    requires
        st.session is Some,
        st.session != Some(session),
        count > 0,
    ensures
        ({
            let (next, action) = st.observed(session, first, count);
            &&& action is SessionReset
            &&& only(st.stats, next.stats, 1, 0, 0, 0, 0, 1, 0)
            &&& next.held.dom().is_empty()
            &&& next.max_held == st.max_held
            &&& next.session == Some(session)
            &&& next.expected == first + count
        }),
{
}

/// Within a session a segment goes by where it starts. Below the number awaited it was
/// seen before and changes nothing. Above it, it is held if there is room, under the
/// number it starts at, and the first one ahead opens a gap.
pub proof fn law_a_segment_goes_by_where_it_starts(
    st: SeqView,
    session: u32,
    first: i64,
    count: u16,
)
    requires
        st.wf(),
        st.session == Some(session),
        count > 0,
    ensures
        ({
            let (next, action) = st.observed(session, first, count);
            let room = st.held.dom().len() < st.max_held;
            &&& next.session == st.session
            &&& next.max_held == st.max_held
            &&& first < st.expected ==> {
                &&& action is Duplicate
                &&& only(st.stats, next.stats, 0, 1, 0, 0, 0, 0, 0)
                &&& next.held == st.held
                &&& next.expected == st.expected
            }
            &&& first > st.expected ==> {
                &&& action == Action::Buffered { expected: st.expected as i64, got: first }
                &&& next.expected == st.expected
                &&& next.held == if room {
                    st.held.insert(first, count)
                } else {
                    st.held
                }
                &&& only(
                    st.stats,
                    next.stats,
                    0,
                    0,
                    if room {
                        1
                    } else {
                        0
                    },
                    if st.held.len() == 0 {
                        1
                    } else {
                        0
                    },
                    0,
                    0,
                    0,
                )
            }
            &&& first == st.expected ==> action is Deliver
        }),
{
    if first == st.expected && first + count <= i64::MAX {
        lemma_observed(st, session, first, count);
    } else if first == st.expected {
        lemma_same_session(st.taken(first as int, count as int));
    }
    if st.held.dom().is_empty() {
        assert(st.held.dom() =~= Set::empty());
    }
}

proof fn lemma_same_session(st: SeqView)
    requires
        st.held.dom().finite(),
    ensures
        st.drained().session == st.session,
        st.drained().max_held == st.max_held,
    decreases st.held.dom().len(),
{
    let k = least(st.held);
    if st.held.contains_key(k) && k <= st.expected {
        lemma_same_session(st.released(k));
    }
}

/// The segment awaited is delivered and so is every held one that follows it without a
/// break; those that were overtaken are dropped as seen before, those further ahead
/// stay, and a gap that closes is counted once.
pub proof fn law_the_segment_awaited_closes_the_gap(
    st: SeqView,
    session: u32,
    first: i64,
    count: u16,
)
    requires
        st.wf(),
        st.session == Some(session) || st.session is None,
        st.session is Some ==> first == st.expected,
        count > 0,
        first + count <= i64::MAX,
    ensures
        ({
            let (next, action) = st.observed(session, first, count);
            let run = links(st.held, first + count);
            let gone = st.held.dom().len() - next.held.dom().len();
            &&& action is Deliver
            &&& next.session == Some(session)
            &&& next.expected == reach(st.held, first + count)
            &&& next.held == beyond(st.held, next.expected)
            &&& only(
                st.stats,
                next.stats,
                1 + run,
                gone - run,
                0,
                0,
                if !st.held.dom().is_empty() && next.held.dom().is_empty() {
                    1
                } else {
                    0
                },
                0,
                0,
            )
        }),
{
    let joined = SeqView { session: Some(session), expected: first as int, ..st };
    let t = joined.taken(first as int, count as int);
    lemma_drained(t);
    lemma_drained_is_the_run(t);
    assert(st.observed(session, first, count).0 == t.drained()) by {
        if st.session is Some {
            assert(joined =~= st);
        }
    }
}

/// Giving up on a gap resumes at the lowest segment held: what was skipped is lost, the
/// segment is delivered and so is every one that follows it without a break.
pub proof fn law_giving_up_resumes_at_the_lowest_held(st: SeqView, k: i64)
    requires
        st.wf(),
        st.held.contains_key(k),
        forall|j: i64| #[trigger] st.held.contains_key(j) ==> k <= j,
    ensures
        ({
            let next = st.resynced();
            let rest = st.held.remove(k);
            let run = links(rest, k + st.held[k]);
            let gone = rest.dom().len() - next.held.dom().len();
            &&& next.session == st.session
            &&& next.max_held == st.max_held
            &&& next.expected == reach(rest, k + st.held[k])
            &&& next.held == beyond(rest, next.expected)
            &&& next.stats.messages_lost == st.stats.messages_lost + (k - st.expected)
            &&& next.stats.delivered == st.stats.delivered + 1 + run
            &&& next.stats.duplicates == st.stats.duplicates + gone - run
            &&& next.stats.gaps_healed == st.stats.gaps_healed + if !rest.dom().is_empty()
                && next.held.dom().is_empty() {
                1int
            } else {
                0
            }
            &&& next.stats.buffered == st.stats.buffered
            &&& next.stats.gaps_opened == st.stats.gaps_opened
            &&& next.stats.session_resets == st.stats.session_resets
            &&& next.stats.heartbeats == st.stats.heartbeats
        }),
{
    assert(st.held.dom().contains(k));
    lemma_ends_exist(st.held);
    assert(least(st.held) == k);
    let lost = SeqView {
        held: st.held.remove(k),
        stats: StatsView {
            messages_lost: st.stats.messages_lost + st.missing(),
            ..st.stats
        },
        ..st
    };
    let t = lost.taken(k as int, st.held[k] as int);
    lemma_drained(t);
    lemma_drained_is_the_run(t);
}

/// Nothing held starts further on than the furthest, which is held or awaited.
pub proof fn law_nothing_is_further_than_the_furthest(st: SeqView)
    requires
        st.wf(),
    ensures
        st.expected <= st.furthest(),
        forall|k: i64| #[trigger] st.held.contains_key(k) ==> k <= st.furthest(),
        st.furthest() == st.expected <==> st.held.dom().is_empty(),
        st.furthest() != st.expected ==> st.held.contains_key(st.furthest() as i64),
{
    if st.held.dom().is_empty() {
        assert forall|k: i64| !st.held.contains_key(k) by {
            assert(!st.held.dom().contains(k));
        }
    } else {
        lemma_ends_exist(st.held);
        assert(st.held.contains_key(greatest(st.held)));
    }
}

}
