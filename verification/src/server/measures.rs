//! What holds of the figures a measurement comes to.
use vstd::prelude::*;
use vstd::utf8::encode_utf8;

use crate::book::{BookView, SymbolView};
use crate::deep::price::price_text;
use crate::deep::symbol::{padded, Symbol};
use crate::pipeline::hist::HistView;
use crate::pipeline::{fed, fed_upto, PipeView, Stage};
use crate::server::bench::{
    asked, costed, due, quickest, shown, slowest, top_of, tops, unresolved_in, within,
    BudgetStep, Container, QueueView, Request, StageCost, TopText, BUDGET_REPS, REPS,
};
use crate::synth::usual_symbols;

verus! {

/// A value moved into bounds is in them, and was not moved further than it had to be.
pub proof fn law_bounds_hold(x: u64, low: u64, high: u64)
    requires
        low <= high,
    ensures
        low <= within(x, low, high) <= high,
        low <= x <= high ==> within(x, low, high) == x,
        x < low ==> within(x, low, high) == low,
        x > high ==> within(x, low, high) == high,
{
}

/// A request's capture has as many segments as asked for, sent twice and dropped as
/// often as asked for; the rest is as usual.
pub proof fn law_a_request_is_generated_as_asked(req: Request, segments: nat)
    ensures
        asked(req, segments).segments == segments,
        asked(req, segments).duplicate_rate == req.duplicate_rate,
        asked(req, segments).gap_rate == req.gap_rate,
        asked(req, segments).seed == 0x2545_f491_4f6c_dd1d,
        asked(req, segments).delete_rate == 3_890,
        asked(req, segments).symbols == usual_symbols(),
{
}

/// Frames are fed one after the other, each to what the ones before it left.
pub proof fn law_frames_are_fed_in_turn(
    st: PipeView,
    a: Seq<Seq<u8>>,
    b: Seq<Seq<u8>>,
    frame: Seq<u8>,
    upto: Stage,
)
    ensures
        fed(st, Seq::empty()) == st,
        fed(st, seq![frame]) == st.received(frame),
        fed(st, a + b) == fed(fed(st, a), b),
        fed_upto(st, Seq::empty(), upto) == st,
        fed_upto(st, seq![frame], upto) == st.framed(frame, upto),
        fed_upto(st, a + b, upto) == fed_upto(fed_upto(st, a, upto), b, upto),
    decreases b.len(),
{
    let one = seq![frame];
    assert(one.drop_last() =~= Seq::empty());
    assert(fed(st, one.drop_last()) == st);
    assert(fed_upto(st, one.drop_last(), upto) == st);
    if b.len() == 0 {
        assert(a + b =~= a);
    } else {
        assert((a + b).drop_last() =~= a + b.drop_last());
        law_frames_are_fed_in_turn(st, a, b.drop_last(), frame, upto);
    }
}

/// An item is due as soon as its share of the offered time has passed: `i` items at the
/// pace of the best pass, slowed down or sped up by the load.
pub proof fn law_items_are_due_at_their_pace(i: nat, n: nat, best: nat, load: nat)
    requires
        n > 0,
        load > 0,
    ensures
        best >= n ==> due(i, n, best, load) * (n * load) <= i * best * 10_000 < (due(
            i,
            n,
            best,
            load,
        ) + 1) * (n * load),
        best < n ==> due(i, n, best, load) == due(i, n, n, load),
        due(0, n, best, load) == 0,
{
    let d = n * load;
    assert(d > 0) by (nonlinear_arith)
        requires
            n > 0,
            load > 0,
            d == n * load,
    ;
    if best >= n {
        let x = i * best * 10_000;
        assert(due(i, n, best, load) == x / d);
        lemma_quotient(x as int, d as int);
    }
    let each = if best > n {
        best
    } else {
        n
    };
    let none = 0 * each * 10_000;
    assert(none == 0) by (nonlinear_arith)
        requires
            none == 0 * each * 10_000,
    ;
    lemma_quotient(0, d as int);
    assert(0int / (d as int) == 0) by (nonlinear_arith)
        requires
            d > 0,
    ;
}

proof fn lemma_quotient(x: int, d: int)
    by (nonlinear_arith)
    requires
        x >= 0,
        d > 0,
    ensures
        (x / d) * d <= x < (x / d + 1) * d,
{
}

/// An item starts when it is due or when the one before it is done, whichever is later,
/// and is done as long after as it took. It is behind exactly if it had to wait.
pub proof fn law_an_item_waits_for_the_one_before(q: QueueView, scheduled: u64, took: u64)
    requires
        q.start(scheduled) + took <= u64::MAX,
    ensures
        q.start(scheduled) >= scheduled,
        q.start(scheduled) >= q.free_at,
        q.start(scheduled) == scheduled || q.start(scheduled) == q.free_at,
        q.served(scheduled, took).free_at == q.start(scheduled) + took,
        q.served(scheduled, took).behind == q.behind + if q.free_at > scheduled {
            1int
        } else {
            0
        },
        QueueView::idle().free_at == 0,
        QueueView::idle().behind == 0,
        QueueView::idle().service == HistView::empty(),
        QueueView::idle().corrected == HistView::empty(),
{
}

/// The best of repeated measurements is one of them and none is better; the worst is one
/// of them and none is worse.
pub proof fn law_best_and_worst_are_among_the_laps(laps: Seq<u64>)
    requires
        laps.len() > 0,
    ensures
        laps.contains(quickest(laps)),
        laps.contains(slowest(laps)),
        forall|i: int|
            0 <= i < laps.len() ==> quickest(laps) <= #[trigger] laps[i] <= slowest(laps),
    decreases laps.len(),
{
    if laps.len() == 1 {
        assert(laps[0] == quickest(laps));
    } else {
        let front = laps.drop_last();
        law_best_and_worst_are_among_the_laps(front);
        let a = choose|a: int| 0 <= a < front.len() && front[a] == quickest(front);
        let b = choose|b: int| 0 <= b < front.len() && front[b] == slowest(front);
        assert(laps[a] == quickest(front) && laps[b] == slowest(front));
        assert(laps[laps.len() - 1] == laps.last());
        assert forall|i: int| 0 <= i < laps.len() implies quickest(laps) <= #[trigger] laps[i]
            <= slowest(laps) by {
            if i < front.len() {
                assert(front[i] == laps[i]);
            }
        }
    }
}

/// Stage costs add up: what each stage adds brings the best time of the prefix before it
/// to its own, the first to nothing. The spread reaches from the best lap to the worst,
/// and a cost smaller than its spread is unresolved, no other.
pub proof fn law_stage_costs_add_up(c: StageCost, laps: Seq<Vec<u64>>, i: int)
    requires
        0 <= i < laps.len(),
        laps[i]@.len() > 0,
        i > 0 ==> laps[i - 1]@.len() > 0,
        costed(c, laps, i),
    ensures
        laps[i]@.contains(c.cumulative),
        laps[i]@.contains((c.cumulative + c.spread) as u64),
        forall|j: int|
            0 <= j < laps[i]@.len() ==> c.cumulative <= #[trigger] laps[i]@[j] <= c.cumulative
                + c.spread,
        i == 0 ==> c.this_stage == c.cumulative,
        i > 0 ==> laps[i - 1]@.contains((c.cumulative - c.this_stage) as u64) && forall|j: int|
            0 <= j < laps[i - 1]@.len() ==> c.cumulative - c.this_stage <= #[trigger] laps[i
                - 1]@[j],
        c.unresolved <==> c.this_stage < c.spread,
        c.stage is Receive <==> i == 0,
        c.stage is Sequence <==> i == 1,
        c.stage is Parse <==> i == 2,
        c.stage is BookUpdate <==> i == 3,
        c.stage is Decide <==> i == 4,
        c.stage is Encode <==> i == 5,
{
    law_best_and_worst_are_among_the_laps(laps[i]@);
    if i > 0 {
        law_best_and_worst_are_among_the_laps(laps[i - 1]@);
    }
}

/// Unresolved stages are counted one by one.
pub proof fn law_unresolved_stages_are_counted(stages: Seq<StageCost>, c: StageCost)
    ensures
        unresolved_in(Seq::empty()) == 0,
        c.unresolved ==> unresolved_in(stages.push(c)) == unresolved_in(stages) + 1,
        !c.unresolved ==> unresolved_in(stages.push(c)) == unresolved_in(stages),
        unresolved_in(stages) <= stages.len(),
    decreases stages.len(),
{
    assert(stages.push(c).drop_last() =~= stages);
    if stages.len() > 0 {
        law_unresolved_stages_are_counted(stages.drop_last(), stages.last());
        assert(stages.drop_last().push(stages.last()) =~= stages);
    }
}

/// A run is timed five times over and a budget goes nine times round the six stages.
pub proof fn law_a_budget_is_fifty_four_passes(k: nat)
    ensures
        REPS == 5,
        BUDGET_REPS == 9,
        BudgetStep::nth(0) is Warm,
        1 <= k <= 54 ==> BudgetStep::nth(k) == (BudgetStep::Time {
            rep: ((k - 1) / 6) as usize,
            stage: ((k - 1) % 6) as usize,
        }),
        k > 54 ==> BudgetStep::nth(k) is Done,
{
    if k > 0 {
        crate::server::bench::law_budgets_go_round((k - 1) as nat);
    }
}

/// What is shown of a symbol is its touch: the price of the highest bid and of the
/// lowest ask in dollars, with the sizes there, and how many levels each side has.
pub proof fn law_the_top_shows_the_touch(ticker: Seq<char>, v: SymbolView)
    ensures
        ({
            let t = top_of(ticker, v);
            &&& t.symbol == ticker
            &&& t.bid is Some <==> v.touch().bid is Some
            &&& t.ask is Some <==> v.touch().ask is Some
            &&& t.bid matches Some((price, size)) ==> price == price_text(
                v.touch().bid->Some_0.0.0 as int,
            ) && size == v.touch().bid->Some_0.1
            &&& t.ask matches Some((price, size)) ==> price == price_text(
                v.touch().ask->Some_0.0.0 as int,
            ) && size == v.touch().ask->Some_0.1
            &&& t.bid_levels == v.bids.dom().len()
            &&& t.ask_levels == v.asks.dom().len()
        }),
{
}

/// A ticker is shown exactly if the book has its symbol, and tickers are shown in the
/// order they were asked for.
pub proof fn law_tickers_are_shown_in_order(
    book: BookView,
    a: Seq<Seq<char>>,
    b: Seq<Seq<char>>,
    ticker: Seq<char>,
    s: Symbol,
)
    requires
        s.0@ == padded(encode_utf8(ticker)),
    ensures
        tops(book, Seq::empty()) == Seq::<TopText>::empty(),
        tops(book, seq![ticker]) == if book.symbols.contains_key(s.key()) {
            seq![top_of(ticker, book.symbol(s.key()))]
        } else {
            Seq::empty()
        },
        tops(book, a + b) == tops(book, a) + tops(book, b),
    decreases b.len(),
{
    let one = seq![ticker];
    assert(one.drop_last() =~= Seq::empty());
    assert(tops(book, one.drop_last()) =~= Seq::empty());
    assert(tops(book, one) =~= if book.symbols.contains_key(s.key()) {
        seq![top_of(ticker, book.symbol(s.key()))]
    } else {
        Seq::empty()
    });
    if b.len() == 0 {
        assert(a + b =~= a);
        assert(tops(book, a) + tops(book, b) =~= tops(book, a));
    } else {
        assert((a + b).drop_last() =~= a + b.drop_last());
        law_tickers_are_shown_in_order(book, a, b.drop_last(), ticker, s);
        assert(tops(book, a + b) =~= tops(book, a) + tops(book, b));
    }
}

/// Six symbols are shown.
pub proof fn law_six_symbols_are_shown()
    ensures
        shown() == seq!["AAPL"@, "MSFT"@, "SPY"@, "QQQ"@, "NVDA"@, "TSLA"@],
        Container::BTree.title() == "BTreeMap (R0)"@,
        Container::Sorted.title() == "sorted SoA (R1)"@,
{
}

}
