//! The measurement the server exposes.
//!
//! A run puts a generated capture through the pipeline and reports what came of
//! it, with the spread between repetitions next to every time: on shared
//! hardware the spread is large, and a difference inside it is labelled
//! unresolved. Reading the clock is left to the caller; times arrive here as
//! nanoseconds.
use vstd::prelude::*;
use vstd::utf8::encode_utf8;

use crate::book::levels::Levels;
use crate::book::{Book, BookView, SymbolView};
use crate::bytes::le64;
use crate::deep::price::price_text;
use crate::deep::symbol::{padded, Symbol};
use crate::iextp::capture::{packets_in, Capture};
use crate::pipeline::hist::{rank_of, HistView};
use crate::pipeline::{elapsed, fed, fed_upto, PipeView, Pipeline, Replay, Stage};
use crate::synth::laws::law_a_capture_holds_what_was_sent;
use crate::synth::wire::read_back;
use crate::synth::{
    generate, generated, stamped, usual_config, Config, ConfigView, Sent, MAX_SEGMENTS,
};
use crate::text::same;

verus! {

/// Which level container to run.
#[derive(Debug, Clone, Copy, PartialEq, Eq, Structural)]
pub enum Container {
    BTree,
    Sorted,
}

impl Container {
    /// What a container is called in a report.
    pub open spec fn title(self) -> Seq<char> {
        match self {
            Container::BTree => "BTreeMap (R0)"@,
            Container::Sorted => "sorted SoA (R1)"@,
        }
    }

    /// The container a request names. Anything unknown means the sorted one.
    pub fn parse(s: &str) -> (r: Container)
        ensures
            r == (if s@ == "btree"@ {
                Container::BTree
            } else {
                Container::Sorted
            }),
    {
        if same(s, "btree") {
            Container::BTree
        } else {
            Container::Sorted
        }
    }

    pub fn name(self) -> (r: &'static str)
        ensures
            r@ == self.title(),
    {
        match self {
            Container::BTree => "BTreeMap (R0)",
            Container::Sorted => "sorted SoA (R1)",
        }
    }
}

/// Knobs a visitor can turn, all bounded. Fractions are in ten-thousandths.
#[derive(Debug, Clone, Copy, PartialEq, Eq, Structural)]
pub struct Request {
    pub container: Container,
    /// Fraction of segments sent twice, modelling the B feed.
    pub duplicate_rate: u64,
    /// Fraction of segments dropped, modelling loss.
    pub gap_rate: u64,
    /// Offered load as a fraction of measured capacity, for the
    /// coordinated-omission demonstration.
    pub load: u64,
}

/// `x` moved into `[low, high]`.
pub open spec fn within(x: u64, low: u64, high: u64) -> u64 {
    if x < low {
        low
    } else if x > high {
        high
    } else {
        x
    }
}

fn bounded(x: u64, low: u64, high: u64) -> (r: u64)
    ensures
        r == within(x, low, high),
{
    if x < low {
        low
    } else if x > high {
        high
    } else {
        x
    }
}

impl Request {
    /// At most everything sent twice, at most a quarter dropped, and between a
    /// tenth of capacity and twice capacity offered.
    pub fn clamped(self) -> (r: Request)
        ensures
            r.container == self.container,
            r.duplicate_rate == within(self.duplicate_rate, 0, 10_000),
            r.gap_rate == within(self.gap_rate, 0, 2_500),
            r.load == within(self.load, 1_000, 20_000),
    {
        Request {
            container: self.container,
            duplicate_rate: bounded(self.duplicate_rate, 0, 10_000),
            gap_rate: bounded(self.gap_rate, 0, 2_500),
            load: bounded(self.load, 1_000, 20_000),
        }
    }
}

/// Frames held in memory, generated once and reused.
pub struct Corpus {
    pub frames: Vec<Vec<u8>>,
    pub gaps_injected: u64,
}

/// The bytes of frames.
pub open spec fn contents(frames: Seq<Vec<u8>>) -> Seq<Seq<u8>> {
    frames.map_values(|f: Vec<u8>| f@)
}

/// The configuration a request is generated with.
pub open spec fn asked(req: Request, segments: nat) -> ConfigView {
    ConfigView {
        segments,
        duplicate_rate: req.duplicate_rate,
        gap_rate: req.gap_rate,
        ..usual_config()
    }
}

/// Generate a capture and split it into frames once, so that a timed loop
/// measures the pipeline rather than the capture reader.
pub fn build_corpus(req: Request, segments: usize) -> (r: Corpus)
    requires
        segments <= MAX_SEGMENTS,
        segments * 128 <= usize::MAX,
    ensures
        ({
            let g = generated(asked(req, segments as nat), segments as nat);
            &&& contents(r.frames@) == g.packets.map_values(|p: Sent| stamped(p).frame)
            &&& r.gaps_injected == g.gaps
        }),
{
    let cfg = Config {
        segments,
        duplicate_rate: req.duplicate_rate,
        gap_rate: req.gap_rate,
        ..Config::default()
    };
    assert(cfg@ =~= asked(req, segments as nat));
    let cap = generate(&cfg);
    let mut frames: Vec<Vec<u8>> = Vec::new();
    let ghost g = generated(cfg@, cfg@.segments);
    let ghost all = packets_in(cap.bytes@);
    proof {
        law_a_capture_holds_what_was_sent(cfg@);
        assert(all.skip(0) =~= all);
        assert(contents(frames@) =~= Seq::empty());
    }
    match Capture::open(cap.bytes.as_slice()) {
        Err(_) => {},
        Ok(c) => {
            let mut reader = c;
            loop
                invariant_except_break
                    reader.wf(),
                    frames@.len() <= all.len(),
                    reader@.packets() == all.skip(frames@.len() as int),
                    forall|i: int|
                        0 <= i < frames@.len() ==> (#[trigger] frames@[i])@ == all[i].data,
                ensures
                    frames@.len() == all.len(),
                    forall|i: int|
                        0 <= i < frames@.len() ==> (#[trigger] frames@[i])@ == all[i].data,
                decreases reader@.packets().len(),
            {
                match reader.next() {
                    None => {
                        break;
                    },
                    Some(pkt) => {
                        let data = vstd::slice::slice_to_vec(pkt.data);
                        assert(pkt@ == all.skip(frames@.len() as int)[0]);
                        assert(all.skip(frames@.len() as int).drop_first() =~= all.skip(
                            frames@.len() as int + 1,
                        ));
                        frames.push(data);
                    },
                }
            }
        },
    }
    assert(contents(frames@) =~= g.packets.map_values(|p: Sent| stamped(p).frame)) by {
        assert(all == g.packets.map_values(|p: Sent| read_back(stamped(p))));
        assert(contents(frames@).len() == all.len());
        assert forall|i: int| 0 <= i < all.len() implies contents(frames@)[i] == stamped(
            g.packets[i],
        ).frame by {
            assert(frames@[i]@ == all[i].data);
        }
    }
    Corpus { frames, gaps_injected: cap.gaps }
}

/// Every one of the frames is one the pipeline can take when its turn comes.
pub open spec fn taken(st: PipeView, frames: Seq<Seq<u8>>) -> bool
    decreases frames.len(),
{
    frames.len() > 0 ==> taken(st, frames.drop_last()) && fed(st, frames.drop_last()).accepts(
        frames.last(),
    )
}

/// Likewise, stopping each after `upto`.
pub open spec fn taken_upto(st: PipeView, frames: Seq<Seq<u8>>, upto: Stage) -> bool
    decreases frames.len(),
{
    frames.len() > 0 ==> taken_upto(st, frames.drop_last(), upto) && fed_upto(
        st,
        frames.drop_last(),
        upto,
    ).accepts(frames.last())
}

/// A longer history ends with its last frame.
proof fn lemma_fed(st: PipeView, frames: Seq<Seq<u8>>, i: int, upto: Stage)
    requires
        0 <= i < frames.len(),
    ensures
        fed(st, frames.take(i + 1)) == fed(st, frames.take(i)).received(frames[i]),
        fed_upto(st, frames.take(i + 1), upto) == fed_upto(st, frames.take(i), upto).framed(
            frames[i],
            upto,
        ),
        taken(st, frames.take(i + 1)) == (taken(st, frames.take(i)) && fed(
            st,
            frames.take(i),
        ).accepts(frames[i])),
        taken_upto(st, frames.take(i + 1), upto) == (taken_upto(st, frames.take(i), upto)
            && fed_upto(st, frames.take(i), upto).accepts(frames[i])),
{
    assert(frames.take(i + 1).drop_last() =~= frames.take(i));
}

/// Put frames through a pipeline. Returns how many went through: all of them,
/// unless one comes that the pipeline cannot take without a counter overflowing.
pub fn feed<L: Levels>(p: &mut Pipeline<L>, frames: &[Vec<u8>]) -> (n: usize)
    requires
        old(p).wf(),
    ensures
        final(p).wf(),
        n <= frames@.len(),
        final(p)@ == fed(old(p)@, contents(frames@).take(n as int)),
        n < frames@.len() ==> !final(p)@.accepts(frames@[n as int]@),
        taken(old(p)@, contents(frames@).take(n as int)),
{
    let ghost start = p@;
    let ghost all = contents(frames@);
    let mut i: usize = 0;
    assert(fed(start, all.take(0)) == start);
    while i < frames.len()
        invariant
            p.wf(),
            i <= frames@.len(),
            all == contents(frames@),
            start == old(p)@,
            p@ == fed(start, all.take(i as int)),
            taken(start, all.take(i as int)),
        decreases frames@.len() - i,
    {
        if !p.can_accept(frames[i].as_slice()) {
            return i;
        }
        p.on_frame_fast(frames[i].as_slice());
        proof {
            lemma_fed(start, all, i as int, Stage::Encode);
        }
        i = i + 1;
    }
    i
}

/// Put frames through a pipeline, stopping each after `upto`. Returns how many
/// went through, as [`feed`] does.
pub fn feed_upto<L: Levels>(p: &mut Pipeline<L>, frames: &[Vec<u8>], upto: Stage) -> (n: usize)
    requires
        old(p).wf(),
    ensures
        final(p).wf(),
        n <= frames@.len(),
        final(p)@ == fed_upto(old(p)@, contents(frames@).take(n as int), upto),
        n < frames@.len() ==> !final(p)@.accepts(frames@[n as int]@),
        taken_upto(old(p)@, contents(frames@).take(n as int), upto),
{
    let ghost start = p@;
    let ghost all = contents(frames@);
    let mut i: usize = 0;
    assert(fed_upto(start, all.take(0), upto) == start);
    while i < frames.len()
        invariant
            p.wf(),
            i <= frames@.len(),
            all == contents(frames@),
            start == old(p)@,
            p@ == fed_upto(start, all.take(i as int), upto),
            taken_upto(start, all.take(i as int), upto),
        decreases frames@.len() - i,
    {
        if !p.can_accept(frames[i].as_slice()) {
            return i;
        }
        p.on_frame(frames[i].as_slice(), upto);
        proof {
            lemma_fed(start, all, i as int, upto);
        }
        i = i + 1;
    }
    i
}

/// Put frames through a pipeline that is known to take them all, with nothing but
/// the pipeline in the loop.
pub fn pass<L: Levels>(p: &mut Pipeline<L>, frames: &[Vec<u8>])
    requires
        old(p).wf(),
        taken(old(p)@, contents(frames@)),
    ensures
        final(p).wf(),
        final(p)@ == fed(old(p)@, contents(frames@)),
{
    let ghost start = p@;
    let ghost all = contents(frames@);
    let mut i: usize = 0;
    assert(fed(start, all.take(0)) == start);
    while i < frames.len()
        invariant
            p.wf(),
            i <= frames@.len(),
            all == contents(frames@),
            taken(start, all),
            p@ == fed(start, all.take(i as int)),
        decreases frames@.len() - i,
    {
        proof {
            lemma_taken_front(start, all, i + 1);
            lemma_fed(start, all, i as int, Stage::Encode);
        }
        p.on_frame_fast(frames[i].as_slice());
        i = i + 1;
    }
    assert(all.take(i as int) =~= all);
}

/// Likewise, stopping each after `upto`.
pub fn pass_upto<L: Levels>(p: &mut Pipeline<L>, frames: &[Vec<u8>], upto: Stage)
    requires
        old(p).wf(),
        taken_upto(old(p)@, contents(frames@), upto),
    ensures
        final(p).wf(),
        final(p)@ == fed_upto(old(p)@, contents(frames@), upto),
{
    let ghost start = p@;
    let ghost all = contents(frames@);
    let mut i: usize = 0;
    assert(fed_upto(start, all.take(0), upto) == start);
    while i < frames.len()
        invariant
            p.wf(),
            i <= frames@.len(),
            all == contents(frames@),
            taken_upto(start, all, upto),
            p@ == fed_upto(start, all.take(i as int), upto),
        decreases frames@.len() - i,
    {
        proof {
            lemma_taken_upto_front(start, all, i + 1, upto);
            lemma_fed(start, all, i as int, upto);
        }
        p.on_frame(frames[i].as_slice(), upto);
        i = i + 1;
    }
    assert(all.take(i as int) =~= all);
}

/// Frames that can all be taken can be taken as far as one likes.
proof fn lemma_taken_front(st: PipeView, frames: Seq<Seq<u8>>, n: int)
    requires
        taken(st, frames),
        0 <= n <= frames.len(),
    ensures
        taken(st, frames.take(n)),
    decreases frames.len(),
{
    if n == frames.len() {
        assert(frames.take(n) =~= frames);
    } else {
        lemma_taken_front(st, frames.drop_last(), n);
        assert(frames.drop_last().take(n) =~= frames.take(n));
    }
}

proof fn lemma_taken_upto_front(st: PipeView, frames: Seq<Seq<u8>>, n: int, upto: Stage)
    requires
        taken_upto(st, frames, upto),
        0 <= n <= frames.len(),
    ensures
        taken_upto(st, frames.take(n), upto),
    decreases frames.len(),
{
    if n == frames.len() {
        assert(frames.take(n) =~= frames);
    } else {
        lemma_taken_upto_front(st, frames.drop_last(), n, upto);
        assert(frames.drop_last().take(n) =~= frames.take(n));
    }
}

/// When the `i`-th of `n` items is due, in nanoseconds, if `n` of them took `best`
/// and `load` ten-thousandths of that capacity is offered. No item is reckoned to
/// take less than a nanosecond.
pub open spec fn due(i: nat, n: nat, best: nat, load: nat) -> nat {
    i * (if best > n {
        best
    } else {
        n
    }) * 10_000 / (n * load)
}

/// Items are due in order.
pub proof fn law_items_are_due_in_order(i: nat, j: nat, n: nat, best: nat, load: nat)
    requires
        i <= j,
        n > 0,
        load > 0,
    ensures
        due(i, n, best, load) <= due(j, n, best, load),
{
    let each = if best > n {
        best
    } else {
        n
    };
    assert(i * each * 10_000 <= j * each * 10_000) by (nonlinear_arith)
        requires
            i <= j,
            0 <= each,
    ;
    assert(n * load > 0) by (nonlinear_arith)
        requires
            n > 0,
            load > 0,
    ;
    vstd::arithmetic::div_mod::lemma_div_is_ordered(
        (i * each * 10_000) as int,
        (j * each * 10_000) as int,
        (n * load) as int,
    );
}

/// At full load each item is due a best time after the one before it, so that the
/// last is due when the best pass would have come to it.
pub proof fn law_full_load_is_capacity(i: nat, n: nat, best: nat)
    requires
        n > 0,
        best >= n,
    ensures
        due(i, n, best, 10_000) == i * best / n,
{
    vstd::arithmetic::div_mod::lemma_div_multiples_vanish_quotient(
        10_000,
        (i * best) as int,
        n as int,
    );
}

/// When an item is due; nothing if that time does not fit.
pub fn scheduled(i: u64, n: u64, best: u64, load: u64) -> (r: Option<u64>)
    requires
        n > 0,
        0 < load <= 20_000,
        i < 0x100_0000_0000,
        n < 0x100_0000_0000,
    ensures
        r == (if due(i as nat, n as nat, best as nat, load as nat) <= u64::MAX {
            Some(due(i as nat, n as nat, best as nat, load as nat) as u64)
        } else {
            None
        }),
{
    let each: u64 = if best > n {
        best
    } else {
        n
    };
    assert(0 <= i * each <= 0x100_0000_0000 * 0x1_0000_0000_0000_0000) by (nonlinear_arith)
        requires
            0 <= i < 0x100_0000_0000,
            0 <= each < 0x1_0000_0000_0000_0000,
    ;
    assert(0 < n * load <= 0x100_0000_0000 * 20_000) by (nonlinear_arith)
        requires
            0 < n < 0x100_0000_0000,
            0 < load <= 20_000,
    ;
    let t: u128 = i as u128 * each as u128 * 10_000 / (n as u128 * load as u128);
    if t <= u64::MAX as u128 {
        Some(t as u64)
    } else {
        None
    }
}

/// A queue in front of the pipeline, for offering load on a schedule.
///
/// An item starts when it is due and the one before it is done. Its latency runs
/// from when it was due, so that a stall is charged to everything behind it.
pub struct Queue {
    free_at: u64,
    replay: Replay,
}

/// A queue's clock and what it has recorded.
#[verifier::ext_equal]
pub struct QueueView {
    /// When the last item was done.
    pub free_at: u64,
    pub service: HistView,
    pub corrected: HistView,
    pub behind: int,
}

impl QueueView {
    pub open spec fn idle() -> QueueView {
        QueueView {
            free_at: 0,
            service: HistView::empty(),
            corrected: HistView::empty(),
            behind: 0,
        }
    }

    /// When an item due at `scheduled` starts.
    pub open spec fn start(self, scheduled: u64) -> u64 {
        if self.free_at > scheduled {
            self.free_at
        } else {
            scheduled
        }
    }

    /// After an item due at `scheduled` that takes `took` once started.
    pub open spec fn served(self, scheduled: u64, took: u64) -> QueueView {
        let started = self.start(scheduled);
        QueueView {
            free_at: (started + took) as u64,
            service: self.service.recorded(took),
            corrected: self.corrected.recorded((started + took - scheduled) as u64),
            behind: self.behind + (if started > scheduled {
                1int
            } else {
                0
            }),
        }
    }
}

impl View for Queue {
    type V = QueueView;

    closed spec fn view(&self) -> QueueView {
        QueueView {
            free_at: self.free_at,
            service: self.replay.service@,
            corrected: self.replay.corrected@,
            behind: self.replay.behind as int,
        }
    }
}

impl Queue {
    pub closed spec fn wf(self) -> bool {
        self.replay.wf()
    }

    pub fn new() -> (r: Queue)
        ensures
            r.wf(),
            r@ == QueueView::idle(),
    {
        Queue { free_at: 0, replay: Replay::new(0) }
    }

    /// Whether an item's times fit.
    pub fn can_serve(&self, scheduled: u64, took: u64) -> (r: bool)
        requires
            self.wf(),
        ensures
            r == (self@.service.total < u64::MAX && self@.start(scheduled) + took <= u64::MAX),
    {
        let started: u64 = if self.free_at > scheduled {
            self.free_at
        } else {
            scheduled
        };
        self.replay.service.count() < u64::MAX && took <= u64::MAX - started
    }

    /// Serve an item due at `scheduled` that took `took` to process.
    pub fn serve(&mut self, scheduled: u64, took: u64)
        requires
            old(self).wf(),
            old(self)@.service.total < u64::MAX,
            old(self)@.start(scheduled) + took <= u64::MAX,
        ensures
            final(self).wf(),
            final(self)@ == old(self)@.served(scheduled, took),
    {
        let started: u64 = if self.free_at > scheduled {
            self.free_at
        } else {
            scheduled
        };
        let finished: u64 = started + took;
        self.free_at = finished;
        self.replay.record(scheduled, started, finished);
        assert(elapsed(started, finished) == took);
        assert(elapsed(scheduled, finished) == (started + took - scheduled) as u64);
    }

    /// Items that could not start when they were due.
    pub fn behind(&self) -> (r: u64)
        ensures
            r == self@.behind,
    {
        self.replay.behind
    }

    /// Time spent processing an item, at `q` ten-thousandths of all items.
    pub fn service(&self, q: u64) -> (r: u64)
        requires
            self.wf(),
        ensures
            self@.service.reads(rank_of(q, self@.service.total as u64), r),
    {
        self.replay.service.quantile(q)
    }

    /// Time from when an item was due until it was done, likewise.
    pub fn corrected(&self, q: u64) -> (r: u64)
        requires
            self.wf(),
        ensures
            self@.corrected.reads(rank_of(q, self@.corrected.total as u64), r),
    {
        self.replay.corrected.quantile(q)
    }
}

/// A stall is charged to everything behind it: the latency recorded is the wait
/// for the queue and the time to process, never less than the second alone.
pub proof fn law_waiting_is_charged(q: QueueView, scheduled: u64, took: u64)
    requires
        q.start(scheduled) + took <= u64::MAX,
    ensures
        ({
            let wait = (q.start(scheduled) - scheduled) as u64;
            &&& 0 <= q.start(scheduled) - scheduled
            &&& q.served(scheduled, took).corrected == q.corrected.recorded((wait + took) as u64)
            &&& q.served(scheduled, took).service == q.service.recorded(took)
            &&& q.served(scheduled, took).behind > q.behind <==> wait > 0
        }),
{
}

/// Best bid and ask of a symbol, as text.
#[derive(Debug, Clone)]
pub struct TopOfBook {
    pub symbol: String,
    pub bid: Option<(String, u32)>,
    pub ask: Option<(String, u32)>,
    pub bid_levels: usize,
    pub ask_levels: usize,
}

/// The same with texts as character strings.
#[verifier::ext_equal]
pub struct TopText {
    pub symbol: Seq<char>,
    pub bid: Option<(Seq<char>, u32)>,
    pub ask: Option<(Seq<char>, u32)>,
    pub bid_levels: nat,
    pub ask_levels: nat,
}

/// A price in text, and a size.
pub open spec fn worded(q: Option<(String, u32)>) -> Option<(Seq<char>, u32)> {
    match q {
        Some((p, s)) => Some((p@, s)),
        None => None,
    }
}

impl View for TopOfBook {
    type V = TopText;

    open spec fn view(&self) -> TopText {
        TopText {
            symbol: self.symbol@,
            bid: worded(self.bid),
            ask: worded(self.ask),
            bid_levels: self.bid_levels as nat,
            ask_levels: self.ask_levels as nat,
        }
    }
}

/// A quote with its price in text.
pub open spec fn quoted(q: Option<(crate::deep::price::Price, u32)>) -> Option<(Seq<char>, u32)> {
    match q {
        Some((p, s)) => Some((price_text(p.0 as int), s)),
        None => None,
    }
}

/// What is shown of a symbol.
pub open spec fn top_of(ticker: Seq<char>, v: SymbolView) -> TopText {
    TopText {
        symbol: ticker,
        bid: quoted(v.touch().bid),
        ask: quoted(v.touch().ask),
        bid_levels: v.bids.dom().len(),
        ask_levels: v.asks.dom().len(),
    }
}

/// What is shown of a book: each ticker it has, in the order asked for.
pub open spec fn tops(book: BookView, tickers: Seq<Seq<char>>) -> Seq<TopText>
    decreases tickers.len(),
{
    if tickers.len() == 0 {
        Seq::empty()
    } else {
        let before = tops(book, tickers.drop_last());
        let key = le64(padded(encode_utf8(tickers.last())), 0) as u64;
        if book.symbols.contains_key(key) {
            before.push(top_of(tickers.last(), book.symbols[key]))
        } else {
            before
        }
    }
}

/// The symbols shown.
pub open spec fn shown() -> Seq<Seq<char>> {
    seq!["AAPL"@, "MSFT"@, "SPY"@, "QQQ"@, "NVDA"@, "TSLA"@]
}

/// A quote with its price in text.
fn in_words(q: Option<(crate::deep::price::Price, u32)>) -> (r: Option<(String, u32)>)
    ensures
        worded(r) == quoted(q),
{
    match q {
        Some((p, s)) => Some((p.to_string(), s)),
        None => None,
    }
}

/// Show one ticker, if the book has it.
fn show<L: Levels>(book: &Book<L>, ticker: &str, out: &mut Vec<TopOfBook>)
    requires
        book.wf(),
    ensures
        forall|ts: Seq<Seq<char>>|
            board(old(out)@) == #[trigger] tops(book@, ts) ==> board(final(out)@) == tops(
                book@,
                ts.push(ticker@),
            ),
{
    let symbol = Symbol::from_ticker(ticker);
    if let Some(sides) = book.get(symbol) {
        let top = TopOfBook {
            symbol: ticker.to_owned(),
            bid: in_words(sides.best_bid()),
            ask: in_words(sides.best_ask()),
            bid_levels: sides.bids.len(),
            ask_levels: sides.asks.len(),
        };
        assert(top@ =~= top_of(ticker@, sides@));
        out.push(top);
        assert(board(out@) =~= board(old(out)@).push(top_of(ticker@, sides@)));
    }
    proof {
        assert forall|ts: Seq<Seq<char>>| board(old(out)@) == #[trigger] tops(
            book@,
            ts,
        ) implies board(out@) == tops(book@, ts.push(ticker@)) by {
            assert(ts.push(ticker@).drop_last() =~= ts);
        }
    }
}

/// What is shown, with texts as character strings.
pub open spec fn board(tops: Seq<TopOfBook>) -> Seq<TopText> {
    tops.map_values(|t: TopOfBook| t@)
}

/// Top of book for a handful of symbols, so that a visitor sees a market rather
/// than only statistics.
pub fn snapshot<L: Levels>(p: &Pipeline<L>) -> (r: Vec<TopOfBook>)
    requires
        p.wf(),
    ensures
        board(r@) == tops(p@.book, shown()),
{
    let book = p.current_book();
    let mut out: Vec<TopOfBook> = Vec::new();
    let ghost none = Seq::<Seq<char>>::empty();
    assert(board(out@) =~= tops(book@, none));
    show(book, "AAPL", &mut out);
    show(book, "MSFT", &mut out);
    show(book, "SPY", &mut out);
    show(book, "QQQ", &mut out);
    show(book, "NVDA", &mut out);
    show(book, "TSLA", &mut out);
    assert(none.push("AAPL"@).push("MSFT"@).push("SPY"@).push("QQQ"@).push("NVDA"@).push("TSLA"@)
        =~= shown());
    out
}

/// The least of `laps`.
pub open spec fn quickest(laps: Seq<u64>) -> u64
    decreases laps.len(),
{
    if laps.len() <= 1 {
        laps[0]
    } else if laps.last() < quickest(laps.drop_last()) {
        laps.last()
    } else {
        quickest(laps.drop_last())
    }
}

/// The greatest of `laps`.
pub open spec fn slowest(laps: Seq<u64>) -> u64
    decreases laps.len(),
{
    if laps.len() <= 1 {
        laps[0]
    } else if laps.last() > slowest(laps.drop_last()) {
        laps.last()
    } else {
        slowest(laps.drop_last())
    }
}

/// The best and the worst of repeated measurements of one thing.
pub fn best_and_worst(laps: &[u64]) -> (r: (u64, u64))
    requires
        laps@.len() > 0,
    ensures
        r.0 == quickest(laps@),
        r.1 == slowest(laps@),
        r.0 <= r.1,
{
    let mut best: u64 = laps[0];
    let mut worst: u64 = laps[0];
    let mut i: usize = 1;
    assert(laps@.take(1)[0] == laps@[0]);
    while i < laps.len()
        invariant
            1 <= i <= laps@.len(),
            best == quickest(laps@.take(i as int)),
            worst == slowest(laps@.take(i as int)),
            best <= worst,
        decreases laps@.len() - i,
    {
        proof {
            assert(laps@.take(i + 1).drop_last() =~= laps@.take(i as int));
            assert(laps@.take(i + 1).last() == laps@[i as int]);
        }
        if laps[i] < best {
            best = laps[i];
        }
        if laps[i] > worst {
            worst = laps[i];
        }
        i = i + 1;
    }
    assert(laps@.take(i as int) =~= laps@);
    (best, worst)
}

/// One stage's measured cost, in nanoseconds over a whole pass.
#[derive(Debug, Clone, Copy, PartialEq, Eq, Structural)]
pub struct StageCost {
    pub stage: Stage,
    pub cumulative: u64,
    /// What the stage adds to the one before it. Less than nothing if it came out
    /// quicker, which is noise.
    pub this_stage: i128,
    pub spread: u64,
    /// Whether the stage's cost is smaller than its own run-to-run spread, in
    /// which case it is not a measurement and must not be quoted as one.
    pub unresolved: bool,
}

/// The cost of the stage at depth `i`, from the laps of every prefix.
pub open spec fn costed(c: StageCost, laps: Seq<Vec<u64>>, i: int) -> bool {
    let best = quickest(laps[i]@);
    let last: int = if i == 0 {
        0
    } else {
        quickest(laps[i - 1]@) as int
    };
    &&& c.stage.depth() == i
    &&& c.cumulative == best
    &&& c.this_stage == best - last
    &&& c.spread == slowest(laps[i]@) - best
    &&& c.unresolved == (best - last < slowest(laps[i]@) - best)
}

/// The stage budget, by cumulative prefix. `laps` holds, for each stage in order
/// of depth, how long each repetition of the prefix up to it took.
///
/// Repetitions are to be taken round-robin across stages, never one stage after
/// the other: load that drifts along the stage order would otherwise come out as
/// a cost, possibly a negative one.
pub fn stage_budget(laps: &Vec<Vec<u64>>) -> (r: Vec<StageCost>)
    requires
        laps@.len() == 6,
        forall|i: int| 0 <= i < 6 ==> (#[trigger] laps@[i])@.len() > 0,
    ensures
        r@.len() == 6,
        forall|i: int| 0 <= i < 6 ==> costed(#[trigger] r@[i], laps@, i),
{
    let stages = Stage::all();
    let mut out: Vec<StageCost> = Vec::new();
    let mut last: u64 = 0;
    let mut i: usize = 0;
    while i < 6
        invariant
            i <= 6,
            laps@.len() == 6,
            forall|j: int| 0 <= j < 6 ==> (#[trigger] laps@[j])@.len() > 0,
            forall|j: int| 0 <= j < 6 ==> (#[trigger] stages@[j]).depth() == j,
            out@.len() == i,
            last == (if i == 0 {
                0
            } else {
                quickest(laps@[i - 1]@)
            }),
            forall|j: int| 0 <= j < i ==> costed(#[trigger] out@[j], laps@, j),
        decreases 6 - i,
    {
        assert(laps@[i as int]@.len() > 0);
        let (best, worst) = best_and_worst(laps[i].as_slice());
        let this_stage: i128 = best as i128 - last as i128;
        let spread: u64 = worst - best;
        let cost = StageCost {
            stage: stages[i],
            cumulative: best,
            this_stage,
            spread,
            unresolved: this_stage < spread as i128,
        };
        assert(costed(cost, laps@, i as int));
        out.push(cost);
        last = best;
        i = i + 1;
    }
    out
}

/// How many stages could not be resolved.
pub open spec fn unresolved_in(stages: Seq<StageCost>) -> nat
    decreases stages.len(),
{
    if stages.len() == 0 {
        0
    } else {
        unresolved_in(stages.drop_last()) + (if stages.last().unresolved {
            1nat
        } else {
            0
        })
    }
}

/// Count the stages that could not be resolved.
pub fn count_unresolved(stages: &[StageCost]) -> (r: usize)
    ensures
        r == unresolved_in(stages@),
        r <= stages@.len(),
{
    let mut n: usize = 0;
    let mut i: usize = 0;
    while i < stages.len()
        invariant
            i <= stages@.len(),
            n <= i,
            n == unresolved_in(stages@.take(i as int)),
        decreases stages@.len() - i,
    {
        assert(stages@.take(i + 1).drop_last() =~= stages@.take(i as int));
        if stages[i].unresolved {
            n = n + 1;
        }
        i = i + 1;
    }
    assert(stages@.take(i as int) =~= stages@);
    n
}

/// Timed passes in a run.
pub const REPS: usize = 5;

/// Timed passes over each stage in a budget.
pub const BUDGET_REPS: usize = 9;

/// What a run does next.
#[derive(Debug, Clone, Copy, PartialEq, Eq, Structural)]
pub enum RunStep {
    /// A pass whose time is not kept. The first pass pays every page fault for
    /// the symbol table and the levels; timing it would report the allocator.
    Warm,
    /// A pass whose time is kept.
    Time(usize),
    /// A pass with load offered on a schedule.
    Load,
    Done,
}

impl RunStep {
    /// The step after this one.
    pub fn next(self) -> (r: RunStep)
        ensures
            r == (match self {
                RunStep::Warm => RunStep::Time(0),
                RunStep::Time(i) => if i < REPS - 1 {
                    RunStep::Time((i + 1) as usize)
                } else {
                    RunStep::Load
                },
                RunStep::Load => RunStep::Done,
                RunStep::Done => RunStep::Done,
            }),
    {
        match self {
            RunStep::Warm => RunStep::Time(0),
            RunStep::Time(i) => if i < REPS - 1 {
                RunStep::Time(i + 1)
            } else {
                RunStep::Load
            },
            RunStep::Load => RunStep::Done,
            RunStep::Done => RunStep::Done,
        }
    }
}

/// What a stage budget does next.
#[derive(Debug, Clone, Copy, PartialEq, Eq, Structural)]
pub enum BudgetStep {
    /// A pass over the whole path whose time is not kept. Otherwise the first
    /// prefix to build a book would pay every page fault.
    Warm,
    /// A pass up to a stage, whose time is kept.
    Time { rep: usize, stage: usize },
    Done,
}

impl BudgetStep {
    /// The step after this one.
    pub open spec fn after(self) -> BudgetStep {
        match self {
            BudgetStep::Warm => BudgetStep::Time { rep: 0, stage: 0 },
            BudgetStep::Time { rep, stage } => if stage < 5 {
                BudgetStep::Time { rep, stage: (stage + 1) as usize }
            } else if rep < BUDGET_REPS - 1 {
                BudgetStep::Time { rep: (rep + 1) as usize, stage: 0 }
            } else {
                BudgetStep::Done
            },
            BudgetStep::Done => BudgetStep::Done,
        }
    }

    /// Where a budget is after `n` steps.
    pub open spec fn nth(n: nat) -> BudgetStep
        decreases n,
    {
        if n == 0 {
            BudgetStep::Warm
        } else {
            BudgetStep::nth((n - 1) as nat).after()
        }
    }

    /// The step after this one.
    pub fn next(self) -> (r: BudgetStep)
        ensures
            r == self.after(),
    {
        match self {
            BudgetStep::Warm => BudgetStep::Time { rep: 0, stage: 0 },
            BudgetStep::Time { rep, stage } => if stage < 5 {
                BudgetStep::Time { rep, stage: stage + 1 }
            } else if rep < BUDGET_REPS - 1 {
                BudgetStep::Time { rep: rep + 1, stage: 0 }
            } else {
                BudgetStep::Done
            },
            BudgetStep::Done => BudgetStep::Done,
        }
    }
}

/// A budget goes round the stages, never one stage after the other: it times
/// every stage once before it times any of them again, and stops when each has
/// had its repetitions.
pub proof fn law_budgets_go_round(k: nat)
    ensures
        k < 6 * BUDGET_REPS ==> BudgetStep::nth(k + 1) == (BudgetStep::Time {
            rep: (k / 6) as usize,
            stage: (k % 6) as usize,
        }),
        k >= 6 * BUDGET_REPS ==> BudgetStep::nth(k + 1) is Done,
    decreases k,
{
    if k > 0 {
        law_budgets_go_round((k - 1) as nat);
    }
    assert(BudgetStep::nth(k + 1) == BudgetStep::nth(k).after());
}

/// What a run came to. Times per packet are texts, to two decimals.
#[derive(Debug, Clone)]
pub struct Report {
    pub container: &'static str,
    pub packets: u64,
    pub messages: u64,
    pub book_updates: u64,
    pub orders: u64,
    /// Best of the repetitions, nanoseconds per packet.
    pub ns_per_packet: String,
    /// Worst minus best. Every figure here is read against this.
    pub spread: String,
    pub duplicates_suppressed: u64,
    pub gaps_detected: u64,
    pub gaps_injected: u64,
    pub crossed_when_stable: u64,
    pub service_p50: u64,
    pub service_p99: u64,
    pub corrected_p50: u64,
    pub corrected_p99: u64,
    pub behind_schedule: u64,
    pub top: Vec<TopOfBook>,
}

/// Report on a pipeline that a corpus was put through, on the queue that offered
/// it load, and on the best time per packet and its spread.
pub fn reported<L: Levels>(
    req: Request,
    corpus: &Corpus,
    p: &Pipeline<L>,
    queue: &Queue,
    ns_per_packet: String,
    spread: String,
) -> (r: Report)
    requires
        p.wf(),
        queue.wf(),
    ensures
        r.container@ == req.container.title(),
        r.packets == p@.counters.packets,
        r.messages == p@.counters.messages,
        r.book_updates == p@.counters.book_updates,
        r.orders == p@.counters.orders_encoded,
        r.ns_per_packet == ns_per_packet,
        r.spread == spread,
        r.duplicates_suppressed == p@.seq.stats.duplicates,
        r.gaps_detected == p@.seq.stats.gaps_opened,
        r.gaps_injected == corpus.gaps_injected,
        r.crossed_when_stable == p@.book.stats.crossed_when_stable,
        queue@.service.reads(rank_of(5_000, queue@.service.total as u64), r.service_p50),
        queue@.service.reads(rank_of(9_900, queue@.service.total as u64), r.service_p99),
        queue@.corrected.reads(rank_of(5_000, queue@.corrected.total as u64), r.corrected_p50),
        queue@.corrected.reads(rank_of(9_900, queue@.corrected.total as u64), r.corrected_p99),
        r.behind_schedule == queue@.behind,
        board(r.top@) == tops(p@.book, shown()),
{
    let counters = p.counts();
    let seen = p.sequence_counts();
    Report {
        container: req.container.name(),
        packets: counters.packets,
        messages: counters.messages,
        book_updates: counters.book_updates,
        orders: counters.orders_encoded,
        ns_per_packet,
        spread,
        duplicates_suppressed: seen.duplicates,
        gaps_detected: seen.gaps_opened,
        gaps_injected: corpus.gaps_injected,
        crossed_when_stable: p.current_book().counters().crossed_when_stable,
        service_p50: queue.service(5_000),
        service_p99: queue.service(9_900),
        corrected_p50: queue.corrected(5_000),
        corrected_p99: queue.corrected(9_900),
        behind_schedule: queue.behind(),
        top: snapshot(p),
    }
}

}
