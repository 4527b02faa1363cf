//! Generates valid IEX-TP/DEEP captures.
//!
//! Two jobs. It makes the library demonstrate itself: every example needs a
//! capture, and a real one is too large to carry around. And it closes a hole in
//! the correctness argument: an encoder written from the same field offsets and
//! then read back is a different kind of check from two decoders agreeing, and
//! here the reading back is proved.
//!
//! The output is a genuine classic-pcap file: Ethernet with the 802.1Q VLAN tag
//! real IEX frames carry, IPv4, UDP to the multicast group, then IEX-TP segments
//! of length-prefixed DEEP messages. It is parsed by the same code path as a
//! capture from the exchange, with no synthetic shortcut.
use vstd::prelude::*;

use crate::deep::messages::PriceLevelUpdate;
use crate::deep::symbol::Symbol;

pub mod habits;
pub mod laws;
pub mod market;
pub mod wire;

use market::{drawn, xorshift, Market, MarketView, QuoteView, Rng, SymbolState, WHOLE};
use wire::{
    block, build_segment, capture_header, count_messages, frame_bytes, lemma_block_len,
    lemma_block_push, lemma_prefixes_of_block, lemma_records_push, record_bytes, records,
    segment_bytes, write_packet, write_pcap_header, write_price_level, Stamped,
};

verus! {

/// What to generate. Rates are in ten-thousandths.
#[derive(Debug, Clone)]
pub struct Config {
    pub symbols: Vec<Symbol>,
    /// Segments to attempt. Each carries one to four messages.
    pub segments: usize,
    pub seed: u64,
    /// Fraction of segments emitted twice, modelling the second feed of an A/B
    /// pair. The receiver should deliver each exactly once.
    pub duplicate_rate: u64,
    /// Fraction of segments dropped, modelling packet loss. The receiver should
    /// notice the sequence gap rather than silently skipping.
    pub gap_rate: u64,
    /// Fraction of price level updates that delete their level. The measured
    /// real figure is 0.389.
    pub delete_rate: u64,
}

/// A configuration with its symbols as a sequence.
#[verifier::ext_equal]
pub struct ConfigView {
    pub symbols: Seq<Symbol>,
    pub segments: nat,
    pub seed: u64,
    pub duplicate_rate: u64,
    pub gap_rate: u64,
    pub delete_rate: u64,
}

impl View for Config {
    type V = ConfigView;

    open spec fn view(&self) -> ConfigView {
        ConfigView {
            symbols: self.symbols@,
            segments: self.segments as nat,
            seed: self.seed,
            duplicate_rate: self.duplicate_rate,
            gap_rate: self.gap_rate,
            delete_rate: self.delete_rate,
        }
    }
}

/// Most segments a capture is generated for.
pub const MAX_SEGMENTS: u64 = 0x10_0000_0000;

impl ConfigView {
    /// There is something to quote if anything is to be quoted, and prices and
    /// times stay in range.
    pub open spec fn valid(self) -> bool {
        &&& self.symbols.len() > 0 || self.segments == 0
        &&& self.symbols.len() * 370_000 <= i64::MAX
        &&& self.segments <= MAX_SEGMENTS
        &&& self.segments * 128 <= usize::MAX
    }
}

/// AAPL, MSFT, SPY, QQQ, NVDA, TSLA, AMZN and GOOG.
pub open spec fn usual_symbols() -> Seq<Symbol> {
    seq![
        Symbol([0x41, 0x41, 0x50, 0x4c, 0x20, 0x20, 0x20, 0x20]),
        Symbol([0x4d, 0x53, 0x46, 0x54, 0x20, 0x20, 0x20, 0x20]),
        Symbol([0x53, 0x50, 0x59, 0x20, 0x20, 0x20, 0x20, 0x20]),
        Symbol([0x51, 0x51, 0x51, 0x20, 0x20, 0x20, 0x20, 0x20]),
        Symbol([0x4e, 0x56, 0x44, 0x41, 0x20, 0x20, 0x20, 0x20]),
        Symbol([0x54, 0x53, 0x4c, 0x41, 0x20, 0x20, 0x20, 0x20]),
        Symbol([0x41, 0x4d, 0x5a, 0x4e, 0x20, 0x20, 0x20, 0x20]),
        Symbol([0x47, 0x4f, 0x4f, 0x47, 0x20, 0x20, 0x20, 0x20]),
    ]
}

/// What a default configuration asks for.
pub open spec fn usual_config() -> ConfigView {
    ConfigView {
        symbols: usual_symbols(),
        segments: 20_000,
        seed: 0x2545_F491_4F6C_DD1D,
        duplicate_rate: 0,
        gap_rate: 0,
        delete_rate: 3_890,
    }
}

impl Default for Config {
    fn default() -> (r: Config)
        ensures
            r@ == usual_config(),
    {
        let mut symbols: Vec<Symbol> = Vec::new();
        symbols.push(Symbol([0x41, 0x41, 0x50, 0x4c, 0x20, 0x20, 0x20, 0x20]));
        symbols.push(Symbol([0x4d, 0x53, 0x46, 0x54, 0x20, 0x20, 0x20, 0x20]));
        symbols.push(Symbol([0x53, 0x50, 0x59, 0x20, 0x20, 0x20, 0x20, 0x20]));
        symbols.push(Symbol([0x51, 0x51, 0x51, 0x20, 0x20, 0x20, 0x20, 0x20]));
        symbols.push(Symbol([0x4e, 0x56, 0x44, 0x41, 0x20, 0x20, 0x20, 0x20]));
        symbols.push(Symbol([0x54, 0x53, 0x4c, 0x41, 0x20, 0x20, 0x20, 0x20]));
        symbols.push(Symbol([0x41, 0x4d, 0x5a, 0x4e, 0x20, 0x20, 0x20, 0x20]));
        symbols.push(Symbol([0x47, 0x4f, 0x4f, 0x47, 0x20, 0x20, 0x20, 0x20]));
        assert(symbols@ =~= usual_symbols());
        Config {
            symbols,
            segments: 20_000,
            seed: 0x2545_F491_4F6C_DD1D,
            duplicate_rate: 0,
            gap_rate: 0,
            delete_rate: 3_890,
        }
    }
}

/// A generated capture: a complete pcap file plus what it should decode to.
pub struct Capture {
    /// The pcap bytes.
    pub bytes: Vec<u8>,
    /// Messages actually published, counting a duplicated segment once. This is
    /// what a correct receiver must deliver if nothing was dropped.
    pub messages_published: u64,
    /// Segments emitted twice.
    pub duplicates: u64,
    /// Segments dropped, each of which should register as a gap.
    pub gaps: u64,
    /// Segments actually written. Lower than `Config::segments`, because an
    /// attempt whose messages were all passed over emits nothing rather than an
    /// empty segment.
    pub segments_emitted: u64,
}

/// The session every generated segment belongs to.
pub const SESSION: u32 = 0x4400_0001;

/// When the first generated packet was captured.
pub const START_NANOS: u64 = 1_528_371_010_000_000_000;

/// A segment that was sent.
pub struct Sent {
    pub ts_nanos: int,
    pub first: int,
    pub updates: Seq<PriceLevelUpdate>,
}

/// A sent segment as the frame it went out in.
pub open spec fn stamped(p: Sent) -> Stamped {
    Stamped {
        ts_nanos: p.ts_nanos,
        frame: frame_bytes(
            segment_bytes(SESSION, p.first, p.updates.len() as int, block(p.updates)),
        ),
    }
}

/// Everything generated so far.
pub struct GenView {
    pub market: MarketView,
    pub sequence: int,
    pub ts_nanos: int,
    pub published: int,
    pub duplicates: int,
    pub gaps: int,
    pub emitted: int,
    pub packets: Seq<Sent>,
}

/// The state of the `i`-th symbol before anything has been quoted. Mids are
/// spread across a plausible price range rather than clustered at one point.
pub open spec fn opening(symbols: Seq<Symbol>, i: int) -> QuoteView {
    QuoteView {
        symbol: symbols[i],
        mid: 100_000 + (i * 370_000) % 9_000_000,
        bids: Seq::empty(),
        asks: Seq::empty(),
    }
}

/// Nothing generated yet.
pub open spec fn begun(cfg: ConfigView) -> GenView {
    GenView {
        market: MarketView {
            rng: cfg.seed | 1,
            symbols: Seq::new(cfg.symbols.len(), |i: int| opening(cfg.symbols, i)),
        },
        sequence: 1,
        ts_nanos: START_NANOS as int,
        published: 0,
        duplicates: 0,
        gaps: 0,
        emitted: 0,
        packets: Seq::empty(),
    }
}

/// `n` attempts in turn, and the updates that came of them.
pub open spec fn batch(m: MarketView, n: nat, delete_rate: u64, ts: i64) -> (
    MarketView,
    Seq<PriceLevelUpdate>,
)
    decreases n,
{
    if n == 0 {
        (m, Seq::empty())
    } else {
        let (before, us) = batch(m, (n - 1) as nat, delete_rate, ts);
        let (after, u) = before.attempt(delete_rate, ts);
        (
            after,
            match u {
                Some(u) => us.push(u),
                None => us,
            },
        )
    }
}

/// One segment's updates published. A dropped segment still uses up its sequence
/// numbers, which is what makes it detectable; a doubled one goes out again a
/// microsecond later.
pub open spec fn published(
    g: GenView,
    m: MarketView,
    us: Seq<PriceLevelUpdate>,
    cfg: ConfigView,
) -> GenView {
    let r1 = xorshift(m.rng);
    let numbered = GenView {
        market: MarketView { rng: r1, ..m },
        sequence: g.sequence + us.len(),
        published: g.published + us.len(),
        ts_nanos: g.ts_nanos + 1_000,
        ..g
    };
    let first = Sent { ts_nanos: g.ts_nanos, first: g.sequence, updates: us };
    if drawn(m.rng, WHOLE) < cfg.gap_rate {
        GenView { gaps: g.gaps + 1, ..numbered }
    } else {
        let sent = GenView {
            market: MarketView { rng: xorshift(r1), ..m },
            emitted: g.emitted + 1,
            packets: g.packets.push(first),
            ..numbered
        };
        if drawn(r1, WHOLE) < cfg.duplicate_rate {
            GenView {
                duplicates: g.duplicates + 1,
                ts_nanos: g.ts_nanos + 2_000,
                packets: sent.packets.push(Sent { ts_nanos: g.ts_nanos + 1_000, ..first }),
                ..sent
            }
        } else {
            sent
        }
    }
}

/// One segment more. One that no updates came of is not sent.
pub open spec fn stepped(g: GenView, cfg: ConfigView) -> GenView {
    let count = 1 + drawn(g.market.rng, 4);
    let opened = MarketView { rng: xorshift(g.market.rng), ..g.market };
    let (m, us) = batch(opened, count as nat, cfg.delete_rate, g.ts_nanos as i64);
    if us.len() == 0 {
        GenView { market: m, ..g }
    } else {
        published(g, m, us, cfg)
    }
}

/// The first `n` segments of a configuration.
pub open spec fn generated(cfg: ConfigView, n: nat) -> GenView
    decreases n,
{
    if n == 0 {
        begun(cfg)
    } else {
        stepped(generated(cfg, (n - 1) as nat), cfg)
    }
}

/// The capture file of what was sent.
pub open spec fn file(packets: Seq<Sent>) -> Seq<u8> {
    capture_header() + records(packets.map_values(|p: Sent| stamped(p)))
}

/// How high quotes can have wandered after `n` attempts.
pub open spec fn ceiling(n: int) -> int {
    9_100_000 + 100 * n
}

/// A market opens sound.
pub proof fn lemma_begun_sound(cfg: ConfigView)
    requires
        cfg.valid(),
        cfg.symbols.len() > 0,
    ensures
        begun(cfg).market.sound(ceiling(0)),
{
    let m = begun(cfg).market;
    assert forall|i: int| 0 <= i < m.symbols.len() implies (#[trigger] m.symbols[i]).sound(
        ceiling(0),
    ) by {
        assert(0 <= (i * 370_000) % 9_000_000 < 9_000_000);
    }
}

/// Attempts keep the market sound, and give at most one update each.
pub proof fn lemma_batch(m: MarketView, n: nat, delete_rate: u64, ts: i64, steps: int)
    requires
        m.sound(ceiling(steps)),
        0 <= steps,
        steps + n <= 0x1_0000_0000_0000,
    ensures
        batch(m, n, delete_rate, ts).0.sound(ceiling(steps + n)),
        batch(m, n, delete_rate, ts).0.symbols.len() == m.symbols.len(),
        batch(m, n, delete_rate, ts).1.len() <= n,
    decreases n,
{
    if n > 0 {
        lemma_batch(m, (n - 1) as nat, delete_rate, ts, steps);
        let before = batch(m, (n - 1) as nat, delete_rate, ts).0;
        market::law_the_market_never_crosses(before, delete_rate, ts, ceiling(steps + n - 1));
    }
}

/// Room left in a sound market only grows.
pub proof fn lemma_sound_grows(m: MarketView, a: int, b: int)
    requires
        m.sound(ceiling(a)),
        a <= b,
    ensures
        m.sound(ceiling(b)),
{
    assert forall|i: int| 0 <= i < m.symbols.len() implies (#[trigger] m.symbols[i]).sound(
        ceiling(b),
    ) by {
        assert(m.symbols[i].sound(ceiling(a)));
    }
}

/// The counts and the clock stay in step with the number of segments.
pub open spec fn in_range(g: GenView, n: int) -> bool {
    &&& 1 <= g.sequence <= 1 + 4 * n
    &&& START_NANOS <= g.ts_nanos <= START_NANOS + 2_000 * n
    &&& 0 <= g.published <= 4 * n
    &&& 0 <= g.duplicates <= n
    &&& 0 <= g.gaps <= n
    &&& 0 <= g.emitted <= n
    &&& g.packets.len() <= 2 * n
}

/// Quote up to `count` updates into a message block.
fn fill(market: &mut Market, count: u64, delete_rate: u64, ts: i64, Ghost(steps): Ghost<int>) -> (r:
    Vec<u8>)
    requires
        old(market)@.sound(ceiling(steps)),
        0 <= steps <= 0x8000_0000_0000,
        count <= 4,
    ensures
        final(market)@ == batch(old(market)@, count as nat, delete_rate, ts).0,
        r@ == block(batch(old(market)@, count as nat, delete_rate, ts).1),
        final(market)@.sound(ceiling(steps + count)),
        batch(old(market)@, count as nat, delete_rate, ts).1.len() <= count,
{
    let ghost start = market@;
    let mut body: Vec<u8> = Vec::new();
    let mut i: u64 = 0;
    let ghost mut us: Seq<PriceLevelUpdate> = Seq::empty();
    assert(body@ =~= block(us));
    while i < count
        invariant
            i <= count <= 4,
            0 <= steps <= 0x8000_0000_0000,
            (market@, us) == batch(start, i as nat, delete_rate, ts),
            market@.sound(ceiling(steps + i)),
            body@ == block(us),
            us.len() <= i,
        decreases count - i,
    {
        let quoted = market.attempt(delete_rate, ts, Ghost(ceiling(steps + i)));
        assert(ceiling(steps + i) + 100 == ceiling(steps + i + 1));
        if let Some(u) = quoted {
            write_price_level(&mut body, &u);
            proof {
                lemma_block_push(us, u);
                us = us.push(u);
            }
        }
        i = i + 1;
    }
    body
}

/// Send a segment: append its packet to the file.
fn send(out: &mut Vec<u8>, ts_nanos: u64, segment: &[u8], Ghost(packets): Ghost<Seq<Sent>>, Ghost(
    p,
): Ghost<Sent>)
    requires
        old(out)@ == file(packets),
        p.ts_nanos == ts_nanos,
        segment@ == segment_bytes(SESSION, p.first, p.updates.len() as int, block(p.updates)),
        segment@.len() <= 0xffff - 28,
        ts_nanos < 0x1_0000_0000 * 1_000_000_000,
    ensures
        final(out)@ == file(packets.push(p)),
{
    write_packet(out, ts_nanos, segment);
    proof {
        lemma_file_push(packets, p);
    }
}

/// A capture in the making.
struct Generator {
    market: Market,
    out: Vec<u8>,
    sequence: i64,
    ts_nanos: u64,
    published: u64,
    duplicates: u64,
    gaps: u64,
    emitted: u64,
    packets: Ghost<Seq<Sent>>,
}

impl View for Generator {
    type V = GenView;

    closed spec fn view(&self) -> GenView {
        GenView {
            market: self.market@,
            sequence: self.sequence as int,
            ts_nanos: self.ts_nanos as int,
            published: self.published as int,
            duplicates: self.duplicates as int,
            gaps: self.gaps as int,
            emitted: self.emitted as int,
            packets: self.packets@,
        }
    }
}

impl Generator {
    /// The file holds what was sent, and the counts are in range.
    spec fn wf(self, n: int) -> bool {
        &&& in_range(self@, n)
        &&& self.out@ == file(self.packets@)
    }

    /// Number a segment and send it, or drop it, or send it twice.
    fn publish(
        &mut self,
        cfg: &Config,
        actual: u16,
        body: &[u8],
        Ghost(n): Ghost<int>,
        Ghost(us): Ghost<Seq<PriceLevelUpdate>>,
    )
        requires
            old(self).wf(n),
            0 <= n < MAX_SEGMENTS,
            body@ == block(us),
            actual == us.len(),
            0 < us.len() <= 4,
        ensures
            final(self).wf(n + 1),
            final(self)@ == published(old(self)@, old(self)@.market, us, cfg@),
            final(self)@.market.symbols == old(self)@.market.symbols,
    {
        proof {
            lemma_block_len(us);
        }
        let segment = build_segment(SESSION, self.sequence, actual, body);
        let ghost first = Sent {
            ts_nanos: self.ts_nanos as int,
            first: self.sequence as int,
            updates: us,
        };
        let ghost again = Sent { ts_nanos: self.ts_nanos + 1_000, ..first };
        self.sequence = self.sequence + actual as i64;
        self.published = self.published + actual as u64;
        // A dropped segment still consumes its sequence numbers, which is
        // exactly what makes it detectable downstream.
        if self.market.rng.chance(cfg.gap_rate) {
            self.gaps = self.gaps + 1;
            self.ts_nanos = self.ts_nanos + 1_000;
            return ;
        }
        send(
            &mut self.out,
            self.ts_nanos,
            segment.as_slice(),
            Ghost(self.packets@),
            Ghost(first),
        );
        self.packets = Ghost(self.packets@.push(first));
        self.emitted = self.emitted + 1;
        self.ts_nanos = self.ts_nanos + 1_000;
        if self.market.rng.chance(cfg.duplicate_rate) {
            self.duplicates = self.duplicates + 1;
            send(
                &mut self.out,
                self.ts_nanos,
                segment.as_slice(),
                Ghost(self.packets@),
                Ghost(again),
            );
            self.packets = Ghost(self.packets@.push(again));
            self.ts_nanos = self.ts_nanos + 1_000;
        }
    }

    /// One segment more.
    fn step(&mut self, cfg: &Config, Ghost(n): Ghost<int>)
        requires
            old(self).wf(n),
            0 <= n < MAX_SEGMENTS,
            old(self)@.market.sound(ceiling(4 * n)),
        ensures
            final(self).wf(n + 1),
            final(self)@ == stepped(old(self)@, cfg@),
            final(self)@.market.sound(ceiling(4 * (n + 1))),
    {
        let count: u64 = 1 + self.market.rng.below(4);
        let ghost opened = self.market@;
        proof {
            assert(opened =~= (MarketView {
                rng: xorshift(old(self)@.market.rng),
                ..old(self)@.market
            }));
            assert(opened.sound(ceiling(4 * n)));
        }
        let body = fill(
            &mut self.market,
            count,
            cfg.delete_rate,
            self.ts_nanos as i64,
            Ghost(4 * n),
        );
        let ghost us = batch(opened, count as nat, cfg.delete_rate, self.ts_nanos as i64).1;
        proof {
            lemma_prefixes_of_block(us);
            lemma_sound_grows(self.market@, 4 * n + count, 4 * (n + 1));
        }
        // `count` was an intention; some attempts come to nothing. The header
        // must state what the body actually contains or the receiver reads past
        // the end.
        let actual: u16 = count_messages(body.as_slice());
        if actual != 0 {
            self.publish(cfg, actual, body.as_slice(), Ghost(n), Ghost(us));
        }
    }
}

/// Generate a capture. The same configuration always gives the same capture.
pub fn generate(cfg: &Config) -> (r: Capture)
    requires
        cfg@.valid(),
    ensures
        ({
            let g = generated(cfg@, cfg@.segments);
            &&& r.bytes@ == file(g.packets)
            &&& r.messages_published == g.published
            &&& r.duplicates == g.duplicates
            &&& r.gaps == g.gaps
            &&& r.segments_emitted == g.emitted
        }),
{
    let mut symbols: Vec<SymbolState> = Vec::new();
    let mut i: usize = 0;
    while i < cfg.symbols.len()
        invariant
            i <= cfg.symbols@.len(),
            cfg@.valid(),
            symbols@.len() == i,
            forall|j: int| 0 <= j < i ==> (#[trigger] symbols@[j])@ == opening(cfg.symbols@, j),
        decreases cfg.symbols@.len() - i,
    {
        assert(i * 370_000 <= cfg.symbols@.len() * 370_000);
        let state = SymbolState {
            symbol: cfg.symbols[i],
            mid: 100_000 + (i as i64 * 370_000) % 9_000_000,
            bids: Vec::new(),
            asks: Vec::new(),
        };
        assert(state@ =~= opening(cfg.symbols@, i as int));
        symbols.push(state);
        i = i + 1;
    }
    let mut out: Vec<u8> = Vec::with_capacity(cfg.segments * 128);
    write_pcap_header(&mut out);
    let mut g = Generator {
        market: Market { rng: Rng(cfg.seed | 1), symbols },
        out,
        sequence: 1,
        ts_nanos: START_NANOS,
        published: 0,
        duplicates: 0,
        gaps: 0,
        emitted: 0,
        packets: Ghost(Seq::empty()),
    };
    proof {
        assert(g@.market.symbols =~= begun(cfg@).market.symbols);
        assert(g@.packets.map_values(|p: Sent| stamped(p)) =~= Seq::empty());
        assert(g.out@ =~= file(g@.packets));
        if cfg@.segments > 0 {
            lemma_begun_sound(cfg@);
        }
    }
    let mut n: usize = 0;
    while n < cfg.segments
        invariant
            cfg@.valid(),
            n <= cfg.segments,
            g@ == generated(cfg@, n as nat),
            g.wf(n as int),
            cfg@.segments > 0 ==> g@.market.sound(ceiling(4 * n)),
        decreases cfg.segments - n,
    {
        g.step(cfg, Ghost(n as int));
        n = n + 1;
    }
    Capture {
        bytes: g.out,
        messages_published: g.published,
        duplicates: g.duplicates,
        gaps: g.gaps,
        segments_emitted: g.emitted,
    }
}

/// One more segment at the end of a file.
proof fn lemma_file_push(packets: Seq<Sent>, p: Sent)
    ensures
        file(packets.push(p)) == file(packets) + record_bytes(p.ts_nanos, stamped(p).frame),
{
    let before = packets.map_values(|p: Sent| stamped(p));
    assert(packets.push(p).map_values(|p: Sent| stamped(p)) =~= before.push(stamped(p)));
    lemma_records_push(before, stamped(p));
    assert(file(packets.push(p)) =~= file(packets) + record_bytes(p.ts_nanos, stamped(p).frame));
}

}
