//! Decode a recorded exchange session and report whether it was understood.
//!
//! Unknown message types are *counted and reported* rather than skipped: a
//! decoder that quietly dropped what it did not recognise would show clean
//! sessions while ignoring a part of them.
use std::collections::HashSet;
use vstd::prelude::*;
use vstd::string::StringExecFns;
use vstd::utf8::encode_utf8;

use crate::book::levels::{highest, lowest};
use crate::book::{Book, BookView, SortedLevels, SymbolView};
use crate::deep::messages::{decoded, parse, Message, MessageView, PriceLevelUpdate};
use crate::deep::price::{price_text, Price};
use crate::deep::symbol::{lemma_key_identifies, Symbol};
use crate::iextp::capture::{lemma_packets_fit, opened, Capture, CaptureView, Format};
use crate::iextp::pcap::PacketView;
use crate::iextp::segment::{bodies, Segment};
use crate::iextp::sequencer::{lemma_observed, Action, SeqView, Sequencer};
use crate::iextp::{carried, frame};
use crate::tally::sum;
use crate::text::{
    before, comes_before, hex, lemma_before_one_way, lemma_before_trans, push_hex, same,
};

verus! {

/// One recorded session.
pub struct Sample {
    pub date: String,
    pub bytes: Vec<u8>,
}

/// The session recorded on a date, if there is one: the first of that date.
pub fn find<'a>(samples: &'a [Sample], date: &str) -> (r: Option<&'a Sample>)
    ensures
        match r {
            Some(s) => exists|i: int|
                0 <= i < samples@.len() && *s == #[trigger] samples@[i] && s.date@ == date@ && (
                forall|j: int| 0 <= j < i ==> (#[trigger] samples@[j]).date@ != date@),
            None => forall|i: int|
                0 <= i < samples@.len() ==> (#[trigger] samples@[i]).date@ != date@,
        },
{
    let mut i: usize = 0;
    while i < samples.len()
        invariant
            i <= samples@.len(),
            forall|j: int| 0 <= j < i ==> (#[trigger] samples@[j]).date@ != date@,
        decreases samples@.len() - i,
    {
        if same(samples[i].date.as_str(), date) {
            let s = &samples[i];
            assert(*s == samples@[i as int]);
            return Some(s);
        }
        i = i + 1;
    }
    None
}

/// A two-sided quote, as text.
#[derive(Debug)]
pub struct Quote {
    pub symbol: String,
    pub bid: String,
    pub bid_size: u32,
    pub ask: String,
    pub ask_size: u32,
}

/// A quote with its texts as character strings.
#[verifier::ext_equal]
pub struct QuoteText {
    pub symbol: Seq<char>,
    pub bid: Seq<char>,
    pub bid_size: u32,
    pub ask: Seq<char>,
    pub ask_size: u32,
}

impl View for Quote {
    type V = QuoteText;

    open spec fn view(&self) -> QuoteText {
        QuoteText {
            symbol: self.symbol@,
            bid: self.bid@,
            bid_size: self.bid_size,
            ask: self.ask@,
            ask_size: self.ask_size,
        }
    }
}

/// Quotes with their texts as character strings.
pub open spec fn texts(quotes: Seq<Quote>) -> Seq<QuoteText> {
    quotes.map_values(|q: Quote| q@)
}

/// What came of decoding a session.
#[derive(Debug)]
pub struct Verdict {
    pub date: String,
    pub format: &'static str,
    pub bytes: usize,
    pub packets: u64,
    pub messages: u64,
    /// Messages whose type is known but whose length was wrong. Any non-zero
    /// value means the framing above the message layer is broken.
    pub errors: u64,
    /// Messages of a type this decoder does not model. Counted, never dropped.
    pub unknown: u64,
    pub symbols: usize,
    pub price_updates: u64,
    pub trades: u64,
    pub gaps: u64,
    pub duplicates: u64,
    pub crossed: u64,
    pub low: String,
    pub high: String,
    /// Message type and count, most frequent first.
    pub types: Vec<(String, u64)>,
    /// Two-sided quotes at the end of the session.
    pub quotes: Vec<Quote>,
    /// How long decoding took. Filled in by whoever holds a clock.
    pub nanos: u128,
}

/// What a message type is called.
pub open spec fn type_title(t: u8) -> Seq<char> {
    if t == 0x38 {
        "Price Level Update (buy)"@
    } else if t == 0x35 {
        "Price Level Update (sell)"@
    } else if t == 0x54 {
        "Trade Report"@
    } else if t == 0x42 {
        "Trade Break"@
    } else if t == 0x53 {
        "System Event"@
    } else if t == 0x44 {
        "Security Directory"@
    } else if t == 0x48 {
        "Trading Status"@
    } else if t == 0x4f {
        "Operational Halt"@
    } else if t == 0x50 {
        "Short Sale Price Test"@
    } else if t == 0x45 {
        "Security Event"@
    } else if t == 0x49 {
        "Retail Liquidity (added ~2022)"@
    } else if t == 0x58 {
        "Official Price"@
    } else if t == 0x41 {
        "Auction Information"@
    } else {
        "unknown"@
    }
}

/// What a message type is called.
pub fn kind_name(t: u8) -> (r: &'static str)
    ensures
        r@ == type_title(t),
{
    match t {
        0x38 => "Price Level Update (buy)",
        0x35 => "Price Level Update (sell)",
        0x54 => "Trade Report",
        0x42 => "Trade Break",
        0x53 => "System Event",
        0x44 => "Security Directory",
        0x48 => "Trading Status",
        0x4f => "Operational Halt",
        0x50 => "Short Sale Price Test",
        0x45 => "Security Event",
        0x49 => "Retail Liquidity (added ~2022)",
        0x58 => "Official Price",
        0x41 => "Auction Information",
        _ => "unknown",
    }
}

/// The heading a message type is counted under.
pub open spec fn label(t: u8) -> Seq<char> {
    "0x"@ + hex(t) + " "@ + type_title(t)
}

/// What has been seen of a session.
#[verifier::ext_equal]
pub struct Tally {
    pub packets: int,
    pub messages: int,
    pub errors: int,
    pub unknown: int,
    pub price_updates: int,
    pub trades: int,
    /// Messages by type byte.
    pub counts: Seq<nat>,
    /// Integer forms of the symbols mentioned.
    pub symbols: Set<u64>,
    /// Lowest and highest price quoted.
    pub low: i64,
    pub high: i64,
    pub seq: SeqView,
    pub book: BookView,
}

impl Tally {
    /// Before anything has been seen.
    pub open spec fn start() -> Tally {
        Tally {
            packets: 0,
            messages: 0,
            errors: 0,
            unknown: 0,
            price_updates: 0,
            trades: 0,
            counts: Seq::new(256, |i: int| 0),
            symbols: Set::empty(),
            low: i64::MAX,
            high: i64::MIN,
            seq: SeqView::fresh(1024),
            book: BookView::empty(),
        }
    }

    /// After a price level update. Deletions do not count as quotes.
    pub open spec fn updated(self, u: PriceLevelUpdate) -> Tally {
        Tally {
            price_updates: self.price_updates + 1,
            book: self.book.updated(u),
            low: if !u.is_delete() && u.price.0 < self.low {
                u.price.0
            } else {
                self.low
            },
            high: if !u.is_delete() && u.price.0 > self.high {
                u.price.0
            } else {
                self.high
            },
            ..self
        }
    }

    /// After one message body. An empty one is passed over.
    pub open spec fn read(self, body: Seq<u8>) -> Tally {
        if body.len() == 0 {
            self
        } else {
            match decoded(body) {
                Err(_) => Tally { errors: self.errors + 1, ..self },
                Ok(m) => {
                    let kind = body[0] as int;
                    let named = Tally {
                        messages: self.messages + 1,
                        counts: self.counts.update(kind, self.counts[kind] + 1),
                        symbols: match m.symbol() {
                            Some(s) => self.symbols.insert(s.key()),
                            None => self.symbols,
                        },
                        ..self
                    };
                    match m {
                        MessageView::Unknown { .. } => Tally {
                            unknown: named.unknown + 1,
                            ..named
                        },
                        MessageView::Trade(_) => Tally { trades: named.trades + 1, ..named },
                        MessageView::PriceLevel(u) => named.updated(u),
                        _ => named,
                    }
                },
            }
        }
    }

    /// After several message bodies in turn.
    pub open spec fn read_all(self, bodies: Seq<Seq<u8>>) -> Tally
        decreases bodies.len(),
    {
        if bodies.len() == 0 {
            self
        } else {
            self.read(bodies[0]).read_all(bodies.drop_first())
        }
    }

    /// After one packet: its messages count if the sequencer takes it in turn. A
    /// new session starts with an empty book, since what the old one built belongs
    /// to a stream that no longer exists.
    pub open spec fn packet(self, data: Seq<u8>) -> Tally {
        let counted = Tally { packets: self.packets + 1, ..self };
        match carried(data) {
            None => counted,
            Some((_, s)) => {
                let (seq, action) = self.seq.observed(
                    s.session,
                    s.first_sequence,
                    s.message_count,
                );
                let seen = Tally { seq, ..counted };
                match action {
                    Action::Deliver => seen.read_all(s.bodies()),
                    Action::SessionReset => (Tally {
                        book: seen.book.cleared(),
                        ..seen
                    }).read_all(s.bodies()),
                    _ => seen,
                }
            },
        }
    }

    /// After several packets in turn.
    pub open spec fn packets(self, ps: Seq<PacketView>) -> Tally
        decreases ps.len(),
    {
        if ps.len() == 0 {
            self
        } else {
            self.packet(ps[0].data).packets(ps.drop_first())
        }
    }

    /// Parts never exceed the whole, and the sequencer has been shown no more
    /// than was read.
    pub open spec fn wf(self) -> bool {
        &&& 0 <= self.packets
        &&& 0 <= self.errors
        &&& self.counts.len() == 256
        &&& forall|i: int| 0 <= i < 256 ==> #[trigger] self.counts[i] <= self.messages
        &&& 0 <= self.unknown <= self.messages
        &&& 0 <= self.trades <= self.messages
        &&& 0 <= self.price_updates <= self.messages
        &&& self.symbols.finite()
        &&& self.book.stats.updates <= self.price_updates
        &&& self.book.stats.deletes <= self.price_updates
        &&& self.book.stats.deletes_of_absent <= self.price_updates
        &&& self.book.stats.crossed_when_stable <= self.price_updates
        &&& self.book.stats.crossed_mid_event <= self.price_updates
        &&& self.book.stats.locked_when_stable <= self.price_updates
        &&& self.seq.wf()
        &&& self.seq.stats.delivered + self.seq.held.dom().len() <= self.packets
        &&& self.seq.stats.duplicates + self.seq.held.dom().len() <= self.packets
        &&& self.seq.held.dom().len() <= self.packets
        &&& self.seq.stats.buffered <= self.packets
        &&& self.seq.stats.gaps_opened <= self.packets
        &&& self.seq.stats.gaps_healed <= self.packets
        &&& self.seq.stats.session_resets <= self.packets
        &&& self.seq.stats.heartbeats <= self.packets
        &&& self.seq.stats.messages_lost == 0
    }
}

/// Raising one entry by one raises the sum by one.
proof fn lemma_sum_raised(s: Seq<nat>, i: int)
    requires
        0 <= i < s.len(),
    ensures
        sum(s.update(i, s[i] + 1)) == sum(s) + 1,
    decreases s.len(),
{
    let t = s.update(i, s[i] + 1);
    if i == s.len() - 1 {
        assert(t.drop_last() =~= s.drop_last());
    } else {
        lemma_sum_raised(s.drop_last(), i);
        assert(t.drop_last() =~= s.drop_last().update(i, s[i] + 1));
    }
}

proof fn lemma_sum_of_none(n: nat)
    ensures
        sum(Seq::new(n, |i: int| 0nat)) == 0,
    decreases n,
{
    if n > 0 {
        lemma_sum_of_none((n - 1) as nat);
        assert(Seq::new(n, |i: int| 0nat).drop_last() =~= Seq::new(
            (n - 1) as nat,
            |i: int| 0nat,
        ));
    }
}

/// No message is passed over in silence: one that can be decoded adds one to the
/// count of its type and one to the messages, of whatever type it is, and one
/// that cannot adds one to the errors.
pub proof fn law_every_message_is_counted(t: Tally, body: Seq<u8>)
    requires
        t.counts.len() == 256,
        body.len() > 0,
    ensures
        t.read(body).messages + t.read(body).errors == t.messages + t.errors + 1,
        decoded(body) is Ok ==> t.read(body).counts == t.counts.update(
            body[0] as int,
            t.counts[body[0] as int] + 1,
        ),
        decoded(body) is Err ==> t.read(body).errors == t.errors + 1 && t.read(body).counts
            == t.counts,
        decoded(body) matches Ok(MessageView::Unknown { .. }) ==> t.read(body).unknown == t.unknown
            + 1,
{
}

proof fn lemma_counts_after_bodies(t: Tally, bodies: Seq<Seq<u8>>)
    requires
        t.counts.len() == 256,
        sum(t.counts) == t.messages,
    ensures
        t.read_all(bodies).counts.len() == 256,
        sum(t.read_all(bodies).counts) == t.read_all(bodies).messages,
    decreases bodies.len(),
{
    if bodies.len() > 0 {
        if bodies[0].len() > 0 {
            lemma_sum_raised(t.counts, bodies[0][0] as int);
        }
        lemma_counts_after_bodies(t.read(bodies[0]), bodies.drop_first());
    }
}

proof fn lemma_counts_after_packets(t: Tally, ps: Seq<PacketView>)
    requires
        t.counts.len() == 256,
        sum(t.counts) == t.messages,
    ensures
        t.packets(ps).counts.len() == 256,
        sum(t.packets(ps).counts) == t.packets(ps).messages,
    decreases ps.len(),
{
    if ps.len() > 0 {
        if let Some((_, s)) = carried(ps[0].data) {
            let seen = Tally {
                packets: t.packets + 1,
                seq: t.seq.observed(s.session, s.first_sequence, s.message_count).0,
                ..t
            };
            lemma_counts_after_bodies(seen, s.bodies());
            lemma_counts_after_bodies(
                Tally { book: seen.book.cleared(), ..seen },
                s.bodies(),
            );
        }
        lemma_counts_after_packets(t.packet(ps[0].data), ps.drop_first());
    }
}

/// The counts by type add up to the messages: what a report shows is the whole
/// session, unknown types with it.
pub proof fn law_types_add_up(ps: Seq<PacketView>)
    ensures
        sum(Tally::start().packets(ps).counts) == Tally::start().packets(ps).messages,
{
    lemma_sum_of_none(256);
    assert(Tally::start().counts =~= Seq::new(256, |i: int| 0nat));
    lemma_counts_after_packets(Tally::start(), ps);
}

/// Bytes of packets, in all.
pub open spec fn weight(ps: Seq<PacketView>) -> nat
    decreases ps.len(),
{
    if ps.len() == 0 {
        0
    } else {
        ps[0].data.len() + weight(ps.drop_first())
    }
}

/// Packets take up room in the file they come from.
proof fn lemma_weight_fits(c: CaptureView)
    requires
        0 <= c.pos() <= c.buf().len(),
    ensures
        weight(c.packets()) + 8 * c.packets().len() <= c.buf().len() - c.pos(),
    decreases c.buf().len() - c.pos(),
{
    match c {
        CaptureView::Pcap(r) => {
            if r.has_record() && r.captured() >= 0 {
                lemma_weight_fits(CaptureView::Pcap(r.advanced()));
                let rest = r.advanced().packets();
                assert(r.packets().drop_first() =~= rest);
            }
        },
        CaptureView::PcapNg(r) => {
            if r.has_block() {
                lemma_weight_fits(CaptureView::PcapNg(r.advanced()));
                let rest = r.advanced().packets();
                match r.packet() {
                    Some(p) => {
                        assert(r.packets().drop_first() =~= rest);
                    },
                    None => {},
                }
            }
        },
    }
}

/// Bodies take up room in their block.
proof fn lemma_bodies_fit(block: Seq<u8>, count: nat)
    ensures
        bodies(block, count).len() <= block.len(),
    decreases count,
{
    if count == 0 || block.len() < 2 || 2 + crate::bytes::le16(block, 0) > block.len() {
    } else {
        lemma_bodies_fit(block.skip(2 + crate::bytes::le16(block, 0)), (count - 1) as nat);
    }
}

/// A segment's block is part of the frame it came in.
proof fn lemma_carried_fits(data: Seq<u8>)
    ensures
        carried(data) matches Some((p, s)) ==> s.block.len() <= data.len(),
{
    if carried(data) is Some {
        lemma_payload_fits(data.skip(12));
    }
}

proof fn lemma_payload_fits(s: Seq<u8>)
    requires
        s.len() >= 2,
    ensures
        frame::tagged(s) matches Ok(d) ==> d.payload.len() <= s.len(),
    decreases s.len(),
{
    if crate::bytes::be16(s, 0) == frame::ETHERTYPE_VLAN && s.len() >= 6 {
        lemma_payload_fits(s.skip(4));
    }
}

/// Every segment of a session has sequence numbers that fit.
pub open spec fn numbers_fit(ps: Seq<PacketView>) -> bool {
    forall|i: int|
        0 <= i < ps.len() ==> (carried((#[trigger] ps[i]).data) matches Some((_, s))
            ==> s.next_sequence() <= i64::MAX)
}

/// What has been seen of a session so far.
struct Audit {
    packets: u64,
    messages: u64,
    errors: u64,
    unknown: u64,
    price_updates: u64,
    trades: u64,
    counts: Vec<u64>,
    symbols: HashSet<u64>,
    low: i64,
    high: i64,
    seq: Sequencer,
    book: Book<SortedLevels>,
}

impl View for Audit {
    type V = Tally;

    closed spec fn view(&self) -> Tally {
        Tally {
            packets: self.packets as int,
            messages: self.messages as int,
            errors: self.errors as int,
            unknown: self.unknown as int,
            price_updates: self.price_updates as int,
            trades: self.trades as int,
            counts: self.counts@.map_values(|c: u64| c as nat),
            symbols: self.symbols@,
            low: self.low,
            high: self.high,
            seq: self.seq@,
            book: self.book@,
        }
    }
}

impl Audit {
    spec fn wf(self) -> bool {
        self@.wf() && self.book.wf()
    }

    fn new() -> (r: Audit)
        ensures
            r.wf(),
            r@ == Tally::start(),
    {
        broadcast use vstd::std_specs::hash::group_hash_axioms;

        let r = Audit {
            packets: 0,
            messages: 0,
            errors: 0,
            unknown: 0,
            price_updates: 0,
            trades: 0,
            counts: vec![0u64; 256],
            symbols: HashSet::new(),
            low: i64::MAX,
            high: i64::MIN,
            seq: Sequencer::default(),
            book: Book::with_capacity(8192),
        };
        assert(r@.counts =~= Tally::start().counts);
        assert(r@.symbols =~= Tally::start().symbols);
        r
    }

    fn on_update(&mut self, u: &PriceLevelUpdate)
        requires
            old(self).book.wf(),
            old(self)@.book.stats.room(),
            old(self)@.price_updates < u64::MAX,
        ensures
            final(self).book.wf(),
            final(self)@ == old(self)@.updated(*u),
    {
        self.price_updates = self.price_updates + 1;
        self.book.apply_price_level(u);
        if !u.is_delete() {
            if u.price.0 < self.low {
                self.low = u.price.0;
            }
            if u.price.0 > self.high {
                self.high = u.price.0;
            }
        }
    }

    fn on_body(&mut self, body: &[u8])
        requires
            old(self).wf(),
            old(self)@.messages + old(self)@.errors < u64::MAX,
        ensures
            final(self).wf(),
            final(self)@ == old(self)@.read(body@),
            final(self)@.messages + final(self)@.errors <= old(self)@.messages + old(self)@.errors
                + 1,
            final(self)@.packets == old(self)@.packets,
            final(self)@.seq == old(self)@.seq,
    {
        broadcast use vstd::std_specs::hash::group_hash_axioms;

        if body.len() == 0 {
            return ;
        }
        let kind: usize = body[0] as usize;
        let msg = match parse(body) {
            Ok(m) => m,
            Err(_) => {
                self.errors = self.errors + 1;
                return ;
            },
        };
        self.messages = self.messages + 1;
        assert(self@.counts[kind as int] <= old(self)@.messages);
        let c: u64 = self.counts[kind];
        self.counts[kind] = c + 1;
        assert(self@.counts =~= old(self)@.counts.update(
            kind as int,
            old(self)@.counts[kind as int] + 1,
        ));
        if let Some(s) = msg.symbol() {
            self.symbols.insert(s.as_u64());
        }
        match msg {
            Message::Unknown { .. } => {
                self.unknown = self.unknown + 1;
            },
            Message::Trade(_) => {
                self.trades = self.trades + 1;
            },
            Message::PriceLevel(u) => {
                self.on_update(&u);
            },
            _ => {},
        }
        proof {
            let t = self@;
            assert forall|i: int| 0 <= i < 256 implies #[trigger] t.counts[i] <= t.messages by {
                assert(old(self)@.counts[i] <= old(self)@.messages);
            }
        }
    }

    fn on_packet(&mut self, data: &[u8])
        requires
            old(self).wf(),
            old(self)@.messages + old(self)@.errors + data@.len() <= u64::MAX,
            old(self)@.packets < 0x2000_0000_0000_0000,
            carried(data@) matches Some((_, s)) ==> s.next_sequence() <= i64::MAX,
        ensures
            final(self).wf(),
            final(self)@ == old(self)@.packet(data@),
            final(self)@.messages + final(self)@.errors <= old(self)@.messages + old(self)@.errors
                + data@.len(),
            final(self)@.packets == old(self)@.packets + 1,
    {
        self.packets = self.packets + 1;
        let dg = match frame::parse(data) {
            Ok(d) => d,
            Err(_) => {
                return ;
            },
        };
        let seg = match Segment::parse(dg.payload) {
            Ok(s) => s,
            Err(_) => {
                return ;
            },
        };
        proof {
            lemma_observed(
                old(self)@.seq,
                seg.session,
                seg.first_sequence,
                seg.message_count,
            );
            lemma_carried_fits(data@);
            lemma_bodies_fit(seg@.block, seg@.message_count as nat);
        }
        let action = self.seq.observe(seg.session, seg.first_sequence, seg.message_count);
        match action {
            Action::Deliver => {},
            Action::SessionReset => {
                self.book.clear();
            },
            _ => {
                return ;
            },
        }
        let mut rest = seg.messages();
        let ghost goal = self@.read_all(rest@);
        let ghost most = old(self)@.messages + old(self)@.errors + data@.len();
        let ghost packets = self@.packets;
        loop
            invariant_except_break
                self.wf(),
                self@.read_all(rest@) == goal,
                self@.messages + self@.errors + rest@.len() <= most,
                most <= u64::MAX,
                self@.packets == packets,
            ensures
                self.wf(),
                self@ == goal,
                self@.messages + self@.errors <= most,
                self@.packets == packets,
            decreases rest@.len(),
        {
            match rest.next() {
                None => {
                    break;
                },
                Some(body) => {
                    self.on_body(body);
                },
            }
        }
    }
}

/// `s` ranks message types by how often they were seen: most frequent first,
/// ties by type, every type seen and no other.
pub open spec fn ranks(s: Seq<(u8, u64)>, counts: Seq<nat>) -> bool {
    &&& forall|i: int, j: int|
        0 <= i < j < s.len() ==> (#[trigger] s[i]).1 > (#[trigger] s[j]).1 || (s[i].1 == s[j].1
            && s[i].0 < s[j].0)
    &&& forall|i: int|
        0 <= i < s.len() ==> (#[trigger] s[i]).1 > 0 && counts[s[i].0 as int] == s[i].1
    &&& forall|k: u8| #[trigger]
        counts[k as int] > 0 ==> exists|i: int| 0 <= i < s.len() && (#[trigger] s[i]).0 == k
}

/// Rank message types by how often they were seen.
fn ranked(counts: &Vec<u64>) -> (r: Vec<(u8, u64)>)
    requires
        counts@.len() == 256,
    ensures
        ranks(r@, counts@.map_values(|c: u64| c as nat)),
{
    let mut out: Vec<(u8, u64)> = Vec::new();
    let mut t: usize = 0;
    while t < 256
        invariant
            t <= 256,
            counts@.len() == 256,
            forall|i: int, j: int|
                0 <= i < j < out@.len() ==> (#[trigger] out@[i]).1 > (#[trigger] out@[j]).1 || (
                out@[i].1 == out@[j].1 && out@[i].0 < out@[j].0),
            forall|i: int|
                0 <= i < out@.len() ==> (#[trigger] out@[i]).0 < t && out@[i].1 > 0
                    && counts@[out@[i].0 as int] == out@[i].1,
            forall|k: u8|
                k < t && #[trigger] counts@[k as int] > 0 ==> exists|i: int|
                    0 <= i < out@.len() && (#[trigger] out@[i]).0 == k,
        decreases 256 - t,
    {
        let c: u64 = counts[t];
        let ghost before = out@;
        if c > 0 {
            let mut at: usize = 0;
            while at < out.len() && out[at].1 >= c
                invariant
                    at <= out@.len(),
                    out@ == before,
                    forall|i: int| 0 <= i < at ==> (#[trigger] out@[i]).1 >= c,
                decreases out@.len() - at,
            {
                at = at + 1;
            }
            out.insert(at, (t as u8, c));
            proof {
                assert forall|i: int, j: int| 0 <= i < j < out@.len() implies (
                #[trigger] out@[i]).1 > (#[trigger] out@[j]).1 || (out@[i].1 == out@[j].1
                    && out@[i].0 < out@[j].0) by {
                    let a = if i < at {
                        i
                    } else {
                        i - 1
                    };
                    let b = if j < at {
                        j
                    } else {
                        j - 1
                    };
                    if i != at && j != at {
                        assert(out@[i] == before[a] && out@[j] == before[b]);
                    } else if i == at {
                        assert(out@[j] == before[j - 1]);
                        if j - 1 > at {
                            assert(before[at as int].1 >= before[j - 1].1);
                        }
                    } else {
                        assert(out@[i] == before[i]);
                    }
                }
                assert forall|i: int| 0 <= i < out@.len() implies (#[trigger] out@[i]).0 < t + 1
                    && out@[i].1 > 0 && counts@[out@[i].0 as int] == out@[i].1 by {
                    if i < at {
                        assert(out@[i] == before[i]);
                    } else if i > at {
                        assert(out@[i] == before[i - 1]);
                    }
                }
                assert forall|k: u8| k < t + 1 && #[trigger] counts@[k as int] > 0 implies exists|
                    i: int,
                | 0 <= i < out@.len() && (#[trigger] out@[i]).0 == k by {
                    if k == t {
                        assert(out@[at as int].0 == k);
                    } else {
                        let i = choose|i: int|
                            0 <= i < before.len() && (#[trigger] before[i]).0 == k;
                        let j = if i < at {
                            i
                        } else {
                            i + 1
                        };
                        assert(out@[j].0 == k);
                    }
                }
            }
        }
        t = t + 1;
    }
    proof {
        let nats = counts@.map_values(|c: u64| c as nat);
        assert forall|k: u8| #[trigger] nats[k as int] > 0 implies exists|i: int|
            0 <= i < out@.len() && (#[trigger] out@[i]).0 == k by {
            assert(counts@[k as int] > 0);
        }
    }
    out
}

/// The symbol with a given integer form.
pub open spec fn symbol_of(key: u64) -> Symbol {
    choose|s: Symbol| s.key() == key
}

/// The quote of a two-sided symbol, as text.
pub open spec fn quote_of(key: u64, v: SymbolView) -> QuoteText {
    let bid = highest(v.bids)->Some_0;
    let ask = lowest(v.asks)->Some_0;
    QuoteText {
        symbol: symbol_of(key).text(),
        bid: price_text(bid.0.0 as int),
        bid_size: bid.1,
        ask: price_text(ask.0.0 as int),
        ask_size: ask.1,
    }
}

/// Whether a symbol has a bid and an ask.
pub open spec fn two_sided(v: SymbolView) -> bool {
    highest(v.bids) is Some && lowest(v.asks) is Some
}

/// Where a quote stands in dictionary order.
pub open spec fn sort_key(q: QuoteText) -> Seq<u8> {
    encode_utf8(q.symbol)
}

/// Most quotes shown.
pub const MAX_QUOTES: usize = 8;

/// `qs` shows the two-sided symbols of `seen` that come first in dictionary
/// order, at most eight of them, in that order; `keys` names them.
pub open spec fn shows(
    qs: Seq<QuoteText>,
    keys: Seq<u64>,
    book: Map<u64, SymbolView>,
    seen: Set<u64>,
) -> bool {
    &&& qs.len() == keys.len()
    &&& qs.len() <= MAX_QUOTES
    &&& keys.no_duplicates()
    &&& forall|i: int|
        0 <= i < keys.len() ==> seen.contains(#[trigger] keys[i]) && book.contains_key(keys[i])
            && two_sided(book[keys[i]]) && qs[i] == quote_of(keys[i], book[keys[i]])
    &&& forall|i: int, j: int|
        0 <= i < j < qs.len() ==> !before(sort_key(#[trigger] qs[j]), sort_key(#[trigger] qs[i]))
    &&& forall|k: u64| #[trigger]
        seen.contains(k) && book.contains_key(k) && two_sided(book[k]) && !keys.contains(k) ==> {
            &&& qs.len() == MAX_QUOTES
            &&& !before(sort_key(quote_of(k, book[k])), sort_key(qs.last()))
        }
}

/// Where a quote goes among quotes in order: after everything not after it.
fn place(out: &Vec<Quote>, q: &Quote) -> (r: usize)
    requires
        forall|i: int, j: int|
            0 <= i < j < out@.len() ==> !before(
                sort_key(#[trigger] out@[j]@),
                sort_key(#[trigger] out@[i]@),
            ),
    ensures
        r <= out@.len(),
        forall|i: int| 0 <= i < r ==> !before(sort_key(q@), sort_key(#[trigger] out@[i]@)),
        forall|i: int| r <= i < out@.len() ==> before(sort_key(q@), sort_key(#[trigger] out@[i]@)),
{
    let mut at: usize = 0;
    while at < out.len()
        invariant
            at <= out@.len(),
            forall|i: int, j: int|
                0 <= i < j < out@.len() ==> !before(
                    sort_key(#[trigger] out@[j]@),
                    sort_key(#[trigger] out@[i]@),
                ),
            forall|i: int| 0 <= i < at ==> !before(sort_key(q@), sort_key(#[trigger] out@[i]@)),
        decreases out@.len() - at,
    {
        if comes_before(q.symbol.as_str(), out[at].symbol.as_str()) {
            proof {
                assert forall|i: int| at <= i < out@.len() implies before(
                    sort_key(q@),
                    sort_key(#[trigger] out@[i]@),
                ) by {
                    if i > at {
                        let a = sort_key(q@);
                        let b = sort_key(out@[at as int]@);
                        let c = sort_key(out@[i]@);
                        assert(!before(c, b));
                        if !before(a, c) {
                            lemma_before_trans(b, c, a);
                        }
                    }
                }
            }
            return at;
        }
        at = at + 1;
    }
    at
}

/// One more two-sided symbol among those shown.
#[verifier::spinoff_prover]
proof fn lemma_shown(
    qs: Seq<QuoteText>,
    keys: Seq<u64>,
    book: Map<u64, SymbolView>,
    seen: Set<u64>,
    k: u64,
    at: int,
)
    requires
        shows(qs, keys, book, seen),
        !seen.contains(k),
        book.contains_key(k),
        two_sided(book[k]),
        0 <= at <= qs.len(),
        forall|i: int|
            0 <= i < at ==> !before(sort_key(quote_of(k, book[k])), sort_key(#[trigger] qs[i])),
        forall|i: int|
            at <= i < qs.len() ==> before(
                sort_key(quote_of(k, book[k])),
                sort_key(#[trigger] qs[i]),
            ),
    ensures
        qs.len() < MAX_QUOTES ==> shows(
            qs.insert(at, quote_of(k, book[k])),
            keys.insert(at, k),
            book,
            seen.insert(k),
        ),
        qs.len() == MAX_QUOTES && at < MAX_QUOTES ==> shows(
            qs.insert(at, quote_of(k, book[k])).take(MAX_QUOTES as int),
            keys.insert(at, k).take(MAX_QUOTES as int),
            book,
            seen.insert(k),
        ),
        qs.len() == MAX_QUOTES && at == MAX_QUOTES ==> shows(qs, keys, book, seen.insert(k)),
{
    let q = quote_of(k, book[k]);
    let more = seen.insert(k);
    assert(!keys.contains(k)) by {
        if keys.contains(k) {
            let i = choose|i: int| 0 <= i < keys.len() && keys[i] == k;
            assert(seen.contains(keys[i]));
        }
    }
    let n = qs.len() as int;
    let wide = qs.insert(at, q);
    let names = keys.insert(at, k);
    assert forall|i: int, j: int| 0 <= i < j < wide.len() implies !before(
        sort_key(#[trigger] wide[j]),
        sort_key(#[trigger] wide[i]),
    ) by {
        if i == at {
            assert(wide[j] == qs[j - 1]);
            lemma_before_one_way(sort_key(q), sort_key(qs[j - 1]));
        } else if j == at {
            assert(wide[i] == qs[i]);
        } else {
            let a = if i < at {
                i
            } else {
                i - 1
            };
            let b = if j < at {
                j
            } else {
                j - 1
            };
            assert(wide[i] == qs[a] && wide[j] == qs[b]);
        }
    }
    assert forall|i: int| 0 <= i < names.len() implies more.contains(#[trigger] names[i])
        && book.contains_key(names[i]) && two_sided(book[names[i]]) && wide[i] == quote_of(
        names[i],
        book[names[i]],
    ) by {
        if i < at {
            assert(names[i] == keys[i] && wide[i] == qs[i]);
        } else if i > at {
            assert(names[i] == keys[i - 1] && wide[i] == qs[i - 1]);
        }
    }
    assert(names.no_duplicates()) by {
        assert forall|i: int, j: int|
            0 <= i < names.len() && 0 <= j < names.len() && i != j implies names[i] != names[j] by {
            let a = if i < at {
                i
            } else {
                i - 1
            };
            let b = if j < at {
                j
            } else {
                j - 1
            };
            if i == at {
                assert(names[j] == keys[b]);
                assert(keys.contains(keys[b]));
            } else if j == at {
                assert(names[i] == keys[a]);
                assert(keys.contains(keys[a]));
            } else {
                assert(names[i] == keys[a] && names[j] == keys[b]);
            }
        }
    }
    assert forall|x: u64| names.contains(x) <==> keys.contains(x) || x == k by {
        if keys.contains(x) {
            let i = choose|i: int| 0 <= i < keys.len() && keys[i] == x;
            assert(names[if i < at {
                i
            } else {
                i + 1
            }] == x);
        }
        if x == k {
            assert(names[at] == k);
        }
        if names.contains(x) && x != k {
            let i = choose|i: int| 0 <= i < names.len() && names[i] == x;
            assert(keys[if i < at {
                i
            } else {
                i - 1
            }] == x);
        }
    }
    if n < MAX_QUOTES {
        assert(shows(wide, names, book, more));
    } else if at < MAX_QUOTES {
        let qs2 = wide.take(MAX_QUOTES as int);
        let keys2 = names.take(MAX_QUOTES as int);
        let dropped = names[n];
        assert(wide[n] == qs[n - 1]);
        assert(qs2.last() == wide[n - 1]);
        assert(!before(sort_key(wide[n]), sort_key(wide[n - 1])));
        assert forall|x: u64| #[trigger]
            more.contains(x) && book.contains_key(x) && two_sided(book[x]) && !keys2.contains(
                x,
            ) implies !before(sort_key(quote_of(x, book[x])), sort_key(qs2.last())) by {
            if names.contains(x) {
                let i = choose|i: int| 0 <= i < names.len() && names[i] == x;
                if i < n {
                    assert(keys2[i] == x);
                }
                assert(wide[n] == quote_of(x, book[x]));
            } else {
                assert(seen.contains(x));
                assert(!keys.contains(x));
                lemma_before_trans(
                    sort_key(qs2.last()),
                    sort_key(qs.last()),
                    sort_key(quote_of(x, book[x])),
                );
            }
        }
        assert forall|i: int, j: int| 0 <= i < j < qs2.len() implies !before(
            sort_key(#[trigger] qs2[j]),
            sort_key(#[trigger] qs2[i]),
        ) by {
            assert(qs2[i] == wide[i] && qs2[j] == wide[j]);
        }
        assert forall|i: int| 0 <= i < keys2.len() implies more.contains(#[trigger] keys2[i])
            && book.contains_key(keys2[i]) && two_sided(book[keys2[i]]) && qs2[i] == quote_of(
            keys2[i],
            book[keys2[i]],
        ) by {
            assert(keys2[i] == names[i] && qs2[i] == wide[i]);
        }
        assert(shows(qs2, keys2, book, more));
    } else {
        assert forall|x: u64| #[trigger]
            more.contains(x) && book.contains_key(x) && two_sided(book[x]) && !keys.contains(
                x,
            ) implies !before(sort_key(quote_of(x, book[x])), sort_key(qs.last())) by {
            if x != k {
                assert(seen.contains(x));
            }
        }
        assert(shows(qs, keys, book, more));
    }
}

/// The two-sided symbols of a book that come first in dictionary order.
fn front_page(book: &Book<SortedLevels>) -> (r: Vec<Quote>)
    requires
        book.wf(),
    ensures
        exists|keys: Seq<u64>| #[trigger]
            shows(
                texts(r@),
                keys,
                book@.symbols,
                book@.symbols.dom(),
            ),
{
    let all = book.iter();
    let mut out: Vec<Quote> = Vec::new();
    let ghost symbols = book@.symbols;
    let ghost mut keys: Seq<u64> = Seq::empty();
    let ghost mut seen: Set<u64> = Set::empty();
    let mut i: usize = 0;
    assert(texts(out@) =~= Seq::empty());
    while i < all.len()
        invariant
            i <= all@.len(),
            symbols == book@.symbols,
            forall|j: int|
                0 <= j < all@.len() ==> (#[trigger] all@[j]).1.wf() && symbols.contains_pair(
                    all@[j].0.key(),
                    all@[j].1@,
                ),
            forall|a: int, b: int|
                0 <= a < b < all@.len() ==> (#[trigger] all@[a]).0.key() != (
                #[trigger] all@[b]).0.key(),
            shows(texts(out@), keys, symbols, seen),
            forall|k: u64|
                seen.contains(k) <==> exists|j: int|
                    0 <= j < i && (#[trigger] all@[j]).0.key() == k,
            seen.finite(),
            seen.len() == i,
            all@.len() == symbols.dom().len(),
            symbols.dom().finite(),
        decreases all@.len() - i,
    {
        let (symbol, sides) = (all[i].0, all[i].1);
        let ghost k = symbol.key();
        let ghost v = symbols[k];
        let ghost qs = texts(out@);
        proof {
            assert(symbols.contains_pair(all@[i as int].0.key(), all@[i as int].1@));
            assert(!seen.contains(k)) by {
                if seen.contains(k) {
                    let j = choose|j: int| 0 <= j < i && (#[trigger] all@[j]).0.key() == k;
                    assert(all@[j].0.key() != all@[i as int].0.key());
                }
            }
            assert(symbol_of(k) == symbol) by {
                lemma_key_identifies(symbol_of(k), symbol);
            }
        }
        if let (Some((bid, bid_size)), Some((ask, ask_size))) = (
            sides.best_bid(),
            sides.best_ask(),
        ) {
            let q = Quote {
                symbol: symbol.to_string(),
                bid: bid.to_string(),
                bid_size,
                ask: ask.to_string(),
                ask_size,
            };
            assert(q@ =~= quote_of(k, v));
            proof {
                assert forall|a: int, b: int| 0 <= a < b < out@.len() implies !before(
                    sort_key(#[trigger] out@[b]@),
                    sort_key(#[trigger] out@[a]@),
                ) by {
                    assert(qs[a] == out@[a]@ && qs[b] == out@[b]@);
                }
            }
            let at: usize = place(&out, &q);
            proof {
                assert forall|j: int| 0 <= j < at implies !before(
                    sort_key(quote_of(k, v)),
                    sort_key(#[trigger] qs[j]),
                ) by {
                    assert(qs[j] == out@[j]@);
                }
                assert forall|j: int| at <= j < qs.len() implies before(
                    sort_key(quote_of(k, v)),
                    sort_key(#[trigger] qs[j]),
                ) by {
                    assert(qs[j] == out@[j]@);
                }
                lemma_shown(qs, keys, symbols, seen, k, at as int);
            }
            if out.len() < MAX_QUOTES {
                out.insert(at, q);
                assert(texts(out@) =~= qs.insert(at as int, quote_of(k, v)));
                proof {
                    keys = keys.insert(at as int, k);
                }
            } else if at < MAX_QUOTES {
                out.insert(at, q);
                out.truncate(MAX_QUOTES);
                assert(texts(out@) =~= qs.insert(
                    at as int,
                    quote_of(k, v),
                ).take(MAX_QUOTES as int));
                proof {
                    keys = keys.insert(at as int, k).take(MAX_QUOTES as int);
                }
            }
        } else {
            assert(!two_sided(v));
        }
        proof {
            let more = seen.insert(k);
            assert forall|x: u64| more.contains(x) <==> exists|j: int|
                0 <= j < i + 1 && (#[trigger] all@[j]).0.key() == x by {
                if x == k {
                    assert(all@[i as int].0.key() == x);
                }
                if seen.contains(x) {
                    let j = choose|j: int| 0 <= j < i && (#[trigger] all@[j]).0.key() == x;
                    assert(all@[j].0.key() == x);
                }
            }
            seen = more;
        }
        i = i + 1;
    }
    proof {
        assert(seen.subset_of(symbols.dom())) by {
            assert forall|x: u64| seen.contains(x) implies symbols.dom().contains(x) by {
                let j = choose|j: int| 0 <= j < i && (#[trigger] all@[j]).0.key() == x;
                assert(symbols.contains_pair(all@[j].0.key(), all@[j].1@));
            }
        }
        lemma_whole(seen, symbols.dom());
        assert(seen == symbols.dom());
    }
    out
}

/// A part as large as the whole is the whole.
proof fn lemma_whole(part: Set<u64>, whole: Set<u64>)
    requires
        part.subset_of(whole),
        whole.finite(),
        part.len() == whole.len(),
    ensures
        part == whole,
{
    vstd::set_lib::lemma_subset_equality(part, whole);
}

/// What a session comes to, counted and put into words.
pub open spec fn judged(v: Verdict, t: Tally) -> bool {
    &&& v.packets == t.packets
    &&& v.messages == t.messages
    &&& v.errors == t.errors
    &&& v.unknown == t.unknown
    &&& v.symbols == t.symbols.len()
    &&& v.price_updates == t.price_updates
    &&& v.trades == t.trades
    &&& v.gaps == t.seq.stats.gaps_opened
    &&& v.duplicates == t.seq.stats.duplicates
    &&& v.crossed == t.book.stats.crossed_when_stable
    &&& v.low@ == if t.high >= t.low {
        price_text(t.low as int)
    } else {
        Seq::<char>::empty()
    }
    &&& v.high@ == if t.high >= t.low {
        price_text(t.high as int)
    } else {
        Seq::<char>::empty()
    }
    &&& exists|ranking: Seq<(u8, u64)>| #[trigger]
        ranks(ranking, t.counts) && v.types@.len() == ranking.len() && forall|i: int|
            0 <= i < ranking.len() ==> (#[trigger] v.types@[i]).0@ == label(ranking[i].0)
                && v.types@[i].1 == ranking[i].1
    &&& exists|keys: Seq<u64>| #[trigger]
        shows(
            texts(v.quotes@),
            keys,
            t.book.symbols,
            t.book.symbols.dom(),
        )
}

/// Put a ranking into words.
fn labelled(ranking: &Vec<(u8, u64)>) -> (r: Vec<(String, u64)>)
    ensures
        r@.len() == ranking@.len(),
        forall|i: int|
            0 <= i < r@.len() ==> (#[trigger] r@[i]).0@ == label(ranking@[i].0) && r@[i].1
                == ranking@[i].1,
{
    let mut out: Vec<(String, u64)> = Vec::new();
    let mut i: usize = 0;
    while i < ranking.len()
        invariant
            i <= ranking@.len(),
            out@.len() == i,
            forall|j: int|
                0 <= j < i ==> (#[trigger] out@[j]).0@ == label(ranking@[j].0) && out@[j].1
                    == ranking@[j].1,
        decreases ranking@.len() - i,
    {
        let mut name = String::new();
        name.append("0x");
        push_hex(&mut name, ranking[i].0);
        name.append(" ");
        name.append(kind_name(ranking[i].0));
        assert(name@ =~= label(ranking@[i as int].0));
        out.push((name, ranking[i].1));
        i = i + 1;
    }
    out
}

/// Whether every segment of a session has sequence numbers that fit, so that the
/// session can be verified.
pub fn readable(bytes: &[u8]) -> (r: bool)
    ensures
        r == (opened(bytes@) matches Ok(c) ==> numbers_fit(c.packets())),
{
    let mut reader = match Capture::open(bytes) {
        Ok(c) => c,
        Err(_) => {
            return true;
        },
    };
    let ghost all = reader@.packets();
    let ghost mut n: int = 0;
    assert(all.skip(0) =~= all);
    proof {
        lemma_packets_fit(reader@);
    }
    loop
        invariant
            reader.wf(),
            0 <= n <= all.len(),
            reader@.packets() == all.skip(n),
            opened(bytes@) matches Ok(c) && c.packets() == all,
            forall|i: int|
                0 <= i < n ==> (carried((#[trigger] all[i]).data) matches Some((_, s))
                    ==> s.next_sequence() <= i64::MAX),
        decreases all.len() - n,
    {
        match reader.next() {
            None => {
                assert(n == all.len());
                return true;
            },
            Some(pkt) => {
                assert(pkt@ == all[n]);
                assert(all.skip(n).drop_first() =~= all.skip(n + 1));
                if let Ok(dg) = frame::parse(pkt.data) {
                    if let Ok(seg) = Segment::parse(dg.payload) {
                        if seg.first_sequence as i128 + seg.message_count as i128
                            > i64::MAX as i128 {
                            return false;
                        }
                    }
                }
                proof {
                    n = n + 1;
                }
            },
        }
    }
}

/// Read every packet of a capture.
fn audited<'a>(capture: Capture<'a>) -> (r: Audit)
    requires
        capture.wf(),
        capture@.buf().len() <= usize::MAX,
        numbers_fit(capture@.packets()),
    ensures
        r.wf(),
        r@ == Tally::start().packets(capture@.packets()),
{
    let mut reader = capture;
    let mut audit = Audit::new();
    let ghost goal = audit@.packets(reader@.packets());
    let ghost size = reader@.buf().len();
    proof {
        lemma_weight_fits(reader@);
        lemma_packets_fit(reader@);
    }
    loop
        invariant_except_break
            reader.wf(),
            audit.wf(),
            audit@.packets(reader@.packets()) == goal,
            numbers_fit(reader@.packets()),
            audit@.messages + audit@.errors + weight(reader@.packets()) <= size,
            8 * (audit@.packets + reader@.packets().len()) <= size,
            size <= usize::MAX,
        ensures
            audit.wf(),
            audit@ == goal,
        decreases reader@.packets().len(),
    {
        let ghost left = reader@.packets();
        match reader.next() {
            None => {
                break;
            },
            Some(pkt) => {
                assert(pkt@ == left[0]);
                audit.on_packet(pkt.data);
                proof {
                    let rest = reader@.packets();
                    assert forall|i: int| 0 <= i < rest.len() implies (carried(
                        (#[trigger] rest[i]).data,
                    ) matches Some((_, s)) ==> s.next_sequence() <= i64::MAX) by {
                        assert(rest[i] == left[i + 1]);
                    }
                }
            },
        }
    }
    audit
}

/// Put what was seen of a session into words.
fn concluded(date: String, format: &'static str, bytes: usize, audit: &Audit) -> (r: Verdict)
    requires
        audit.wf(),
    ensures
        r.date == date,
        r.format == format,
        r.bytes == bytes,
        r.nanos == 0,
        judged(r, audit@),
{
    broadcast use vstd::std_specs::hash::group_hash_axioms;

    let (low, high) = if audit.high >= audit.low {
        (Price::from_raw(audit.low).to_string(), Price::from_raw(audit.high).to_string())
    } else {
        (String::new(), String::new())
    };
    let ranking = ranked(&audit.counts);
    assert(ranks(ranking@, audit@.counts));
    let quotes = front_page(&audit.book);
    let r = Verdict {
        date,
        format,
        bytes,
        packets: audit.packets,
        messages: audit.messages,
        errors: audit.errors,
        unknown: audit.unknown,
        symbols: audit.symbols.len(),
        price_updates: audit.price_updates,
        trades: audit.trades,
        gaps: audit.seq.counters().gaps_opened,
        duplicates: audit.seq.counters().duplicates,
        crossed: audit.book.counters().crossed_when_stable,
        low,
        high,
        types: labelled(&ranking),
        quotes,
        nanos: 0,
    };
    proof {
        let symbols = audit@.book.symbols;
        let keys = choose|keys: Seq<u64>| #[trigger]
            shows(texts(quotes@), keys, symbols, symbols.dom());
        assert(shows(texts(r.quotes@), keys, symbols, symbols.dom()));
    }
    r
}

/// What is said of a capture in neither format: nothing but its size.
pub open spec fn unread(v: Verdict) -> bool {
    &&& v.format@ == "unreadable"@
    &&& v.packets == 0
    &&& v.messages == 0
    &&& v.errors == 0
    &&& v.unknown == 0
    &&& v.symbols == 0
    &&& v.price_updates == 0
    &&& v.trades == 0
    &&& v.gaps == 0
    &&& v.duplicates == 0
    &&& v.crossed == 0
    &&& v.low@.len() == 0
    &&& v.high@.len() == 0
    &&& v.types@.len() == 0
    &&& v.quotes@.len() == 0
}

/// Decode a session and report what came of it.
pub fn verify(s: &Sample) -> (r: Verdict)
    requires
        opened(s.bytes@) matches Ok(c) ==> numbers_fit(c.packets()),
    ensures
        r.date@ == s.date@,
        r.bytes == s.bytes@.len(),
        r.nanos == 0,
        match opened(s.bytes@) {
            Err(_) => unread(r),
            Ok(CaptureView::Pcap(c)) => r.format@ == "classic pcap"@ && judged(
                r,
                Tally::start().packets(c.packets()),
            ),
            Ok(CaptureView::PcapNg(c)) => r.format@ == "pcapng"@ && judged(
                r,
                Tally::start().packets(c.packets()),
            ),
        },
{
    let bytes: usize = s.bytes.len();
    match Capture::open(s.bytes.as_slice()) {
        Err(_) => Verdict {
            date: s.date.clone(),
            format: "unreadable",
            bytes,
            packets: 0,
            messages: 0,
            errors: 0,
            unknown: 0,
            symbols: 0,
            price_updates: 0,
            trades: 0,
            gaps: 0,
            duplicates: 0,
            crossed: 0,
            low: String::new(),
            high: String::new(),
            types: Vec::new(),
            quotes: Vec::new(),
            nanos: 0,
        },
        Ok(c) => {
            let format = match c.format() {
                Format::Pcap => "classic pcap",
                Format::PcapNg => "pcapng",
            };
            let audit = audited(c);
            concluded(s.date.clone(), format, bytes, &audit)
        },
    }
}

}
