//! What the texts that go out say, as objects of named members.
//!
//! Each text is put together a second time from its members' names and values alone.
use vstd::prelude::*;

use super::bench::{unresolved_in, Report, StageCost, TopOfBook, TopText};
use super::http::{
    budget_text, day_row, days_text, health_text, listed, quote_row, report_text,
    side_text, stage_row, stage_rows, top_row, type_row, verdict_text, StageText,
};
use super::verify::{Quote, QuoteText, Sample, Verdict};
use crate::text::{decimal, truth};

verus! {

/// What stands around a value: nothing, quotes or brackets.
pub enum Around {
    Nothing,
    Quotes,
    Brackets,
}

impl Around {
    pub open spec fn open(self) -> Seq<char> {
        match self {
            Around::Nothing => Seq::empty(),
            Around::Quotes => seq!['"'],
            Around::Brackets => seq!['['],
        }
    }

    pub open spec fn close(self) -> Seq<char> {
        match self {
            Around::Nothing => Seq::empty(),
            Around::Quotes => seq!['"'],
            Around::Brackets => seq![']'],
        }
    }
}

/// A member of an object: its name and its value.
pub struct Member {
    pub name: Seq<char>,
    pub around: Around,
    pub value: Seq<char>,
}

pub open spec fn number(name: Seq<char>, n: nat) -> Member {
    Member { name, around: Around::Nothing, value: decimal(n) }
}

pub open spec fn bare(name: Seq<char>, value: Seq<char>) -> Member {
    Member { name, around: Around::Nothing, value }
}

pub open spec fn text(name: Seq<char>, value: Seq<char>) -> Member {
    Member { name, around: Around::Quotes, value }
}

pub open spec fn list(name: Seq<char>, rows: Seq<Seq<char>>) -> Member {
    Member { name, around: Around::Brackets, value: listed(rows) }
}

impl Member {
    /// The name in quotes, a colon, the value with what stands around it.
    pub open spec fn written(self) -> Seq<char> {
        seq!['"'] + self.name + seq!['"', ':'] + self.around.open() + self.value
            + self.around.close()
    }
}

/// Members with commas between them.
pub open spec fn members(ms: Seq<Member>) -> Seq<char>
    decreases ms.len(),
{
    if ms.len() == 0 {
        Seq::empty()
    } else if ms.len() == 1 {
        ms[0].written()
    } else {
        members(ms.drop_last()) + seq![','] + ms.last().written()
    }
}

/// An object.
pub open spec fn object(ms: Seq<Member>) -> Seq<char> {
    seq!['{'] + members(ms) + seq!['}']
}

/// What stands between two values: what closes the one before, a comma or the opening
/// brace, the next name and what opens its value.
pub open spec fn between(before: Around, first: bool, name: Seq<char>, next: Around) -> Seq<char> {
    before.close() + seq![
        if first {
            '{'
        } else {
            ','
        },
    ] + seq!['"'] + name + seq!['"', ':'] + next.open()
}

/// A text so far, up to what closes its last value.
spec fn reads(so_far: Seq<char>, ms: Seq<Member>) -> bool {
    ms.len() > 0 && so_far + ms.last().around.close() == seq!['{'] + members(ms)
}

proof fn lemma_first(m: Member, lead: Seq<char>)
    requires
        lead == between(Around::Nothing, true, m.name, m.around),
    ensures
        reads(lead + m.value, seq![m]),
{
    let ms = seq![m];
    assert(members(ms) == m.written());
    assert(lead + m.value + m.around.close() =~= seq!['{'] + m.written());
}

proof fn lemma_next(so_far: Seq<char>, ms: Seq<Member>, m: Member, lead: Seq<char>)
    requires
        reads(so_far, ms),
        lead == between(ms.last().around, false, m.name, m.around),
    ensures
        reads(so_far + lead + m.value, ms.push(m)),
        ms.push(m).last() == m,
{
    let more = ms.push(m);
    let close = ms.last().around.close();
    assert(more.drop_last() =~= ms);
    assert(members(more) == members(ms) + seq![','] + m.written());
    let tail = seq![','] + seq!['"'] + m.name + seq!['"', ':'] + m.around.open();
    assert(lead =~= close + tail);
    assert(so_far + lead + m.value + m.around.close() =~= (so_far + close) + tail + m.value
        + m.around.close());
    assert((seq!['{'] + members(ms)) + tail + m.value + m.around.close() =~= seq!['{'] + members(
        more,
    ));
}

proof fn lemma_end(so_far: Seq<char>, ms: Seq<Member>, end: Seq<char>)
    requires
        reads(so_far, ms),
        end == ms.last().around.close() + seq!['}'],
    ensures
        so_far + end == object(ms),
{
    assert(so_far + end =~= (so_far + ms.last().around.close()) + seq!['}']);
}

proof fn lemma_warm_nn_first()
    ensures
        "{\"warm\":"@ == between(Around::Nothing, true, "warm"@, Around::Nothing),
{
    reveal_strlit("{\"warm\":");
    reveal_strlit("warm");
    assert("{\"warm\":"@ =~= between(Around::Nothing, true, "warm"@, Around::Nothing));
}

proof fn lemma_warmup_ms_nn()
    ensures
        ",\"warmup_ms\":"@ == between(Around::Nothing, false, "warmup_ms"@, Around::Nothing),
{
    reveal_strlit(",\"warmup_ms\":");
    reveal_strlit("warmup_ms");
    assert(",\"warmup_ms\":"@ =~= between(Around::Nothing, false, "warmup_ms"@, Around::Nothing));
}

proof fn lemma_runs_served_nn()
    ensures
        ",\"runs_served\":"@ == between(Around::Nothing, false, "runs_served"@, Around::Nothing),
{
    reveal_strlit(",\"runs_served\":");
    reveal_strlit("runs_served");
    assert(",\"runs_served\":"@ =~= between(Around::Nothing, false, "runs_served"@, Around::Nothing));
}

proof fn lemma_arch_nq()
    ensures
        ",\"arch\":\""@ == between(Around::Nothing, false, "arch"@, Around::Quotes),
{
    reveal_strlit(",\"arch\":\"");
    reveal_strlit("arch");
    assert(",\"arch\":\""@ =~= between(Around::Nothing, false, "arch"@, Around::Quotes));
}

proof fn lemma_end_q()
    ensures
        "\"}"@ == Around::Quotes.close() + seq!['}'],
{
    reveal_strlit("\"}");
    assert("\"}"@ =~= Around::Quotes.close() + seq!['}']);
}

proof fn lemma_date_nq_first()
    ensures
        "{\"date\":\""@ == between(Around::Nothing, true, "date"@, Around::Quotes),
{
    reveal_strlit("{\"date\":\"");
    reveal_strlit("date");
    assert("{\"date\":\""@ =~= between(Around::Nothing, true, "date"@, Around::Quotes));
}

proof fn lemma_bytes_qn()
    ensures
        "\",\"bytes\":"@ == between(Around::Quotes, false, "bytes"@, Around::Nothing),
{
    reveal_strlit("\",\"bytes\":");
    reveal_strlit("bytes");
    assert("\",\"bytes\":"@ =~= between(Around::Quotes, false, "bytes"@, Around::Nothing));
}

proof fn lemma_end_n()
    ensures
        "}"@ == Around::Nothing.close() + seq!['}'],
{
    reveal_strlit("}");
    assert("}"@ =~= Around::Nothing.close() + seq!['}']);
}

proof fn lemma_name_nq_first()
    ensures
        "{\"name\":\""@ == between(Around::Nothing, true, "name"@, Around::Quotes),
{
    reveal_strlit("{\"name\":\"");
    reveal_strlit("name");
    assert("{\"name\":\""@ =~= between(Around::Nothing, true, "name"@, Around::Quotes));
}

proof fn lemma_count_qn()
    ensures
        "\",\"count\":"@ == between(Around::Quotes, false, "count"@, Around::Nothing),
{
    reveal_strlit("\",\"count\":");
    reveal_strlit("count");
    assert("\",\"count\":"@ =~= between(Around::Quotes, false, "count"@, Around::Nothing));
}

proof fn lemma_symbol_nq_first()
    ensures
        "{\"symbol\":\""@ == between(Around::Nothing, true, "symbol"@, Around::Quotes),
{
    reveal_strlit("{\"symbol\":\"");
    reveal_strlit("symbol");
    assert("{\"symbol\":\""@ =~= between(Around::Nothing, true, "symbol"@, Around::Quotes));
}

proof fn lemma_bid_qq()
    ensures
        "\",\"bid\":\""@ == between(Around::Quotes, false, "bid"@, Around::Quotes),
{
    reveal_strlit("\",\"bid\":\"");
    reveal_strlit("bid");
    assert("\",\"bid\":\""@ =~= between(Around::Quotes, false, "bid"@, Around::Quotes));
}

proof fn lemma_bid_size_qn()
    ensures
        "\",\"bid_size\":"@ == between(Around::Quotes, false, "bid_size"@, Around::Nothing),
{
    reveal_strlit("\",\"bid_size\":");
    reveal_strlit("bid_size");
    assert("\",\"bid_size\":"@ =~= between(Around::Quotes, false, "bid_size"@, Around::Nothing));
}

proof fn lemma_ask_nq()
    ensures
        ",\"ask\":\""@ == between(Around::Nothing, false, "ask"@, Around::Quotes),
{
    reveal_strlit(",\"ask\":\"");
    reveal_strlit("ask");
    assert(",\"ask\":\""@ =~= between(Around::Nothing, false, "ask"@, Around::Quotes));
}

proof fn lemma_ask_size_qn()
    ensures
        "\",\"ask_size\":"@ == between(Around::Quotes, false, "ask_size"@, Around::Nothing),
{
    reveal_strlit("\",\"ask_size\":");
    reveal_strlit("ask_size");
    assert("\",\"ask_size\":"@ =~= between(Around::Quotes, false, "ask_size"@, Around::Nothing));
}

proof fn lemma_format_qq()
    ensures
        "\",\"format\":\""@ == between(Around::Quotes, false, "format"@, Around::Quotes),
{
    reveal_strlit("\",\"format\":\"");
    reveal_strlit("format");
    assert("\",\"format\":\""@ =~= between(Around::Quotes, false, "format"@, Around::Quotes));
}

proof fn lemma_packets_nn()
    ensures
        ",\"packets\":"@ == between(Around::Nothing, false, "packets"@, Around::Nothing),
{
    reveal_strlit(",\"packets\":");
    reveal_strlit("packets");
    assert(",\"packets\":"@ =~= between(Around::Nothing, false, "packets"@, Around::Nothing));
}

proof fn lemma_messages_nn()
    ensures
        ",\"messages\":"@ == between(Around::Nothing, false, "messages"@, Around::Nothing),
{
    reveal_strlit(",\"messages\":");
    reveal_strlit("messages");
    assert(",\"messages\":"@ =~= between(Around::Nothing, false, "messages"@, Around::Nothing));
}

proof fn lemma_errors_nn()
    ensures
        ",\"errors\":"@ == between(Around::Nothing, false, "errors"@, Around::Nothing),
{
    reveal_strlit(",\"errors\":");
    reveal_strlit("errors");
    assert(",\"errors\":"@ =~= between(Around::Nothing, false, "errors"@, Around::Nothing));
}

proof fn lemma_unknown_nn()
    ensures
        ",\"unknown\":"@ == between(Around::Nothing, false, "unknown"@, Around::Nothing),
{
    reveal_strlit(",\"unknown\":");
    reveal_strlit("unknown");
    assert(",\"unknown\":"@ =~= between(Around::Nothing, false, "unknown"@, Around::Nothing));
}

proof fn lemma_symbols_nn()
    ensures
        ",\"symbols\":"@ == between(Around::Nothing, false, "symbols"@, Around::Nothing),
{
    reveal_strlit(",\"symbols\":");
    reveal_strlit("symbols");
    assert(",\"symbols\":"@ =~= between(Around::Nothing, false, "symbols"@, Around::Nothing));
}

proof fn lemma_price_updates_nn()
    ensures
        ",\"price_updates\":"@ == between(Around::Nothing, false, "price_updates"@, Around::Nothing),
{
    reveal_strlit(",\"price_updates\":");
    reveal_strlit("price_updates");
    assert(",\"price_updates\":"@ =~= between(Around::Nothing, false, "price_updates"@, Around::Nothing));
}

proof fn lemma_trades_nn()
    ensures
        ",\"trades\":"@ == between(Around::Nothing, false, "trades"@, Around::Nothing),
{
    reveal_strlit(",\"trades\":");
    reveal_strlit("trades");
    assert(",\"trades\":"@ =~= between(Around::Nothing, false, "trades"@, Around::Nothing));
}

proof fn lemma_gaps_nn()
    ensures
        ",\"gaps\":"@ == between(Around::Nothing, false, "gaps"@, Around::Nothing),
{
    reveal_strlit(",\"gaps\":");
    reveal_strlit("gaps");
    assert(",\"gaps\":"@ =~= between(Around::Nothing, false, "gaps"@, Around::Nothing));
}

proof fn lemma_duplicates_nn()
    ensures
        ",\"duplicates\":"@ == between(Around::Nothing, false, "duplicates"@, Around::Nothing),
{
    reveal_strlit(",\"duplicates\":");
    reveal_strlit("duplicates");
    assert(",\"duplicates\":"@ =~= between(Around::Nothing, false, "duplicates"@, Around::Nothing));
}

proof fn lemma_crossed_nn()
    ensures
        ",\"crossed\":"@ == between(Around::Nothing, false, "crossed"@, Around::Nothing),
{
    reveal_strlit(",\"crossed\":");
    reveal_strlit("crossed");
    assert(",\"crossed\":"@ =~= between(Around::Nothing, false, "crossed"@, Around::Nothing));
}

proof fn lemma_low_nq()
    ensures
        ",\"low\":\""@ == between(Around::Nothing, false, "low"@, Around::Quotes),
{
    reveal_strlit(",\"low\":\"");
    reveal_strlit("low");
    assert(",\"low\":\""@ =~= between(Around::Nothing, false, "low"@, Around::Quotes));
}

proof fn lemma_high_qq()
    ensures
        "\",\"high\":\""@ == between(Around::Quotes, false, "high"@, Around::Quotes),
{
    reveal_strlit("\",\"high\":\"");
    reveal_strlit("high");
    assert("\",\"high\":\""@ =~= between(Around::Quotes, false, "high"@, Around::Quotes));
}

proof fn lemma_nanos_qn()
    ensures
        "\",\"nanos\":"@ == between(Around::Quotes, false, "nanos"@, Around::Nothing),
{
    reveal_strlit("\",\"nanos\":");
    reveal_strlit("nanos");
    assert("\",\"nanos\":"@ =~= between(Around::Quotes, false, "nanos"@, Around::Nothing));
}

proof fn lemma_types_nb()
    ensures
        ",\"types\":["@ == between(Around::Nothing, false, "types"@, Around::Brackets),
{
    reveal_strlit(",\"types\":[");
    reveal_strlit("types");
    assert(",\"types\":["@ =~= between(Around::Nothing, false, "types"@, Around::Brackets));
}

proof fn lemma_quotes_bb()
    ensures
        "],\"quotes\":["@ == between(Around::Brackets, false, "quotes"@, Around::Brackets),
{
    reveal_strlit("],\"quotes\":[");
    reveal_strlit("quotes");
    assert("],\"quotes\":["@ =~= between(Around::Brackets, false, "quotes"@, Around::Brackets));
}

proof fn lemma_end_b()
    ensures
        "]}"@ == Around::Brackets.close() + seq!['}'],
{
    reveal_strlit("]}");
    assert("]}"@ =~= Around::Brackets.close() + seq!['}']);
}

proof fn lemma_price_nq_first()
    ensures
        "{\"price\":\""@ == between(Around::Nothing, true, "price"@, Around::Quotes),
{
    reveal_strlit("{\"price\":\"");
    reveal_strlit("price");
    assert("{\"price\":\""@ =~= between(Around::Nothing, true, "price"@, Around::Quotes));
}

proof fn lemma_size_qn()
    ensures
        "\",\"size\":"@ == between(Around::Quotes, false, "size"@, Around::Nothing),
{
    reveal_strlit("\",\"size\":");
    reveal_strlit("size");
    assert("\",\"size\":"@ =~= between(Around::Quotes, false, "size"@, Around::Nothing));
}

proof fn lemma_bid_qn()
    ensures
        "\",\"bid\":"@ == between(Around::Quotes, false, "bid"@, Around::Nothing),
{
    reveal_strlit("\",\"bid\":");
    reveal_strlit("bid");
    assert("\",\"bid\":"@ =~= between(Around::Quotes, false, "bid"@, Around::Nothing));
}

proof fn lemma_ask_nn()
    ensures
        ",\"ask\":"@ == between(Around::Nothing, false, "ask"@, Around::Nothing),
{
    reveal_strlit(",\"ask\":");
    reveal_strlit("ask");
    assert(",\"ask\":"@ =~= between(Around::Nothing, false, "ask"@, Around::Nothing));
}

proof fn lemma_bid_levels_nn()
    ensures
        ",\"bid_levels\":"@ == between(Around::Nothing, false, "bid_levels"@, Around::Nothing),
{
    reveal_strlit(",\"bid_levels\":");
    reveal_strlit("bid_levels");
    assert(",\"bid_levels\":"@ =~= between(Around::Nothing, false, "bid_levels"@, Around::Nothing));
}

proof fn lemma_ask_levels_nn()
    ensures
        ",\"ask_levels\":"@ == between(Around::Nothing, false, "ask_levels"@, Around::Nothing),
{
    reveal_strlit(",\"ask_levels\":");
    reveal_strlit("ask_levels");
    assert(",\"ask_levels\":"@ =~= between(Around::Nothing, false, "ask_levels"@, Around::Nothing));
}

proof fn lemma_container_nq_first()
    ensures
        "{\"container\":\""@ == between(Around::Nothing, true, "container"@, Around::Quotes),
{
    reveal_strlit("{\"container\":\"");
    reveal_strlit("container");
    assert("{\"container\":\""@ =~= between(Around::Nothing, true, "container"@, Around::Quotes));
}

proof fn lemma_packets_qn()
    ensures
        "\",\"packets\":"@ == between(Around::Quotes, false, "packets"@, Around::Nothing),
{
    reveal_strlit("\",\"packets\":");
    reveal_strlit("packets");
    assert("\",\"packets\":"@ =~= between(Around::Quotes, false, "packets"@, Around::Nothing));
}

proof fn lemma_book_updates_nn()
    ensures
        ",\"book_updates\":"@ == between(Around::Nothing, false, "book_updates"@, Around::Nothing),
{
    reveal_strlit(",\"book_updates\":");
    reveal_strlit("book_updates");
    assert(",\"book_updates\":"@ =~= between(Around::Nothing, false, "book_updates"@, Around::Nothing));
}

proof fn lemma_orders_nn()
    ensures
        ",\"orders\":"@ == between(Around::Nothing, false, "orders"@, Around::Nothing),
{
    reveal_strlit(",\"orders\":");
    reveal_strlit("orders");
    assert(",\"orders\":"@ =~= between(Around::Nothing, false, "orders"@, Around::Nothing));
}

proof fn lemma_ns_per_packet_nn()
    ensures
        ",\"ns_per_packet\":"@ == between(Around::Nothing, false, "ns_per_packet"@, Around::Nothing),
{
    reveal_strlit(",\"ns_per_packet\":");
    reveal_strlit("ns_per_packet");
    assert(",\"ns_per_packet\":"@ =~= between(Around::Nothing, false, "ns_per_packet"@, Around::Nothing));
}

proof fn lemma_spread_nn()
    ensures
        ",\"spread\":"@ == between(Around::Nothing, false, "spread"@, Around::Nothing),
{
    reveal_strlit(",\"spread\":");
    reveal_strlit("spread");
    assert(",\"spread\":"@ =~= between(Around::Nothing, false, "spread"@, Around::Nothing));
}

proof fn lemma_duplicates_suppressed_nn()
    ensures
        ",\"duplicates_suppressed\":"@ == between(Around::Nothing, false, "duplicates_suppressed"@, Around::Nothing),
{
    reveal_strlit(",\"duplicates_suppressed\":");
    reveal_strlit("duplicates_suppressed");
    assert(",\"duplicates_suppressed\":"@ =~= between(Around::Nothing, false, "duplicates_suppressed"@, Around::Nothing));
}

proof fn lemma_gaps_detected_nn()
    ensures
        ",\"gaps_detected\":"@ == between(Around::Nothing, false, "gaps_detected"@, Around::Nothing),
{
    reveal_strlit(",\"gaps_detected\":");
    reveal_strlit("gaps_detected");
    assert(",\"gaps_detected\":"@ =~= between(Around::Nothing, false, "gaps_detected"@, Around::Nothing));
}

proof fn lemma_gaps_injected_nn()
    ensures
        ",\"gaps_injected\":"@ == between(Around::Nothing, false, "gaps_injected"@, Around::Nothing),
{
    reveal_strlit(",\"gaps_injected\":");
    reveal_strlit("gaps_injected");
    assert(",\"gaps_injected\":"@ =~= between(Around::Nothing, false, "gaps_injected"@, Around::Nothing));
}

proof fn lemma_crossed_when_stable_nn()
    ensures
        ",\"crossed_when_stable\":"@ == between(Around::Nothing, false, "crossed_when_stable"@, Around::Nothing),
{
    reveal_strlit(",\"crossed_when_stable\":");
    reveal_strlit("crossed_when_stable");
    assert(",\"crossed_when_stable\":"@ =~= between(Around::Nothing, false, "crossed_when_stable"@, Around::Nothing));
}

proof fn lemma_service_p50_nn()
    ensures
        ",\"service_p50\":"@ == between(Around::Nothing, false, "service_p50"@, Around::Nothing),
{
    reveal_strlit(",\"service_p50\":");
    reveal_strlit("service_p50");
    assert(",\"service_p50\":"@ =~= between(Around::Nothing, false, "service_p50"@, Around::Nothing));
}

proof fn lemma_service_p99_nn()
    ensures
        ",\"service_p99\":"@ == between(Around::Nothing, false, "service_p99"@, Around::Nothing),
{
    reveal_strlit(",\"service_p99\":");
    reveal_strlit("service_p99");
    assert(",\"service_p99\":"@ =~= between(Around::Nothing, false, "service_p99"@, Around::Nothing));
}

proof fn lemma_corrected_p50_nn()
    ensures
        ",\"corrected_p50\":"@ == between(Around::Nothing, false, "corrected_p50"@, Around::Nothing),
{
    reveal_strlit(",\"corrected_p50\":");
    reveal_strlit("corrected_p50");
    assert(",\"corrected_p50\":"@ =~= between(Around::Nothing, false, "corrected_p50"@, Around::Nothing));
}

proof fn lemma_corrected_p99_nn()
    ensures
        ",\"corrected_p99\":"@ == between(Around::Nothing, false, "corrected_p99"@, Around::Nothing),
{
    reveal_strlit(",\"corrected_p99\":");
    reveal_strlit("corrected_p99");
    assert(",\"corrected_p99\":"@ =~= between(Around::Nothing, false, "corrected_p99"@, Around::Nothing));
}

proof fn lemma_behind_schedule_nn()
    ensures
        ",\"behind_schedule\":"@ == between(Around::Nothing, false, "behind_schedule"@, Around::Nothing),
{
    reveal_strlit(",\"behind_schedule\":");
    reveal_strlit("behind_schedule");
    assert(",\"behind_schedule\":"@ =~= between(Around::Nothing, false, "behind_schedule"@, Around::Nothing));
}

proof fn lemma_top_qb()
    ensures
        "\",\"top\":["@ == between(Around::Quotes, false, "top"@, Around::Brackets),
{
    reveal_strlit("\",\"top\":[");
    reveal_strlit("top");
    assert("\",\"top\":["@ =~= between(Around::Quotes, false, "top"@, Around::Brackets));
}

proof fn lemma_cumulative_qn()
    ensures
        "\",\"cumulative\":"@ == between(Around::Quotes, false, "cumulative"@, Around::Nothing),
{
    reveal_strlit("\",\"cumulative\":");
    reveal_strlit("cumulative");
    assert("\",\"cumulative\":"@ =~= between(Around::Quotes, false, "cumulative"@, Around::Nothing));
}

proof fn lemma_this_stage_nn()
    ensures
        ",\"this_stage\":"@ == between(Around::Nothing, false, "this_stage"@, Around::Nothing),
{
    reveal_strlit(",\"this_stage\":");
    reveal_strlit("this_stage");
    assert(",\"this_stage\":"@ =~= between(Around::Nothing, false, "this_stage"@, Around::Nothing));
}

proof fn lemma_unresolved_nn()
    ensures
        ",\"unresolved\":"@ == between(Around::Nothing, false, "unresolved"@, Around::Nothing),
{
    reveal_strlit(",\"unresolved\":");
    reveal_strlit("unresolved");
    assert(",\"unresolved\":"@ =~= between(Around::Nothing, false, "unresolved"@, Around::Nothing));
}

proof fn lemma_arch_nq_first()
    ensures
        "{\"arch\":\""@ == between(Around::Nothing, true, "arch"@, Around::Quotes),
{
    reveal_strlit("{\"arch\":\"");
    reveal_strlit("arch");
    assert("{\"arch\":\""@ =~= between(Around::Nothing, true, "arch"@, Around::Quotes));
}

proof fn lemma_unresolved_qn()
    ensures
        "\",\"unresolved\":"@ == between(Around::Quotes, false, "unresolved"@, Around::Nothing),
{
    reveal_strlit("\",\"unresolved\":");
    reveal_strlit("unresolved");
    assert("\",\"unresolved\":"@ =~= between(Around::Quotes, false, "unresolved"@, Around::Nothing));
}

proof fn lemma_of_nn()
    ensures
        ",\"of\":"@ == between(Around::Nothing, false, "of"@, Around::Nothing),
{
    reveal_strlit(",\"of\":");
    reveal_strlit("of");
    assert(",\"of\":"@ =~= between(Around::Nothing, false, "of"@, Around::Nothing));
}

proof fn lemma_stages_nb()
    ensures
        ",\"stages\":["@ == between(Around::Nothing, false, "stages"@, Around::Brackets),
{
    reveal_strlit(",\"stages\":[");
    reveal_strlit("stages");
    assert(",\"stages\":["@ =~= between(Around::Nothing, false, "stages"@, Around::Brackets));
}

/// The state of the host: whether it is warm, how long that took, what it has served and
/// what it runs on.
pub proof fn law_health_is_an_object(warm: bool, warmup_ms: u64, runs_served: u64, arch: Seq<char>)
    ensures
        health_text(warm, warmup_ms, runs_served, arch) == object(
            seq![
                bare("warm"@, truth(warm)),
                number("warmup_ms"@, warmup_ms as nat),
                number("runs_served"@, runs_served as nat),
                text("arch"@, arch),
            ],
        ),
{
    lemma_warm_nn_first();
    let m0 = bare("warm"@, truth(warm));
    let s0 = "{\"warm\":"@ + m0.value;
    let o0 = seq![m0];
    lemma_first(m0, "{\"warm\":"@);
    lemma_warmup_ms_nn();
    let m1 = number("warmup_ms"@, warmup_ms as nat);
    let s1 = s0 + ",\"warmup_ms\":"@ + m1.value;
    let o1 = o0.push(m1);
    lemma_next(s0, o0, m1, ",\"warmup_ms\":"@);
    lemma_runs_served_nn();
    let m2 = number("runs_served"@, runs_served as nat);
    let s2 = s1 + ",\"runs_served\":"@ + m2.value;
    let o2 = o1.push(m2);
    lemma_next(s1, o1, m2, ",\"runs_served\":"@);
    lemma_arch_nq();
    let m3 = text("arch"@, arch);
    let s3 = s2 + ",\"arch\":\""@ + m3.value;
    let o3 = o2.push(m3);
    lemma_next(s2, o2, m3, ",\"arch\":\""@);
    lemma_end_q();
    lemma_end(s3, o3, "\"}"@);
    assert(health_text(warm, warmup_ms, runs_served, arch) == s3 + "\"}"@);
    assert(o3 =~= seq![m0, m1, m2, m3]);
}

/// A session: its date and its size.
pub proof fn law_a_day_is_an_object(s: Sample)
    ensures
        day_row(s) == object(
            seq![
                text("date"@, s.date@),
                number("bytes"@, s.bytes@.len()),
            ],
        ),
{
    lemma_date_nq_first();
    let m0 = text("date"@, s.date@);
    let s0 = "{\"date\":\""@ + m0.value;
    let o0 = seq![m0];
    lemma_first(m0, "{\"date\":\""@);
    lemma_bytes_qn();
    let m1 = number("bytes"@, s.bytes@.len());
    let s1 = s0 + "\",\"bytes\":"@ + m1.value;
    let o1 = o0.push(m1);
    lemma_next(s0, o0, m1, "\",\"bytes\":"@);
    lemma_end_n();
    lemma_end(s1, o1, "}"@);
    assert(day_row(s) == s1 + "}"@);
    assert(o1 =~= seq![m0, m1]);
}

/// A message type: its name and its count.
pub proof fn law_a_type_is_an_object(t: (String, u64))
    ensures
        type_row(t) == object(
            seq![
                text("name"@, t.0@),
                number("count"@, t.1 as nat),
            ],
        ),
{
    lemma_name_nq_first();
    let m0 = text("name"@, t.0@);
    let s0 = "{\"name\":\""@ + m0.value;
    let o0 = seq![m0];
    lemma_first(m0, "{\"name\":\""@);
    lemma_count_qn();
    let m1 = number("count"@, t.1 as nat);
    let s1 = s0 + "\",\"count\":"@ + m1.value;
    let o1 = o0.push(m1);
    lemma_next(s0, o0, m1, "\",\"count\":"@);
    lemma_end_n();
    lemma_end(s1, o1, "}"@);
    assert(type_row(t) == s1 + "}"@);
    assert(o1 =~= seq![m0, m1]);
}

/// A quote: each side's price and size under that side's name.
pub proof fn law_a_quote_is_an_object(q: QuoteText)
    ensures
        quote_row(q) == object(
            seq![
                text("symbol"@, q.symbol),
                text("bid"@, q.bid),
                number("bid_size"@, q.bid_size as nat),
                text("ask"@, q.ask),
                number("ask_size"@, q.ask_size as nat),
            ],
        ),
{
    lemma_symbol_nq_first();
    let m0 = text("symbol"@, q.symbol);
    let s0 = "{\"symbol\":\""@ + m0.value;
    let o0 = seq![m0];
    lemma_first(m0, "{\"symbol\":\""@);
    lemma_bid_qq();
    let m1 = text("bid"@, q.bid);
    let s1 = s0 + "\",\"bid\":\""@ + m1.value;
    let o1 = o0.push(m1);
    lemma_next(s0, o0, m1, "\",\"bid\":\""@);
    lemma_bid_size_qn();
    let m2 = number("bid_size"@, q.bid_size as nat);
    let s2 = s1 + "\",\"bid_size\":"@ + m2.value;
    let o2 = o1.push(m2);
    lemma_next(s1, o1, m2, "\",\"bid_size\":"@);
    lemma_ask_nq();
    let m3 = text("ask"@, q.ask);
    let s3 = s2 + ",\"ask\":\""@ + m3.value;
    let o3 = o2.push(m3);
    lemma_next(s2, o2, m3, ",\"ask\":\""@);
    lemma_ask_size_qn();
    let m4 = number("ask_size"@, q.ask_size as nat);
    let s4 = s3 + "\",\"ask_size\":"@ + m4.value;
    let o4 = o3.push(m4);
    lemma_next(s3, o3, m4, "\",\"ask_size\":"@);
    lemma_end_n();
    lemma_end(s4, o4, "}"@);
    assert(quote_row(q) == s4 + "}"@);
    assert(o4 =~= seq![m0, m1, m2, m3, m4]);
}

/// What a session came to: every figure under its own name.
pub proof fn law_a_verdict_is_an_object(v: Verdict)
    ensures
        verdict_text(v) == object(
            seq![
                text("date"@, v.date@),
                text("format"@, v.format@),
                number("bytes"@, v.bytes as nat),
                number("packets"@, v.packets as nat),
                number("messages"@, v.messages as nat),
                number("errors"@, v.errors as nat),
                number("unknown"@, v.unknown as nat),
                number("symbols"@, v.symbols as nat),
                number("price_updates"@, v.price_updates as nat),
                number("trades"@, v.trades as nat),
                number("gaps"@, v.gaps as nat),
                number("duplicates"@, v.duplicates as nat),
                number("crossed"@, v.crossed as nat),
                text("low"@, v.low@),
                text("high"@, v.high@),
                number("nanos"@, v.nanos as nat),
                list("types"@, v.types@.map_values(|t: (String, u64)| type_row(t))),
                list("quotes"@, v.quotes@.map_values(|q: Quote| quote_row(q@))),
            ],
        ),
{
    lemma_date_nq_first();
    let m0 = text("date"@, v.date@);
    let s0 = "{\"date\":\""@ + m0.value;
    let o0 = seq![m0];
    lemma_first(m0, "{\"date\":\""@);
    lemma_format_qq();
    let m1 = text("format"@, v.format@);
    let s1 = s0 + "\",\"format\":\""@ + m1.value;
    let o1 = o0.push(m1);
    lemma_next(s0, o0, m1, "\",\"format\":\""@);
    lemma_bytes_qn();
    let m2 = number("bytes"@, v.bytes as nat);
    let s2 = s1 + "\",\"bytes\":"@ + m2.value;
    let o2 = o1.push(m2);
    lemma_next(s1, o1, m2, "\",\"bytes\":"@);
    lemma_packets_nn();
    let m3 = number("packets"@, v.packets as nat);
    let s3 = s2 + ",\"packets\":"@ + m3.value;
    let o3 = o2.push(m3);
    lemma_next(s2, o2, m3, ",\"packets\":"@);
    lemma_messages_nn();
    let m4 = number("messages"@, v.messages as nat);
    let s4 = s3 + ",\"messages\":"@ + m4.value;
    let o4 = o3.push(m4);
    lemma_next(s3, o3, m4, ",\"messages\":"@);
    lemma_errors_nn();
    let m5 = number("errors"@, v.errors as nat);
    let s5 = s4 + ",\"errors\":"@ + m5.value;
    let o5 = o4.push(m5);
    lemma_next(s4, o4, m5, ",\"errors\":"@);
    lemma_unknown_nn();
    let m6 = number("unknown"@, v.unknown as nat);
    let s6 = s5 + ",\"unknown\":"@ + m6.value;
    let o6 = o5.push(m6);
    lemma_next(s5, o5, m6, ",\"unknown\":"@);
    lemma_symbols_nn();
    let m7 = number("symbols"@, v.symbols as nat);
    let s7 = s6 + ",\"symbols\":"@ + m7.value;
    let o7 = o6.push(m7);
    lemma_next(s6, o6, m7, ",\"symbols\":"@);
    lemma_price_updates_nn();
    let m8 = number("price_updates"@, v.price_updates as nat);
    let s8 = s7 + ",\"price_updates\":"@ + m8.value;
    let o8 = o7.push(m8);
    lemma_next(s7, o7, m8, ",\"price_updates\":"@);
    lemma_trades_nn();
    let m9 = number("trades"@, v.trades as nat);
    let s9 = s8 + ",\"trades\":"@ + m9.value;
    let o9 = o8.push(m9);
    lemma_next(s8, o8, m9, ",\"trades\":"@);
    lemma_gaps_nn();
    let m10 = number("gaps"@, v.gaps as nat);
    let s10 = s9 + ",\"gaps\":"@ + m10.value;
    let o10 = o9.push(m10);
    lemma_next(s9, o9, m10, ",\"gaps\":"@);
    lemma_duplicates_nn();
    let m11 = number("duplicates"@, v.duplicates as nat);
    let s11 = s10 + ",\"duplicates\":"@ + m11.value;
    let o11 = o10.push(m11);
    lemma_next(s10, o10, m11, ",\"duplicates\":"@);
    lemma_crossed_nn();
    let m12 = number("crossed"@, v.crossed as nat);
    let s12 = s11 + ",\"crossed\":"@ + m12.value;
    let o12 = o11.push(m12);
    lemma_next(s11, o11, m12, ",\"crossed\":"@);
    lemma_low_nq();
    let m13 = text("low"@, v.low@);
    let s13 = s12 + ",\"low\":\""@ + m13.value;
    let o13 = o12.push(m13);
    lemma_next(s12, o12, m13, ",\"low\":\""@);
    lemma_high_qq();
    let m14 = text("high"@, v.high@);
    let s14 = s13 + "\",\"high\":\""@ + m14.value;
    let o14 = o13.push(m14);
    lemma_next(s13, o13, m14, "\",\"high\":\""@);
    lemma_nanos_qn();
    let m15 = number("nanos"@, v.nanos as nat);
    let s15 = s14 + "\",\"nanos\":"@ + m15.value;
    let o15 = o14.push(m15);
    lemma_next(s14, o14, m15, "\",\"nanos\":"@);
    lemma_types_nb();
    let m16 = list("types"@, v.types@.map_values(|t: (String, u64)| type_row(t)));
    let s16 = s15 + ",\"types\":["@ + m16.value;
    let o16 = o15.push(m16);
    lemma_next(s15, o15, m16, ",\"types\":["@);
    lemma_quotes_bb();
    let m17 = list("quotes"@, v.quotes@.map_values(|q: Quote| quote_row(q@)));
    let s17 = s16 + "],\"quotes\":["@ + m17.value;
    let o17 = o16.push(m17);
    lemma_next(s16, o16, m17, "],\"quotes\":["@);
    lemma_end_b();
    lemma_end(s17, o17, "]}"@);
    assert(verdict_text(v) == s17 + "]}"@);
    assert(o17 =~= seq![m0, m1, m2, m3, m4, m5, m6, m7, m8, m9, m10, m11, m12, m13, m14, m15, m16, m17]);
}

/// A side of a quote: its price and its size.
pub proof fn law_a_side_is_an_object(p: Seq<char>, s: u32)
    ensures
        side_text(Some((p, s))) == object(
            seq![
                text("price"@, p),
                number("size"@, s as nat),
            ],
        ),
{
    lemma_price_nq_first();
    let m0 = text("price"@, p);
    let s0 = "{\"price\":\""@ + m0.value;
    let o0 = seq![m0];
    lemma_first(m0, "{\"price\":\""@);
    lemma_size_qn();
    let m1 = number("size"@, s as nat);
    let s1 = s0 + "\",\"size\":"@ + m1.value;
    let o1 = o0.push(m1);
    lemma_next(s0, o0, m1, "\",\"size\":"@);
    lemma_end_n();
    lemma_end(s1, o1, "}"@);
    assert(side_text(Some((p, s))) == s1 + "}"@);
    assert(o1 =~= seq![m0, m1]);
}

/// The top of a book: bid and ask, each with how many levels are behind it.
pub proof fn law_a_top_is_an_object(t: TopText)
    ensures
        top_row(t) == object(
            seq![
                text("symbol"@, t.symbol),
                bare("bid"@, side_text(t.bid)),
                bare("ask"@, side_text(t.ask)),
                number("bid_levels"@, t.bid_levels),
                number("ask_levels"@, t.ask_levels),
            ],
        ),
{
    lemma_symbol_nq_first();
    let m0 = text("symbol"@, t.symbol);
    let s0 = "{\"symbol\":\""@ + m0.value;
    let o0 = seq![m0];
    lemma_first(m0, "{\"symbol\":\""@);
    lemma_bid_qn();
    let m1 = bare("bid"@, side_text(t.bid));
    let s1 = s0 + "\",\"bid\":"@ + m1.value;
    let o1 = o0.push(m1);
    lemma_next(s0, o0, m1, "\",\"bid\":"@);
    lemma_ask_nn();
    let m2 = bare("ask"@, side_text(t.ask));
    let s2 = s1 + ",\"ask\":"@ + m2.value;
    let o2 = o1.push(m2);
    lemma_next(s1, o1, m2, ",\"ask\":"@);
    lemma_bid_levels_nn();
    let m3 = number("bid_levels"@, t.bid_levels);
    let s3 = s2 + ",\"bid_levels\":"@ + m3.value;
    let o3 = o2.push(m3);
    lemma_next(s2, o2, m3, ",\"bid_levels\":"@);
    lemma_ask_levels_nn();
    let m4 = number("ask_levels"@, t.ask_levels);
    let s4 = s3 + ",\"ask_levels\":"@ + m4.value;
    let o4 = o3.push(m4);
    lemma_next(s3, o3, m4, ",\"ask_levels\":"@);
    lemma_end_n();
    lemma_end(s4, o4, "}"@);
    assert(top_row(t) == s4 + "}"@);
    assert(o4 =~= seq![m0, m1, m2, m3, m4]);
}

/// A report: every figure under its own name.
pub proof fn law_a_report_is_an_object(r: Report, arch: Seq<char>)
    ensures
        report_text(r, arch) == object(
            seq![
                text("container"@, r.container@),
                number("packets"@, r.packets as nat),
                number("messages"@, r.messages as nat),
                number("book_updates"@, r.book_updates as nat),
                number("orders"@, r.orders as nat),
                bare("ns_per_packet"@, r.ns_per_packet@),
                bare("spread"@, r.spread@),
                number("duplicates_suppressed"@, r.duplicates_suppressed as nat),
                number("gaps_detected"@, r.gaps_detected as nat),
                number("gaps_injected"@, r.gaps_injected as nat),
                number("crossed_when_stable"@, r.crossed_when_stable as nat),
                number("service_p50"@, r.service_p50 as nat),
                number("service_p99"@, r.service_p99 as nat),
                number("corrected_p50"@, r.corrected_p50 as nat),
                number("corrected_p99"@, r.corrected_p99 as nat),
                number("behind_schedule"@, r.behind_schedule as nat),
                text("arch"@, arch),
                list("top"@, r.top@.map_values(|t: TopOfBook| top_row(t@))),
            ],
        ),
{
    lemma_container_nq_first();
    let m0 = text("container"@, r.container@);
    let s0 = "{\"container\":\""@ + m0.value;
    let o0 = seq![m0];
    lemma_first(m0, "{\"container\":\""@);
    lemma_packets_qn();
    let m1 = number("packets"@, r.packets as nat);
    let s1 = s0 + "\",\"packets\":"@ + m1.value;
    let o1 = o0.push(m1);
    lemma_next(s0, o0, m1, "\",\"packets\":"@);
    lemma_messages_nn();
    let m2 = number("messages"@, r.messages as nat);
    let s2 = s1 + ",\"messages\":"@ + m2.value;
    let o2 = o1.push(m2);
    lemma_next(s1, o1, m2, ",\"messages\":"@);
    lemma_book_updates_nn();
    let m3 = number("book_updates"@, r.book_updates as nat);
    let s3 = s2 + ",\"book_updates\":"@ + m3.value;
    let o3 = o2.push(m3);
    lemma_next(s2, o2, m3, ",\"book_updates\":"@);
    lemma_orders_nn();
    let m4 = number("orders"@, r.orders as nat);
    let s4 = s3 + ",\"orders\":"@ + m4.value;
    let o4 = o3.push(m4);
    lemma_next(s3, o3, m4, ",\"orders\":"@);
    lemma_ns_per_packet_nn();
    let m5 = bare("ns_per_packet"@, r.ns_per_packet@);
    let s5 = s4 + ",\"ns_per_packet\":"@ + m5.value;
    let o5 = o4.push(m5);
    lemma_next(s4, o4, m5, ",\"ns_per_packet\":"@);
    lemma_spread_nn();
    let m6 = bare("spread"@, r.spread@);
    let s6 = s5 + ",\"spread\":"@ + m6.value;
    let o6 = o5.push(m6);
    lemma_next(s5, o5, m6, ",\"spread\":"@);
    lemma_duplicates_suppressed_nn();
    let m7 = number("duplicates_suppressed"@, r.duplicates_suppressed as nat);
    let s7 = s6 + ",\"duplicates_suppressed\":"@ + m7.value;
    let o7 = o6.push(m7);
    lemma_next(s6, o6, m7, ",\"duplicates_suppressed\":"@);
    lemma_gaps_detected_nn();
    let m8 = number("gaps_detected"@, r.gaps_detected as nat);
    let s8 = s7 + ",\"gaps_detected\":"@ + m8.value;
    let o8 = o7.push(m8);
    lemma_next(s7, o7, m8, ",\"gaps_detected\":"@);
    lemma_gaps_injected_nn();
    let m9 = number("gaps_injected"@, r.gaps_injected as nat);
    let s9 = s8 + ",\"gaps_injected\":"@ + m9.value;
    let o9 = o8.push(m9);
    lemma_next(s8, o8, m9, ",\"gaps_injected\":"@);
    lemma_crossed_when_stable_nn();
    let m10 = number("crossed_when_stable"@, r.crossed_when_stable as nat);
    let s10 = s9 + ",\"crossed_when_stable\":"@ + m10.value;
    let o10 = o9.push(m10);
    lemma_next(s9, o9, m10, ",\"crossed_when_stable\":"@);
    lemma_service_p50_nn();
    let m11 = number("service_p50"@, r.service_p50 as nat);
    let s11 = s10 + ",\"service_p50\":"@ + m11.value;
    let o11 = o10.push(m11);
    lemma_next(s10, o10, m11, ",\"service_p50\":"@);
    lemma_service_p99_nn();
    let m12 = number("service_p99"@, r.service_p99 as nat);
    let s12 = s11 + ",\"service_p99\":"@ + m12.value;
    let o12 = o11.push(m12);
    lemma_next(s11, o11, m12, ",\"service_p99\":"@);
    lemma_corrected_p50_nn();
    let m13 = number("corrected_p50"@, r.corrected_p50 as nat);
    let s13 = s12 + ",\"corrected_p50\":"@ + m13.value;
    let o13 = o12.push(m13);
    lemma_next(s12, o12, m13, ",\"corrected_p50\":"@);
    lemma_corrected_p99_nn();
    let m14 = number("corrected_p99"@, r.corrected_p99 as nat);
    let s14 = s13 + ",\"corrected_p99\":"@ + m14.value;
    let o14 = o13.push(m14);
    lemma_next(s13, o13, m14, ",\"corrected_p99\":"@);
    lemma_behind_schedule_nn();
    let m15 = number("behind_schedule"@, r.behind_schedule as nat);
    let s15 = s14 + ",\"behind_schedule\":"@ + m15.value;
    let o15 = o14.push(m15);
    lemma_next(s14, o14, m15, ",\"behind_schedule\":"@);
    lemma_arch_nq();
    let m16 = text("arch"@, arch);
    let s16 = s15 + ",\"arch\":\""@ + m16.value;
    let o16 = o15.push(m16);
    lemma_next(s15, o15, m16, ",\"arch\":\""@);
    lemma_top_qb();
    let m17 = list("top"@, r.top@.map_values(|t: TopOfBook| top_row(t@)));
    let s17 = s16 + "\",\"top\":["@ + m17.value;
    let o17 = o16.push(m17);
    lemma_next(s16, o16, m17, "\",\"top\":["@);
    lemma_end_b();
    lemma_end(s17, o17, "]}"@);
    assert(report_text(r, arch) == s17 + "]}"@);
    assert(o17 =~= seq![m0, m1, m2, m3, m4, m5, m6, m7, m8, m9, m10, m11, m12, m13, m14, m15, m16, m17]);
}

/// A stage: its name, its costs and whether they could be told from noise.
pub proof fn law_a_stage_is_an_object(c: StageCost, t: StageText)
    ensures
        stage_row(c, t) == object(
            seq![
                text("name"@, c.stage.title()),
                bare("cumulative"@, t.cumulative@),
                bare("this_stage"@, t.this_stage@),
                bare("spread"@, t.spread@),
                bare("unresolved"@, truth(c.unresolved)),
            ],
        ),
{
    lemma_name_nq_first();
    let m0 = text("name"@, c.stage.title());
    let s0 = "{\"name\":\""@ + m0.value;
    let o0 = seq![m0];
    lemma_first(m0, "{\"name\":\""@);
    lemma_cumulative_qn();
    let m1 = bare("cumulative"@, t.cumulative@);
    let s1 = s0 + "\",\"cumulative\":"@ + m1.value;
    let o1 = o0.push(m1);
    lemma_next(s0, o0, m1, "\",\"cumulative\":"@);
    lemma_this_stage_nn();
    let m2 = bare("this_stage"@, t.this_stage@);
    let s2 = s1 + ",\"this_stage\":"@ + m2.value;
    let o2 = o1.push(m2);
    lemma_next(s1, o1, m2, ",\"this_stage\":"@);
    lemma_spread_nn();
    let m3 = bare("spread"@, t.spread@);
    let s3 = s2 + ",\"spread\":"@ + m3.value;
    let o3 = o2.push(m3);
    lemma_next(s2, o2, m3, ",\"spread\":"@);
    lemma_unresolved_nn();
    let m4 = bare("unresolved"@, truth(c.unresolved));
    let s4 = s3 + ",\"unresolved\":"@ + m4.value;
    let o4 = o3.push(m4);
    lemma_next(s3, o3, m4, ",\"unresolved\":"@);
    lemma_end_n();
    lemma_end(s4, o4, "}"@);
    assert(stage_row(c, t) == s4 + "}"@);
    assert(o4 =~= seq![m0, m1, m2, m3, m4]);
}

/// A stage budget: how many stages of how many could not be resolved, and each of them.
pub proof fn law_a_budget_is_an_object(arch: Seq<char>, costs: Seq<StageCost>, texts: Seq<StageText>)
    ensures
        budget_text(arch, costs, texts) == object(
            seq![
                text("arch"@, arch),
                number("unresolved"@, unresolved_in(costs)),
                number("of"@, costs.len()),
                list("stages"@, stage_rows(costs, texts)),
            ],
        ),
{
    lemma_arch_nq_first();
    let m0 = text("arch"@, arch);
    let s0 = "{\"arch\":\""@ + m0.value;
    let o0 = seq![m0];
    lemma_first(m0, "{\"arch\":\""@);
    lemma_unresolved_qn();
    let m1 = number("unresolved"@, unresolved_in(costs));
    let s1 = s0 + "\",\"unresolved\":"@ + m1.value;
    let o1 = o0.push(m1);
    lemma_next(s0, o0, m1, "\",\"unresolved\":"@);
    lemma_of_nn();
    let m2 = number("of"@, costs.len());
    let s2 = s1 + ",\"of\":"@ + m2.value;
    let o2 = o1.push(m2);
    lemma_next(s1, o1, m2, ",\"of\":"@);
    lemma_stages_nb();
    let m3 = list("stages"@, stage_rows(costs, texts));
    let s3 = s2 + ",\"stages\":["@ + m3.value;
    let o3 = o2.push(m3);
    lemma_next(s2, o2, m3, ",\"stages\":["@);
    lemma_end_b();
    lemma_end(s3, o3, "]}"@);
    assert(budget_text(arch, costs, texts) == s3 + "]}"@);
    assert(o3 =~= seq![m0, m1, m2, m3]);
}

/// A list has commas between its rows and nowhere else.
pub proof fn law_lists_have_commas_between(a: Seq<Seq<char>>, b: Seq<Seq<char>>, row: Seq<char>)
    requires
        a.len() > 0,
        b.len() > 0,
    ensures
        listed(Seq::empty()) == Seq::<char>::empty(),
        listed(seq![row]) == row,
        listed(a + b) == listed(a) + seq![','] + listed(b),
    decreases b.len(),
{
    reveal_strlit(",");
    assert(","@ =~= seq![',']);
    let front = b.drop_last();
    assert((a + b).drop_last() =~= a + front);
    if front.len() == 0 {
        assert(a + front =~= a);
        assert(b[0] == b.last());
    } else {
        law_lists_have_commas_between(a, front, row);
        assert(listed(a + b) =~= listed(a) + seq![','] + listed(b));
    }
}

/// A side that is not there is nothing, a truth is a word, and the sessions there are
/// make a list, one row each.
pub proof fn law_words_and_lists(samples: Seq<Sample>, rows: Seq<Seq<char>>, b: bool)
    requires
        rows.len() == samples.len(),
        forall|i: int| 0 <= i < rows.len() ==> #[trigger] rows[i] == day_row(samples[i]),
    ensures
        side_text(None) == "null"@,
        truth(b) == if b {
            "true"@
        } else {
            "false"@
        },
        days_text(samples) == seq!['['] + listed(rows) + seq![']'],
{
    reveal_strlit("[");
    reveal_strlit("]");
    assert("["@ =~= seq!['[']);
    assert("]"@ =~= seq![']']);
    assert(samples.map_values(|s: Sample| day_row(s)) =~= rows);
}

/// Each stage's row is of that stage and its own texts.
pub proof fn law_stages_keep_their_texts(costs: Seq<StageCost>, texts: Seq<StageText>, i: int)
    requires
        0 <= i < costs.len(),
    ensures
        stage_rows(costs, texts).len() == costs.len(),
        stage_rows(costs, texts)[i] == stage_row(costs[i], texts[i]),
{
}

}
