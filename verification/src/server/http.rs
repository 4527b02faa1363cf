//! What the server reads off a request, and what it writes back.
//!
//! A handful of fixed endpoints with bounded parameters. Sockets are the
//! caller's: requests arrive here as their first line, and replies leave as text.
use vstd::prelude::*;
use vstd::string::StringExecFns;
use vstd::string::StrSliceExecFns;
use vstd::utf8::encode_utf8;

use super::bench::{
    count_unresolved, unresolved_in, Container, Report, StageCost, TopOfBook, TopText,
};
use super::verify::{find, Quote, QuoteText, Sample, Verdict};
use crate::text::{decimal, push_decimal, push_truth, push_wide, same, truth};

verus! {

/// Unicode white space.
pub open spec fn blank(c: char) -> bool {
    ||| '\u{9}' <= c <= '\u{d}'
    ||| c == ' '
    ||| c == '\u{85}'
    ||| c == '\u{a0}'
    ||| c == '\u{1680}'
    ||| '\u{2000}' <= c <= '\u{200a}'
    ||| c == '\u{2028}'
    ||| c == '\u{2029}'
    ||| c == '\u{202f}'
    ||| c == '\u{205f}'
    ||| c == '\u{3000}'
}

/// Where the first blank is, or the end.
pub open spec fn word_end(s: Seq<char>) -> nat
    decreases s.len(),
{
    if s.len() == 0 || blank(s[0]) {
        0
    } else {
        1 + word_end(s.drop_first())
    }
}

/// Where the first character that is not blank is, or the end.
pub open spec fn word_start(s: Seq<char>) -> nat
    decreases s.len(),
{
    if s.len() == 0 || !blank(s[0]) {
        0
    } else {
        1 + word_start(s.drop_first())
    }
}

/// Where `c` first is, or the end.
pub open spec fn place(s: Seq<char>, c: char) -> nat
    decreases s.len(),
{
    if s.len() == 0 || s[0] == c {
        0
    } else {
        1 + place(s.drop_first(), c)
    }
}

/// The first word of a line; nothing if it has none.
pub open spec fn first_word(s: Seq<char>) -> Seq<char> {
    let t = s.skip(word_start(s) as int);
    t.take(word_end(t) as int)
}

/// A line without its first word.
pub open spec fn after_word(s: Seq<char>) -> Seq<char> {
    let t = s.skip(word_start(s) as int);
    t.skip(word_end(t) as int)
}

/// What a request line asks for: its second word, or the root.
pub open spec fn target(line: Seq<char>) -> Seq<char> {
    let t = first_word(after_word(line));
    if t.len() == 0 {
        "/"@
    } else {
        t
    }
}

/// A target up to its question mark.
pub open spec fn path(target: Seq<char>) -> Seq<char> {
    target.take(place(target, '?') as int)
}

/// A target after its question mark; nothing if it has none.
pub open spec fn query(target: Seq<char>) -> Seq<char> {
    if place(target, '?') < target.len() {
        target.skip(place(target, '?') as int + 1)
    } else {
        Seq::empty()
    }
}

/// The value a `key=value` setting gives a key.
pub open spec fn setting(kv: Seq<char>, key: Seq<char>) -> Option<Seq<char>> {
    let eq = place(kv, '=');
    if eq < kv.len() && kv.take(eq as int) == key {
        Some(kv.skip(eq as int + 1))
    } else {
        None
    }
}

/// The value a query gives a key: that of the first setting that names it.
pub open spec fn value(query: Seq<char>, key: Seq<char>) -> Option<Seq<char>>
    decreases query.len(),
{
    let end = place(query, '&');
    match setting(query.take(end as int), key) {
        Some(v) => Some(v),
        None => if end < query.len() {
            value(query.skip(end as int + 1), key)
        } else {
            None
        },
    }
}

/// Where a character first is, is where it is found first.
pub proof fn lemma_place(s: Seq<char>, c: char, k: int)
    requires
        0 <= k <= s.len(),
        forall|i: int| 0 <= i < k ==> #[trigger] s[i] != c,
        k == s.len() || s[k] == c,
    ensures
        place(s, c) == k,
    decreases s.len(),
{
    if k > 0 {
        assert(s[0] != c);
        let t = s.drop_first();
        assert forall|i: int| 0 <= i < k - 1 implies #[trigger] t[i] != c by {
            assert(t[i] == s[i + 1]);
        }
        lemma_place(t, c, k - 1);
    }
}

/// Where a word starts is where the first character that is not blank is found.
pub proof fn lemma_word_start(s: Seq<char>, k: int)
    requires
        0 <= k <= s.len(),
        forall|i: int| 0 <= i < k ==> blank(#[trigger] s[i]),
        k == s.len() || !blank(s[k]),
    ensures
        word_start(s) == k,
    decreases s.len(),
{
    if k > 0 {
        assert(blank(s[0]));
        let t = s.drop_first();
        assert forall|i: int| 0 <= i < k - 1 implies blank(#[trigger] t[i]) by {
            assert(t[i] == s[i + 1]);
        }
        lemma_word_start(t, k - 1);
    }
}

/// Where a word ends is where the first blank is found.
pub proof fn lemma_word_end(s: Seq<char>, k: int)
    requires
        0 <= k <= s.len(),
        forall|i: int| 0 <= i < k ==> !blank(#[trigger] s[i]),
        k == s.len() || blank(s[k]),
    ensures
        word_end(s) == k,
    decreases s.len(),
{
    if k > 0 {
        assert(!blank(s[0]));
        let t = s.drop_first();
        assert forall|i: int| 0 <= i < k - 1 implies !blank(#[trigger] t[i]) by {
            assert(t[i] == s[i + 1]);
        }
        lemma_word_end(t, k - 1);
    }
}

fn is_blank(c: char) -> (r: bool)
    ensures
        r == blank(c),
{
    ('\u{9}' <= c && c <= '\u{d}') || c == ' ' || c == '\u{85}' || c == '\u{a0}' || c
        == '\u{1680}' || ('\u{2000}' <= c && c <= '\u{200a}') || c == '\u{2028}' || c
        == '\u{2029}' || c == '\u{202f}' || c == '\u{205f}' || c == '\u{3000}'
}

/// The characters of a text.
fn letters(s: &str) -> (r: Vec<char>)
    ensures
        r@ == s@,
{
    let mut out: Vec<char> = Vec::new();
    for c in it: s.chars()
        invariant
            out@ == it.seq().take(it.index() as int),
            it.seq() == s@,
    {
        out.push(c);
        assert(out@ =~= it.seq().take(it.index() + 1));
    }
    assert(out@ =~= s@);
    out
}

/// Where `c` first is in part of a text, or the end of that part.
fn locate(text: &Vec<char>, from: usize, to: usize, c: char) -> (r: usize)
    requires
        from <= to <= text@.len(),
    ensures
        from <= r <= to,
        r - from == place(text@.subrange(from as int, to as int), c),
{
    let mut i: usize = from;
    let ghost part = text@.subrange(from as int, to as int);
    while i < to && text[i] != c
        invariant
            from <= i <= to <= text@.len(),
            part == text@.subrange(from as int, to as int),
            forall|j: int| 0 <= j < i - from ==> #[trigger] part[j] != c,
        decreases to - i,
    {
        i = i + 1;
    }
    proof {
        lemma_place(part, c, i - from);
    }
    i
}

/// Where the next word starts and ends.
fn next_word(text: &Vec<char>, from: usize) -> (r: (usize, usize))
    requires
        from <= text@.len(),
    ensures
        from <= r.0 <= r.1 <= text@.len(),
        text@.subrange(r.0 as int, r.1 as int) == first_word(text@.skip(from as int)),
        text@.skip(r.1 as int) == after_word(text@.skip(from as int)),
{
    let ghost s = text@.skip(from as int);
    let mut start: usize = from;
    while start < text.len() && is_blank(text[start])
        invariant
            from <= start <= text@.len(),
            s == text@.skip(from as int),
            forall|j: int| 0 <= j < start - from ==> blank(#[trigger] s[j]),
        decreases text@.len() - start,
    {
        start = start + 1;
    }
    proof {
        lemma_word_start(s, start - from);
    }
    let ghost t = text@.skip(start as int);
    assert(t =~= s.skip(word_start(s) as int));
    let mut end: usize = start;
    while end < text.len() && !is_blank(text[end])
        invariant
            start <= end <= text@.len(),
            t == text@.skip(start as int),
            forall|j: int| 0 <= j < end - start ==> !blank(#[trigger] t[j]),
        decreases text@.len() - end,
    {
        end = end + 1;
    }
    proof {
        lemma_word_end(t, end - start);
        assert(text@.subrange(start as int, end as int) =~= t.take(end - start));
        assert(text@.skip(end as int) =~= t.skip(end - start));
    }
    (start, end)
}

/// What a request line asks for, question mark and all.
fn asked_for<'a>(line: &'a str) -> (r: &'a str)
    ensures
        r@ == target(line@),
{
    let text = letters(line);
    assert(text@.skip(0) =~= text@);
    let (_, after) = next_word(&text, 0);
    let (start, end) = next_word(&text, after);
    if start == end {
        assert(first_word(after_word(line@)).len() == 0);
        "/"
    } else {
        line.substring_char(start, end)
    }
}

/// The value a query gives a key.
pub fn param(query: &str, key: &str) -> (r: Option<String>)
    ensures
        match r {
            Some(v) => value(query@, key@) == Some(v@),
            None => value(query@, key@) is None,
        },
{
    let text = letters(query);
    let n: usize = text.len();
    let mut start: usize = 0;
    assert(text@.subrange(0, n as int) =~= query@);
    loop
        invariant
            n == text@.len(),
            text@ == query@,
            start <= n,
            value(query@, key@) == value(text@.subrange(start as int, n as int), key@),
        decreases n - start,
    {
        let ghost rest = text@.subrange(start as int, n as int);
        let end: usize = locate(&text, start, n, '&');
        let eq: usize = locate(&text, start, end, '=');
        let ghost kv = text@.subrange(start as int, end as int);
        proof {
            assert(kv =~= rest.take(end - start));
            assert(eq < end ==> kv.take(eq - start) =~= text@.subrange(start as int, eq as int));
            assert(eq < end ==> kv.skip(eq - start + 1) =~= text@.subrange(eq + 1, end as int));
        }
        if eq < end && same(query.substring_char(start, eq), key) {
            return Some(query.substring_char(eq + 1, end).to_owned());
        }
        if end == n {
            return None;
        }
        assert(rest.skip(end - start + 1) =~= text@.subrange(end + 1, n as int));
        start = end + 1;
    }
}

/// What a request comes to.
pub enum Route<'a> {
    /// A browser asking whether it may ask.
    Preflight,
    Health,
    Run(&'a str),
    Budget,
    Days,
    Verify(&'a str),
    Page,
    Missing,
}

/// The same with queries as character strings.
pub enum RouteView {
    Preflight,
    Health,
    Run(Seq<char>),
    Budget,
    Days,
    Verify(Seq<char>),
    Page,
    Missing,
}

impl<'a> View for Route<'a> {
    type V = RouteView;

    open spec fn view(&self) -> RouteView {
        match self {
            Route::Preflight => RouteView::Preflight,
            Route::Health => RouteView::Health,
            Route::Run(q) => RouteView::Run(q@),
            Route::Budget => RouteView::Budget,
            Route::Days => RouteView::Days,
            Route::Verify(q) => RouteView::Verify(q@),
            Route::Page => RouteView::Page,
            Route::Missing => RouteView::Missing,
        }
    }
}

/// What a request line comes to.
pub open spec fn routed(line: Seq<char>) -> RouteView {
    let p = path(target(line));
    let q = query(target(line));
    if first_word(line) == "OPTIONS"@ {
        RouteView::Preflight
    } else if p == "/health"@ {
        RouteView::Health
    } else if p == "/run"@ {
        RouteView::Run(q)
    } else if p == "/budget"@ {
        RouteView::Budget
    } else if p == "/days"@ {
        RouteView::Days
    } else if p == "/verify"@ {
        RouteView::Verify(q)
    } else if p == "/"@ || p == "/index.html"@ {
        RouteView::Page
    } else {
        RouteView::Missing
    }
}

/// Work out what a request line comes to.
pub fn route<'a>(line: &'a str) -> (r: Route<'a>)
    ensures
        r@ == routed(line@),
{
    let text = letters(line);
    assert(text@.skip(0) =~= text@);
    let (start, end) = next_word(&text, 0);
    if same(line.substring_char(start, end), "OPTIONS") {
        return Route::Preflight;
    }
    let whole = asked_for(line);
    let chars = letters(whole);
    let n: usize = chars.len();
    let mark: usize = locate(&chars, 0, n, '?');
    proof {
        assert(chars@.subrange(0, n as int) =~= whole@);
        assert(whole@.subrange(0, mark as int) =~= path(whole@));
    }
    let p = whole.substring_char(0, mark);
    let q = if mark < n {
        assert(whole@.subrange(mark + 1, n as int) =~= query(whole@));
        whole.substring_char(mark + 1, n)
    } else {
        assert(whole@.subrange(n as int, n as int) =~= query(whole@));
        whole.substring_char(n, n)
    };
    if same(p, "/health") {
        Route::Health
    } else if same(p, "/run") {
        Route::Run(q)
    } else if same(p, "/budget") {
        Route::Budget
    } else if same(p, "/days") {
        Route::Days
    } else if same(p, "/verify") {
        Route::Verify(q)
    } else if same(p, "/") || same(p, "/index.html") {
        Route::Page
    } else {
        Route::Missing
    }
}

/// A reply, before it is put on the wire.
pub struct Reply {
    pub status: u16,
    pub content_type: &'static str,
    pub body: String,
}

/// Whether a reply is this one.
pub open spec fn replies(r: Reply, status: u16, content_type: Seq<char>, body: Seq<char>) -> bool {
    &&& r.status == status
    &&& r.content_type@ == content_type
    &&& r.body@ == body
}

/// What to do about a request.
pub enum Next<'a> {
    Answer(Reply),
    Health,
    Run(&'a str),
    Budget,
    Days,
    Verify(&'a str),
    Page,
}

/// Why a cold host does not measure.
pub open spec fn warming() -> Seq<char> {
    "{\"error\":\"warming\",\"detail\":\"the host is still faulting pages and settling caches; a measurement taken now would report the host waking up\"}"@
}

/// Decide what to do about a request. Measurements wait until the host is warm; a
/// cold one would measure itself waking up. Decoding a session does not wait: its
/// answer is the same on a cold host.
pub fn handle<'a>(line: &'a str, warm: bool) -> (r: Next<'a>)
    ensures
        match routed(line@) {
            RouteView::Preflight => r matches Next::Answer(a) && replies(
                a,
                204,
                "text/plain"@,
                ""@,
            ),
            RouteView::Health => r is Health,
            RouteView::Run(q) => if warm {
                r matches Next::Run(p) && p@ == q
            } else {
                r matches Next::Answer(a) && replies(a, 503, "application/json"@, warming())
            },
            RouteView::Budget => if warm {
                r is Budget
            } else {
                r matches Next::Answer(a) && replies(
                    a,
                    503,
                    "application/json"@,
                    "{\"error\":\"warming\"}"@,
                )
            },
            RouteView::Days => r is Days,
            RouteView::Verify(q) => r matches Next::Verify(p) && p@ == q,
            RouteView::Page => r is Page,
            RouteView::Missing => r matches Next::Answer(a) && replies(
                a,
                404,
                "text/plain"@,
                "not found"@,
            ),
        },
{
    match route(line) {
        Route::Preflight => Next::Answer(
            Reply { status: 204, content_type: "text/plain", body: "".to_owned() },
        ),
        Route::Health => Next::Health,
        Route::Run(q) => if warm {
            Next::Run(q)
        } else {
            Next::Answer(
                Reply {
                    status: 503,
                    content_type: "application/json",
                    body: "{\"error\":\"warming\",\"detail\":\"the host is still faulting pages and settling caches; a measurement taken now would report the host waking up\"}".to_owned(),
                },
            )
        },
        Route::Budget => if warm {
            Next::Budget
        } else {
            Next::Answer(
                Reply {
                    status: 503,
                    content_type: "application/json",
                    body: "{\"error\":\"warming\"}".to_owned(),
                },
            )
        },
        Route::Days => Next::Days,
        Route::Verify(q) => Next::Verify(q),
        Route::Page => Next::Page,
        Route::Missing => Next::Answer(
            Reply { status: 404, content_type: "text/plain", body: "not found".to_owned() },
        ),
    }
}

/// The container a run's query asks for: the sorted one unless it says otherwise.
pub fn container_in(query: &str) -> (r: Container)
    ensures
        r == (if value(query@, "container"@) == Some("btree"@) {
            Container::BTree
        } else {
            Container::Sorted
        }),
{
    match param(query, "container") {
        Some(name) => Container::parse(name.as_str()),
        None => Container::Sorted,
    }
}

/// The day a query asks for.
pub open spec fn day(query: Seq<char>) -> Seq<char> {
    match value(query, "day"@) {
        Some(d) => d,
        None => ""@,
    }
}

/// The session a query asks for, or the reply that there is none of that day.
pub fn sample_in<'a>(samples: &'a [Sample], query: &str) -> (r: Result<&'a Sample, Reply>)
    ensures
        match r {
            Ok(s) => exists|i: int|
                0 <= i < samples@.len() && *s == #[trigger] samples@[i] && s.date@ == day(query@)
                    && (forall|j: int|
                    0 <= j < i ==> (#[trigger] samples@[j]).date@ != day(query@)),
            Err(a) => replies(
                a,
                404,
                "application/json"@,
                "{\"error\":\"unknown day\",\"detail\":\"see /days for the sessions compiled into this build\"}"@,
            ) && forall|i: int|
                0 <= i < samples@.len() ==> (#[trigger] samples@[i]).date@ != day(query@),
        },
{
    let date = match param(query, "day") {
        Some(d) => d,
        None => "".to_owned(),
    };
    match find(samples, date.as_str()) {
        Some(s) => Ok(s),
        None => Err(
            Reply {
                status: 404,
                content_type: "application/json",
                body: "{\"error\":\"unknown day\",\"detail\":\"see /days for the sessions compiled into this build\"}".to_owned(),
            },
        ),
    }
}

/// What a status is called.
pub open spec fn reason(status: u16) -> Seq<char> {
    if status == 200 {
        "OK"@
    } else if status == 204 {
        "No Content"@
    } else if status == 503 {
        "Service Unavailable"@
    } else {
        "Not Found"@
    }
}

/// A reply as it goes on the wire.
pub open spec fn wire(status: u16, content_type: Seq<char>, body: Seq<char>) -> Seq<char> {
    "HTTP/1.1 "@ + decimal(status as nat) + " "@ + reason(status) + "\r\nContent-Type: "@
        + content_type + "\r\nContent-Length: "@ + decimal(encode_utf8(body).len())
        + "\r\nAccess-Control-Allow-Origin: *\r\nAccess-Control-Allow-Methods: GET, OPTIONS\r\nCache-Control: no-store\r\nConnection: close\r\n\r\n"@
        + body
}

/// Write a reply. The page may be served from elsewhere, so the browser is given
/// permission to make the call at all.
pub fn respond(status: u16, content_type: &str, body: &str) -> (r: String)
    ensures
        r@ == wire(status, content_type@, body@),
{
    let named = match status {
        200 => "OK",
        204 => "No Content",
        503 => "Service Unavailable",
        _ => "Not Found",
    };
    let mut out = "HTTP/1.1 ".to_owned();
    push_decimal(&mut out, status as u64);
    out.append(" ");
    out.append(named);
    out.append("\r\nContent-Type: ");
    out.append(content_type);
    out.append("\r\nContent-Length: ");
    push_decimal(&mut out, body.as_bytes().len() as u64);
    out.append(
        "\r\nAccess-Control-Allow-Origin: *\r\nAccess-Control-Allow-Methods: GET, OPTIONS\r\nCache-Control: no-store\r\nConnection: close\r\n\r\n",
    );
    out.append(body);
    out
}

/// The state of the host.
pub open spec fn health_text(warm: bool, warmup_ms: u64, runs_served: u64, arch: Seq<char>) -> Seq<
    char,
> {
    "{\"warm\":"@ + truth(warm) + ",\"warmup_ms\":"@ + decimal(warmup_ms as nat)
        + ",\"runs_served\":"@ + decimal(runs_served as nat) + ",\"arch\":\""@ + arch + "\"}"@
}

/// Write out the state of the host.
pub fn health_json(warm: bool, warmup_ms: u64, runs_served: u64, arch: &str) -> (r: String)
    ensures
        r@ == health_text(warm, warmup_ms, runs_served, arch@),
{
    let mut out = "{\"warm\":".to_owned();
    push_truth(&mut out, warm);
    out.append(",\"warmup_ms\":");
    push_decimal(&mut out, warmup_ms);
    out.append(",\"runs_served\":");
    push_decimal(&mut out, runs_served);
    out.append(",\"arch\":\"");
    out.append(arch);
    out.append("\"}");
    out
}

/// Texts with commas between them.
pub open spec fn listed(rows: Seq<Seq<char>>) -> Seq<char>
    decreases rows.len(),
{
    if rows.len() == 0 {
        Seq::empty()
    } else if rows.len() == 1 {
        rows[0]
    } else {
        listed(rows.drop_last()) + ","@ + rows.last()
    }
}

/// A session's date and size.
pub open spec fn day_row(s: Sample) -> Seq<char> {
    "{\"date\":\""@ + s.date@ + "\",\"bytes\":"@ + decimal(s.bytes@.len()) + "}"@
}

/// Every session there is.
pub open spec fn days_text(samples: Seq<Sample>) -> Seq<char> {
    "["@ + listed(samples.map_values(|s: Sample| day_row(s))) + "]"@
}

/// Append a row to a list.
fn push_row(out: &mut String, first: bool, row: &str)
    ensures
        final(out)@ == old(out)@ + (if first {
            row@
        } else {
            ","@ + row@
        }),
{
    if !first {
        out.append(",");
    }
    out.append(row);
    assert(first || out@ =~= old(out)@ + (","@ + row@));
}

/// One row more in a list.
proof fn lemma_listed(head: Seq<char>, rows: Seq<Seq<char>>, i: int)
    requires
        0 <= i < rows.len(),
    ensures
        head + listed(rows.take(i)) + (if i == 0 {
            rows[i]
        } else {
            ","@ + rows[i]
        }) == head + listed(rows.take(i + 1)),
{
    assert(rows.take(i + 1).drop_last() =~= rows.take(i));
    assert(rows.take(i + 1).last() == rows[i]);
    assert(head + listed(rows.take(i)) + (if i == 0 {
        rows[i]
    } else {
        ","@ + rows[i]
    }) =~= head + listed(rows.take(i + 1)));
}

/// Write out every session there is.
pub fn days_json(samples: &[Sample]) -> (r: String)
    ensures
        r@ == days_text(samples@),
{
    let ghost rows = samples@.map_values(|s: Sample| day_row(s));
    let mut out = "[".to_owned();
    let mut i: usize = 0;
    assert(out@ =~= "["@ + listed(rows.take(0)));
    while i < samples.len()
        invariant
            i <= samples@.len(),
            rows == samples@.map_values(|s: Sample| day_row(s)),
            out@ == "["@ + listed(rows.take(i as int)),
        decreases samples@.len() - i,
    {
        let mut row = "{\"date\":\"".to_owned();
        row.append(samples[i].date.as_str());
        row.append("\",\"bytes\":");
        push_decimal(&mut row, samples[i].bytes.len() as u64);
        row.append("}");
        push_row(&mut out, i == 0, row.as_str());
        proof {
            lemma_listed("["@, rows, i as int);
        }
        i = i + 1;
    }
    assert(rows.take(i as int) =~= rows);
    out.append("]");
    out
}

/// A message type and its count.
pub open spec fn type_row(t: (String, u64)) -> Seq<char> {
    "{\"name\":\""@ + t.0@ + "\",\"count\":"@ + decimal(t.1 as nat) + "}"@
}

/// A quote.
pub open spec fn quote_row(q: QuoteText) -> Seq<char> {
    "{\"symbol\":\""@ + q.symbol + "\",\"bid\":\""@ + q.bid + "\",\"bid_size\":"@ + decimal(
        q.bid_size as nat,
    ) + ",\"ask\":\""@ + q.ask + "\",\"ask_size\":"@ + decimal(q.ask_size as nat) + "}"@
}

/// A verdict, up to the list of message types.
pub open spec fn verdict_head(v: Verdict) -> Seq<char> {
    "{\"date\":\""@ + v.date@ + "\",\"format\":\""@ + v.format@ + "\",\"bytes\":"@ + decimal(
        v.bytes as nat,
    ) + ",\"packets\":"@ + decimal(v.packets as nat) + ",\"messages\":"@ + decimal(
        v.messages as nat,
    ) + ",\"errors\":"@ + decimal(v.errors as nat) + ",\"unknown\":"@ + decimal(v.unknown as nat)
        + ",\"symbols\":"@ + decimal(v.symbols as nat) + ",\"price_updates\":"@ + decimal(
        v.price_updates as nat,
    ) + ",\"trades\":"@ + decimal(v.trades as nat) + ",\"gaps\":"@ + decimal(v.gaps as nat)
        + ",\"duplicates\":"@ + decimal(v.duplicates as nat) + ",\"crossed\":"@ + decimal(
        v.crossed as nat,
    ) + ",\"low\":\""@ + v.low@ + "\",\"high\":\""@ + v.high@ + "\",\"nanos\":"@ + decimal(
        v.nanos as nat,
    ) + ",\"types\":["@
}

/// A verdict.
pub open spec fn verdict_text(v: Verdict) -> Seq<char> {
    verdict_head(v) + listed(v.types@.map_values(|t: (String, u64)| type_row(t)))
        + "],\"quotes\":["@ + listed(v.quotes@.map_values(|q: Quote| quote_row(q@))) + "]}"@
}

fn push_verdict_head(v: &Verdict) -> (r: String)
    ensures
        r@ == verdict_head(*v),
{
    let mut out = "{\"date\":\"".to_owned();
    out.append(v.date.as_str());
    out.append("\",\"format\":\"");
    out.append(v.format);
    out.append("\",\"bytes\":");
    push_decimal(&mut out, v.bytes as u64);
    out.append(",\"packets\":");
    push_decimal(&mut out, v.packets);
    out.append(",\"messages\":");
    push_decimal(&mut out, v.messages);
    out.append(",\"errors\":");
    push_decimal(&mut out, v.errors);
    out.append(",\"unknown\":");
    push_decimal(&mut out, v.unknown);
    out.append(",\"symbols\":");
    push_decimal(&mut out, v.symbols as u64);
    out.append(",\"price_updates\":");
    push_decimal(&mut out, v.price_updates);
    out.append(",\"trades\":");
    push_decimal(&mut out, v.trades);
    out.append(",\"gaps\":");
    push_decimal(&mut out, v.gaps);
    out.append(",\"duplicates\":");
    push_decimal(&mut out, v.duplicates);
    out.append(",\"crossed\":");
    push_decimal(&mut out, v.crossed);
    out.append(",\"low\":\"");
    out.append(v.low.as_str());
    out.append("\",\"high\":\"");
    out.append(v.high.as_str());
    out.append("\",\"nanos\":");
    push_wide(&mut out, v.nanos);
    out.append(",\"types\":[");
    out
}

fn push_types(out: &mut String, types: &Vec<(String, u64)>)
    ensures
        final(out)@ == old(out)@ + listed(
            types@.map_values(|t: (String, u64)| type_row(t)),
        ),
{
    let ghost rows = types@.map_values(|t: (String, u64)| type_row(t));
    let ghost head = out@;
    let mut i: usize = 0;
    assert(out@ =~= head + listed(rows.take(0)));
    while i < types.len()
        invariant
            i <= types@.len(),
            rows == types@.map_values(|t: (String, u64)| type_row(t)),
            out@ == head + listed(rows.take(i as int)),
        decreases types@.len() - i,
    {
        let mut row = "{\"name\":\"".to_owned();
        row.append(types[i].0.as_str());
        row.append("\",\"count\":");
        push_decimal(&mut row, types[i].1);
        row.append("}");
        push_row(out, i == 0, row.as_str());
        proof {
            lemma_listed(head, rows, i as int);
        }
        i = i + 1;
    }
    assert(rows.take(i as int) =~= rows);
}

fn push_quotes(out: &mut String, quotes: &Vec<Quote>)
    ensures
        final(out)@ == old(out)@ + listed(quotes@.map_values(|q: Quote| quote_row(q@))),
{
    let ghost rows = quotes@.map_values(|q: Quote| quote_row(q@));
    let ghost head = out@;
    let mut i: usize = 0;
    assert(out@ =~= head + listed(rows.take(0)));
    while i < quotes.len()
        invariant
            i <= quotes@.len(),
            rows == quotes@.map_values(|q: Quote| quote_row(q@)),
            out@ == head + listed(rows.take(i as int)),
        decreases quotes@.len() - i,
    {
        let q = &quotes[i];
        let mut row = "{\"symbol\":\"".to_owned();
        row.append(q.symbol.as_str());
        row.append("\",\"bid\":\"");
        row.append(q.bid.as_str());
        row.append("\",\"bid_size\":");
        push_decimal(&mut row, q.bid_size as u64);
        row.append(",\"ask\":\"");
        row.append(q.ask.as_str());
        row.append("\",\"ask_size\":");
        push_decimal(&mut row, q.ask_size as u64);
        row.append("}");
        push_row(out, i == 0, row.as_str());
        proof {
            lemma_listed(head, rows, i as int);
        }
        i = i + 1;
    }
    assert(rows.take(i as int) =~= rows);
}

/// Write out a verdict.
pub fn verdict_json(v: &Verdict) -> (r: String)
    ensures
        r@ == verdict_text(*v),
{
    let mut out = push_verdict_head(v);
    push_types(&mut out, &v.types);
    out.append("],\"quotes\":[");
    push_quotes(&mut out, &v.quotes);
    out.append("]}");
    out
}

/// A side of a quote, or nothing.
pub open spec fn side_text(q: Option<(Seq<char>, u32)>) -> Seq<char> {
    match q {
        Some((p, s)) => "{\"price\":\""@ + p + "\",\"size\":"@ + decimal(s as nat) + "}"@,
        None => "null"@,
    }
}

fn side_json(q: &Option<(String, u32)>) -> (r: String)
    ensures
        r@ == side_text(super::bench::worded(*q)),
{
    match q {
        Some((p, s)) => {
            let mut out = "{\"price\":\"".to_owned();
            out.append(p.as_str());
            out.append("\",\"size\":");
            push_decimal(&mut out, *s as u64);
            out.append("}");
            out
        },
        None => "null".to_owned(),
    }
}

/// Best bid and ask of a symbol.
pub open spec fn top_row(t: TopText) -> Seq<char> {
    "{\"symbol\":\""@ + t.symbol + "\",\"bid\":"@ + side_text(t.bid) + ",\"ask\":"@ + side_text(
        t.ask,
    ) + ",\"bid_levels\":"@ + decimal(t.bid_levels) + ",\"ask_levels\":"@ + decimal(t.ask_levels)
        + "}"@
}

fn push_tops(out: &mut String, tops: &Vec<TopOfBook>)
    ensures
        final(out)@ == old(out)@ + listed(tops@.map_values(|t: TopOfBook| top_row(t@))),
{
    let ghost rows = tops@.map_values(|t: TopOfBook| top_row(t@));
    let ghost head = out@;
    let mut i: usize = 0;
    assert(out@ =~= head + listed(rows.take(0)));
    while i < tops.len()
        invariant
            i <= tops@.len(),
            rows == tops@.map_values(|t: TopOfBook| top_row(t@)),
            out@ == head + listed(rows.take(i as int)),
        decreases tops@.len() - i,
    {
        let t = &tops[i];
        let mut row = "{\"symbol\":\"".to_owned();
        row.append(t.symbol.as_str());
        row.append("\",\"bid\":");
        row.append(side_json(&t.bid).as_str());
        row.append(",\"ask\":");
        row.append(side_json(&t.ask).as_str());
        row.append(",\"bid_levels\":");
        push_decimal(&mut row, t.bid_levels as u64);
        row.append(",\"ask_levels\":");
        push_decimal(&mut row, t.ask_levels as u64);
        row.append("}");
        push_row(out, i == 0, row.as_str());
        proof {
            lemma_listed(head, rows, i as int);
        }
        i = i + 1;
    }
    assert(rows.take(i as int) =~= rows);
}

/// A report, up to the list of symbols.
pub open spec fn report_head(r: Report, arch: Seq<char>) -> Seq<char> {
    "{\"container\":\""@ + r.container@ + "\",\"packets\":"@ + decimal(r.packets as nat)
        + ",\"messages\":"@ + decimal(r.messages as nat) + ",\"book_updates\":"@ + decimal(
        r.book_updates as nat,
    ) + ",\"orders\":"@ + decimal(r.orders as nat) + ",\"ns_per_packet\":"@ + r.ns_per_packet@
        + ",\"spread\":"@ + r.spread@ + ",\"duplicates_suppressed\":"@ + decimal(
        r.duplicates_suppressed as nat,
    ) + ",\"gaps_detected\":"@ + decimal(r.gaps_detected as nat) + ",\"gaps_injected\":"@
        + decimal(r.gaps_injected as nat) + ",\"crossed_when_stable\":"@ + decimal(
        r.crossed_when_stable as nat,
    ) + ",\"service_p50\":"@ + decimal(r.service_p50 as nat) + ",\"service_p99\":"@ + decimal(
        r.service_p99 as nat,
    ) + ",\"corrected_p50\":"@ + decimal(r.corrected_p50 as nat) + ",\"corrected_p99\":"@
        + decimal(r.corrected_p99 as nat) + ",\"behind_schedule\":"@ + decimal(
        r.behind_schedule as nat,
    ) + ",\"arch\":\""@ + arch + "\",\"top\":["@
}

/// A report.
pub open spec fn report_text(r: Report, arch: Seq<char>) -> Seq<char> {
    report_head(r, arch) + listed(r.top@.map_values(|t: TopOfBook| top_row(t@))) + "]}"@
}

/// Write out a report.
pub fn to_json(r: &Report, arch: &str) -> (out: String)
    ensures
        out@ == report_text(*r, arch@),
{
    let mut out = "{\"container\":\"".to_owned();
    out.append(r.container);
    out.append("\",\"packets\":");
    push_decimal(&mut out, r.packets);
    out.append(",\"messages\":");
    push_decimal(&mut out, r.messages);
    out.append(",\"book_updates\":");
    push_decimal(&mut out, r.book_updates);
    out.append(",\"orders\":");
    push_decimal(&mut out, r.orders);
    out.append(",\"ns_per_packet\":");
    out.append(r.ns_per_packet.as_str());
    out.append(",\"spread\":");
    out.append(r.spread.as_str());
    out.append(",\"duplicates_suppressed\":");
    push_decimal(&mut out, r.duplicates_suppressed);
    out.append(",\"gaps_detected\":");
    push_decimal(&mut out, r.gaps_detected);
    out.append(",\"gaps_injected\":");
    push_decimal(&mut out, r.gaps_injected);
    out.append(",\"crossed_when_stable\":");
    push_decimal(&mut out, r.crossed_when_stable);
    out.append(",\"service_p50\":");
    push_decimal(&mut out, r.service_p50);
    out.append(",\"service_p99\":");
    push_decimal(&mut out, r.service_p99);
    out.append(",\"corrected_p50\":");
    push_decimal(&mut out, r.corrected_p50);
    out.append(",\"corrected_p99\":");
    push_decimal(&mut out, r.corrected_p99);
    out.append(",\"behind_schedule\":");
    push_decimal(&mut out, r.behind_schedule);
    out.append(",\"arch\":\"");
    out.append(arch);
    out.append("\",\"top\":[");
    push_tops(&mut out, &r.top);
    out.append("]}");
    out
}

/// A stage's costs per packet, as text.
pub struct StageText {
    pub cumulative: String,
    pub this_stage: String,
    pub spread: String,
}

/// A stage's cost.
pub open spec fn stage_row(c: StageCost, t: StageText) -> Seq<char> {
    "{\"name\":\""@ + c.stage.title() + "\",\"cumulative\":"@ + t.cumulative@
        + ",\"this_stage\":"@ + t.this_stage@ + ",\"spread\":"@ + t.spread@ + ",\"unresolved\":"@
        + truth(c.unresolved) + "}"@
}

/// The stages' costs, each with its texts.
pub open spec fn stage_rows(costs: Seq<StageCost>, texts: Seq<StageText>) -> Seq<Seq<char>> {
    Seq::new(costs.len(), |i: int| stage_row(costs[i], texts[i]))
}

/// The stage budget.
pub open spec fn budget_text(arch: Seq<char>, costs: Seq<StageCost>, texts: Seq<StageText>) -> Seq<
    char,
> {
    "{\"arch\":\""@ + arch + "\",\"unresolved\":"@ + decimal(unresolved_in(costs)) + ",\"of\":"@
        + decimal(costs.len()) + ",\"stages\":["@ + listed(stage_rows(costs, texts)) + "]}"@
}

/// Write out a stage budget.
pub fn budget_json(arch: &str, costs: &[StageCost], texts: &[StageText]) -> (r: String)
    requires
        texts@.len() == costs@.len(),
    ensures
        r@ == budget_text(arch@, costs@, texts@),
{
    let mut out = "{\"arch\":\"".to_owned();
    out.append(arch);
    out.append("\",\"unresolved\":");
    push_decimal(&mut out, count_unresolved(costs) as u64);
    out.append(",\"of\":");
    push_decimal(&mut out, costs.len() as u64);
    out.append(",\"stages\":[");
    let ghost rows = stage_rows(costs@, texts@);
    let ghost head = out@;
    let mut i: usize = 0;
    assert(out@ =~= head + listed(rows.take(0)));
    while i < costs.len()
        invariant
            i <= costs@.len(),
            texts@.len() == costs@.len(),
            rows == stage_rows(costs@, texts@),
            out@ == head + listed(rows.take(i as int)),
        decreases costs@.len() - i,
    {
        let t = &texts[i];
        let mut row = "{\"name\":\"".to_owned();
        row.append(costs[i].stage.name());
        row.append("\",\"cumulative\":");
        row.append(t.cumulative.as_str());
        row.append(",\"this_stage\":");
        row.append(t.this_stage.as_str());
        row.append(",\"spread\":");
        row.append(t.spread.as_str());
        row.append(",\"unresolved\":");
        push_truth(&mut row, costs[i].unresolved);
        row.append("}");
        push_row(&mut out, i == 0, row.as_str());
        proof {
            lemma_listed(head, rows, i as int);
        }
        i = i + 1;
    }
    assert(rows.take(i as int) =~= rows);
    out.append("]}");
    out
}

}
