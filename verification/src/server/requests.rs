//! What is read off a request, said of requests put together from their parts.
use vstd::prelude::*;
use vstd::utf8::encode_utf8;

use super::http::{
    after_word, blank, day, first_word, lemma_place, lemma_word_end, lemma_word_start, path,
    query, reason, routed, setting, target, value, warming, wire, RouteView,
};
use crate::text::decimal;

verus! {

/// A text without blanks in it.
pub open spec fn unbroken(s: Seq<char>) -> bool {
    forall|i: int| 0 <= i < s.len() ==> !blank(#[trigger] s[i])
}

/// Nothing but blanks.
pub open spec fn empty_space(s: Seq<char>) -> bool {
    forall|i: int| 0 <= i < s.len() ==> blank(#[trigger] s[i])
}

/// A text that does not have a character in it.
pub open spec fn without(s: Seq<char>, c: char) -> bool {
    forall|i: int| 0 <= i < s.len() ==> #[trigger] s[i] != c
}

/// White space is what Unicode says it is.
pub proof fn law_blanks_are_white_space(c: char)
    ensures
        blank(c) <==> set![
            0x09int, 0x0a, 0x0b, 0x0c, 0x0d, 0x20, 0x85, 0xa0, 0x1680, 0x2000, 0x2001, 0x2002,
            0x2003, 0x2004, 0x2005, 0x2006, 0x2007, 0x2008, 0x2009, 0x200a, 0x2028, 0x2029, 0x202f,
            0x205f, 0x3000,
        ].contains(c as int),
{
}

/// The first word is what stands between the blanks in front and the next blank.
proof fn lemma_first_word(gap: Seq<char>, word: Seq<char>, rest: Seq<char>)
    requires
        empty_space(gap),
        unbroken(word),
        rest.len() == 0 || blank(rest[0]),
        word.len() > 0 || rest.len() == 0,
    ensures
        first_word(gap + word + rest) == word,
        after_word(gap + word + rest) == rest,
{
    let s = gap + word + rest;
    let k = gap.len() as int;
    assert forall|i: int| 0 <= i < k implies blank(#[trigger] s[i]) by {
        assert(s[i] == gap[i]);
    }
    if word.len() > 0 {
        assert(s[k] == word[0]);
    }
    lemma_word_start(s, k);
    let t = s.skip(k);
    assert(t =~= word + rest);
    assert forall|i: int| 0 <= i < word.len() implies !blank(#[trigger] t[i]) by {
        assert(t[i] == word[i]);
    }
    if rest.len() > 0 {
        assert(t[word.len() as int] == rest[0]);
    }
    lemma_word_end(t, word.len() as int);
    assert(t.take(word.len() as int) =~= word);
    assert(t.skip(word.len() as int) =~= rest);
}

/// A request line asks for its second word, whatever blanks stand around it and
/// whatever comes behind; one without a second word asks for the root.
pub proof fn law_a_request_asks_for_its_second_word(
    front: Seq<char>,
    method: Seq<char>,
    gap: Seq<char>,
    wanted: Seq<char>,
    rest: Seq<char>,
)
    requires
        empty_space(front),
        unbroken(method),
        method.len() > 0,
        empty_space(gap),
        gap.len() > 0,
        unbroken(wanted),
        rest.len() == 0 || blank(rest[0]),
        wanted.len() > 0 || rest.len() == 0,
    ensures
        ({
            let line = front + method + (gap + wanted + rest);
            &&& first_word(line) == method
            &&& wanted.len() > 0 ==> target(line) == wanted
            &&& wanted.len() == 0 ==> target(line) == "/"@
        }),
{
    let more = gap + wanted + rest;
    assert(more[0] == gap[0]);
    lemma_first_word(front, method, more);
    lemma_first_word(gap, wanted, rest);
}

/// A target is cut at its first question mark: the path before it, the query behind.
pub proof fn law_a_target_is_cut_at_its_question_mark(p: Seq<char>, q: Seq<char>)
    requires
        without(p, '?'),
    ensures
        path(p) == p,
        query(p) == Seq::<char>::empty(),
        path(p + seq!['?'] + q) == p,
        query(p + seq!['?'] + q) == q,
{
    let t = p + seq!['?'] + q;
    let n = p.len() as int;
    lemma_place(p, '?', n);
    assert(p.take(n) =~= p);
    assert forall|i: int| 0 <= i < n implies #[trigger] t[i] != '?' by {
        assert(t[i] == p[i]);
    }
    assert(t[n] == '?');
    lemma_place(t, '?', n);
    assert(t.take(n) =~= p);
    assert(t.skip(n + 1) =~= q);
}

/// One part of a query: a key with its value, or a text with no equals sign.
pub enum Part {
    Pair(Seq<char>, Seq<char>),
    Bare(Seq<char>),
}

impl Part {
    pub open spec fn text(self) -> Seq<char> {
        match self {
            Part::Pair(k, v) => k + seq!['='] + v,
            Part::Bare(t) => t,
        }
    }

    /// Keys end at their equals sign, and no part has an ampersand in it.
    pub open spec fn sound(self) -> bool {
        match self {
            Part::Pair(k, v) => without(k, '=') && without(k, '&') && without(v, '&'),
            Part::Bare(t) => without(t, '=') && without(t, '&'),
        }
    }
}

/// A query: its parts with ampersands between them.
pub open spec fn joined(parts: Seq<Part>) -> Seq<char>
    decreases parts.len(),
{
    if parts.len() == 0 {
        Seq::empty()
    } else if parts.len() == 1 {
        parts[0].text()
    } else {
        parts[0].text() + seq!['&'] + joined(parts.drop_first())
    }
}

proof fn lemma_part(p: Part, key: Seq<char>)
    requires
        p.sound(),
    ensures
        without(p.text(), '&'),
        setting(p.text(), key) == match p {
            Part::Pair(k, v) => if k == key {
                Some(v)
            } else {
                None
            },
            Part::Bare(_) => None,
        },
{
    match p {
        Part::Pair(k, v) => {
            let t = p.text();
            let n = k.len() as int;
            assert forall|i: int| 0 <= i < t.len() implies #[trigger] t[i] != '&' by {
                if i < n {
                    assert(t[i] == k[i]);
                } else if i > n {
                    assert(t[i] == v[i - n - 1]);
                }
            }
            assert forall|i: int| 0 <= i < n implies #[trigger] t[i] != '=' by {
                assert(t[i] == k[i]);
            }
            assert(t[n] == '=');
            lemma_place(t, '=', n);
            assert(t.take(n) =~= k);
            assert(t.skip(n + 1) =~= v);
        },
        Part::Bare(t) => {
            lemma_place(t, '=', t.len() as int);
        },
    }
}

/// Part `i` gives a key its value and no part before it does.
pub open spec fn first_to_name(parts: Seq<Part>, key: Seq<char>, i: int) -> bool {
    &&& 0 <= i < parts.len()
    &&& parts[i] matches Part::Pair(k, _) && k == key
    &&& forall|j: int|
        0 <= j < i ==> !((#[trigger] parts[j]) matches Part::Pair(k, _) && k == key)
}

/// A query gives a key the value of the first part that names it, as it is written;
/// none if no part names it.
pub proof fn law_a_query_gives_the_first_value(parts: Seq<Part>, key: Seq<char>)
    requires
        forall|i: int| 0 <= i < parts.len() ==> (#[trigger] parts[i]).sound(),
        parts.len() > 0,
    ensures
        value(joined(parts), key) is None ==> forall|i: int|
            0 <= i < parts.len() ==> !((#[trigger] parts[i]) matches Part::Pair(k, _) && k == key),
        value(joined(parts), key) matches Some(v) ==> exists|i: int|
            #[trigger] first_to_name(parts, key, i) && parts[i]->Pair_1 == v,
    decreases parts.len(),
{
    let q = joined(parts);
    let t = parts[0].text();
    let n = t.len() as int;
    assert(parts[0].sound());
    lemma_part(parts[0], key);
    if parts.len() == 1 {
        lemma_place(q, '&', n);
        assert(q.take(n) =~= t);
        if value(q, key) is Some {
            assert(first_to_name(parts, key, 0));
        }
    } else {
        let more = parts.drop_first();
        assert forall|i: int| 0 <= i < n implies #[trigger] q[i] != '&' by {
            assert(q[i] == t[i]);
        }
        assert(q[n] == '&');
        lemma_place(q, '&', n);
        assert(q.take(n) =~= t);
        assert(q.skip(n + 1) =~= joined(more));
        assert forall|i: int| 0 <= i < more.len() implies (#[trigger] more[i]).sound() by {
            assert(more[i] == parts[i + 1]);
        }
        law_a_query_gives_the_first_value(more, key);
        if setting(t, key) is Some {
            assert(first_to_name(parts, key, 0));
        } else {
            if value(q, key) is Some {
                let i = choose|i: int|
                    #[trigger] first_to_name(more, key, i) && more[i]->Pair_1 == value(q, key)->Some_0;
                assert(more[i] == parts[i + 1]);
                assert forall|j: int| 0 <= j < i + 1 implies !((#[trigger] parts[j]) matches Part::Pair(
                    k,
                    _,
                ) && k == key) by {
                    if j > 0 {
                        assert(parts[j] == more[j - 1]);
                    }
                }
                assert(first_to_name(parts, key, i + 1));
            } else {
                assert forall|i: int| 0 <= i < parts.len() implies !((#[trigger] parts[i]) matches Part::Pair(
                    k,
                    _,
                ) && k == key) by {
                    if i > 0 {
                        assert(parts[i] == more[i - 1]);
                    }
                }
            }
        }
    }
}

/// The day a query names is the value it gives `day`; without one there is none.
pub proof fn law_the_day_is_the_one_named(q: Seq<char>)
    ensures
        value(q, "day"@) matches Some(d) ==> day(q) == d,
        value(q, "day"@) is None ==> day(q).len() == 0,
{
    reveal_strlit("");
}

/// A browser asking first is told it may, whatever it asks for. Everything else goes by
/// its path alone: the host's state, a run and a decoded session with their query, the
/// stage budget, the sessions there are, the page; anything else is missing.
pub proof fn law_requests_go_by_their_path(
    front: Seq<char>,
    method: Seq<char>,
    gap: Seq<char>,
    p: Seq<char>,
    q: Seq<char>,
    rest: Seq<char>,
)
    requires
        empty_space(front),
        unbroken(method),
        method.len() > 0,
        empty_space(gap),
        gap.len() > 0,
        unbroken(p),
        unbroken(q),
        without(p, '?'),
        p.len() > 0,
        rest.len() == 0 || blank(rest[0]),
    ensures
        ({
            let asked = front + method + (gap + (p + seq!['?'] + q) + rest);
            let plain = front + method + (gap + p + rest);
            let none = Seq::<char>::empty();
            let known = p == "/health"@ || p == "/run"@ || p == "/budget"@ || p == "/days"@ || p
                == "/verify"@ || p == "/"@ || p == "/index.html"@;
            &&& method == "OPTIONS"@ ==> routed(asked) is Preflight && routed(plain) is Preflight
            &&& method != "OPTIONS"@ ==> {
                &&& p == "/health"@ ==> routed(asked) is Health && routed(plain) is Health
                &&& p == "/run"@ ==> routed(asked) == RouteView::Run(q) && routed(plain)
                    == RouteView::Run(none)
                &&& p == "/budget"@ ==> routed(asked) is Budget && routed(plain) is Budget
                &&& p == "/days"@ ==> routed(asked) is Days && routed(plain) is Days
                &&& p == "/verify"@ ==> routed(asked) == RouteView::Verify(q) && routed(plain)
                    == RouteView::Verify(none)
                &&& (p == "/"@ || p == "/index.html"@) ==> routed(asked) is Page && routed(
                    plain,
                ) is Page
                &&& !known ==> routed(asked) is Missing && routed(plain) is Missing
            }
        }),
{
    let t = p + seq!['?'] + q;
    assert(unbroken(t)) by {
        assert forall|i: int| 0 <= i < t.len() implies !blank(#[trigger] t[i]) by {
            if i < p.len() {
                assert(t[i] == p[i]);
            } else if i > p.len() {
                assert(t[i] == q[i - p.len() - 1]);
            }
        }
    }
    law_a_request_asks_for_its_second_word(front, method, gap, t, rest);
    law_a_request_asks_for_its_second_word(front, method, gap, p, rest);
    law_a_target_is_cut_at_its_question_mark(p, q);
    lemma_paths_differ();
}

proof fn lemma_paths_differ()
    ensures
        "/health"@.len() == 7,
        "/run"@.len() == 4,
        "/budget"@ != "/health"@,
        "/budget"@.len() == 7,
        "/days"@.len() == 5,
        "/verify"@.len() == 7,
        "/verify"@ != "/health"@,
        "/verify"@ != "/budget"@,
        "/"@.len() == 1,
        "/index.html"@.len() == 11,
{
    reveal_strlit("/health");
    reveal_strlit("/run");
    reveal_strlit("/budget");
    reveal_strlit("/days");
    reveal_strlit("/verify");
    reveal_strlit("/");
    reveal_strlit("/index.html");
    assert("/budget"@[1] == 'b' && "/health"@[1] == 'h' && "/verify"@[1] == 'v');
}

/// Statuses are called what they are called everywhere, and a cold host says why it does
/// not measure.
pub proof fn law_statuses_have_their_names()
    ensures
        warming()
            == "{\"error\":\"warming\",\"detail\":\"the host is still faulting pages and settling caches; a measurement taken now would report the host waking up\"}"@,
        reason(200) == "OK"@,
        reason(204) == "No Content"@,
        reason(404) == "Not Found"@,
        reason(503) == "Service Unavailable"@,
{
}

/// A reply says its status, what its body is and how many bytes that takes, lets any
/// origin read it and nothing keep it, and ends with its body behind an empty line.
pub proof fn law_a_reply_is_its_head_and_its_body(
    status: u16,
    content_type: Seq<char>,
    body: Seq<char>,
)
    ensures
        wire(status, content_type, body) == ("HTTP/1.1 "@ + decimal(status as nat) + " "@ + reason(
            status,
        )) + ("\r\nContent-Type: "@ + content_type) + ("\r\nContent-Length: "@ + decimal(
            encode_utf8(body).len(),
        ))
            + "\r\nAccess-Control-Allow-Origin: *\r\nAccess-Control-Allow-Methods: GET, OPTIONS\r\nCache-Control: no-store\r\nConnection: close\r\n\r\n"@
            + body,
        wire(status, content_type, body).skip(
            wire(status, content_type, body).len() - body.len(),
        ) == body,
{
    let w = wire(status, content_type, body);
    let a = "HTTP/1.1 "@ + decimal(status as nat) + " "@ + reason(status);
    let b = a + "\r\nContent-Type: "@ + content_type;
    let c = b + "\r\nContent-Length: "@ + decimal(encode_utf8(body).len());
    assert(b =~= a + ("\r\nContent-Type: "@ + content_type));
    assert(c =~= b + ("\r\nContent-Length: "@ + decimal(encode_utf8(body).len())));
    assert(w.skip(w.len() - body.len()) =~= body);
}

}
