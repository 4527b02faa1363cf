//! Eight-byte, space-padded ticker symbols.
//!
//! DEEP carries the symbol inline as a fixed 8-byte field padded with spaces:
//! `AAPL` is `b"AAPL    "`. Kept as the raw array it is `Copy`, eight bytes, and
//! compares as a single `u64`, which makes it a cheap hash key for the
//! per-symbol book.
use vstd::prelude::*;
use vstd::string::StringExecFns;
use vstd::string::StringSliceAdditionalSpecFns;
use vstd::utf8::{decode_utf8, encode_utf8, is_ascii_chars, valid_utf8};

use crate::bytes::{le64, lemma_le64_injective, lemma_le64_round_trip, u32_bytes, u64_le};
use crate::text::{hex, push_hex, utf8, write_text};

verus! {

/// A fixed-width, space-padded ticker.
#[derive(Clone, Copy, PartialEq, Eq, PartialOrd, Ord, Hash)]
pub struct Symbol(pub [u8; 8]);

impl Default for Symbol {
    /// Eight zero bytes.
    fn default() -> (r: Symbol)
        ensures
            r.0@ == Seq::new(8, |i: int| 0u8),
    {
        let r = Symbol([0; 8]);
        assert(r.0@ =~= Seq::new(8, |i: int| 0u8));
        r
    }
}

/// How many bytes of `s` are left once trailing spaces are dropped.
pub open spec fn unpadded_len(s: Seq<u8>) -> nat
    decreases s.len(),
{
    if s.len() > 0 && s.last() == 0x20 {
        unpadded_len(s.drop_last())
    } else {
        s.len()
    }
}

/// `s` without its trailing spaces.
pub open spec fn unpadded(s: Seq<u8>) -> Seq<u8> {
    s.take(unpadded_len(s) as int)
}

/// The first eight bytes of `s`, padded with spaces if there are fewer.
pub open spec fn padded(s: Seq<u8>) -> Seq<u8> {
    Seq::new(
        8,
        |i: int|
            if i < s.len() {
                s[i]
            } else {
                0x20
            },
    )
}

/// Bytes as a bracketed list of two-digit hexadecimal numbers.
pub open spec fn hex_list(s: Seq<u8>) -> Seq<char>
    decreases s.len(),
{
    if s.len() == 0 {
        "["@
    } else if s.len() == 1 {
        "["@ + hex(s[0])
    } else {
        hex_list(s.drop_last()) + ", "@ + hex(s.last())
    }
}

/// Dropping padding drops nothing but spaces, and leaves none at the end.
pub proof fn lemma_unpadded(s: Seq<u8>)
    ensures
        unpadded_len(s) <= s.len(),
        forall|i: int| unpadded_len(s) <= i < s.len() ==> s[i] == 0x20,
        unpadded_len(s) > 0 ==> s[unpadded_len(s) - 1] != 0x20,
    decreases s.len(),
{
    if s.len() > 0 && s.last() == 0x20 {
        lemma_unpadded(s.drop_last());
        assert forall|i: int| unpadded_len(s) <= i < s.len() implies s[i] == 0x20 by {
            if i < s.len() - 1 {
                assert(s.drop_last()[i] == 0x20);
            }
        }
    }
}

/// The unpadded length is the only one that drops spaces and leaves none.
pub proof fn lemma_unpadded_unique(s: Seq<u8>, n: nat)
    requires
        n <= s.len(),
        forall|i: int| n <= i < s.len() ==> s[i] == 0x20,
        n > 0 ==> s[n - 1] != 0x20,
    ensures
        unpadded_len(s) == n,
{
    lemma_unpadded(s);
    if n < unpadded_len(s) {
        assert(s[unpadded_len(s) - 1] == 0x20);
    }
    if unpadded_len(s) < n {
        assert(s[n - 1] == 0x20);
    }
}

/// A ticker of at most eight bytes that does not end in a space survives being
/// padded into a symbol and trimmed back out.
pub proof fn lemma_ticker_round_trip(s: Seq<u8>)
    requires
        s.len() <= 8,
        s.len() > 0 ==> s.last() != 0x20,
    ensures
        unpadded(padded(s)) == s,
{
    lemma_unpadded_unique(padded(s), s.len());
    assert(unpadded(padded(s)) =~= s);
}

/// Only seven bits of every byte are used.
pub open spec fn is_ascii(s: Seq<u8>) -> bool {
    forall|i: int| 0 <= i < s.len() ==> #[trigger] s[i] < 0x80
}

/// The characters of ASCII bytes, one for one.
pub open spec fn letters(s: Seq<u8>) -> Seq<char> {
    s.map_values(|b: u8| b as char)
}

/// ASCII bytes are text, and say what they look like.
proof fn lemma_ascii_is_text(s: Seq<u8>)
    requires
        is_ascii(s),
    ensures
        valid_utf8(s),
        decode_utf8(s) == letters(s),
        encode_utf8(letters(s)) == s,
{
    let chars = letters(s);
    assert forall|i: int| 0 <= i < chars.len() implies '\0' <= #[trigger] chars[i] <= '\u{7f}'
        && chars[i] as u8 == s[i] by {
        assert(s[i] < 0x80);
    }
    assert(is_ascii_chars(chars));
    vstd::utf8::is_ascii_chars_encode_utf8(chars);
    assert(encode_utf8(chars) =~= s);
    vstd::utf8::encode_utf8_valid_utf8(chars);
    vstd::utf8::encode_utf8_decode_utf8(chars);
}

/// An ASCII ticker made into a symbol reads back as the same text, if it fits and
/// does not end in a space.
pub proof fn law_tickers_read_back(s: Symbol, ticker: Seq<char>)
    requires
        s.0@ == padded(encode_utf8(ticker)),
        is_ascii_chars(ticker),
        ticker.len() <= 8,
        ticker.len() > 0 ==> ticker.last() != ' ',
    ensures
        is_ascii(s.ticker()),
        s.text() == ticker,
{
    let bytes = encode_utf8(ticker);
    vstd::utf8::is_ascii_chars_encode_utf8(ticker);
    assert forall|i: int| 0 <= i < bytes.len() implies #[trigger] bytes[i] < 0x80 && bytes[i]
        as char == ticker[i] by {
        assert('\0' <= ticker[i] <= '\u{7f}');
        assert(ticker[i] as u8 == bytes[i]);
    }
    lemma_ticker_round_trip(bytes);
    assert(letters(bytes) =~= ticker);
}

/// Comparing symbols as integers agrees with comparing their bytes.
pub proof fn lemma_key_identifies(a: Symbol, b: Symbol)
    ensures
        a.key() == b.key() <==> a == b,
{
    if a.key() == b.key() {
        lemma_le64_injective(a.0@, b.0@);
        assert(a.0 =~= b.0);
    }
}

impl Symbol {
    /// The eight bytes as one little-endian integer.
    pub open spec fn key(self) -> u64 {
        le64(self.0@, 0) as u64
    }

    /// The ticker without its padding.
    pub open spec fn ticker(self) -> Seq<u8> {
        unpadded(self.0@)
    }

    /// The symbol as text: the ticker if it is ASCII, its bytes if not.
    pub open spec fn text(self) -> Seq<char> {
        if is_ascii(self.ticker()) {
            letters(self.ticker())
        } else {
            hex_list(self.0@) + "]"@
        }
    }

    pub fn from_bytes(b: [u8; 8]) -> (r: Symbol)
        ensures
            r.0 == b,
    {
        Symbol(b)
    }

    /// Interpret the eight bytes as one integer, low byte first.
    ///
    /// Symbol equality is the most common comparison in the whole pipeline, and
    /// as a `u64` it is a single instruction rather than a walk over bytes.
    pub fn as_u64(self) -> (r: u64)
        ensures
            r == self.key(),
    {
        u64_le(&self.0, 0)
    }

    /// The symbol whose integer form is `key`.
    pub fn from_u64(key: u64) -> (r: Symbol)
        ensures
            r.key() == key,
    {
        let lo: [u8; 4] = u32_bytes((key % 0x1_0000_0000) as u32);
        let hi: [u8; 4] = u32_bytes((key / 0x1_0000_0000) as u32);
        let r = Symbol([lo[0], lo[1], lo[2], lo[3], hi[0], hi[1], hi[2], hi[3]]);
        proof {
            lemma_le64_round_trip(key as int);
            assert(r.0@ =~= lo@ + hi@);
        }
        r
    }

    /// The ticker without its padding.
    pub fn trimmed(&self) -> (r: &[u8])
        ensures
            r@ == self.ticker(),
    {
        let bytes: &[u8] = &self.0;
        let mut end: usize = 8;
        while end > 0 && bytes[end - 1] == 0x20
            invariant
                bytes@ == self.0@,
                0 <= end <= 8,
                forall|i: int| end <= i < 8 ==> bytes@[i] == 0x20,
            decreases end,
        {
            end = end - 1;
        }
        proof {
            lemma_unpadded_unique(self.0@, end as nat);
        }
        vstd::slice::slice_subrange(bytes, 0, end)
    }

    /// The ticker as text, if it is ASCII. Not on the hot path.
    pub fn as_str(&self) -> (r: Option<&str>)
        ensures
            r is Some <==> forall|i: int|
                0 <= i < self.ticker().len() ==> #[trigger] self.ticker()[i] < 0x80,
            r matches Some(s) ==> s@ == letters(self.ticker()),
    {
        broadcast use vstd::utf8::encode_utf8_decode_utf8;

        let bytes = self.trimmed();
        let mut i: usize = 0;
        while i < bytes.len()
            invariant
                i <= bytes@.len(),
                bytes@ == self.ticker(),
                forall|j: int| 0 <= j < i ==> #[trigger] bytes@[j] < 0x80,
            decreases bytes@.len() - i,
        {
            if bytes[i] >= 0x80 {
                assert(self.ticker()[i as int] >= 0x80);
                return None;
            }
            i = i + 1;
        }
        proof {
            lemma_ascii_is_text(bytes@);
        }
        utf8(bytes)
    }

    /// Build from a ticker. Longer than 8 bytes truncates, which matches what the
    /// wire format can represent.
    pub fn from_ticker(s: &str) -> (r: Symbol)
        ensures
            r.0@ == padded(s.spec_bytes()),
    {
        let bytes = s.as_bytes();
        let mut b: [u8; 8] = [0x20; 8];
        let mut i: usize = 0;
        while i < 8 && i < bytes.len()
            invariant
                i <= 8,
                i <= bytes@.len(),
                forall|j: int| 0 <= j < i ==> b@[j] == bytes@[j],
                forall|j: int| i <= j < 8 ==> b@[j] == 0x20,
            decreases 8 - i,
        {
            b[i] = bytes[i];
            i = i + 1;
        }
        assert(b@ =~= padded(bytes@));
        Symbol(b)
    }

    /// Append the symbol to a text.
    pub fn push_text(&self, out: &mut String)
        ensures
            final(out)@ == old(out)@ + self.text(),
    {
        match self.as_str() {
            Some(s) => {
                out.append(s);
            },
            None => {
                let ghost start = out@;
                out.append("[");
                let mut i: usize = 0;
                assert(self.0@.take(0) =~= Seq::<u8>::empty());
                while i < 8
                    invariant
                        i <= 8,
                        out@ == start + hex_list(self.0@.take(i as int)),
                    decreases 8 - i,
                {
                    if i > 0 {
                        out.append(", ");
                    }
                    push_hex(out, self.0[i]);
                    proof {
                        let s = self.0@.take(i + 1);
                        assert(s.drop_last() =~= self.0@.take(i as int));
                        assert(out@ =~= start + hex_list(s));
                    }
                    i = i + 1;
                }
                assert(self.0@.take(8) =~= self.0@);
                out.append("]");
                assert(out@ =~= start + self.text());
            },
        }
    }

    /// The symbol as text.
    pub fn to_string(&self) -> (r: String)
        ensures
            r@ == self.text(),
    {
        let mut out = String::new();
        self.push_text(&mut out);
        assert(out@ =~= self.text());
        out
    }

    /// The symbol as a diagnostic names it.
    pub fn debug_text(&self) -> (r: String)
        ensures
            r@ == "Symbol("@ + self.text() + ")"@,
    {
        let mut out = String::new();
        out.append("Symbol(");
        self.push_text(&mut out);
        out.append(")");
        assert(out@ =~= "Symbol("@ + self.text() + ")"@);
        out
    }
}

impl std::fmt::Debug for Symbol {
    /// Writes [`Symbol::debug_text`].
    fn fmt(&self, f: &mut std::fmt::Formatter<'_>) -> (r: std::fmt::Result) {
        let text = self.debug_text();
        write_text(f, text.as_str())
    }
}


/// A symbol's key counts its bytes by place, the first lowest.
pub proof fn law_a_key_counts_the_first_byte_lowest(s: Symbol)
    ensures
        s.key() == s.0@[0] + 0x100 * s.0@[1] + 0x1_0000 * s.0@[2] + 0x100_0000 * s.0@[3]
            + 0x1_0000_0000 * s.0@[4] + 0x100_0000_0000 * s.0@[5] + 0x1_0000_0000_0000 * s.0@[6]
            + 0x100_0000_0000_0000 * s.0@[7],
{
}

/// A ticker is cut to eight bytes and filled up with spaces.
pub proof fn law_a_ticker_is_cut_or_filled_to_eight(s: Seq<u8>)
    ensures
        padded(s).len() == 8,
        s.len() >= 8 ==> padded(s) == s.take(8),
        s.len() < 8 ==> padded(s).take(s.len() as int) == s && forall|i: int|
            s.len() <= i < 8 ==> padded(s)[i] == 0x20,
{
    if s.len() >= 8 {
        assert(padded(s) =~= s.take(8));
    } else {
        assert(padded(s).take(s.len() as int) =~= s);
    }
}

/// Place `i` of a bracketed list holds a byte, after a comma and a space unless it is
/// the first.
pub open spec fn shows(list: Seq<char>, i: int, b: u8) -> bool {
    &&& list[4 * i + 1] == hex(b)[0]
    &&& list[4 * i + 2] == hex(b)[1]
    &&& i > 0 ==> list[4 * i - 1] == ',' && list[4 * i] == ' '
}

proof fn lemma_hex_list(s: Seq<u8>)
    requires
        s.len() > 0,
    ensures
        hex_list(s).len() == 4 * s.len() - 1,
        hex_list(s)[0] == '[',
        forall|i: int| 0 <= i < s.len() ==> #[trigger] shows(hex_list(s), i, s[i]),
    decreases s.len(),
{
    reveal_strlit("[");
    reveal_strlit(", ");
    let h = hex_list(s);
    if s.len() > 1 {
        let front = s.drop_last();
        let g = hex_list(front);
        let n = s.len() - 1;
        lemma_hex_list(front);
        assert(h == g + ", "@ + hex(s.last()));
        assert(h.len() == g.len() + 4);
        assert(shows(h, n, s[n]));
        assert forall|i: int| 0 <= i < s.len() implies #[trigger] shows(h, i, s[i]) by {
            if i < n {
                assert(shows(g, i, front[i]));
                assert(h[4 * i + 1] == g[4 * i + 1] && h[4 * i + 2] == g[4 * i + 2]);
                if i > 0 {
                    assert(h[4 * i - 1] == g[4 * i - 1] && h[4 * i] == g[4 * i]);
                }
            }
        }
    }
}

/// A symbol whose ticker is not ASCII is shown as its eight bytes in hexadecimal,
/// separated by commas and in brackets.
pub proof fn law_other_symbols_show_their_bytes(s: Symbol)
    requires
        !is_ascii(s.ticker()),
    ensures
        s.text().len() == 32,
        s.text()[0] == '[',
        s.text()[31] == ']',
        forall|i: int| 0 <= i < 8 ==> #[trigger] shows(s.text(), i, s.0@[i]),
{
    reveal_strlit("]");
    let h = hex_list(s.0@);
    let t = s.text();
    lemma_hex_list(s.0@);
    assert(t == h + "]"@);
    assert forall|i: int| 0 <= i < 8 implies #[trigger] shows(t, i, s.0@[i]) by {
        assert(shows(h, i, s.0@[i]));
        assert(t[4 * i + 1] == h[4 * i + 1] && t[4 * i + 2] == h[4 * i + 2]);
        if i > 0 {
            assert(t[4 * i - 1] == h[4 * i - 1] && t[4 * i] == h[4 * i]);
        }
    }
}

}
