//! The outbound stage: encoding a new order to the wire.
//!
//! Modelled on Nasdaq OUCH 4.2 Enter Order: a fixed 49-byte, big-endian message.
//! It is the last stage of the tick-to-trade path and exists here to occupy its
//! true place in the latency budget.
//!
//! Pairing Nasdaq's order-entry protocol with IEX's market data is deliberate:
//! the latency budget needs a realistic fixed-width binary encode, and OUCH is
//! the best-documented one available.
use vstd::arithmetic::power::{lemma_pow_positive, pow};
use vstd::prelude::*;
use vstd::string::StringExecFns;

use crate::bytes::{be16, be16_bytes, be32, lemma_le16_round_trip};
use crate::deep::messages::Side;
use crate::deep::price::{magnitude, Price};
use crate::deep::symbol::Symbol;
use crate::text::{decimal, push_decimal};

verus! {

/// Wire size of an Enter Order message.
pub const ENTER_ORDER_LEN: usize = 49;

/// Price is a 32-bit field in units of 1/10000 dollar, so this is the ceiling.
pub const MAX_WIRE_PRICE: i64 = 0xffff_ffff;

/// Why an order could not be encoded.
#[derive(Debug, Clone, Copy, PartialEq, Eq, Structural)]
pub enum EncodeError {
    /// The price does not fit OUCH's 32-bit price field.
    ///
    /// The field tops out at $429,496.7295. Truncating would send an order at a
    /// wildly wrong price, so this refuses instead.
    PriceOutOfRange(i64),
    SizeOutOfRange(u64),
}

/// A signed number in decimal.
pub open spec fn signed_decimal(v: int) -> Seq<char> {
    if v < 0 {
        "-"@ + decimal(magnitude(v))
    } else {
        decimal(magnitude(v))
    }
}

impl EncodeError {
    /// The sentence [`EncodeError::to_string`] writes.
    pub open spec fn sentence(self) -> Seq<char> {
        match self {
            EncodeError::PriceOutOfRange(p) => "price "@ + signed_decimal(p as int)
                + " does not fit a 32-bit wire price"@,
            EncodeError::SizeOutOfRange(n) => "size "@ + decimal(n as nat)
                + " does not fit a 32-bit share count"@,
        }
    }

    /// What went wrong, in words.
    pub fn to_string(&self) -> (r: String)
        ensures
            r@ == self.sentence(),
    {
        let mut out = String::new();
        match *self {
            EncodeError::PriceOutOfRange(p) => {
                out.append("price ");
                if p < 0 {
                    out.append("-");
                    push_decimal(&mut out, (-(p as i128)) as u64);
                } else {
                    push_decimal(&mut out, p as u64);
                }
                out.append(" does not fit a 32-bit wire price");
            },
            EncodeError::SizeOutOfRange(n) => {
                out.append("size ");
                push_decimal(&mut out, n);
                out.append(" does not fit a 32-bit share count");
            },
        }
        assert(out@ =~= self.sentence());
        out
    }
}

/// A new order, in the terms the strategy thinks in.
#[derive(Debug, Clone, Copy, PartialEq, Eq)]
pub struct NewOrder {
    pub token: [u8; 14],
    pub side: Side,
    pub shares: u32,
    pub symbol: Symbol,
    pub price: Price,
}

/// The four bytes of `x`, high first.
pub open spec fn be32_bytes(x: int) -> Seq<u8> {
    be16_bytes(x / 0x1_0000) + be16_bytes(x % 0x1_0000)
}

/// The side indicator byte: `B` or `S`.
pub open spec fn side_byte(side: Side) -> u8 {
    match side {
        Side::Buy => 0x42,
        Side::Sell => 0x53,
    }
}

/// The fixed fields after the price: time in force `IOCE`, firm `LTLD`, display
/// `Y`, capacity `P`, intermarket sweep `N`, a zero minimum quantity, cross type
/// `N` and customer type `R`.
pub open spec fn trailer() -> Seq<u8> {
    seq![
        0x49,
        0x4f,
        0x43,
        0x45,
        0x4c,
        0x54,
        0x4c,
        0x44,
        0x59,
        0x50,
        0x4e,
        0,
        0,
        0,
        0,
        0x4e,
        0x52,
    ]
}

/// Whether a price fits the wire.
pub open spec fn price_fits(price: Price) -> bool {
    0 <= price.0 <= MAX_WIRE_PRICE
}

/// An Enter Order message, field by field.
pub open spec fn message(
    token: Seq<u8>,
    side: Side,
    shares: u32,
    symbol: Symbol,
    price: Price,
) -> Seq<u8> {
    seq![0x4fu8] + token + seq![side_byte(side)] + be32_bytes(shares as int) + symbol.0@
        + be32_bytes(price.0 as int) + trailer()
}

/// The Enter Order message of an order.
pub open spec fn wire(o: NewOrder) -> Seq<u8> {
    message(o.token@, o.side, o.shares, o.symbol, o.price)
}

/// Every field of an encoded order reads back from its documented offset.
pub proof fn law_orders_read_back(o: NewOrder)
    requires
        price_fits(o.price),
    ensures
        wire(o).len() == ENTER_ORDER_LEN,
        wire(o)[0] == 0x4f,
        wire(o).subrange(1, 15) == o.token@,
        wire(o)[15] == side_byte(o.side),
        be32(wire(o), 16) == o.shares,
        wire(o).subrange(20, 28) == o.symbol.0@,
        be32(wire(o), 28) == o.price.0,
        wire(o).subrange(32, 49) == trailer(),
{
    law_an_order_is_laid_out(o.token@, o.side, o.shares, o.symbol, o.price);
    assert(wire(o).subrange(32, 49) =~= trailer());
}

/// An order is forty-nine bytes: type `O`, token, `B` or `S`, shares, symbol and price,
/// both numbers high byte first, then an immediate-or-cancel order of firm `LTLD`, shown,
/// as principal, no sweep, no minimum, no cross, for retail.
pub proof fn law_an_order_is_laid_out(
    token: Seq<u8>,
    side: Side,
    shares: u32,
    symbol: Symbol,
    price: Price,
)
    requires
        token.len() == 14,
        0 <= price.0 < 0x1_0000_0000,
    ensures
        ({
            let w = message(token, side, shares, symbol, price);
            &&& w.len() == 49
            &&& w[0] == 0x4f
            &&& w.subrange(1, 15) == token
            &&& w[15] == if side is Buy {
                0x42u8
            } else {
                0x53u8
            }
            &&& 0x100_0000 * w[16] + 0x1_0000 * w[17] + 0x100 * w[18] + w[19] == shares
            &&& be32(w, 16) == shares
            &&& w.subrange(20, 28) == symbol.0@
            &&& 0x100_0000 * w[28] + 0x1_0000 * w[29] + 0x100 * w[30] + w[31] == price.0
            &&& be32(w, 28) == price.0
            &&& w[32] == 0x49 && w[33] == 0x4f && w[34] == 0x43 && w[35] == 0x45
            &&& w[36] == 0x4c && w[37] == 0x54 && w[38] == 0x4c && w[39] == 0x44
            &&& w[40] == 0x59 && w[41] == 0x50 && w[42] == 0x4e
            &&& w[43] == 0 && w[44] == 0 && w[45] == 0 && w[46] == 0
            &&& w[47] == 0x4e && w[48] == 0x52
        }),
{
    let w = message(token, side, shares, symbol, price);
    assert(w.subrange(1, 15) =~= token);
    assert(w.subrange(20, 28) =~= symbol.0@);
    let t = w.subrange(32, 49);
    assert(t =~= trailer());
    assert forall|i: int| 0 <= i < 17 implies w[32 + i] == #[trigger] t[i] by {}
    let s = be32_bytes(shares as int);
    let p = be32_bytes(price.0 as int);
    lemma_le16_round_trip(shares as int / 0x1_0000);
    lemma_le16_round_trip(shares as int % 0x1_0000);
    lemma_le16_round_trip(price.0 as int / 0x1_0000);
    lemma_le16_round_trip(price.0 as int % 0x1_0000);
    assert(w.subrange(16, 20) =~= s);
    assert(w.subrange(28, 32) =~= p);
    assert(s[0] == w[16] && s[1] == w[17] && s[2] == w[18] && s[3] == w[19]) by {
        assert(w.subrange(16, 20)[0] == w[16] && w.subrange(16, 20)[1] == w[17]);
        assert(w.subrange(16, 20)[2] == w[18] && w.subrange(16, 20)[3] == w[19]);
    }
    assert(p[0] == w[28] && p[1] == w[29] && p[2] == w[30] && p[3] == w[31]) by {
        assert(w.subrange(28, 32)[0] == w[28] && w.subrange(28, 32)[1] == w[29]);
        assert(w.subrange(28, 32)[2] == w[30] && w.subrange(28, 32)[3] == w[31]);
    }
    assert(be16(s, 0) == shares as int / 0x1_0000 && be16(s, 2) == shares as int % 0x1_0000);
    assert(be16(p, 0) == price.0 as int / 0x1_0000 && be16(p, 2) == price.0 as int % 0x1_0000);
}

/// A price fits the wire exactly if it is a 32-bit number.
pub proof fn law_wire_prices_are_32_bits(price: Price)
    ensures
        price_fits(price) <==> 0 <= price.0 < 0x1_0000_0000,
{
}

/// Copy `src` into the message right after what is already there.
fn put(out: &mut [u8; ENTER_ORDER_LEN], at: usize, src: &[u8])
    requires
        at + src@.len() <= ENTER_ORDER_LEN,
    ensures
        final(out)@.take(at + src@.len()) == old(out)@.take(at as int) + src@,
{
    let mut i: usize = 0;
    while i < src.len()
        invariant
            i <= src@.len(),
            at + src@.len() <= ENTER_ORDER_LEN,
            forall|j: int| 0 <= j < at ==> out@[j] == old(out)@[j],
            forall|j: int| 0 <= j < i ==> out@[at + j] == src@[j],
        decreases src@.len() - i,
    {
        let b: u8 = src[i];
        out[at + i] = b;
        i = i + 1;
    }
    proof {
        assert forall|j: int| at <= j < at + src@.len() implies out@[j] == src@[j - at] by {
            assert(out@[at + (j - at)] == src@[j - at]);
        }
        assert(out@.take(at + src@.len()) =~= old(out)@.take(at as int) + src@);
    }
}

/// Copy a number into the message, high byte first.
fn put_u32(out: &mut [u8; ENTER_ORDER_LEN], at: usize, v: u32)
    requires
        at + 4 <= ENTER_ORDER_LEN,
    ensures
        final(out)@.take(at + 4) == old(out)@.take(at as int) + be32_bytes(v as int),
{
    let hi: u32 = v / 0x1_0000;
    let lo: u32 = v % 0x1_0000;
    let b: [u8; 4] = [
        (hi / 0x100) as u8,
        (hi % 0x100) as u8,
        (lo / 0x100) as u8,
        (lo % 0x100) as u8,
    ];
    assert(b@ =~= be32_bytes(v as int));
    put(out, at, &b);
}

/// Encode into `out`, returning the bytes written.
///
/// Takes a caller-owned buffer rather than returning a `Vec`: allocating on the
/// order path would put a call to the allocator between a book update and the
/// wire, which is the one place in the system that cannot afford one.
pub fn encode_enter_order(o: &NewOrder, out: &mut [u8; ENTER_ORDER_LEN]) -> (r: Result<
    usize,
    EncodeError,
>)
    ensures
        match r {
            Ok(n) => price_fits(o.price) && n == ENTER_ORDER_LEN && final(out)@ == wire(*o),
            Err(e) => !price_fits(o.price) && e == EncodeError::PriceOutOfRange(o.price.0)
                && final(out)@ == old(out)@,
        },
{
    let price: i64 = o.price.raw();
    if price < 0 || price > MAX_WIRE_PRICE {
        return Err(EncodeError::PriceOutOfRange(price));
    }
    let ghost before = out@;
    put(out, 0, &[0x4f]);
    put(out, 1, &o.token);
    let side: u8 = match o.side {
        Side::Buy => 0x42,
        Side::Sell => 0x53,
    };
    put(out, 15, &[side]);
    // OUCH is big-endian, unlike IEX-TP and DEEP on the inbound side. Carrying
    // one convention across the whole pipeline would be wrong at this boundary.
    put_u32(out, 16, o.shares);
    put(out, 20, &o.symbol.0);
    put_u32(out, 28, price as u32);
    let rest: [u8; 17] = [
        0x49,
        0x4f,
        0x43,
        0x45,
        0x4c,
        0x54,
        0x4c,
        0x44,
        0x59,
        0x50,
        0x4e,
        0,
        0,
        0,
        0,
        0x4e,
        0x52,
    ];
    put(out, 32, &rest);
    proof {
        assert(before.take(0) =~= Seq::empty());
        assert(rest@ =~= trailer());
        assert(out@ =~= out@.take(49));
        assert(out@ =~= wire(*o));
    }
    Ok(ENTER_ORDER_LEN)
}

/// The low `width` decimal digits of `n` as ASCII.
pub open spec fn digits(n: nat, width: nat) -> Seq<u8>
    decreases width,
{
    if width == 0 {
        Seq::empty()
    } else {
        digits(n / 10, (width - 1) as nat).push((0x30 + n % 10) as u8)
    }
}

/// The token of the `n`-th order: `LL` and the low twelve digits of `n`.
pub open spec fn token(n: nat) -> Seq<u8> {
    seq![0x4cu8, 0x4cu8] + digits(n, 12)
}

/// Digits determine the number they were taken from, up to their width.
proof fn lemma_digits_injective(n: nat, m: nat, width: nat)
    requires
        digits(n, width) == digits(m, width),
    ensures
        n as int % pow(10, width) == m as int % pow(10, width),
    decreases width,
{
    lemma_pow_positive(10, width);
    if width == 0 {
        vstd::arithmetic::power::lemma_pow0(10);
    } else {
        let w = (width - 1) as nat;
        let a = digits(n, width);
        let b = digits(m, width);
        assert(a.drop_last() =~= digits(n / 10, w));
        assert(b.drop_last() =~= digits(m / 10, w));
        assert(a.last() == b.last());
        assert(n % 10 == m % 10);
        lemma_digits_injective(n / 10, m / 10, w);
        let p = pow(10, w);
        lemma_pow_positive(10, w);
        assert(pow(10, width) == 10 * p) by {
            reveal(pow);
        }
        lemma_split_mod(n as int, p);
        lemma_split_mod(m as int, p);
    }
}

/// A remainder modulo `10 p` is made of the last digit and the rest modulo `p`.
proof fn lemma_split_mod(n: int, p: int)
    requires
        n >= 0,
        p > 0,
    ensures
        n % (10 * p) == 10 * ((n / 10) % p) + n % 10,
{
    vstd::arithmetic::div_mod::lemma_mod_breakdown(n, 10, p);
}

/// The number decimal digits spell.
pub open spec fn spelled(ds: Seq<u8>) -> int
    decreases ds.len(),
{
    if ds.len() == 0 {
        0
    } else {
        10 * spelled(ds.drop_last()) + (ds.last() - 0x30)
    }
}

proof fn lemma_digits_spell(n: nat, width: nat)
    ensures
        digits(n, width).len() == width,
        forall|i: int| 0 <= i < width ==> 0x30 <= #[trigger] digits(n, width)[i] <= 0x39,
        spelled(digits(n, width)) == n as int % pow(10, width),
    decreases width,
{
    lemma_pow_positive(10, width);
    if width == 0 {
        vstd::arithmetic::power::lemma_pow0(10);
    } else {
        let w = (width - 1) as nat;
        let d = digits(n, width);
        lemma_digits_spell(n / 10, w);
        lemma_pow_positive(10, w);
        assert(d.drop_last() =~= digits(n / 10, w));
        assert(pow(10, width) == 10 * pow(10, w)) by {
            reveal(pow);
        }
        lemma_split_mod(n as int, pow(10, w));
    }
}

/// A token is `LL` and twelve decimal digits, which spell how many orders came before.
pub proof fn law_a_token_spells_its_number(n: nat)
    ensures
        token(n).len() == 14,
        token(n)[0] == 0x4c && token(n)[1] == 0x4c,
        forall|i: int| 2 <= i < 14 ==> 0x30 <= #[trigger] token(n)[i] <= 0x39,
        n < 1_000_000_000_000 ==> spelled(token(n).skip(2)) == n,
{
    let d = digits(n, 12);
    lemma_digits_spell(n, 12);
    assert(token(n).skip(2) =~= d);
    assert forall|i: int| 2 <= i < 14 implies 0x30 <= #[trigger] token(n)[i] <= 0x39 by {
        assert(token(n)[i] == d[i - 2]);
    }
    assert(pow(10, 12) == 1_000_000_000_000) by {
        reveal(pow);
        reveal_with_fuel(pow, 13);
    }
}

/// Tokens do not repeat within the first million million orders.
pub proof fn law_tokens_are_unique(n: nat, m: nat)
    requires
        n < 1_000_000_000_000,
        m < 1_000_000_000_000,
        n != m,
    ensures
        token(n) != token(m),
{
    if token(n) == token(m) {
        assert(token(n).skip(2) =~= digits(n, 12));
        assert(token(m).skip(2) =~= digits(m, 12));
        lemma_digits_injective(n, m, 12);
        assert(pow(10, 12) == 1_000_000_000_000) by {
            reveal(pow);
            reveal_with_fuel(pow, 13);
        }
    }
}

/// Monotonic order tokens, formatted once per order without allocating.
#[derive(Debug)]
pub struct TokenGen {
    next: u64,
}

impl View for TokenGen {
    type V = nat;

    /// How many tokens have been handed out.
    closed spec fn view(&self) -> nat {
        self.next as nat
    }
}

impl Default for TokenGen {
    fn default() -> (r: TokenGen)
        ensures
            r@ == 0,
    {
        TokenGen { next: 0 }
    }
}

proof fn lemma_digits_len(n: nat, width: nat)
    ensures
        digits(n, width).len() == width,
        forall|i: int| 0 <= i < width ==> n == 0 ==> digits(n, width)[i] == 0x30,
    decreases width,
{
    if width > 0 {
        lemma_digits_len(n / 10, (width - 1) as nat);
    }
}

impl TokenGen {
    /// How many tokens have been handed out.
    pub fn issued(&self) -> (r: u64)
        ensures
            r == self@,
    {
        self.next
    }

    /// A 14-byte token: a fixed prefix and a zero-padded decimal counter.
    ///
    /// Written by hand because the order path must not allocate.
    pub fn next_token(&mut self) -> (r: [u8; 14])
        requires
            old(self)@ < u64::MAX,
        ensures
            r@ == token(old(self)@),
            final(self)@ == old(self)@ + 1,
    {
        let mut t: [u8; 14] = [0x30; 14];
        t[0] = 0x4c;
        t[1] = 0x4c;
        let mut n: u64 = self.next;
        self.next = self.next + 1;
        let ghost all = digits(n as nat, 12);
        let mut i: usize = 14;
        proof {
            lemma_digits_len(n as nat, 12);
            assert(all.take(12) =~= all);
        }
        while i > 2 && n > 0
            invariant
                2 <= i <= 14,
                all.len() == 12,
                t@[0] == 0x4c,
                t@[1] == 0x4c,
                digits(n as nat, (i - 2) as nat) == all.take(i - 2),
                forall|j: int| 2 <= j < i ==> t@[j] == 0x30,
                forall|j: int| i <= j < 14 ==> t@[j] == all[j - 2],
            decreases i,
        {
            i = i - 1;
            proof {
                let d = digits(n as nat, (i - 1) as nat);
                assert(d.last() == all[i - 2]);
                assert(d.drop_last() =~= all.take(i - 2));
                assert(d.drop_last() =~= digits((n / 10) as nat, (i - 2) as nat));
            }
            t[i] = 0x30 + (n % 10) as u8;
            n = n / 10;
        }
        proof {
            if n == 0 {
                lemma_digits_len(0, (i - 2) as nat);
                assert forall|k: int| 0 <= k < i - 2 implies all[k] == 0x30 by {
                    assert(all.take(i - 2)[k] == digits(0, (i - 2) as nat)[k]);
                }
            }
            assert(t@ =~= seq![0x4cu8, 0x4cu8] + all);
        }
        t
    }
}


/// An error says what did not fit.
pub proof fn law_errors_say_what_did_not_fit(p: i64, n: u64)
    ensures
        p >= 0 ==> EncodeError::PriceOutOfRange(p).sentence() == "price "@ + decimal(p as nat)
            + " does not fit a 32-bit wire price"@,
        p < 0 ==> EncodeError::PriceOutOfRange(p).sentence() == "price "@ + ("-"@ + decimal(
            (-p) as nat,
        )) + " does not fit a 32-bit wire price"@,
        EncodeError::SizeOutOfRange(n).sentence() == "size "@ + decimal(n as nat)
            + " does not fit a 32-bit share count"@,
{
}

}
