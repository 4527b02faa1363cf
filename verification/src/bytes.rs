//! Fixed-width integers in byte strings.
//!
//! The link, network and datagram headers are big-endian; the transport and
//! everything below it is little-endian. Both are stated here as plain sums of
//! byte values, and writing is the inverse of reading.
use vstd::prelude::*;

verus! {

/// Two raised to the width of an `i64`.
pub const TWO_64: i128 = 0x1_0000_0000_0000_0000;

/// The little-endian 16-bit number at `o`.
pub open spec fn le16(s: Seq<u8>, o: int) -> int {
    s[o] + 0x100 * s[o + 1]
}

/// The little-endian 32-bit number at `o`.
pub open spec fn le32(s: Seq<u8>, o: int) -> int {
    le16(s, o) + 0x1_0000 * le16(s, o + 2)
}

/// The little-endian 64-bit number at `o`.
pub open spec fn le64(s: Seq<u8>, o: int) -> int {
    le32(s, o) + 0x1_0000_0000 * le32(s, o + 4)
}

/// The big-endian 16-bit number at `o`.
pub open spec fn be16(s: Seq<u8>, o: int) -> int {
    0x100 * s[o] + s[o + 1]
}

/// The big-endian 32-bit number at `o`.
pub open spec fn be32(s: Seq<u8>, o: int) -> int {
    0x1_0000 * be16(s, o) + be16(s, o + 2)
}

/// A 64-bit pattern read as a two's-complement number.
pub open spec fn signed(u: int) -> int {
    if u < 0x8000_0000_0000_0000 {
        u
    } else {
        u - 0x1_0000_0000_0000_0000
    }
}

/// The 64-bit two's-complement pattern of a number.
pub open spec fn unsigned(v: int) -> int {
    if v < 0 {
        v + 0x1_0000_0000_0000_0000
    } else {
        v
    }
}

/// The little-endian signed 64-bit number at `o`.
pub open spec fn les64(s: Seq<u8>, o: int) -> int {
    signed(le64(s, o))
}

/// The two bytes of `x`, low first.
pub open spec fn le16_bytes(x: int) -> Seq<u8> {
    seq![(x % 0x100) as u8, (x / 0x100) as u8]
}

/// The four bytes of `x`, low first.
pub open spec fn le32_bytes(x: int) -> Seq<u8> {
    le16_bytes(x % 0x1_0000) + le16_bytes(x / 0x1_0000)
}

/// The eight bytes of `x`, low first.
pub open spec fn le64_bytes(x: int) -> Seq<u8> {
    le32_bytes(x % 0x1_0000_0000) + le32_bytes(x / 0x1_0000_0000)
}

/// The two bytes of `x`, high first.
pub open spec fn be16_bytes(x: int) -> Seq<u8> {
    seq![(x / 0x100) as u8, (x % 0x100) as u8]
}

/// The eight bytes of a signed number, low first.
pub open spec fn les64_bytes(x: int) -> Seq<u8> {
    le64_bytes(unsigned(x))
}

/// Reading only looks at the bytes it names.
pub proof fn lemma_reads_are_local(s: Seq<u8>, t: Seq<u8>, o: int, p: int, n: int)
    requires
        0 <= o,
        0 <= p,
        o + n <= s.len(),
        p + n <= t.len(),
        s.subrange(o, o + n) == t.subrange(p, p + n),
    ensures
        n >= 2 ==> le16(s, o) == le16(t, p),
        n >= 4 ==> le32(s, o) == le32(t, p),
        n >= 8 ==> le64(s, o) == le64(t, p),
{
    let a = s.subrange(o, o + n);
    let b = t.subrange(p, p + n);
    assert forall|i: int| 0 <= i < n implies s[o + i] == #[trigger] t[p + i] by {
        assert(a[i] == b[i]);
    }
    if n >= 2 {
        assert(s[o + 0] == t[p + 0] && s[o + 1] == t[p + 1]);
    }
    if n >= 4 {
        assert(s[o + 2] == t[p + 2] && s[o + 3] == t[p + 3]);
    }
    if n >= 8 {
        assert(s[o + 4] == t[p + 4] && s[o + 5] == t[p + 5]);
        assert(s[o + 6] == t[p + 6] && s[o + 7] == t[p + 7]);
    }
}

/// A 16-bit number written and read back is itself.
pub proof fn lemma_le16_round_trip(x: int)
    requires
        0 <= x < 0x1_0000,
    ensures
        le16_bytes(x).len() == 2,
        le16(le16_bytes(x), 0) == x,
        be16_bytes(x).len() == 2,
        be16(be16_bytes(x), 0) == x,
{
}

/// A 32-bit number written and read back is itself.
pub proof fn lemma_le32_round_trip(x: int)
    requires
        0 <= x < 0x1_0000_0000,
    ensures
        le32_bytes(x).len() == 4,
        le32(le32_bytes(x), 0) == x,
{
    lemma_le16_round_trip(x % 0x1_0000);
    lemma_le16_round_trip(x / 0x1_0000);
}

/// A 64-bit number written and read back is itself.
pub proof fn lemma_le64_round_trip(x: int)
    requires
        0 <= x < 0x1_0000_0000_0000_0000,
    ensures
        le64_bytes(x).len() == 8,
        le64(le64_bytes(x), 0) == x,
{
    let lo = le32_bytes(x % 0x1_0000_0000);
    let hi = le32_bytes(x / 0x1_0000_0000);
    lemma_le32_round_trip(x % 0x1_0000_0000);
    lemma_le32_round_trip(x / 0x1_0000_0000);
    let s = le64_bytes(x);
    assert(s.subrange(0, 4) =~= lo);
    assert(s.subrange(4, 8) =~= hi);
    assert(lo =~= lo.subrange(0, 4));
    assert(hi =~= hi.subrange(0, 4));
    lemma_reads_are_local(s, lo, 0, 0, 4);
    lemma_reads_are_local(s, hi, 4, 0, 4);
}

/// A signed number written and read back is itself.
pub proof fn lemma_les64_round_trip(x: int)
    requires
        i64::MIN <= x <= i64::MAX,
    ensures
        les64_bytes(x).len() == 8,
        les64(les64_bytes(x), 0) == x,
{
    lemma_le64_round_trip(unsigned(x));
}

/// Eight bytes are determined by the number they spell.
pub proof fn lemma_le64_injective(s: Seq<u8>, t: Seq<u8>)
    requires
        s.len() == 8,
        t.len() == 8,
        le64(s, 0) == le64(t, 0),
    ensures
        s == t,
{
    assert(0 <= le32(s, 0) < 0x1_0000_0000 && 0 <= le32(t, 0) < 0x1_0000_0000);
    assert(0 <= le32(s, 4) < 0x1_0000_0000 && 0 <= le32(t, 4) < 0x1_0000_0000);
    assert(le32(s, 0) == le32(t, 0) && le32(s, 4) == le32(t, 4));
    assert(le16(s, 0) == le16(t, 0) && le16(s, 2) == le16(t, 2));
    assert(le16(s, 4) == le16(t, 4) && le16(s, 6) == le16(t, 6));
    assert(s =~= t);
}

/// A number is the sum of its bytes, each counting 256 times the one before, low
/// byte first or high byte first; a signed one is the same number modulo two to the
/// 64th, between the ends of its range.
pub proof fn law_bytes_count_by_place(s: Seq<u8>, o: int)
    ensures
        le16(s, o) == s[o] + 256 * s[o + 1],
        be16(s, o) == 256 * s[o] + s[o + 1],
        le32(s, o) == s[o] + 256 * s[o + 1] + 65_536 * s[o + 2] + 16_777_216 * s[o + 3],
        be32(s, o) == 16_777_216 * s[o] + 65_536 * s[o + 1] + 256 * s[o + 2] + s[o + 3],
        le64(s, o) == le32(s, o) + 4_294_967_296 * le32(s, o + 4),
        les64(s, o) == le64(s, o) || les64(s, o) == le64(s, o) - 18_446_744_073_709_551_616,
        i64::MIN <= les64(s, o) <= i64::MAX,
{
    assert(0 <= le64(s, o) < 0x1_0000_0000_0000_0000);
}

/// Four bytes are spelled by the number they spell.
pub proof fn lemma_spelled_32(s: Seq<u8>, o: int)
    requires
        0 <= o,
        o + 4 <= s.len(),
    ensures
        0 <= le32(s, o) < 0x1_0000_0000,
        le32_bytes(le32(s, o)) == s.subrange(o, o + 4),
{
    assert(le32_bytes(le32(s, o)) =~= s.subrange(o, o + 4));
}

/// Eight bytes are spelled by the signed number they spell.
pub proof fn lemma_spelled_64(s: Seq<u8>, o: int)
    requires
        0 <= o,
        o + 8 <= s.len(),
    ensures
        i64::MIN <= les64(s, o) <= i64::MAX,
        les64_bytes(les64(s, o)) == s.subrange(o, o + 8),
{
    lemma_spelled_32(s, o);
    lemma_spelled_32(s, o + 4);
    let u = le64(s, o);
    assert(u % 0x1_0000_0000 == le32(s, o) && u / 0x1_0000_0000 == le32(s, o + 4));
    assert(unsigned(signed(u)) == u);
    assert(le64_bytes(u) =~= s.subrange(o, o + 8));
}

/// Read a little-endian `u16`.
pub fn u16_le(b: &[u8], o: usize) -> (r: u16)
    requires
        o + 2 <= b.len(),
    ensures
        r == le16(b@, o as int),
{
    b[o] as u16 + b[o + 1] as u16 * 0x100
}

/// Read a little-endian `u32`.
pub fn u32_le(b: &[u8], o: usize) -> (r: u32)
    requires
        o + 4 <= b.len(),
    ensures
        r == le32(b@, o as int),
{
    u16_le(b, o) as u32 + u16_le(b, o + 2) as u32 * 0x1_0000
}

/// Read a little-endian `u64`.
pub fn u64_le(b: &[u8], o: usize) -> (r: u64)
    requires
        o + 8 <= b.len(),
    ensures
        r == le64(b@, o as int),
{
    u32_le(b, o) as u64 + u32_le(b, o + 4) as u64 * 0x1_0000_0000
}

/// Read a little-endian `i64`.
pub fn i64_le(b: &[u8], o: usize) -> (r: i64)
    requires
        o + 8 <= b.len(),
    ensures
        r == les64(b@, o as int),
{
    let v: u64 = u64_le(b, o);
    if v < 0x8000_0000_0000_0000 {
        v as i64
    } else {
        (v as i128 - TWO_64) as i64
    }
}

/// Read a big-endian `u16`.
pub fn u16_be(b: &[u8], o: usize) -> (r: u16)
    requires
        o + 2 <= b.len(),
    ensures
        r == be16(b@, o as int),
{
    b[o] as u16 * 0x100 + b[o + 1] as u16
}

/// Read a big-endian `u32`.
pub fn u32_be(b: &[u8], o: usize) -> (r: u32)
    requires
        o + 4 <= b.len(),
    ensures
        r == be32(b@, o as int),
{
    u16_be(b, o) as u32 * 0x1_0000 + u16_be(b, o + 2) as u32
}

/// The four bytes of a `u32`, low byte first.
pub fn u32_bytes(x: u32) -> (r: [u8; 4])
    ensures
        r@ == le32_bytes(x as int),
{
    let lo: u32 = x % 0x1_0000;
    let hi: u32 = x / 0x1_0000;
    let r = [(lo % 0x100) as u8, (lo / 0x100) as u8, (hi % 0x100) as u8, (hi / 0x100) as u8];
    assert(r@ =~= le32_bytes(x as int));
    r
}

/// Append a `u16`, low byte first.
pub fn push_u16_le(out: &mut Vec<u8>, x: u16)
    ensures
        final(out)@ == old(out)@ + le16_bytes(x as int),
{
    out.push((x % 0x100) as u8);
    out.push((x / 0x100) as u8);
    assert(out@ =~= old(out)@ + le16_bytes(x as int));
}

/// Append a `u32`, low byte first.
pub fn push_u32_le(out: &mut Vec<u8>, x: u32)
    ensures
        final(out)@ == old(out)@ + le32_bytes(x as int),
{
    push_u16_le(out, (x % 0x1_0000) as u16);
    push_u16_le(out, (x / 0x1_0000) as u16);
    assert(out@ =~= old(out)@ + le32_bytes(x as int));
}

/// Append a `u64`, low byte first.
pub fn push_u64_le(out: &mut Vec<u8>, x: u64)
    ensures
        final(out)@ == old(out)@ + le64_bytes(x as int),
{
    push_u32_le(out, (x % 0x1_0000_0000) as u32);
    push_u32_le(out, (x / 0x1_0000_0000) as u32);
    assert(out@ =~= old(out)@ + le64_bytes(x as int));
}

/// Append an `i64`, low byte first.
pub fn push_i64_le(out: &mut Vec<u8>, x: i64)
    ensures
        final(out)@ == old(out)@ + les64_bytes(x as int),
{
    if x >= 0 {
        push_u64_le(out, x as u64)
    } else {
        push_u64_le(out, (x as i128 + TWO_64) as u64)
    }
}

/// Append a `u16`, high byte first.
pub fn push_u16_be(out: &mut Vec<u8>, x: u16)
    ensures
        final(out)@ == old(out)@ + be16_bytes(x as int),
{
    out.push((x / 0x100) as u8);
    out.push((x % 0x100) as u8);
    assert(out@ =~= old(out)@ + be16_bytes(x as int));
}

}
