//! Text, built a piece at a time.
use vstd::prelude::*;
use vstd::string::StrSliceExecFns;
use vstd::string::StringExecFns;
use vstd::string::StringSliceAdditionalSpecFns;
use vstd::utf8::valid_utf8;

verus! {

/// The character of one decimal or hexadecimal digit.
pub open spec fn digit(d: int) -> char {
    if d < 10 {
        ('0' as int + d) as char
    } else {
        ('a' as int + d - 10) as char
    }
}

/// `n` in decimal, with no leading zeros.
pub open spec fn decimal(n: nat) -> Seq<char>
    decreases n,
{
    if n < 10 {
        seq![digit(n as int)]
    } else {
        decimal(n / 10).push(digit((n % 10) as int))
    }
}

/// The low `width` decimal digits of `n`, zeros included.
pub open spec fn fixed(n: nat, width: nat) -> Seq<char>
    decreases width,
{
    if width == 0 {
        Seq::empty()
    } else {
        fixed(n / 10, (width - 1) as nat).push(digit((n % 10) as int))
    }
}

/// A byte as two hexadecimal digits.
pub open spec fn hex(b: u8) -> Seq<char> {
    seq![digit((b / 16) as int), digit((b % 16) as int)]
}

/// Append the character of one digit.
pub fn push_digit(out: &mut String, d: u8)
    requires
        d < 16,
    ensures
        final(out)@ == old(out)@.push(digit(d as int)),
{
    let s = match d {
        0 => "0",
        1 => "1",
        2 => "2",
        3 => "3",
        4 => "4",
        5 => "5",
        6 => "6",
        7 => "7",
        8 => "8",
        9 => "9",
        10 => "a",
        11 => "b",
        12 => "c",
        13 => "d",
        14 => "e",
        _ => "f",
    };
    proof {
        reveal_strlit("0");
        reveal_strlit("1");
        reveal_strlit("2");
        reveal_strlit("3");
        reveal_strlit("4");
        reveal_strlit("5");
        reveal_strlit("6");
        reveal_strlit("7");
        reveal_strlit("8");
        reveal_strlit("9");
        reveal_strlit("a");
        reveal_strlit("b");
        reveal_strlit("c");
        reveal_strlit("d");
        reveal_strlit("e");
        reveal_strlit("f");
    }
    assert(s@ =~= seq![digit(d as int)]);
    out.append(s);
    assert(out@ =~= old(out)@.push(digit(d as int)));
}

/// Append `n` in decimal.
pub fn push_decimal(out: &mut String, n: u64)
    ensures
        final(out)@ == old(out)@ + decimal(n as nat),
    decreases n,
{
    if n >= 10 {
        push_decimal(out, n / 10);
    }
    push_digit(out, (n % 10) as u8);
    assert(out@ =~= old(out)@ + decimal(n as nat));
}

/// Append the low `width` decimal digits of `n`.
pub fn push_fixed(out: &mut String, n: u64, width: usize)
    ensures
        final(out)@ == old(out)@ + fixed(n as nat, width as nat),
    decreases width,
{
    if width > 0 {
        push_fixed(out, n / 10, width - 1);
        push_digit(out, (n % 10) as u8);
    }
    assert(out@ =~= old(out)@ + fixed(n as nat, width as nat));
}

/// Append a byte as two hexadecimal digits.
pub fn push_hex(out: &mut String, b: u8)
    ensures
        final(out)@ == old(out)@ + hex(b),
{
    push_digit(out, b / 16);
    push_digit(out, b % 16);
    assert(out@ =~= old(out)@ + hex(b));
}

/// Append `n` in decimal.
pub fn push_wide(out: &mut String, n: u128)
    ensures
        final(out)@ == old(out)@ + decimal(n as nat),
    decreases n,
{
    if n >= 10 {
        push_wide(out, n / 10);
    }
    push_digit(out, (n % 10) as u8);
    assert(out@ =~= old(out)@ + decimal(n as nat));
}

/// A truth value in words.
pub open spec fn truth(b: bool) -> Seq<char> {
    if b {
        "true"@
    } else {
        "false"@
    }
}

/// Append a truth value in words.
pub fn push_truth(out: &mut String, b: bool)
    ensures
        final(out)@ == old(out)@ + truth(b),
{
    if b {
        out.append("true");
    } else {
        out.append("false");
    }
}

/// Whether two texts are the same.
pub fn same(a: &str, b: &str) -> (r: bool)
    ensures
        r == (a@ == b@),
{
    let n: usize = a.unicode_len();
    if n != b.unicode_len() {
        return false;
    }
    let mut i: usize = 0;
    while i < n
        invariant
            i <= n,
            n == a@.len(),
            n == b@.len(),
            forall|j: int| 0 <= j < i ==> a@[j] == b@[j],
        decreases n - i,
    {
        if a.get_char(i) != b.get_char(i) {
            return false;
        }
        i = i + 1;
    }
    assert(a@ =~= b@);
    true
}

/// Whether one byte string comes before another in dictionary order.
pub open spec fn before(a: Seq<u8>, b: Seq<u8>) -> bool
    decreases b.len(),
{
    if b.len() == 0 {
        false
    } else if a.len() == 0 {
        true
    } else if a[0] != b[0] {
        a[0] < b[0]
    } else {
        before(a.drop_first(), b.drop_first())
    }
}

/// Dictionary order is transitive.
pub proof fn lemma_before_trans(a: Seq<u8>, b: Seq<u8>, c: Seq<u8>)
    requires
        !before(b, a),
        !before(c, b),
    ensures
        !before(c, a),
    decreases a.len(),
{
    if a.len() > 0 && b.len() > 0 && c.len() > 0 && a[0] == b[0] && b[0] == c[0] {
        lemma_before_trans(a.drop_first(), b.drop_first(), c.drop_first());
    }
}

/// Of two byte strings, at most one comes first.
pub proof fn lemma_before_one_way(a: Seq<u8>, b: Seq<u8>)
    requires
        before(a, b),
    ensures
        !before(b, a),
    decreases a.len(),
{
    if a.len() > 0 && b.len() > 0 && a[0] == b[0] {
        lemma_before_one_way(a.drop_first(), b.drop_first());
    }
}

/// Whether one text comes before another in dictionary order.
pub fn comes_before(a: &str, b: &str) -> (r: bool)
    ensures
        r == before(a.spec_bytes(), b.spec_bytes()),
{
    let x = a.as_bytes();
    let y = b.as_bytes();
    let mut i: usize = 0;
    assert(x@.skip(0) =~= x@ && y@.skip(0) =~= y@);
    while i < x.len() && i < y.len()
        invariant
            i <= x@.len(),
            i <= y@.len(),
            x@ == a.spec_bytes(),
            y@ == b.spec_bytes(),
            before(x@.skip(i as int), y@.skip(i as int)) == before(x@, y@),
        decreases x@.len() - i,
    {
        if x[i] != y[i] {
            return x[i] < y[i];
        }
        proof {
            assert(x@.skip(i as int).drop_first() =~= x@.skip(i + 1));
            assert(y@.skip(i as int).drop_first() =~= y@.skip(i + 1));
        }
        i = i + 1;
    }
    i < y.len()
}

/// Decode bytes as UTF-8 text.
///
/// Calls `std::str::from_utf8`. The claim taken from its documentation is that
/// it succeeds exactly on valid UTF-8 and then hands back the same bytes as
/// text.
#[verifier::external_body]
pub(crate) fn utf8<'a>(bytes: &'a [u8]) -> (r: Option<&'a str>)
    ensures
        r is Some <==> valid_utf8(bytes@),
        r matches Some(s) ==> s.spec_bytes() == bytes@,
{
    std::str::from_utf8(bytes).ok()
}

/// What a value is formatted into. Nothing is known of what it has written.
#[verifier::external_type_specification]
#[verifier::external_body]
pub struct ExFormatter<'a>(std::fmt::Formatter<'a>);

/// That a formatter could not write. It carries nothing.
#[verifier::external_type_specification]
#[verifier::external_body]
pub struct ExFormatError(std::fmt::Error);

/// `Formatter::write_str`: hands a text to whatever the formatter writes into. That
/// decides whether it could be written, so nothing is claimed of the result.
#[verifier::external_body]
pub(crate) fn write_text(f: &mut std::fmt::Formatter<'_>, text: &str) -> (r: std::fmt::Result) {
    f.write_str(text)
}


/// A digit is its character: the ten figures, then the letters from `a` on.
pub proof fn law_digits_are_figures_and_letters(d: int)
    ensures
        0 <= d < 10 ==> digit(d) as int == 48 + d,
        10 <= d < 16 ==> digit(d) as int == 97 + (d - 10),
{
}

/// A byte in hexadecimal is two digits, the sixteens first.
pub proof fn law_hex_has_the_sixteens_first(b: u8, hi: int, lo: int)
    requires
        b == 16 * hi + lo,
        0 <= lo < 16,
    ensures
        hex(b).len() == 2,
        hex(b)[0] == digit(hi),
        hex(b)[1] == digit(lo),
{
}

/// One byte string comes before another exactly if they agree up to some place where
/// the first ends and the other does not, or where the first has the smaller byte.
pub proof fn law_before_is_dictionary_order(a: Seq<u8>, b: Seq<u8>)
    ensures
        before(a, b) <==> exists|n: int| #[trigger] parts_at(a, b, n),
    decreases b.len(),
{
    if b.len() > 0 && a.len() > 0 && a[0] == b[0] {
        let x = a.drop_first();
        let y = b.drop_first();
        law_before_is_dictionary_order(x, y);
        if exists|n: int| #[trigger] parts_at(x, y, n) {
            let n = choose|n: int| #[trigger] parts_at(x, y, n);
            assert forall|i: int| 0 <= i < n + 1 implies a[i] == b[i] by {
                if i > 0 {
                    assert(x[i - 1] == y[i - 1]);
                }
            }
            assert(parts_at(a, b, n + 1));
        }
        if exists|n: int| #[trigger] parts_at(a, b, n) {
            let n = choose|n: int| #[trigger] parts_at(a, b, n);
            assert(n > 0);
            assert(parts_at(x, y, n - 1));
        }
    } else if b.len() > 0 && (a.len() == 0 || a[0] < b[0]) {
        assert(parts_at(a, b, 0));
    } else if exists|n: int| #[trigger] parts_at(a, b, n) {
        let n = choose|n: int| #[trigger] parts_at(a, b, n);
        assert(n == 0 || a[0] == b[0]);
    }
}

/// Two byte strings agree before `n`, and at `n` the first is behind.
pub open spec fn parts_at(a: Seq<u8>, b: Seq<u8>, n: int) -> bool {
    &&& 0 <= n <= a.len()
    &&& n < b.len()
    &&& forall|i: int| 0 <= i < n ==> a[i] == b[i]
    &&& n == a.len() || a[n] < b[n]
}

}
