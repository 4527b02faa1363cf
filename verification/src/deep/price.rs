//! Fixed-point prices. No floating point touches a price, ever.
//!
//! DEEP quotes prices as a signed 64-bit integer in units of 1/10000 of a
//! dollar, so `$99.99` is `999_900`. That representation is exact, and the only
//! way to lose that is to convert it to a float "just for display" and then let
//! the converted value leak back into arithmetic.
//!
//! So [`Price`] offers no conversion to a float and formats itself by integer
//! division. Comparison and ordering come from the integer.
use vstd::prelude::*;
use vstd::string::StringExecFns;

use crate::text::{decimal, fixed, push_decimal, push_fixed};

verus! {

/// Price units per whole dollar. DEEP uses four implied decimal places.
pub const UNITS_PER_DOLLAR: i64 = 10_000;

/// A price in units of 1/10000 dollar.
#[derive(Debug, Clone, Copy, PartialEq, Eq, PartialOrd, Ord, Hash, Structural)]
pub struct Price(pub i64);

/// The size of a number without its sign.
pub open spec fn magnitude(v: int) -> nat {
    if v < 0 {
        (-v) as nat
    } else {
        v as nat
    }
}

/// A price's whole dollars, and as many of its four decimals as are left when
/// trailing zeros beyond the second are trimmed.
pub open spec fn price_parts(units: int) -> (Seq<char>, Seq<char>) {
    let frac = magnitude(units) % 10_000;
    let decimals = if frac % 100 == 0 {
        fixed(frac / 100, 2)
    } else if frac % 10 == 0 {
        fixed(frac / 10, 3)
    } else {
        fixed(frac, 4)
    };
    (decimal(magnitude(units) / 10_000), decimals)
}

/// A price as text.
pub open spec fn price_text(units: int) -> Seq<char> {
    let (whole, decimals) = price_parts(units);
    let sign = if units < 0 {
        "-"@
    } else {
        Seq::empty()
    };
    sign + whole + "."@ + decimals
}

impl Default for Price {
    fn default() -> (r: Price)
        ensures
            r.0 == 0,
    {
        Price(0)
    }
}

impl Price {
    /// The price of nothing: DEEP signals deletion with a size of zero, and the
    /// price field is then not meaningful.
    pub fn zero() -> (r: Price)
        ensures
            r.0 == 0,
    {
        Price(0)
    }

    pub fn from_raw(units: i64) -> (r: Price)
        ensures
            r.0 == units,
    {
        Price(units)
    }

    /// Raw units of 1/10000 dollar.
    pub fn raw(self) -> (r: i64)
        ensures
            r == self.0,
    {
        self.0
    }

    /// Construct from whole dollars and ten-thousandths.
    pub fn from_parts(dollars: i64, ten_thousandths: i64) -> (r: Price)
        requires
            i64::MIN <= dollars * UNITS_PER_DOLLAR <= i64::MAX,
            i64::MIN <= dollars * UNITS_PER_DOLLAR + ten_thousandths <= i64::MAX,
        ensures
            r.0 == dollars * UNITS_PER_DOLLAR + ten_thousandths,
    {
        Price(dollars * UNITS_PER_DOLLAR + ten_thousandths)
    }

    /// The price without its sign, in units.
    fn abs(self) -> (r: u64)
        ensures
            r == magnitude(self.0 as int),
    {
        if self.0 < 0 {
            (-(self.0 as i128)) as u64
        } else {
            self.0 as u64
        }
    }

    /// Whole dollars, truncated toward zero.
    pub fn dollars(self) -> (r: i64)
        ensures
            self.0 >= 0 ==> r == self.0 as int / 10_000,
            self.0 < 0 ==> r == -((-self.0) / 10_000),
    {
        let whole: u64 = self.abs() / 10_000;
        if self.0 < 0 {
            -(whole as i64)
        } else {
            whole as i64
        }
    }

    /// Index into a flat array of price levels, given a tick size.
    ///
    /// US equity prices above $1.00 move on a one-cent grid, so a price is a
    /// small integer offset rather than a key to be searched for. Returns `None`
    /// when the price is not on the grid of the given tick, which below a dollar
    /// or a penny it mostly is not.
    pub fn tick_index(self, tick_units: i64) -> (r: Option<usize>)
        ensures
            r == (if tick_units <= 0 || self.0 < 0 || self.0 as int % tick_units as int != 0 {
                None
            } else {
                Some((self.0 as int / tick_units as int) as usize)
            }),
    {
        if tick_units <= 0 || self.0 < 0 {
            return None;
        }
        if self.0 % tick_units != 0 {
            return None;
        }
        Some((self.0 / tick_units) as usize)
    }

    pub fn is_zero(self) -> (r: bool)
        ensures
            r == (self.0 == 0),
    {
        self.0 == 0
    }

    /// Append the price to a text.
    pub fn push_text(self, out: &mut String)
        ensures
            final(out)@ == old(out)@ + price_text(self.0 as int),
    {
        let abs: u64 = self.abs();
        let whole: u64 = abs / 10_000;
        let frac: u64 = abs % 10_000;
        if self.0 < 0 {
            out.append("-");
        }
        push_decimal(out, whole);
        out.append(".");
        if frac % 100 == 0 {
            push_fixed(out, frac / 100, 2);
        } else if frac % 10 == 0 {
            push_fixed(out, frac / 10, 3);
        } else {
            push_fixed(out, frac, 4);
        }
        assert(out@ =~= old(out)@ + price_text(self.0 as int));
    }

    /// Render exactly, by integer division. Trailing zeros beyond two decimals
    /// are trimmed, because `99.99` reads better than `99.9900` and both are
    /// the same integer.
    pub fn to_string(&self) -> (r: String)
        ensures
            r@ == price_text(self.0 as int),
    {
        let mut out = String::new();
        self.push_text(&mut out);
        assert(out@ =~= price_text(self.0 as int));
        out
    }
}

/// The number digits stand for, read from the left.
pub open spec fn reading(digits: Seq<char>) -> int
    decreases digits.len(),
{
    if digits.len() == 0 {
        0
    } else {
        reading(digits.drop_last()) * 10 + (digits.last() as int - '0' as int)
    }
}

proof fn lemma_reading_decimal(n: nat)
    ensures
        reading(decimal(n)) == n,
    decreases n,
{
    if n >= 10 {
        lemma_reading_decimal(n / 10);
        assert(decimal(n).drop_last() =~= decimal(n / 10));
    } else {
        assert(decimal(n).drop_last() =~= Seq::empty());
        assert(reading(Seq::empty()) == 0);
    }
}

proof fn lemma_reading_fixed(n: nat, width: nat)
    ensures
        fixed(n, width).len() == width,
        width == 2 && n < 100 ==> reading(fixed(n, width)) == n,
        width == 3 && n < 1_000 ==> reading(fixed(n, width)) == n,
        width == 4 && n < 10_000 ==> reading(fixed(n, width)) == n,
        width == 1 && n < 10 ==> reading(fixed(n, width)) == n,
    decreases width,
{
    if width > 0 {
        lemma_reading_fixed(n / 10, (width - 1) as nat);
        assert(reading(Seq::empty()) == 0);
        assert(fixed(n, width).drop_last() =~= fixed(n / 10, (width - 1) as nat));
    }
}

/// A price's text is exact: a sign, the whole dollars, a point and two to four
/// decimals that together read back as the same integer, with no zero at the end
/// beyond the second decimal.
pub proof fn law_price_text_is_exact(units: i64)
    ensures
        ({
            let abs = magnitude(units as int);
            let sign = if units < 0 {
                "-"@
            } else {
                Seq::empty()
            };
            let (whole, decimals) = price_parts(units as int);
            &&& price_text(units as int) == sign + whole + "."@ + decimals
            &&& reading(whole) == abs / 10_000
            &&& 2 <= decimals.len() <= 4
            &&& decimals.len() == 2 ==> reading(decimals) * 100 == abs % 10_000
            &&& decimals.len() == 3 ==> reading(decimals) * 10 == abs % 10_000
            &&& decimals.len() == 4 ==> reading(decimals) == abs % 10_000
            &&& decimals.len() > 2 ==> decimals.last() != '0'
        }),
{
    let frac = magnitude(units as int) % 10_000;
    lemma_reading_decimal(magnitude(units as int) / 10_000);
    lemma_reading_fixed(frac / 100, 2);
    lemma_reading_fixed(frac / 10, 3);
    lemma_reading_fixed(frac, 4);
}


/// Only figures.
pub open spec fn figures(s: Seq<char>) -> bool {
    forall|i: int| 0 <= i < s.len() ==> '0' <= #[trigger] s[i] <= '9'
}

proof fn lemma_decimal_shape(n: nat)
    ensures
        decimal(n).len() > 0,
        figures(decimal(n)),
        decimal(n)[0] == '0' ==> n == 0 && decimal(n).len() == 1,
    decreases n,
{
    if n >= 10 {
        lemma_decimal_shape(n / 10);
        assert(decimal(n).drop_last() =~= decimal(n / 10));
        assert forall|i: int| 0 <= i < decimal(n).len() implies '0' <= #[trigger] decimal(n)[i]
            <= '9' by {
            if i < decimal(n).len() - 1 {
                assert(decimal(n)[i] == decimal(n / 10)[i]);
            }
        }
    }
}

/// A number in decimal is figures only, reads back as itself and has no zero in front
/// unless it is zero.
pub proof fn law_numbers_read_back(n: nat)
    ensures
        figures(decimal(n)),
        reading(decimal(n)) == n,
        decimal(n).len() > 0,
        decimal(n)[0] == '0' ==> n == 0 && decimal(n).len() == 1,
{
    lemma_reading_decimal(n);
    lemma_decimal_shape(n);
}

/// A price's text holds nothing but figures on either side of its point, with no zero
/// in front of whole dollars.
pub proof fn law_price_text_is_figures(units: i64)
    ensures
        ({
            let (whole, decimals) = price_parts(units as int);
            &&& figures(whole)
            &&& figures(decimals)
            &&& whole.len() > 0
            &&& whole.len() > 1 ==> whole[0] != '0'
        }),
{
    let abs = magnitude(units as int);
    lemma_decimal_shape(abs / 10_000);
    lemma_fixed_figures(abs % 10_000 / 100, 2);
    lemma_fixed_figures(abs % 10_000 / 10, 3);
    lemma_fixed_figures(abs % 10_000, 4);
}

proof fn lemma_fixed_figures(n: nat, width: nat)
    ensures
        figures(fixed(n, width)),
    decreases width,
{
    if width > 0 {
        let w = (width - 1) as nat;
        lemma_fixed_figures(n / 10, w);
        lemma_reading_fixed(n / 10, w);
        assert forall|i: int| 0 <= i < fixed(n, width).len() implies '0' <= #[trigger] fixed(
            n,
            width,
        )[i] <= '9' by {
            if i < w {
                assert(fixed(n, width)[i] == fixed(n / 10, w)[i]);
            }
        }
    }
}

}
