//! What holds of every book, however its levels are held.
use vstd::prelude::*;

use super::arena::{ArenaBook, SLOT};
use super::inline::INLINE;
use super::ladder::{sizes_of, total};
use super::levels::{lists_levels, set_level, Levels};
use super::{
    absorbed, mixed, updated_by, zero_padded, Book, BookView, SymbolBook, SymbolView,
};
use crate::bytes::{le64_bytes, lemma_le64_round_trip};
use crate::deep::laws::law_flags_and_deletes;
use crate::deep::messages::{MessageView, PriceLevelUpdate, Side};
use crate::deep::price::Price;
use crate::deep::symbol::{lemma_key_identifies, Symbol};
use crate::tally::{lemma_tally_listing, lemma_tally_remove, sum};
use crate::tree::{greatest, least, lemma_ends_exist};

verus! {

/// The other side.
pub open spec fn opposite(side: Side) -> Side {
    match side {
        Side::Buy => Side::Sell,
        Side::Sell => Side::Buy,
    }
}

/// An update writes one level of one side of one symbol and says whether that
/// symbol's event is over. Every other price, the opposite side and every other
/// symbol are as they were; what a new symbol has not been told is empty.
pub proof fn law_an_update_touches_one_level(
    book: BookView,
    u: PriceLevelUpdate,
    price: i64,
    other: Symbol,
)
    ensures
        ({
            let key = u.symbol.key();
            let before = book.symbol(key);
            let after = book.updated(u).symbol(key);
            &&& book.updated(u).symbols.contains_key(key)
            &&& after.complete == u.event_complete()
            &&& u.size != 0 ==> after.side(u.side).contains_pair(u.price.0, u.size)
            &&& u.size == 0 ==> !after.side(u.side).contains_key(u.price.0)
            &&& price != u.price.0 ==> {
                &&& after.side(u.side).contains_key(price) == before.side(u.side).contains_key(
                    price,
                )
                &&& after.side(u.side)[price] == before.side(u.side)[price]
            }
            &&& after.side(opposite(u.side)) == before.side(opposite(u.side))
            &&& !book.symbols.contains_key(key) ==> before == SymbolView::empty()
            &&& other != u.symbol ==> {
                &&& book.updated(u).symbols.contains_key(other.key()) == book.symbols.contains_key(
                    other.key(),
                )
                &&& book.updated(u).symbol(other.key()) == book.symbol(other.key())
            }
        }),
{
    lemma_key_identifies(other, u.symbol);
}

/// Neither another symbol's update nor one to the other side moves a symbol's
/// best bid or best ask.
pub proof fn law_other_updates_leave_the_touch_alone(
    book: BookView,
    u: PriceLevelUpdate,
    s: Symbol,
)
    ensures
        u.symbol != s || u.side is Sell ==> book.updated(u).symbol(s.key()).touch().bid
            == book.symbol(s.key()).touch().bid,
        u.symbol != s || u.side is Buy ==> book.updated(u).symbol(s.key()).touch().ask
            == book.symbol(s.key()).touch().ask,
{
    lemma_key_identifies(s, u.symbol);
}

/// What one update does to the number of levels: one more for a price that was
/// not there, one fewer for a delete of one that was, otherwise nothing.
pub open spec fn level_change(book: BookView, u: PriceLevelUpdate) -> int {
    let held = book.symbol(u.symbol.key()).side(u.side).contains_key(u.price.0);
    if u.size != 0 && !held {
        1
    } else if u.size == 0 && held {
        -1
    } else {
        0
    }
}

proof fn lemma_level_change(book: BookView, u: PriceLevelUpdate)
    requires
        book.finite(),
    ensures
        book.updated(u).levels() == book.levels() + level_change(book, u),
{
    let key = u.symbol.key();
    let before = book.symbol(key);
    let after = before.updated(u);
    let next = book.updated(u);
    let side = before.side(u.side);
    assert(set_level(side, u.price, u.size).dom().len() == side.dom().len() + level_change(
        book,
        u,
    )) by {
        if u.size != 0 {
            assert(side.insert(u.price.0, u.size).dom() =~= side.dom().insert(u.price.0));
        } else {
            assert(side.remove(u.price.0).dom() =~= side.dom().remove(u.price.0));
        }
    }
    assert(after.levels() == before.levels() + level_change(book, u));
    let each = book.symbols.map_values(|s: SymbolView| s.levels());
    let each_after = next.symbols.map_values(|s: SymbolView| s.levels());
    let rest = each.remove(key);
    assert(each.dom() =~= book.symbols.dom());
    assert(each_after.dom() =~= book.symbols.dom().insert(key));
    assert(each_after.remove(key) =~= rest);
    lemma_tally_remove(each_after, key);
    if book.symbols.contains_key(key) {
        lemma_tally_remove(each, key);
    } else {
        assert(rest =~= each);
        assert(before.bids.dom() =~= Set::empty() && before.asks.dom() =~= Set::empty());
    }
}

/// An update changes the number of levels of a book by one at most: up for a new
/// price, down for a delete of one that was held, not at all for a resize or a
/// delete of one that was not.
pub proof fn law_levels_follow_updates<L: Levels>(book: Book<L>, u: PriceLevelUpdate)
    requires
        book.wf(),
    ensures
        book@.updated(u).levels() == book@.levels() + level_change(book@, u),
{
    book.lemma_finite();
    lemma_level_change(book@, u);
}

/// The same of an arena book.
pub proof fn law_arena_levels_follow_updates(book: ArenaBook, u: PriceLevelUpdate)
    requires
        book.wf(),
    ensures
        book@.updated(u).levels() == book@.levels() + level_change(book@, u),
{
    book.lemma_finite();
    lemma_level_change(book@, u);
}

/// The levels of a listed symbol.
pub open spec fn depth<L: Levels>(row: (Symbol, &SymbolBook<L>)) -> nat {
    row.1@.bids.dom().len() + row.1@.asks.dom().len()
}

/// The number of levels of a book is the sum of both sides over any listing of
/// its symbols, such as [`Book::iter`] gives.
pub proof fn law_levels_are_the_sum_over_symbols<L: Levels>(
    book: Book<L>,
    rows: Seq<(Symbol, &SymbolBook<L>)>,
)
    requires
        book.wf(),
        rows.len() == book@.symbols.dom().len(),
        forall|i: int|
            0 <= i < rows.len() ==> book@.symbols.contains_pair(
                (#[trigger] rows[i]).0.key(),
                rows[i].1@,
            ),
        forall|i: int, j: int|
            0 <= i < j < rows.len() ==> (#[trigger] rows[i]).0.key() != (
            #[trigger] rows[j]).0.key(),
    ensures
        book@.levels() == sum(rows.map_values(|r: (Symbol, &SymbolBook<L>)| depth(r))),
{
    book.lemma_finite();
    let each = book@.symbols.map_values(|s: SymbolView| s.levels());
    let keys = rows.map_values(|r: (Symbol, &SymbolBook<L>)| r.0.key());
    assert(each.dom() =~= book@.symbols.dom());
    assert(keys.no_duplicates()) by {
        assert forall|i: int, j: int|
            0 <= i < keys.len() && 0 <= j < keys.len() && i != j implies keys[i] != keys[j] by {
            assert(keys[i] == rows[i].0.key() && keys[j] == rows[j].0.key());
        }
    }
    assert forall|k: u64| keys.to_set().contains(k) implies each.dom().contains(k) by {
        let i = choose|i: int| 0 <= i < keys.len() && keys[i] == k;
        assert(book@.symbols.contains_pair(rows[i].0.key(), rows[i].1@));
    }
    keys.unique_seq_to_set();
    vstd::set_lib::lemma_subset_equality(keys.to_set(), each.dom());
    lemma_tally_listing(each, keys);
    assert(keys.map_values(|k: u64| each[k]) =~= rows.map_values(
        |r: (Symbol, &SymbolBook<L>)| depth(r),
    )) by {
        assert forall|i: int| 0 <= i < rows.len() implies each[keys[i]] == depth(rows[i]) by {
            assert(book@.symbols.contains_pair(rows[i].0.key(), rows[i].1@));
        }
    }
}

/// A book that starts empty and takes updates one after the other, each as
/// [`Book::apply_price_level`] and [`ArenaBook::apply_price_level`] promise, is in
/// the state those updates lead to, and in no other.
pub open spec fn takes(states: Seq<BookView>, us: Seq<PriceLevelUpdate>) -> bool {
    &&& states.len() == us.len() + 1
    &&& states[0] == BookView::empty()
    &&& forall|i: int|
        0 <= i < us.len() ==> #[trigger] states[i + 1] == states[i].updated(us[i])
}

proof fn lemma_takes(states: Seq<BookView>, us: Seq<PriceLevelUpdate>, n: int)
    requires
        takes(states, us),
        0 <= n <= us.len(),
    ensures
        states[n] == updated_by(BookView::empty(), us.take(n)),
    decreases n,
{
    if n > 0 {
        lemma_takes(states, us, n - 1);
        assert(us.take(n).drop_last() =~= us.take(n - 1));
        assert(states[(n - 1) + 1] == states[n - 1].updated(us[n - 1]));
    } else {
        assert(us.take(0).len() == 0);
    }
}

/// Whatever updates they are given, a book in any container and an arena book
/// agree after every one of them: on every symbol's sides, best bid and best ask,
/// on the number of symbols, levels and shares, and on every counter.
pub proof fn law_arena_agrees<L: Levels>(
    books: Seq<Book<L>>,
    arenas: Seq<ArenaBook>,
    us: Seq<PriceLevelUpdate>,
    n: int,
    s: Symbol,
)
    requires
        takes(books.map_values(|b: Book<L>| b@), us),
        takes(arenas.map_values(|a: ArenaBook| a@), us),
        0 <= n <= us.len(),
    ensures
        books[n]@ == arenas[n]@,
        books[n]@ == updated_by(BookView::empty(), us.take(n)),
        books[n]@.symbol(s.key()) == arenas[n]@.symbol(s.key()),
        books[n]@.symbol(s.key()).touch() == arenas[n]@.symbol(s.key()).touch(),
        books[n]@.symbols.dom().len() == arenas[n]@.symbols.dom().len(),
        books[n]@.levels() == arenas[n]@.levels(),
        books[n]@.shares() == arenas[n]@.shares(),
        books[n]@.stats == arenas[n]@.stats,
{
    lemma_takes(books.map_values(|b: Book<L>| b@), us, n);
    lemma_takes(arenas.map_values(|a: ArenaBook| a@), us, n);
}

/// What [`Book::apply_price_level`] promises of one call.
pub open spec fn book_step<L: Levels>(a: Book<L>, b: Book<L>, u: PriceLevelUpdate) -> bool {
    a.wf() && a@.stats.room() ==> b.wf() && b@ == a@.updated(u)
}

/// What [`ArenaBook::apply_price_level`] promises of one call.
pub open spec fn arena_step(a: ArenaBook, b: ArenaBook, u: PriceLevelUpdate) -> bool {
    a.wf() && a.accepts(u) ==> {
        &&& b.wf()
        &&& b@ == a@.updated(u)
        &&& b.spilled_sides() <= a.spilled_sides() + 1
    }
}

/// No side ever holds more levels than a 16-bit count can say.
pub open spec fn short_sides(us: Seq<PriceLevelUpdate>) -> bool {
    forall|n: int, k: u64, side: Side|
        0 <= n <= us.len() ==> (#[trigger] updated_by(BookView::empty(), us.take(n)).symbol(
            k,
        ).side(side)).dom().len() <= u16::MAX
}

/// The same calls made of a new book and of a new arena book, one state after each.
pub open spec fn run_side_by_side<L: Levels>(
    books: Seq<Book<L>>,
    arenas: Seq<ArenaBook>,
    us: Seq<PriceLevelUpdate>,
) -> bool {
    &&& books.len() == us.len() + 1
    &&& arenas.len() == us.len() + 1
    &&& books[0].wf() && books[0]@ == BookView::empty()
    &&& arenas[0].wf() && arenas[0]@ == BookView::empty() && arenas[0].spilled_sides() == 0
    &&& forall|i: int|
        0 <= i < us.len() ==> book_step(books[i], books[i + 1], #[trigger] us[i]) && arena_step(
            arenas[i],
            arenas[i + 1],
            us[i],
        )
}

/// No counter an update touches is past `n`.
spec fn counted_to(b: BookView, n: int) -> bool {
    &&& b.stats.updates <= n
    &&& b.stats.deletes <= n
    &&& b.stats.deletes_of_absent <= n
    &&& b.stats.crossed_when_stable <= n
    &&& b.stats.crossed_mid_event <= n
    &&& b.stats.locked_when_stable <= n
}

/// After `n` updates nothing has been counted, named or spilled more than `n`
/// times, so the next call is allowed.
proof fn lemma_run_side_by_side<L: Levels>(
    books: Seq<Book<L>>,
    arenas: Seq<ArenaBook>,
    us: Seq<PriceLevelUpdate>,
    n: int,
)
    requires
        run_side_by_side(books, arenas, us),
        us.len() <= u32::MAX,
        us.len() * 2 * SLOT <= usize::MAX,
        short_sides(us),
        0 <= n <= us.len(),
    ensures
        books[n].wf(),
        arenas[n].wf(),
        books[n]@ == updated_by(BookView::empty(), us.take(n)),
        arenas[n]@ == books[n]@,
        arenas[n].spilled_sides() <= n,
        books[n]@.symbols.dom().finite(),
        books[n]@.symbols.dom().len() <= n,
        counted_to(books[n]@, n),
        n < us.len() ==> books[n]@.stats.room() && arenas[n].accepts(us[n]),
        forall|i: int|
            0 <= i < n ==> books[n]@.symbols.contains_key((#[trigger] us[i]).symbol.key()),
    decreases n,
{
    if n == 0 {
        assert(us.take(0).len() == 0);
    } else {
        lemma_run_side_by_side(books, arenas, us, n - 1);
        let u = us[n - 1];
        assert(book_step(books[n - 1], books[(n - 1) + 1], u));
        assert(arena_step(arenas[n - 1], arenas[(n - 1) + 1], u));
        assert(us.take(n).drop_last() =~= us.take(n - 1));
        assert(books[n]@.symbols.dom() =~= books[n - 1]@.symbols.dom().insert(u.symbol.key()));
    }
    if n < us.len() {
        lemma_next_is_accepted(arenas[n], us, n);
    }
}

proof fn lemma_next_is_accepted(a: ArenaBook, us: Seq<PriceLevelUpdate>, n: int)
    requires
        a.wf(),
        0 <= n < us.len() <= u32::MAX,
        us.len() * 2 * SLOT <= usize::MAX,
        short_sides(us),
        a@ == updated_by(BookView::empty(), us.take(n)),
        a.spilled_sides() <= n,
        a@.symbols.dom().len() <= n,
        counted_to(a@, n),
    ensures
        a.accepts(us[n]),
{
    let u = us[n];
    let key = u.symbol.key();
    let side = a@.symbol(key).side(u.side);
    a.lemma_finite();
    assert((a@.symbols.dom().len() + 1) * 2 * SLOT <= us.len() * 2 * SLOT) by (nonlinear_arith)
        requires
            a@.symbols.dom().len() + 1 <= us.len(),
    ;
    if u.size != 0 && !side.contains_key(u.price.0) {
        let next = updated_by(BookView::empty(), us.take(n + 1));
        assert(us.take(n + 1).drop_last() =~= us.take(n));
        assert(next == a@.updated(u));
        assert(next.symbol(key).side(u.side) == side.insert(u.price.0, u.size));
        assert(next.symbol(key).side(u.side).dom().len() <= u16::MAX);
        assert(side.insert(u.price.0, u.size).dom() =~= side.dom().insert(u.price.0));
    }
}

/// Whatever updates they are given, as many as an index can count and with no more
/// levels on a side than a 16-bit count can say, a new book in any container and a
/// new arena book take every one of them and agree after each: on every symbol
/// seen, its sides, best bid and best ask, on the number of symbols, levels and
/// shares, and on every counter.
pub proof fn law_arena_agrees_on_every_run<L: Levels>(
    books: Seq<Book<L>>,
    arenas: Seq<ArenaBook>,
    us: Seq<PriceLevelUpdate>,
    n: int,
    s: Symbol,
)
    requires
        run_side_by_side(books, arenas, us),
        us.len() <= u32::MAX,
        us.len() * 2 * SLOT <= usize::MAX,
        short_sides(us),
        0 <= n <= us.len(),
    ensures
        books[n].wf(),
        arenas[n].wf(),
        n < us.len() ==> books[n]@.stats.room() && arenas[n].accepts(us[n]),
        books[n]@ == arenas[n]@,
        books[n]@ == updated_by(BookView::empty(), us.take(n)),
        forall|i: int|
            0 <= i < n ==> books[n]@.symbols.contains_key((#[trigger] us[i]).symbol.key()),
        books[n]@.symbol(s.key()) == arenas[n]@.symbol(s.key()),
        books[n]@.symbol(s.key()).touch() == arenas[n]@.symbol(s.key()).touch(),
        books[n]@.symbols.dom().len() == arenas[n]@.symbols.dom().len(),
        books[n]@.levels() == arenas[n]@.levels(),
        books[n]@.shares() == arenas[n]@.shares(),
        books[n]@.stats == arenas[n]@.stats,
{
    lemma_run_side_by_side(books, arenas, us, n);
}

/// Some bid is priced above some ask.
pub open spec fn bid_above_ask(v: SymbolView) -> bool {
    exists|b: i64, a: i64| #[trigger]
        v.bids.contains_key(b) && #[trigger] v.asks.contains_key(a) && b > a
}

/// Some price is both bid and asked.
pub open spec fn bid_at_ask(v: SymbolView) -> bool {
    exists|p: i64| #[trigger] v.bids.contains_key(p) && v.asks.contains_key(p)
}

/// The best bid is a bid that is held, with the size held there, and no bid is above
/// it; the best ask likewise, and no ask is below it. There is none exactly if
/// nothing is held.
pub proof fn law_the_touch_is_the_best(v: SymbolView, p: i64)
    requires
        v.bids.dom().finite(),
        v.asks.dom().finite(),
    ensures
        v.touch().stable == v.complete,
        v.touch().bid matches Some((b, n)) ==> v.bids.contains_pair(b.0, n) && (
        v.bids.contains_key(p) ==> p <= b.0),
        v.touch().ask matches Some((a, n)) ==> v.asks.contains_pair(a.0, n) && (
        v.asks.contains_key(p) ==> a.0 <= p),
        v.bids.contains_key(p) ==> v.touch().bid is Some,
        v.asks.contains_key(p) ==> v.touch().ask is Some,
{
    if v.bids.contains_key(p) {
        assert(v.bids.dom().contains(p));
    }
    if v.asks.contains_key(p) {
        assert(v.asks.dom().contains(p));
    }
    if !v.bids.dom().is_empty() {
        lemma_ends_exist(v.bids);
    }
    if !v.asks.dom().is_empty() {
        lemma_ends_exist(v.asks);
    }
}

/// A book is crossed exactly if some bid is priced above some ask, and locked exactly
/// if none is and some price is both bid and asked. Sizes do not matter.
pub proof fn law_crossing_goes_by_price_alone(v: SymbolView)
    requires
        v.bids.dom().finite(),
        v.asks.dom().finite(),
    ensures
        v.crossed() <==> bid_above_ask(v),
        v.locked() <==> !bid_above_ask(v) && bid_at_ask(v),
{
    let (hb, la) = (greatest(v.bids), least(v.asks));
    if v.bids.dom().is_empty() {
        assert forall|b: i64| !v.bids.contains_key(b) by {
            assert(!v.bids.dom().contains(b));
        }
    } else if v.asks.dom().is_empty() {
        assert forall|a: i64| !v.asks.contains_key(a) by {
            assert(!v.asks.dom().contains(a));
        }
    } else {
        lemma_ends_exist(v.bids);
        lemma_ends_exist(v.asks);
        assert(v.bids.contains_key(hb) && v.asks.contains_key(la));
    }
}

/// What one update adds to each counter: one to the updates; one to the deletes if it
/// leaves no size, and one to those of absent levels if its side is then as it was;
/// one to the crossings, at an event boundary or within an event, if the symbol then
/// bids above what it asks; one to the locks if it is at an event boundary and bids
/// what it asks and nothing above. Trades are not touched.
pub proof fn law_counters_follow_updates(book: BookView, u: PriceLevelUpdate)
    requires
        book.finite(),
    ensures
        ({
            let key = u.symbol.key();
            let (was, is) = (book.stats, book.updated(u).stats);
            let (before, after) = (book.symbol(key), book.updated(u).symbol(key));
            let done = u.flags & 1 == 1;
            &&& is.updates == was.updates + 1
            &&& is.deletes == was.deletes + if u.size == 0 {
                1int
            } else {
                0
            }
            &&& is.deletes_of_absent == was.deletes_of_absent + if u.size == 0 && after.side(u.side)
                == before.side(u.side) {
                1int
            } else {
                0
            }
            &&& is.crossed_when_stable == was.crossed_when_stable + if done && bid_above_ask(after) {
                1int
            } else {
                0
            }
            &&& is.crossed_mid_event == was.crossed_mid_event + if !done && bid_above_ask(after) {
                1int
            } else {
                0
            }
            &&& is.locked_when_stable == was.locked_when_stable + if done && bid_at_ask(after)
                && !bid_above_ask(after) {
                1int
            } else {
                0
            }
            &&& is.trades == was.trades
            &&& is.traded_shares == was.traded_shares
        }),
{
    let key = u.symbol.key();
    let before = book.symbol(key);
    let after = book.updated(u).symbol(key);
    law_flags_and_deletes(u);
    law_crossing_goes_by_price_alone(after);
    let side = before.side(u.side);
    if u.size == 0 {
        if side.contains_key(u.price.0) {
            assert(!after.side(u.side).contains_key(u.price.0));
        } else {
            assert(side.remove(u.price.0) =~= side);
        }
    }
}

/// A message that is no price level update leaves every level as it was. A trade
/// report adds one trade and its shares; a break, and any other message, adds nothing.
pub proof fn law_trades_are_counted(book: BookView, m: MessageView)
    requires
        !(m is PriceLevel),
    ensures
        ({
            let next = book.applied(m);
            let report = m matches MessageView::Trade(t) && !t.is_break;
            &&& next.symbols == book.symbols
            &&& next.stats.trades == book.stats.trades + if report {
                1int
            } else {
                0
            }
            &&& next.stats.traded_shares == book.stats.traded_shares + if report {
                m->Trade_0.size as int
            } else {
                0
            }
            &&& next.stats.updates == book.stats.updates
            &&& next.stats.deletes == book.stats.deletes
            &&& next.stats.deletes_of_absent == book.stats.deletes_of_absent
            &&& next.stats.crossed_when_stable == book.stats.crossed_when_stable
            &&& next.stats.crossed_mid_event == book.stats.crossed_mid_event
            &&& next.stats.locked_when_stable == book.stats.locked_when_stable
        }),
{
}

/// Applying a price level update as a message is applying it, and the touch handed
/// back is the one the symbol is left with.
pub proof fn law_updates_hand_back_the_touch(book: BookView, u: PriceLevelUpdate)
    ensures
        book.applied(MessageView::PriceLevel(u)) == book.updated(u),
        book.touch_after(u) == book.updated(u).symbol(u.symbol.key()).touch(),
{
}

/// What a price holds on a side, nothing if it is not held.
pub open spec fn size_at(m: Map<i64, u32>, price: i64) -> int {
    if m.contains_key(price) {
        m[price] as int
    } else {
        0
    }
}

proof fn lemma_total_follows(m: Map<i64, u32>, price: Price, size: u32)
    requires
        m.dom().finite(),
    ensures
        total(set_level(m, price, size)) == total(m) - size_at(m, price.0) + size,
{
    let k = price.0;
    let each = sizes_of(m);
    let after = sizes_of(set_level(m, price, size));
    assert(each.dom() =~= m.dom());
    assert(after.dom() =~= set_level(m, price, size).dom());
    if m.contains_key(k) {
        lemma_tally_remove(each, k);
    }
    assert(after.remove(k) =~= each.remove(k));
    if size != 0 {
        lemma_tally_remove(after, k);
    } else {
        assert(after =~= each.remove(k));
    }
    if !m.contains_key(k) {
        assert(each.remove(k) =~= each);
    }
}

/// An update changes the shares on show by what it writes less what its level held.
pub proof fn law_shares_follow_updates(book: BookView, u: PriceLevelUpdate)
    requires
        book.finite(),
    ensures
        book.updated(u).shares() == book.shares() + u.size - size_at(
            book.symbol(u.symbol.key()).side(u.side),
            u.price.0,
        ),
        BookView::empty().shares() == 0,
        BookView::empty().levels() == 0,
{
    let key = u.symbol.key();
    let before = book.symbol(key);
    let after = before.updated(u);
    let next = book.updated(u);
    lemma_total_follows(before.side(u.side), u.price, u.size);
    let each = book.symbols.map_values(|s: SymbolView| s.shares());
    let each_after = next.symbols.map_values(|s: SymbolView| s.shares());
    assert(each.dom() =~= book.symbols.dom());
    assert(each_after.dom() =~= book.symbols.dom().insert(key));
    assert(each_after.remove(key) =~= each.remove(key));
    lemma_tally_remove(each_after, key);
    if book.symbols.contains_key(key) {
        lemma_tally_remove(each, key);
    } else {
        assert(each.remove(key) =~= each);
        assert(sizes_of(before.bids).dom() =~= Set::empty());
        assert(sizes_of(before.asks).dom() =~= Set::empty());
    }
    let none = BookView::empty().symbols;
    assert(none.map_values(|s: SymbolView| s.shares()).dom() =~= Set::empty());
    assert(none.map_values(|s: SymbolView| s.levels()).dom() =~= Set::empty());
}

/// A listing of a side has every level that is held, once, and nothing else, from the
/// lowest price up.
pub proof fn law_a_listing_has_every_level(s: Seq<(Price, u32)>, m: Map<i64, u32>, k: i64)
    requires
        lists_levels(s, m),
        m.dom().finite(),
    ensures
        m.contains_key(k) <==> exists|i: int| 0 <= i < s.len() && (#[trigger] s[i]).0.0 == k,
        forall|i: int| 0 <= i < s.len() && (#[trigger] s[i]).0.0 == k ==> m.contains_pair(k, s[i].1),
        forall|i: int, j: int|
            0 <= i < j < s.len() ==> (#[trigger] s[i]).0.0 < (#[trigger] s[j]).0.0,
{
    let keys = s.map_values(|l: (Price, u32)| l.0.0);
    assert(keys.no_duplicates()) by {
        assert forall|i: int, j: int|
            0 <= i < keys.len() && 0 <= j < keys.len() && i != j implies keys[i] != keys[j] by {
            if i < j {
                assert(s[i].0.0 < s[j].0.0);
            } else {
                assert(s[j].0.0 < s[i].0.0);
            }
        }
    }
    keys.unique_seq_to_set();
    assert forall|p: i64| keys.to_set().contains(p) implies m.dom().contains(p) by {
        let i = choose|i: int| 0 <= i < keys.len() && keys[i] == p;
        assert(m.contains_pair(s[i].0.0, s[i].1));
    }
    vstd::set_lib::lemma_subset_equality(keys.to_set(), m.dom());
    if m.contains_key(k) {
        assert(keys.to_set().contains(k));
        let i = choose|i: int| 0 <= i < keys.len() && keys[i] == k;
        assert(s[i].0.0 == k);
    }
}

/// Hashing eight bytes is hashing the word they spell, and hashing bytes a word at a
/// time is hashing them at once.
pub proof fn law_hashing_goes_by_words(h: u64, n: u64, first: Seq<u8>, rest: Seq<u8>)
    requires
        first.len() == 8,
    ensures
        absorbed(h, le64_bytes(n as int)) == mixed(h, n),
        absorbed(h, first + rest) == absorbed(absorbed(h, first), rest),
        absorbed(h, Seq::empty()) == h,
{
    lemma_le64_round_trip(n as int);
    assert(zero_padded(le64_bytes(n as int)) =~= le64_bytes(n as int));
    let all = first + rest;
    if rest.len() == 0 {
        assert(all =~= first);
    } else {
        assert(all.take(8) =~= first);
        assert(all.skip(8) =~= rest);
        assert(zero_padded(first) =~= zero_padded(all.take(8)));
    }
}


/// A word is mixed in by one multiplication modulo two to the sixty-fourth, and fewer
/// than eight bytes are the word they spell with nothing above them.
pub proof fn law_mixing_is_one_multiplication(h: u64, n: u64, k: int)
    requires
        0 < k <= 8,
        forall|i: int| k <= i < 8 ==> #[trigger] le64_bytes(n as int)[i] == 0,
    ensures
        mixed(h, n) == ((h ^ n) * 0x9e37_79b9_7f4a_7c15) % 0x1_0000_0000_0000_0000,
        absorbed(h, le64_bytes(n as int).take(k)) == mixed(h, n),
        INLINE == 8,
        SLOT == 8,
{
    lemma_le64_round_trip(n as int);
    let s = le64_bytes(n as int);
    assert(zero_padded(s.take(k)) =~= s);
}

}
