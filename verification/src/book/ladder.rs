//! A price ladder: prices in ascending order beside the sizes they hold.
//!
//! Every array-backed side of a book is one of these, wherever its arrays live,
//! and each stands for the same map from price to size.
use vstd::prelude::*;

use crate::deep::price::Price;
use crate::tally::{lemma_tally_insert, sum, tally};
use crate::tree::{greatest, is_greatest, is_least, least};

verus! {

/// Ascending, without repeats.
pub open spec fn sorted(p: Seq<Price>) -> bool {
    forall|i: int, j: int| 0 <= i < j < p.len() ==> (#[trigger] p[i]).0 < (#[trigger] p[j]).0
}

/// Where a price stands.
pub open spec fn place(p: Seq<Price>, k: i64) -> int {
    choose|i: int| 0 <= i < p.len() && (#[trigger] p[i]).0 == k
}

/// The map a ladder stands for.
pub open spec fn ladder(p: Seq<Price>, s: Seq<u32>) -> Map<i64, u32> {
    Map::new(
        |k: i64| exists|i: int| 0 <= i < p.len() && (#[trigger] p[i]).0 == k,
        |k: i64| s[place(p, k)],
    )
}

/// A ladder whose every level holds size.
pub open spec fn is_ladder(p: Seq<Price>, s: Seq<u32>) -> bool {
    &&& p.len() == s.len()
    &&& sorted(p)
    &&& forall|i: int| 0 <= i < s.len() ==> #[trigger] s[i] > 0
}

/// The sizes at every price, as a map to sum over.
pub open spec fn sizes_of(m: Map<i64, u32>) -> Map<i64, nat> {
    m.map_values(|v: u32| v as nat)
}

/// Total size over every level.
pub open spec fn total(m: Map<i64, u32>) -> nat {
    tally(sizes_of(m))
}

/// `i` is where `price` belongs among sorted prices that do not hold it.
pub open spec fn belongs(p: Seq<Price>, price: Price, i: int) -> bool {
    &&& 0 <= i <= p.len()
    &&& forall|j: int| 0 <= j < i ==> (#[trigger] p[j]).0 < price.0
    &&& forall|j: int| i <= j < p.len() ==> price.0 < (#[trigger] p[j]).0
}

pub proof fn lemma_at(p: Seq<Price>, s: Seq<u32>, i: int)
    requires
        sorted(p),
        0 <= i < p.len(),
    ensures
        ladder(p, s).contains_key(p[i].0),
        ladder(p, s)[p[i].0] == s[i],
        place(p, p[i].0) == i,
{
    let q = place(p, p[i].0);
    assert(p[i].0 == p[i].0);
    assert(0 <= q < p.len() && p[q].0 == p[i].0);
    if q < i {
        assert(p[q].0 < p[i].0);
    } else if i < q {
        assert(p[i].0 < p[q].0);
    }
}

/// Writing a size at a held price.
pub proof fn lemma_update(p: Seq<Price>, s: Seq<u32>, i: int, size: u32)
    requires
        is_ladder(p, s),
        0 <= i < p.len(),
    ensures
        ladder(p, s.update(i, size)) == ladder(p, s).insert(p[i].0, size),
        size > 0 ==> is_ladder(p, s.update(i, size)),
{
    let a = ladder(p, s.update(i, size));
    let b = ladder(p, s).insert(p[i].0, size);
    lemma_at(p, s, i);
    lemma_at(p, s.update(i, size), i);
    assert forall|k: i64| #[trigger] a.contains_key(k) implies a[k] == b[k] by {
        let j = place(p, k);
        assert(0 <= j < p.len() && p[j].0 == k);
        lemma_at(p, s, j);
        lemma_at(p, s.update(i, size), j);
    }
    assert(a =~= b);
}

/// Removing a held price.
pub proof fn lemma_remove(p: Seq<Price>, s: Seq<u32>, i: int)
    requires
        is_ladder(p, s),
        0 <= i < p.len(),
    ensures
        ladder(p.remove(i), s.remove(i)) == ladder(p, s).remove(p[i].0),
        is_ladder(p.remove(i), s.remove(i)),
{
    let p2 = p.remove(i);
    let s2 = s.remove(i);
    let a = ladder(p2, s2);
    let b = ladder(p, s).remove(p[i].0);
    assert(sorted(p2));
    assert forall|k: i64| a.contains_key(k) implies b.contains_key(k) && a[k] == b[k] by {
        let j = place(p2, k);
        assert(0 <= j < p2.len() && p2[j].0 == k);
        lemma_at(p2, s2, j);
        let o = if j < i {
            j
        } else {
            j + 1
        };
        assert(p2[j] == p[o] && s2[j] == s[o]);
        lemma_at(p, s, o);
        if o < i {
            assert(p[o].0 < p[i].0);
        } else {
            assert(p[i].0 < p[o].0);
        }
    }
    assert forall|k: i64| b.contains_key(k) implies a.contains_key(k) by {
        let o = place(p, k);
        assert(0 <= o < p.len() && p[o].0 == k);
        let j = if o < i {
            o
        } else {
            o - 1
        };
        assert(p2[j] == p[o]);
    }
    assert(a =~= b);
}

/// Inserting a price that is not held.
pub proof fn lemma_insert(p: Seq<Price>, s: Seq<u32>, i: int, price: Price, size: u32)
    requires
        is_ladder(p, s),
        belongs(p, price, i),
        size > 0,
    ensures
        ladder(p.insert(i, price), s.insert(i, size)) == ladder(p, s).insert(price.0, size),
        is_ladder(p.insert(i, price), s.insert(i, size)),
{
    let p2 = p.insert(i, price);
    let s2 = s.insert(i, size);
    let a = ladder(p2, s2);
    let b = ladder(p, s).insert(price.0, size);
    assert(sorted(p2));
    assert forall|k: i64| a.contains_key(k) implies b.contains_key(k) && a[k] == b[k] by {
        let j = place(p2, k);
        assert(0 <= j < p2.len() && p2[j].0 == k);
        lemma_at(p2, s2, j);
        if j != i {
            let o = if j < i {
                j
            } else {
                j - 1
            };
            assert(p2[j] == p[o] && s2[j] == s[o]);
            lemma_at(p, s, o);
        }
    }
    assert forall|k: i64| b.contains_key(k) implies a.contains_key(k) by {
        if k == price.0 {
            assert(p2[i].0 == k);
        } else {
            let o = place(p, k);
            assert(0 <= o < p.len() && p[o].0 == k);
            let j = if o < i {
                o
            } else {
                o + 1
            };
            assert(p2[j] == p[o]);
        }
    }
    assert(a =~= b);
}

/// A price that is not held has no level to remove.
pub proof fn lemma_absent(p: Seq<Price>, s: Seq<u32>, i: int, price: Price)
    requires
        belongs(p, price, i),
    ensures
        !ladder(p, s).contains_key(price.0),
        ladder(p, s).remove(price.0) == ladder(p, s),
{
    assert(!ladder(p, s).contains_key(price.0)) by {
        if ladder(p, s).contains_key(price.0) {
            let j = place(p, price.0);
            assert(0 <= j < p.len() && p[j].0 == price.0);
        }
    }
    assert(ladder(p, s).remove(price.0) =~= ladder(p, s));
}

/// The ends of a ladder are the extremes of its map.
pub proof fn lemma_ends(p: Seq<Price>, s: Seq<u32>)
    requires
        sorted(p),
    ensures
        p.len() == 0 <==> ladder(p, s).dom().is_empty(),
        p.len() > 0 ==> {
            &&& least(ladder(p, s)) == p[0].0
            &&& ladder(p, s)[p[0].0] == s[0]
            &&& greatest(ladder(p, s)) == p.last().0
            &&& ladder(p, s)[p.last().0] == s[p.len() - 1]
        },
{
    let m = ladder(p, s);
    if p.len() > 0 {
        lemma_at(p, s, 0);
        lemma_at(p, s, p.len() - 1);
        assert(m.dom().contains(p[0].0));
        assert forall|k: i64| #[trigger] m.contains_key(k) implies p[0].0 <= k <= p.last().0 by {
            let j = place(p, k);
            assert(0 <= j < p.len() && p[j].0 == k);
        }
        assert(is_least(m, p[0].0));
        assert(is_greatest(m, p.last().0));
    } else {
        assert(m.dom() =~= Set::empty());
    }
}

/// A ladder has as many levels as its map has keys, all holding size, and its
/// sizes add up to the map's total.
pub proof fn lemma_measure(p: Seq<Price>, s: Seq<u32>)
    requires
        is_ladder(p, s),
    ensures
        ladder(p, s).dom().finite(),
        ladder(p, s).dom().len() == p.len(),
        total(ladder(p, s)) == sum(s.map_values(|v: u32| v as nat)),
        forall|k: i64| #[trigger] ladder(p, s).contains_key(k) ==> ladder(p, s)[k] > 0,
    decreases p.len(),
{
    let m = ladder(p, s);
    let vals = s.map_values(|v: u32| v as nat);
    if p.len() == 0 {
        assert(m.dom() =~= Set::empty());
        assert(sizes_of(m).dom() =~= Set::empty());
    } else {
        let i = p.len() - 1;
        let p2 = p.drop_last();
        let s2 = s.drop_last();
        assert(p.remove(i) =~= p2 && s.remove(i) =~= s2);
        lemma_remove(p, s, i);
        lemma_measure(p2, s2);
        lemma_at(p, s, i);
        let rest = ladder(p2, s2);
        assert(m =~= rest.insert(p[i].0, s[i]));
        assert(!rest.contains_key(p[i].0));
        assert(sizes_of(m) =~= sizes_of(rest).insert(p[i].0, s[i] as nat));
        assert(sizes_of(rest).dom() =~= rest.dom());
        lemma_tally_insert(sizes_of(rest), p[i].0, s[i] as nat);
        assert(vals.drop_last() =~= s2.map_values(|v: u32| v as nat));
        assert forall|k: i64| #[trigger] m.contains_key(k) implies m[k] > 0 by {
            if k != p[i].0 {
                assert(rest.contains_key(k));
            }
        }
    }
}

/// A prefix never adds up to more than the whole.
pub proof fn lemma_sum_prefix(s: Seq<nat>, n: int)
    requires
        0 <= n <= s.len(),
    ensures
        sum(s.take(n)) <= sum(s),
    decreases s.len(),
{
    if n < s.len() {
        lemma_sum_prefix(s.drop_last(), n);
        assert(s.drop_last().take(n) =~= s.take(n));
    } else {
        assert(s.take(n) =~= s);
    }
}

/// Linear search over sorted prices: `Ok(i)` if present, `Err(i)` to insert at.
///
/// A forward scan rather than a binary search: at the depths this feed actually
/// produces, the branch predictor beats the algorithm.
pub fn find(prices: &[Price], price: Price) -> (r: Result<usize, usize>)
    requires
        sorted(prices@),
    ensures
        match r {
            Ok(i) => i < prices@.len() && prices@[i as int] == price,
            Err(i) => belongs(prices@, price, i as int),
        },
{
    let mut i: usize = 0;
    while i < prices.len()
        invariant
            i <= prices@.len(),
            sorted(prices@),
            forall|j: int| 0 <= j < i ==> (#[trigger] prices@[j]).0 < price.0,
        decreases prices@.len() - i,
    {
        if prices[i].0 == price.0 {
            return Ok(i);
        }
        if prices[i].0 > price.0 {
            return Err(i);
        }
        i = i + 1;
    }
    Err(i)
}

/// Add up sizes.
pub fn add_up(sizes: &[u32]) -> (r: u64)
    requires
        sum(sizes@.map_values(|v: u32| v as nat)) <= u64::MAX,
    ensures
        r == sum(sizes@.map_values(|v: u32| v as nat)),
{
    let ghost all = sizes@.map_values(|v: u32| v as nat);
    let mut acc: u64 = 0;
    let mut i: usize = 0;
    while i < sizes.len()
        invariant
            i <= sizes@.len(),
            all == sizes@.map_values(|v: u32| v as nat),
            acc == sum(all.take(i as int)),
            sum(all) <= u64::MAX,
        decreases sizes@.len() - i,
    {
        proof {
            assert(all.take(i + 1).drop_last() =~= all.take(i as int));
            lemma_sum_prefix(all, i + 1);
        }
        acc = acc + sizes[i] as u64;
        i = i + 1;
    }
    assert(all.take(i as int) =~= all);
    acc
}

/// Write a size at a price in a ladder kept in two vectors. A size of zero
/// removes the level.
pub fn set_in(prices: &mut Vec<Price>, sizes: &mut Vec<u32>, price: Price, size: u32)
    requires
        is_ladder(old(prices)@, old(sizes)@),
    ensures
        is_ladder(final(prices)@, final(sizes)@),
        ladder(final(prices)@, final(sizes)@) == crate::book::levels::set_level(
            ladder(old(prices)@, old(sizes)@),
            price,
            size,
        ),
{
    let ghost p = prices@;
    let ghost s = sizes@;
    match find(prices.as_slice(), price) {
        Ok(i) => {
            if size == 0 {
                prices.remove(i);
                sizes.remove(i);
                proof {
                    lemma_remove(p, s, i as int);
                }
            } else {
                sizes[i] = size;
                proof {
                    lemma_update(p, s, i as int, size);
                }
            }
        },
        Err(i) => {
            // A delete for a level that is not held is normal when joining a live
            // feed mid-session, and must not insert a zero-size level.
            if size != 0 {
                prices.insert(i, price);
                sizes.insert(i, size);
                proof {
                    lemma_insert(p, s, i as int, price, size);
                }
            } else {
                proof {
                    lemma_absent(p, s, i as int, price);
                }
            }
        },
    }
}

}
