//! The obvious implementation: an ordered map.
//!
//! This is the baseline every other container is measured against. It is
//! correct, it is ordered, and `max`/`min` are cheap because a B-tree knows its
//! own extremes. What it pays is locality.
use std::collections::BTreeMap;
use vstd::prelude::*;

use crate::book::ladder::{lemma_sum_prefix, sizes_of, total};
use crate::book::levels::{populated, set_level, Levels};
use crate::deep::price::Price;
use crate::tally::{lemma_tally_listing, sum};
use crate::tree::{largest, lemma_integer_keys, lists, listing, smallest};

verus! {

/// Levels in a `BTreeMap`, keyed by raw price units.
#[derive(Debug, Clone)]
pub struct BTreeLevels {
    map: BTreeMap<i64, u32>,
}

impl Default for BTreeLevels {
    fn default() -> (r: BTreeLevels)
        ensures
            r.wf(),
            r.view() == Map::<i64, u32>::empty(),
    {
        BTreeLevels { map: BTreeMap::new() }
    }
}

/// The keys of an ordered listing are the keys of its map, once each.
proof fn lemma_listing_keys(s: Seq<(i64, u32)>, m: Map<i64, u32>)
    requires
        lists(s, m),
    ensures
        s.map_values(|kv: (i64, u32)| kv.0).no_duplicates(),
        s.map_values(|kv: (i64, u32)| kv.0).to_set() == m.dom(),
        m.dom().finite(),
        s.len() == m.dom().len(),
{
    let keys = s.map_values(|kv: (i64, u32)| kv.0);
    assert forall|i: int, j: int| 0 <= i < keys.len() && 0 <= j < keys.len() && i != j implies keys[i]
        != keys[j] by {
        if i < j {
            assert(s[i].0 < s[j].0);
        } else {
            assert(s[j].0 < s[i].0);
        }
    }
    assert forall|k: i64| m.dom().contains(k) implies keys.to_set().contains(k) by {
        assert(m.contains_key(k));
        let i = choose|i: int| 0 <= i < s.len() && (#[trigger] s[i]).0 == k;
        assert(keys[i] == k);
    }
    assert forall|k: i64| keys.to_set().contains(k) implies m.dom().contains(k) by {
        let i = choose|i: int| 0 <= i < keys.len() && keys[i] == k;
        assert(m.contains_pair(s[i].0, s[i].1));
    }
    assert(keys.to_set() =~= m.dom());
    keys.unique_seq_to_set();
}

impl Levels for BTreeLevels {
    closed spec fn view(&self) -> Map<i64, u32> {
        self.map@
    }

    closed spec fn wf(&self) -> bool {
        populated(self.map@)
    }

    proof fn lemma_populated(&self) {
    }

    fn empty() -> (r: BTreeLevels) {
        BTreeLevels::default()
    }

    fn set(&mut self, price: Price, size: u32) {
        broadcast use vstd::std_specs::btree::group_btree_axioms;

        proof {
            lemma_integer_keys();
        }
        if size == 0 {
            self.map.remove(&price.0);
        } else {
            self.map.insert(price.0, size);
        }
        assert(self.map@ =~= set_level(old(self).map@, price, size));
    }

    fn max(&self) -> (r: Option<(Price, u32)>) {
        match largest(&self.map) {
            Some((p, s)) => {
                assert(self.map@.dom().contains(p));
                Some((Price(p), s))
            },
            None => None,
        }
    }

    fn min(&self) -> (r: Option<(Price, u32)>) {
        match smallest(&self.map) {
            Some((p, s)) => {
                assert(self.map@.dom().contains(p));
                Some((Price(p), s))
            },
            None => None,
        }
    }

    fn len(&self) -> (r: usize) {
        broadcast use vstd::std_specs::btree::group_btree_axioms;

        proof {
            lemma_integer_keys();
        }
        self.map.len()
    }

    fn total_size(&self) -> (r: u64) {
        let all = listing(&self.map);
        let ghost m = self.map@;
        let ghost keys = all@.map_values(|kv: (i64, u32)| kv.0);
        let ghost vals = keys.map_values(|k: i64| sizes_of(m)[k]);
        proof {
            lemma_listing_keys(all@, m);
            assert(sizes_of(m).dom() =~= m.dom());
            lemma_tally_listing(sizes_of(m), keys);
        }
        let mut acc: u64 = 0;
        let mut i: usize = 0;
        while i < all.len()
            invariant
                i <= all@.len(),
                m == self.map@,
                lists(all@, m),
                keys == all@.map_values(|kv: (i64, u32)| kv.0),
                vals == keys.map_values(|k: i64| sizes_of(m)[k]),
                sum(vals) == total(m),
                total(m) <= u64::MAX,
                acc == sum(vals.take(i as int)),
            decreases all@.len() - i,
        {
            proof {
                assert(m.contains_pair(all@[i as int].0, all@[i as int].1));
                assert(vals.take(i + 1).drop_last() =~= vals.take(i as int));
                lemma_sum_prefix(vals, i + 1);
            }
            acc = acc + all[i].1 as u64;
            i = i + 1;
        }
        assert(vals.take(i as int) =~= vals);
        acc
    }

    fn levels(&self) -> (r: Vec<(Price, u32)>) {
        let all = listing(&self.map);
        proof {
            lemma_listing_keys(all@, self.map@);
        }
        let mut out: Vec<(Price, u32)> = Vec::new();
        let mut i: usize = 0;
        while i < all.len()
            invariant
                i <= all@.len(),
                out@.len() == i,
                forall|j: int| 0 <= j < i ==> (#[trigger] out@[j]) == (Price(all@[j].0), all@[j].1),
            decreases all@.len() - i,
        {
            out.push((Price(all[i].0), all[i].1));
            i = i + 1;
        }
        proof {
            assert forall|a: int, b: int| 0 <= a < b < out@.len() implies (#[trigger] out@[a]).0.0
                < (#[trigger] out@[b]).0.0 by {
                assert(all@[a].0 < all@[b].0);
            }
            assert forall|a: int| 0 <= a < out@.len() implies self.map@.contains_pair(
                (#[trigger] out@[a]).0.0,
                out@[a].1,
            ) by {
                assert(self.map@.contains_pair(all@[a].0, all@[a].1));
            }
        }
        out
    }

    fn clear(&mut self) {
        broadcast use vstd::std_specs::btree::group_btree_axioms;

        proof {
            lemma_integer_keys();
        }
        self.map.clear();
    }
}

}
