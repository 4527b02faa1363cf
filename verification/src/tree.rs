//! Reading the ends of an ordered map keyed by a signed integer.
use std::collections::BTreeMap;
use vstd::prelude::*;
use vstd::std_specs::cmp::OrdSpec;
use vstd::std_specs::iter::IteratorSpec;

verus! {

/// `s` lists the bindings of `m`, smallest key first.
pub open spec fn lists<V>(s: Seq<(i64, V)>, m: Map<i64, V>) -> bool {
    &&& forall|i: int, j: int| 0 <= i < j < s.len() ==> (#[trigger] s[i]).0 < (#[trigger] s[j]).0
    &&& forall|i: int| 0 <= i < s.len() ==> m.contains_pair((#[trigger] s[i]).0, s[i].1)
    &&& forall|k: i64| #[trigger] m.contains_key(k) ==> exists|i: int| 0 <= i < s.len() && (#[trigger] s[i]).0 == k
}

/// `k` is the smallest key of `m`.
pub open spec fn is_least<V>(m: Map<i64, V>, k: i64) -> bool {
    &&& m.contains_key(k)
    &&& forall|j: i64| #[trigger] m.contains_key(j) ==> k <= j
}

/// `k` is the largest key of `m`.
pub open spec fn is_greatest<V>(m: Map<i64, V>, k: i64) -> bool {
    &&& m.contains_key(k)
    &&& forall|j: i64| #[trigger] m.contains_key(j) ==> j <= k
}

/// The smallest key of `m`.
pub open spec fn least<V>(m: Map<i64, V>) -> i64 {
    choose|k: i64| is_least(m, k)
}

/// The largest key of `m`.
pub open spec fn greatest<V>(m: Map<i64, V>) -> i64 {
    choose|k: i64| is_greatest(m, k)
}

/// A finite map with any key has a smallest and a largest one.
pub proof fn lemma_ends_exist<V>(m: Map<i64, V>)
    requires
        m.dom().finite(),
        !m.dom().is_empty(),
    ensures
        is_least(m, least(m)),
        is_greatest(m, greatest(m)),
    decreases m.dom().len(),
{
    let k = m.dom().choose();
    assert(m.contains_key(k));
    let rest = m.remove(k);
    if rest.dom().is_empty() {
        assert forall|j: i64| #[trigger] m.contains_key(j) implies j == k by {
            if j != k {
                assert(rest.dom().contains(j));
            }
        }
        assert(is_least(m, k) && is_greatest(m, k));
    } else {
        lemma_ends_exist(rest);
        let lo = if least(rest) < k {
            least(rest)
        } else {
            k
        };
        let hi = if greatest(rest) > k {
            greatest(rest)
        } else {
            k
        };
        assert forall|j: i64| #[trigger] m.contains_key(j) implies lo <= j <= hi by {
            if j != k {
                assert(rest.contains_key(j));
            }
        }
        assert(rest.contains_key(least(rest)) && rest.contains_key(greatest(rest)));
        assert(is_least(m, lo) && is_greatest(m, hi));
    }
}

/// The first thing an iterator will yield.
fn first_item<I: Iterator>(mut it: I) -> (r: Option<I::Item>)
    requires
        it.obeys_prophetic_iter_laws(),
    ensures
        r == (if it.remaining().len() > 0 { Some(it.remaining()[0]) } else { None }),
{
    it.next()
}

/// The last thing an iterator will yield.
fn last_item<I: DoubleEndedIterator>(mut it: I) -> (r: Option<I::Item>)
    requires
        it.obeys_prophetic_iter_laws(),
    ensures
        r == (if it.remaining().len() > 0 { Some(it.remaining().last()) } else { None }),
{
    it.next_back()
}

/// What `BTreeMap::iter` promises, said over plain pairs.
proof fn lemma_iter_lists<V>(m: &BTreeMap<i64, V>, all: Seq<(&i64, &V)>)
    requires
        all == vstd::std_specs::btree::spec_btree_map_iter(m).remaining(),
        vstd::std_specs::btree::increasing_seq(all.map_values(|kv: (&i64, &V)| *kv.0)),
    ensures
        lists(all.map_values(|kv: (&i64, &V)| (*kv.0, *kv.1)), m@),
{
    broadcast use {vstd::std_specs::btree::group_btree_axioms, vstd::laws_cmp::group_laws_cmp};

    assert(vstd::laws_cmp::obeys_cmp::<i64>());
    let keys = all.map_values(|kv: (&i64, &V)| *kv.0);
    let s = all.map_values(|kv: (&i64, &V)| (*kv.0, *kv.1));
    assert forall|i: int, j: int| 0 <= i < j < s.len() implies (#[trigger] s[i]).0 < (#[trigger] s[j]).0 by {
        assert(keys[i] == s[i].0 && keys[j] == s[j].0);
        assert(keys[i].cmp_spec(&keys[j]) is Less);
    }
    assert forall|i: int| 0 <= i < s.len() implies m@.contains_pair((#[trigger] s[i]).0, s[i].1) by {
        assert(m@.contains_key(*all[i].0));
    }
    assert forall|k: i64| #[trigger] m@.contains_key(k) implies exists|i: int|
        0 <= i < s.len() && (#[trigger] s[i]).0 == k by {
        assert(all.contains((&k, &m@[k])));
        let i = choose|i: int| 0 <= i < all.len() && all[i] == (&k, &m@[k]);
        assert(s[i].0 == k);
    }
}

/// The binding with the smallest key.
pub fn smallest<V: Copy>(m: &BTreeMap<i64, V>) -> (r: Option<(i64, V)>)
    ensures
        r is None <==> m@.dom().is_empty(),
        r matches Some((k, v)) ==> is_least(m@, k) && k == least(m@) && v == m@[k],
{
    broadcast use {vstd::std_specs::btree::group_btree_axioms, vstd::laws_cmp::group_laws_cmp};

    let it = m.iter();
    proof {
        lemma_iter_lists(m, it.remaining());
    }
    let r = first_item(it);
    match r {
        Some((k, v)) => {
            assert(m@.contains_key(*k));
            assert(is_least(m@, *k));
            Some((*k, *v))
        },
        None => {
            assert(m@.dom() =~= Set::empty());
            None
        },
    }
}

/// The smallest key.
pub fn smallest_key<V>(m: &BTreeMap<i64, V>) -> (r: Option<i64>)
    ensures
        r is None <==> m@.dom().is_empty(),
        r matches Some(k) ==> is_least(m@, k) && k == least(m@),
{
    broadcast use {vstd::std_specs::btree::group_btree_axioms, vstd::laws_cmp::group_laws_cmp};

    let it = m.iter();
    proof {
        lemma_iter_lists(m, it.remaining());
    }
    let r = first_item(it);
    match r {
        Some((k, _)) => {
            assert(m@.contains_key(*k));
            assert(is_least(m@, *k));
            Some(*k)
        },
        None => {
            assert(m@.dom() =~= Set::empty());
            None
        },
    }
}

/// The binding with the largest key.
pub fn largest<V: Copy>(m: &BTreeMap<i64, V>) -> (r: Option<(i64, V)>)
    ensures
        r is None <==> m@.dom().is_empty(),
        r matches Some((k, v)) ==> is_greatest(m@, k) && k == greatest(m@) && v == m@[k],
{
    broadcast use {vstd::std_specs::btree::group_btree_axioms, vstd::laws_cmp::group_laws_cmp};

    let it = m.iter();
    proof {
        lemma_iter_lists(m, it.remaining());
    }
    let r = last_item(it);
    match r {
        Some((k, v)) => {
            assert(m@.contains_key(*k));
            assert(is_greatest(m@, *k));
            Some((*k, *v))
        },
        None => {
            assert(m@.dom() =~= Set::empty());
            None
        },
    }
}

/// Every binding, smallest key first.
pub fn listing<V: Copy>(m: &BTreeMap<i64, V>) -> (r: Vec<(i64, V)>)
    ensures
        lists(r@, m@),
{
    broadcast use {vstd::std_specs::btree::group_btree_axioms, vstd::laws_cmp::group_laws_cmp};

    let all = m.iter();
    proof {
        lemma_iter_lists(m, all.remaining());
    }
    let mut out: Vec<(i64, V)> = Vec::new();
    for kv in it: all
        invariant
            lists(it.seq().map_values(|kv: (&i64, &V)| (*kv.0, *kv.1)), m@),
            out@ == it.seq().take(it.index()).map_values(|kv: (&i64, &V)| (*kv.0, *kv.1)),
            it.index() == it.seq().len() ==> out@ == it.seq().map_values(
                |kv: (&i64, &V)| (*kv.0, *kv.1),
            ),
    {
        out.push((*kv.0, *kv.1));
    }
    out
}

/// Integer keys are ordered the way the tree needs them to be.
pub proof fn lemma_integer_keys()
    ensures
        vstd::std_specs::btree::key_obeys_cmp_spec::<i64>(),
{
    broadcast use {vstd::std_specs::btree::group_btree_axioms, vstd::laws_cmp::group_laws_cmp};
}

}
