//! Sums over maps, in whatever order the entries come.
use vstd::prelude::*;

verus! {

/// The sum of the values of a finite map.
pub open spec fn tally<K>(m: Map<K, nat>) -> nat
    decreases m.dom().len(),
{
    if m.dom().finite() && !m.dom().is_empty() {
        let k = m.dom().choose();
        m[k] + tally(m.remove(k))
    } else {
        0
    }
}

/// The sum of a sequence.
pub open spec fn sum(s: Seq<nat>) -> nat
    decreases s.len(),
{
    if s.len() == 0 {
        0
    } else {
        sum(s.drop_last()) + s.last()
    }
}

/// Any entry may be taken out first.
pub proof fn lemma_tally_remove<K>(m: Map<K, nat>, k: K)
    requires
        m.dom().finite(),
        m.contains_key(k),
    ensures
        tally(m) == m[k] + tally(m.remove(k)),
    decreases m.dom().len(),
{
    assert(m.dom().contains(k));
    let c = m.dom().choose();
    assert(m.dom().contains(c));
    if c != k {
        lemma_tally_remove(m.remove(c), k);
        lemma_tally_remove(m.remove(k), c);
        assert(m.remove(c).remove(k) =~= m.remove(k).remove(c));
    }
}

/// A fresh entry adds its value.
pub proof fn lemma_tally_insert<K>(m: Map<K, nat>, k: K, v: nat)
    requires
        m.dom().finite(),
        !m.contains_key(k),
    ensures
        tally(m.insert(k, v)) == tally(m) + v,
{
    lemma_tally_remove(m.insert(k, v), k);
    assert(m.insert(k, v).remove(k) =~= m);
}

/// The sum over a map is the sum over any listing of its keys.
pub proof fn lemma_tally_listing<K>(m: Map<K, nat>, keys: Seq<K>)
    requires
        keys.no_duplicates(),
        keys.to_set() == m.dom(),
    ensures
        m.dom().finite(),
        tally(m) == sum(keys.map_values(|k: K| m[k])),
    decreases keys.len(),
{
    keys.lemma_cardinality_of_set();
    let vals = keys.map_values(|k: K| m[k]);
    if keys.len() == 0 {
        assert(m.dom() =~= Set::empty());
    } else {
        let last = keys.last();
        let front = keys.drop_last();
        let rest = m.remove(last);
        assert(keys.to_set().contains(last));
        assert(front.to_set() =~= rest.dom()) by {
            assert forall|k: K| front.to_set().contains(k) implies rest.dom().contains(k) by {
                let i = choose|i: int| 0 <= i < front.len() && front[i] == k;
                assert(keys[i] == k && keys[keys.len() - 1] == last);
                assert(keys.to_set().contains(k));
            }
            assert forall|k: K| rest.dom().contains(k) implies front.to_set().contains(k) by {
                assert(keys.to_set().contains(k));
                let i = choose|i: int| 0 <= i < keys.len() && keys[i] == k;
                assert(front[i] == k);
            }
        }
        assert(front.no_duplicates());
        lemma_tally_listing(rest, front);
        lemma_tally_remove(m, last);
        assert(front.map_values(|k: K| rest[k]) =~= vals.drop_last()) by {
            assert forall|i: int| 0 <= i < front.len() implies rest[front[i]] == m[keys[i]] by {
                assert(front.to_set().contains(front[i]));
            }
        }
    }
}

}
