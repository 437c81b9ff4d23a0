//! The multiset of the values of a finite map, counted once for each key.

use vstd::multiset::Multiset;
use vstd::prelude::*;

verus! {

/// The values of `m` as a multiset: a value occurs as often as there are keys that
/// map to it.
pub open spec fn values_of<K, V>(m: Map<K, V>) -> Multiset<V>
    decreases m.dom().len(),
    when m.dom().finite()
{
    if m.dom().len() == 0 {
        Multiset::empty()
    } else {
        let k = m.dom().choose();
        values_of(m.remove(k)).insert(m[k])
    }
}

/// The values of a map with no keys.
pub proof fn lemma_values_of_empty<K, V>(m: Map<K, V>)
    requires
        m.dom() =~= Set::<K>::empty(),
    ensures
        values_of(m) == Multiset::<V>::empty(),
{
}

/// Any key can be taken out first: the values of `m` are those of `m` without `k`,
/// and the value of `k`.
pub proof fn lemma_values_of_remove<K, V>(m: Map<K, V>, k: K)
    requires
        m.dom().finite(),
        m.dom().contains(k),
    ensures
        values_of(m) == values_of(m.remove(k)).insert(m[k]),
    decreases m.dom().len(),
{
    let c = m.dom().choose();
    if c != k {
        lemma_values_of_remove(m.remove(c), k);
        lemma_values_of_remove(m.remove(k), c);
        assert(m.remove(c).remove(k) =~= m.remove(k).remove(c));
        assert(values_of(m.remove(c).remove(k)).insert(m[k]).insert(m[c]) =~= values_of(
            m.remove(c).remove(k),
        ).insert(m[c]).insert(m[k]));
    }
}

} // verus!
