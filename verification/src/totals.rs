//! Totals over the entries of a map.

use vstd::prelude::*;

verus! {

/// The sum of the values of a finite map.
pub open spec fn map_total<K>(m: Map<K, i128>) -> int
    decreases m.dom().len(),
    when m.dom().finite()
{
    if m.dom().len() == 0 {
        0
    } else {
        let k = m.dom().choose();
        m[k] + map_total(m.remove(k))
    }
}

/// The total splits into one value and the total of the others.
pub proof fn lemma_total_remove<K>(m: Map<K, i128>, k: K)
    requires
        m.dom().finite(),
        m.contains_key(k),
    ensures
        map_total(m) == m[k] + map_total(m.remove(k)),
    decreases m.dom().len(),
{
    let c = m.dom().choose();
    assert(m.dom().contains(k));
    assert(m.dom().len() > 0) by {
        if m.dom().len() == 0 {
            m.dom().lemma_len0_is_empty();
        }
    }
    assert(m.dom().contains(c));
    assert(m.remove(k).dom() =~= m.dom().remove(k));
    assert(m.remove(c).dom() =~= m.dom().remove(c));
    if c != k {
        lemma_total_remove(m.remove(c), k);
        lemma_total_remove(m.remove(k), c);
        assert(m.remove(c).remove(k) =~= m.remove(k).remove(c));
    }
}

/// Setting one value changes the total by as much.
pub proof fn lemma_total_insert<K>(m: Map<K, i128>, k: K, v: i128)
    requires
        m.dom().finite(),
    ensures
        m.insert(k, v).dom().finite(),
        map_total(m.insert(k, v)) == map_total(m) + v - (if m.contains_key(k) {
            m[k] as int
        } else {
            0
        }),
{
    let n = m.insert(k, v);
    assert(n.dom() =~= m.dom().insert(k));
    lemma_total_remove(n, k);
    if m.contains_key(k) {
        lemma_total_remove(m, k);
        assert(n.remove(k) =~= m.remove(k));
    } else {
        assert(n.remove(k) =~= m);
    }
}

/// Where no value is negative, neither is the total.
pub proof fn lemma_total_nonneg<K>(m: Map<K, i128>)
    requires
        m.dom().finite(),
        forall|k: K| #[trigger] m.contains_key(k) ==> m[k] >= 0,
    ensures
        map_total(m) >= 0,
    decreases m.dom().len(),
{
    if m.dom().len() > 0 {
        let c = m.dom().choose();
        assert(m.dom().contains(c)) by {
            if !exists|a: K| m.dom().contains(a) {
                assert(m.dom() =~= Set::empty());
            }
        }
        assert(m.contains_key(c));
        assert(m.remove(c).dom() =~= m.dom().remove(c));
        lemma_total_nonneg(m.remove(c));
    }
}

} // verus!
