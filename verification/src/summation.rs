//! Sums of a function over all entries of a finite map.
//!
//! `map_sum(m, f)` adds up `f(k, m[k])` over every key of `m`.  Dot products,
//! squared norms and value totals of term vectors are all instances of it.

use vstd::prelude::*;

verus! {

/// Sum of `f(k, m[k])` over the keys of `m`; 0 for infinite or empty maps.
pub open spec fn map_sum<K>(m: Map<K, nat>, f: spec_fn(K, nat) -> nat) -> nat
    decreases m.dom().len(),
    when m.dom().finite()
{
    if m.dom().finite() && m.dom().len() > 0 {
        let k = m.dom().choose();
        f(k, m[k]) + map_sum(m.remove(k), f)
    } else {
        0
    }
}

/// Any key of the map can be split off the sum first, not just the chosen one.
pub proof fn lemma_map_sum_remove<K>(m: Map<K, nat>, f: spec_fn(K, nat) -> nat, k: K)
    requires
        m.dom().finite(),
        m.dom().contains(k),
    ensures
        map_sum(m, f) == f(k, m[k]) + map_sum(m.remove(k), f),
    decreases m.dom().len(),
{
    let k0 = m.dom().choose();
    if k0 == k {
    } else {
        lemma_map_sum_remove(m.remove(k0), f, k);
        lemma_map_sum_remove(m.remove(k), f, k0);
        assert(m.remove(k0).remove(k) =~= m.remove(k).remove(k0));
    }
}

/// Adding a fresh key adds exactly its contribution.
pub proof fn lemma_map_sum_insert<K>(m: Map<K, nat>, f: spec_fn(K, nat) -> nat, k: K, v: nat)
    requires
        m.dom().finite(),
        !m.dom().contains(k),
    ensures
        map_sum(m.insert(k, v), f) == map_sum(m, f) + f(k, v),
{
    lemma_map_sum_remove(m.insert(k, v), f, k);
    assert(m.insert(k, v).remove(k) =~= m);
}

/// If two functions agree on every entry of `m`, the sums agree.
pub proof fn lemma_map_sum_congruence<K>(
    m: Map<K, nat>,
    f: spec_fn(K, nat) -> nat,
    g: spec_fn(K, nat) -> nat,
)
    requires
        m.dom().finite(),
        forall|k: K| m.dom().contains(k) ==> f(k, m[k]) == g(k, m[k]),
    ensures
        map_sum(m, f) == map_sum(m, g),
    decreases m.dom().len(),
{
    if m.dom().len() > 0 {
        let k = m.dom().choose();
        lemma_map_sum_congruence(m.remove(k), f, g);
    }
}

/// A pointwise bound on the entries bounds the sums.
pub proof fn lemma_map_sum_le<K>(
    m: Map<K, nat>,
    f: spec_fn(K, nat) -> nat,
    g: spec_fn(K, nat) -> nat,
)
    requires
        m.dom().finite(),
        forall|k: K| m.dom().contains(k) ==> f(k, m[k]) <= g(k, m[k]),
    ensures
        map_sum(m, f) <= map_sum(m, g),
    decreases m.dom().len(),
{
    if m.dom().len() > 0 {
        let k = m.dom().choose();
        lemma_map_sum_le(m.remove(k), f, g);
    }
}

/// If every entry contributes 0, the sum is 0.
pub proof fn lemma_map_sum_zero<K>(m: Map<K, nat>, f: spec_fn(K, nat) -> nat)
    requires
        m.dom().finite(),
        forall|k: K| m.dom().contains(k) ==> f(k, m[k]) == 0,
    ensures
        map_sum(m, f) == 0,
    decreases m.dom().len(),
{
    if m.dom().len() > 0 {
        let k = m.dom().choose();
        lemma_map_sum_zero(m.remove(k), f);
    }
}

/// Scaling every entry by a constant factor scales the sum.
pub proof fn lemma_map_sum_scale<K>(m: Map<K, nat>, a: nat)
    requires
        m.dom().finite(),
    ensures
        map_sum(m, |k: K, c: nat| c * a) == map_sum(m, |k: K, c: nat| c) * a,
    decreases m.dom().len(),
{
    let f = |k: K, c: nat| c * a;
    let g = |k: K, c: nat| c;
    if m.dom().len() > 0 {
        let k = m.dom().choose();
        lemma_map_sum_scale::<K>(m.remove(k), a);
        let x = m[k];
        let y = map_sum(m.remove(k), g);
        assert(map_sum(m, f) == f(k, m[k]) + map_sum(m.remove(k), f));
        assert(map_sum(m, g) == g(k, m[k]) + map_sum(m.remove(k), g));
        assert((x + y) * a == x * a + y * a) by (nonlinear_arith);
    } else {
        assert(map_sum(m, f) == 0);
        assert(map_sum(m, g) == 0);
    }
}

/// One entry never exceeds the sum of all entries.
pub proof fn lemma_map_sum_entry_le<K>(m: Map<K, nat>, f: spec_fn(K, nat) -> nat, k: K)
    requires
        m.dom().finite(),
        m.dom().contains(k),
    ensures
        f(k, m[k]) <= map_sum(m, f),
{
    lemma_map_sum_remove(m, f, k);
}

} // verus!
