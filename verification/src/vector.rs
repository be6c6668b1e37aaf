//! Term-frequency vectors.
//!
//! A `TermVector` maps normalized terms to integer occurrence counts.  It is
//! kept as an association list with unique keys and viewed as a
//! `Map<Seq<char>, nat>`.  The total of all counts is capped so that every
//! dot product, squared norm, and score comparison stays inside machine
//! integers with exact values.

use vstd::prelude::*;

use crate::summation::{
    lemma_map_sum_congruence, lemma_map_sum_entry_le, lemma_map_sum_insert, lemma_map_sum_le,
    lemma_map_sum_remove, lemma_map_sum_scale, map_sum,
};

verus! {

/// Upper bound on the total of all counts held by one vector.  It keeps every
/// quantity of the scoring arithmetic exactly representable: dot products and
/// squared norms stay below `COUNT_CAP^2` (fits in `u64`), and the products
/// used to compare two scores stay below `COUNT_CAP^6` (fits in `u128`).
pub const COUNT_CAP: u64 = 1000000;

pub open spec fn keys_of(s: Seq<(String, u64)>) -> Seq<Seq<char>> {
    s.map_values(|e: (String, u64)| e.0@)
}

pub open spec fn sum_counts(s: Seq<(String, u64)>) -> nat
    decreases s.len(),
{
    if s.len() == 0 {
        0
    } else {
        (sum_counts(s.drop_last()) + s.last().1) as nat
    }
}

pub open spec fn map_of(s: Seq<(String, u64)>) -> Map<Seq<char>, nat>
    decreases s.len(),
{
    if s.len() == 0 {
        Map::empty()
    } else {
        map_of(s.drop_last()).insert(s.last().0@, s.last().1 as nat)
    }
}

pub open spec fn uniq_keys(s: Seq<(String, u64)>) -> bool {
    forall|i: int, j: int| 0 <= i < j < s.len() ==> s[i].0@ != s[j].0@
}

/// Total of all counts of a term map.
pub open spec fn values_total(m: Map<Seq<char>, nat>) -> nat {
    map_sum(m, |k: Seq<char>, c: nat| c)
}

/// Dot product of two term maps: sum over the keys of `m1` of the product of
/// the counts, where a key absent from `m2` contributes 0.
pub open spec fn dot_spec(m1: Map<Seq<char>, nat>, m2: Map<Seq<char>, nat>) -> nat {
    map_sum(
        m1,
        |k: Seq<char>, c: nat|
            if m2.contains_key(k) {
                c * m2[k]
            } else {
                0
            },
    )
}

/// Squared Euclidean norm of a term map.
pub open spec fn norm_sq_spec(m: Map<Seq<char>, nat>) -> nat {
    map_sum(m, |k: Seq<char>, c: nat| c * c)
}

/// `m` after counting one more occurrence of `k`.
pub open spec fn bumped(m: Map<Seq<char>, nat>, k: Seq<char>) -> Map<Seq<char>, nat> {
    m.insert(
        k,
        if m.contains_key(k) {
            (m[k] + 1) as nat
        } else {
            1nat
        },
    )
}

/// `m` after padding with key `k`: present keys are untouched, an absent key
/// appears with count 0.
pub open spec fn pad_one(m: Map<Seq<char>, nat>, k: Seq<char>) -> Map<Seq<char>, nat> {
    if m.contains_key(k) {
        m
    } else {
        m.insert(k, 0)
    }
}

proof fn lemma_map_of_props(s: Seq<(String, u64)>)
    requires
        uniq_keys(s),
    ensures
        map_of(s).dom().finite(),
        forall|i: int|
            0 <= i < s.len() ==> map_of(s).contains_key(#[trigger] s[i].0@) && map_of(s)[s[i].0@]
                == s[i].1 as nat,
        forall|k: Seq<char>| #[trigger] map_of(s).contains_key(k) ==> keys_of(s).contains(k),
        values_total(map_of(s)) == sum_counts(s),
    decreases s.len(),
{
    if s.len() > 0 {
        let d = s.drop_last();
        assert(uniq_keys(d));
        lemma_map_of_props(d);
        assert(!map_of(d).contains_key(s.last().0@)) by {
            if map_of(d).contains_key(s.last().0@) {
                let k = s.last().0@;
                assert(keys_of(d).contains(k));
                let i = choose|i: int| 0 <= i < keys_of(d).len() && keys_of(d)[i] == k;
                assert(s[i].0@ == s[s.len() - 1].0@);
            }
        }
        lemma_map_sum_insert(map_of(d), |k: Seq<char>, c: nat| c, s.last().0@, s.last().1 as nat);
        assert(forall|i: int| 0 <= i < d.len() ==> d[i] == s[i]);
        assert(forall|k: Seq<char>| #[trigger]
            map_of(s).contains_key(k) ==> keys_of(s).contains(k)) by {
            assert forall|k: Seq<char>| #[trigger] map_of(s).contains_key(k) implies keys_of(
                s,
            ).contains(k) by {
                if k == s.last().0@ {
                    assert(keys_of(s)[s.len() - 1] == k);
                } else {
                    assert(map_of(d).contains_key(k));
                    let i = choose|i: int| 0 <= i < keys_of(d).len() && keys_of(d)[i] == k;
                    assert(keys_of(s)[i] == k);
                }
            }
        }
    }
}

proof fn lemma_entry_le_sum(s: Seq<(String, u64)>, i: int)
    requires
        0 <= i < s.len(),
    ensures
        s[i].1 <= sum_counts(s),
    decreases s.len(),
{
    if i < s.len() - 1 {
        lemma_entry_le_sum(s.drop_last(), i);
    }
}

proof fn lemma_sum_counts_update(s: Seq<(String, u64)>, i: int, e: (String, u64))
    requires
        0 <= i < s.len(),
    ensures
        sum_counts(s.update(i, e)) + s[i].1 == sum_counts(s) + e.1,
    decreases s.len(),
{
    let u = s.update(i, e);
    if i == s.len() - 1 {
        assert(u.drop_last() =~= s.drop_last());
    } else {
        lemma_sum_counts_update(s.drop_last(), i, e);
        assert(u.drop_last() =~= s.drop_last().update(i, e));
    }
}

proof fn lemma_map_of_update(s: Seq<(String, u64)>, i: int, e: (String, u64))
    requires
        uniq_keys(s),
        0 <= i < s.len(),
        e.0@ == s[i].0@,
    ensures
        map_of(s.update(i, e)) == map_of(s).insert(e.0@, e.1 as nat),
    decreases s.len(),
{
    let u = s.update(i, e);
    if i == s.len() - 1 {
        assert(u.drop_last() =~= s.drop_last());
        assert(map_of(u) =~= map_of(s).insert(e.0@, e.1 as nat));
    } else {
        assert(uniq_keys(s.drop_last()));
        lemma_map_of_update(s.drop_last(), i, e);
        assert(u.drop_last() =~= s.drop_last().update(i, e));
        assert(u.last() == s.last());
        assert(e.0@ != s.last().0@);
        assert(map_of(u) =~= map_of(s).insert(e.0@, e.1 as nat));
    }
}

/// A term-frequency vector with unique keys and a capped count total.
pub struct TermVector {
    entries: Vec<(String, u64)>,
}

impl View for TermVector {
    type V = Map<Seq<char>, nat>;

    closed spec fn view(&self) -> Map<Seq<char>, nat> {
        map_of(self.entries@)
    }
}

impl TermVector {
    /// The keys in insertion order.
    pub closed spec fn key_seq(self) -> Seq<Seq<char>> {
        keys_of(self.entries@)
    }

    /// Total of all counts.
    pub closed spec fn sum(self) -> nat {
        sum_counts(self.entries@)
    }

    /// Well-formed: keys are unique and the count total is within the cap.
    pub closed spec fn wf(self) -> bool {
        uniq_keys(self.entries@) && sum_counts(self.entries@) <= COUNT_CAP
    }

    /// What well-formedness gives the outside world.
    pub proof fn lemma_wf_facts(self)
        requires
            self.wf(),
        ensures
            self@.dom().finite(),
            values_total(self@) == self.sum(),
            self.sum() <= COUNT_CAP,
            self.key_seq().no_duplicates(),
            forall|k: Seq<char>| #[trigger] self@.contains_key(k) <==> self.key_seq().contains(k),
            forall|i: int|
                0 <= i < self.key_seq().len() ==> self@[#[trigger] self.key_seq()[i]] <= COUNT_CAP,
    {
        lemma_map_of_props(self.entries@);
        assert forall|k: Seq<char>| self.key_seq().contains(k) implies self@.contains_key(k) by {
            let i = choose|i: int| 0 <= i < self.key_seq().len() && self.key_seq()[i] == k;
            assert(self.entries@[i].0@ == k);
        }
        assert forall|i: int| 0 <= i < self.key_seq().len() implies self@[#[trigger] self.key_seq()[i]]
            <= COUNT_CAP by {
            lemma_entry_le_sum(self.entries@, i);
        }
    }

    /// A present count never exceeds the total of the map's counts.
    pub proof fn lemma_value_le_total(m: Map<Seq<char>, nat>, k: Seq<char>)
        requires
            m.dom().finite(),
            m.contains_key(k),
        ensures
            m[k] <= values_total(m),
    {
        lemma_map_sum_entry_le(m, |k: Seq<char>, c: nat| c, k);
    }

    pub fn new() -> (v: TermVector)
        ensures
            v.wf(),
            v@ == Map::<Seq<char>, nat>::empty(),
            v.sum() == 0,
            v.key_seq() == Seq::<Seq<char>>::empty(),
    {
        let v = TermVector { entries: Vec::new() };
        proof {
            assert(v.key_seq() =~= Seq::<Seq<char>>::empty());
        }
        v
    }

    fn find(&self, key: &String) -> (r: Option<usize>)
        ensures
            match r {
                Some(i) => i < self.entries@.len() && self.entries@[i as int].0@ == key@,
                None => !self.key_seq().contains(key@),
            },
    {
        let mut i: usize = 0;
        while i < self.entries.len()
            invariant
                i <= self.entries@.len(),
                forall|j: int| 0 <= j < i ==> self.entries@[j].0@ != key@,
            decreases self.entries@.len() - i,
        {
            if self.entries[i].0 == *key {
                return Some(i);
            }
            i += 1;
        }
        proof {
            if self.key_seq().contains(key@) {
                let j = choose|j: int|
                    0 <= j < self.key_seq().len() && self.key_seq()[j] == key@;
                assert(self.entries@[j].0@ == key@);
            }
        }
        None
    }

    /// The count stored for `key`, or 0 when the key is absent.
    pub fn count_of(&self, key: &String) -> (c: u64)
        requires
            self.wf(),
        ensures
            self@.contains_key(key@) ==> c as nat == self@[key@],
            !self@.contains_key(key@) ==> c == 0,
    {
        proof {
            lemma_map_of_props(self.entries@);
            self.lemma_wf_facts();
        }
        match self.find(key) {
            Some(i) => self.entries[i].1,
            None => 0,
        }
    }

    pub fn num_keys(&self) -> (n: usize)
        ensures
            n == self.key_seq().len(),
    {
        self.entries.len()
    }

    pub fn key_at(&self, i: usize) -> (k: &String)
        requires
            i < self.key_seq().len(),
        ensures
            k@ == self.key_seq()[i as int],
    {
        &self.entries[i].0
    }

    /// Count one more occurrence of `key`.
    pub fn bump(&mut self, key: &String)
        requires
            old(self).wf(),
            old(self).sum() + 1 <= COUNT_CAP,
        ensures
            final(self).wf(),
            final(self)@ == bumped(old(self)@, key@),
            final(self).sum() == old(self).sum() + 1,
            old(self)@.contains_key(key@) ==> final(self).key_seq() == old(self).key_seq(),
            !old(self)@.contains_key(key@) ==> final(self).key_seq() == old(self).key_seq().push(
                key@,
            ),
    {
        proof {
            lemma_map_of_props(self.entries@);
            self.lemma_wf_facts();
        }
        match self.find(key) {
            Some(i) => {
                let c = self.entries[i].1;
                proof {
                    lemma_entry_le_sum(self.entries@, i as int);
                }
                let e = (key.clone(), c + 1);
                proof {
                    lemma_map_of_update(self.entries@, i as int, e);
                    lemma_sum_counts_update(self.entries@, i as int, e);
                }
                self.entries.set(i, e);
                proof {
                    assert(keys_of(self.entries@) =~= keys_of(old(self).entries@));
                    assert(self@ =~= bumped(old(self)@, key@));
                }
            },
            None => {
                self.entries.push((key.clone(), 1));
                proof {
                    assert(self.entries@.drop_last() =~= old(self).entries@);
                    assert(keys_of(self.entries@) =~= keys_of(old(self).entries@).push(key@));
                    assert(!old(self)@.contains_key(key@));
                    assert(self@ =~= bumped(old(self)@, key@));
                }
            },
        }
    }

    /// Make sure `key` is present, with count 0 when it was absent.
    pub fn pad_with(&mut self, key: &String)
        requires
            old(self).wf(),
        ensures
            final(self).wf(),
            final(self)@ == pad_one(old(self)@, key@),
            final(self).sum() == old(self).sum(),
            old(self)@.contains_key(key@) ==> final(self).key_seq() == old(self).key_seq(),
            !old(self)@.contains_key(key@) ==> final(self).key_seq() == old(self).key_seq().push(
                key@,
            ),
    {
        proof {
            lemma_map_of_props(self.entries@);
            self.lemma_wf_facts();
        }
        match self.find(key) {
            Some(_) => {
                proof {
                    assert(old(self)@.contains_key(key@));
                }
            },
            None => {
                self.entries.push((key.clone(), 0));
                proof {
                    assert(self.entries@.drop_last() =~= old(self).entries@);
                    assert(keys_of(self.entries@) =~= keys_of(old(self).entries@).push(key@));
                    assert(self@ =~= pad_one(old(self)@, key@));
                }
            },
        }
    }

    /// An independent copy with the same contents.
    pub fn duplicate(&self) -> (r: TermVector)
        ensures
            r@ == self@,
            r.sum() == self.sum(),
            r.key_seq() == self.key_seq(),
            r.wf() == self.wf(),
    {
        let mut entries: Vec<(String, u64)> = Vec::new();
        let mut i: usize = 0;
        while i < self.entries.len()
            invariant
                i <= self.entries@.len(),
                entries@.len() == i,
                forall|j: int| 0 <= j < i ==> entries@[j] == self.entries@[j],
            decreases self.entries@.len() - i,
        {
            let e = &self.entries[i];
            entries.push((e.0.clone(), e.1));
            i += 1;
        }
        let r = TermVector { entries };
        proof {
            assert(r.entries@ =~= self.entries@);
        }
        r
    }
}

/// The dot product of two well-formed vectors, computed exactly.
pub fn dot(v1: &TermVector, v2: &TermVector) -> (r: u64)
    requires
        v1.wf(),
        v2.wf(),
    ensures
        r as nat == dot_spec(v1@, v2@),
        r as nat <= COUNT_CAP * COUNT_CAP,
{
    let ghost m1 = v1@;
    let ghost m2 = v2@;
    let ghost f = |k: Seq<char>, c: nat|
        if m2.contains_key(k) {
            c * m2[k]
        } else {
            0
        };
    proof {
        v1.lemma_wf_facts();
        v2.lemma_wf_facts();
        lemma_map_of_props(v1.entries@);
        lemma_dot_bound(m1, m2);
    }
    let ghost mut rem = m1;
    let mut acc: u64 = 0;
    let mut i: usize = 0;
    while i < v1.entries.len()
        invariant
            v1.wf(),
            v2.wf(),
            m1 == v1@,
            m2 == v2@,
            f == (|k: Seq<char>, c: nat|
                if m2.contains_key(k) {
                    c * m2[k]
                } else {
                    0
                }),
            i <= v1.entries@.len(),
            m1.dom().finite(),
            m2.dom().finite(),
            rem.dom().finite(),
            forall|k: Seq<char>| #[trigger]
                rem.contains_key(k) <==> m1.contains_key(k) && !keys_of(v1.entries@).take(
                    i as int,
                ).contains(k),
            forall|k: Seq<char>| #[trigger] rem.contains_key(k) ==> rem[k] == m1[k],
            acc as nat + map_sum(rem, f) == map_sum(m1, f),
            map_sum(m1, f) <= COUNT_CAP * COUNT_CAP,
        decreases v1.entries@.len() - i,
    {
        let key = &v1.entries[i].0;
        let c1 = v1.entries[i].1;
        let c2 = v2.count_of(key);
        proof {
            v1.lemma_wf_facts();
            v2.lemma_wf_facts();
            lemma_map_of_props(v1.entries@);
            let ks = keys_of(v1.entries@);
            assert(ks[i as int] == key@);
            assert(m1.contains_key(key@) && m1[key@] == c1 as nat);
            assert(!ks.take(i as int).contains(key@)) by {
                if ks.take(i as int).contains(key@) {
                    let j = choose|j: int| 0 <= j < i && ks.take(i as int)[j] == key@;
                    assert(v1.entries@[j].0@ == v1.entries@[i as int].0@);
                }
            }
            assert(rem.contains_key(key@));
            lemma_map_sum_remove(rem, f, key@);
            assert(f(key@, rem[key@]) == c1 as nat * (c2 as nat)) by {
                if m2.contains_key(key@) {
                    assert(c2 as nat == m2[key@]);
                } else {
                    assert(c2 == 0);
                }
            }
            TermVector::lemma_value_le_total(m1, key@);
            if m2.contains_key(key@) {
                TermVector::lemma_value_le_total(m2, key@);
            }
            assert(c1 as nat * (c2 as nat) <= COUNT_CAP * COUNT_CAP) by (nonlinear_arith)
                requires
                    c1 as nat <= COUNT_CAP,
                    c2 as nat <= COUNT_CAP,
            ;
            lemma_map_sum_entry_le(rem, f, key@);
            let old_rem = rem;
            rem = rem.remove(key@);
            let t1 = ks.take(i + 1 as int);
            let t0 = ks.take(i as int);
            assert(t1 =~= t0.push(key@));
            assert forall|k: Seq<char>| #[trigger]
                rem.contains_key(k) <==> m1.contains_key(k) && !t1.contains(k) by {
                assert(t1.contains(k) <==> t0.contains(k) || k == key@) by {
                    if t1.contains(k) {
                        let j = choose|j: int| 0 <= j < t1.len() && t1[j] == k;
                        if j < i as int {
                            assert(t0[j] == k);
                        }
                    }
                    if t0.contains(k) {
                        let j = choose|j: int| 0 <= j < t0.len() && t0[j] == k;
                        assert(t1[j] == k);
                    }
                    if k == key@ {
                        assert(t1[i as int] == k);
                    }
                }
                assert(old_rem.contains_key(k) <==> m1.contains_key(k) && !t0.contains(k));
            }
            assert forall|k: Seq<char>| #[trigger] rem.contains_key(k) implies rem[k] == m1[k] by {
                assert(old_rem.contains_key(k));
            }
        }
        acc = acc + c1 * c2;
        i += 1;
    }
    proof {
        v1.lemma_wf_facts();
        assert(rem.dom() =~= Set::<Seq<char>>::empty()) by {
            if rem.dom().len() > 0 || exists|k: Seq<char>| rem.dom().contains(k) {
                if exists|k: Seq<char>| rem.dom().contains(k) {
                    let k = choose|k: Seq<char>| rem.dom().contains(k);
                    assert(rem.contains_key(k));
                    assert(m1.contains_key(k));
                    assert(keys_of(v1.entries@).take(v1.entries@.len() as int).contains(k)) by {
                        assert(keys_of(v1.entries@).take(v1.entries@.len() as int) =~= keys_of(
                            v1.entries@,
                        ));
                        assert(v1.key_seq().contains(k));
                    }
                }
            }
        }
        assert(map_sum(rem, f) == 0);
    }
    acc
}

/// The squared norm is the dot product of a vector with itself.
pub fn norm_sq(v: &TermVector) -> (r: u64)
    requires
        v.wf(),
    ensures
        r as nat == norm_sq_spec(v@),
        r as nat <= COUNT_CAP * COUNT_CAP,
{
    proof {
        v.lemma_wf_facts();
        lemma_dot_self_is_norm_sq(v@);
    }
    dot(v, v)
}

/// For any term map, the dot product with itself is its squared norm.
pub proof fn lemma_dot_self_is_norm_sq(m: Map<Seq<char>, nat>)
    requires
        m.dom().finite(),
    ensures
        dot_spec(m, m) == norm_sq_spec(m),
{
    lemma_map_sum_congruence(
        m,
        |k: Seq<char>, c: nat|
            if m.contains_key(k) {
                c * m[k]
            } else {
                0
            },
        |k: Seq<char>, c: nat| c * c,
    );
}

/// The dot product is bounded by the count totals of its arguments.
pub proof fn lemma_dot_bound(m1: Map<Seq<char>, nat>, m2: Map<Seq<char>, nat>)
    requires
        m1.dom().finite(),
        m2.dom().finite(),
        values_total(m1) <= COUNT_CAP,
        values_total(m2) <= COUNT_CAP,
    ensures
        dot_spec(m1, m2) <= COUNT_CAP * COUNT_CAP,
        norm_sq_spec(m1) <= COUNT_CAP * COUNT_CAP,
{
    let f = |k: Seq<char>, c: nat|
        if m2.contains_key(k) {
            c * m2[k]
        } else {
            0
        };
    let g = |k: Seq<char>, c: nat| c * (COUNT_CAP as nat);
    assert forall|k: Seq<char>| m1.dom().contains(k) implies f(k, m1[k]) <= g(k, m1[k]) by {
        if m2.contains_key(k) {
            TermVector::lemma_value_le_total(m2, k);
            assert(m1[k] * m2[k] <= m1[k] * (COUNT_CAP as nat)) by (nonlinear_arith)
                requires
                    m2[k] <= COUNT_CAP as nat,
            ;
        }
    }
    lemma_map_sum_le(m1, f, g);
    lemma_map_sum_scale::<Seq<char>>(m1, COUNT_CAP as nat);
    assert(values_total(m1) * (COUNT_CAP as nat) <= COUNT_CAP * COUNT_CAP) by (nonlinear_arith)
        requires
            values_total(m1) <= COUNT_CAP as nat,
    ;
    let h = |k: Seq<char>, c: nat| c * c;
    assert forall|k: Seq<char>| m1.dom().contains(k) implies h(k, m1[k]) <= g(k, m1[k]) by {
        TermVector::lemma_value_le_total(m1, k);
        assert(m1[k] * m1[k] <= m1[k] * (COUNT_CAP as nat)) by (nonlinear_arith)
            requires
                m1[k] <= COUNT_CAP as nat,
        ;
    }
    lemma_map_sum_le(m1, h, g);
}

} // verus!
