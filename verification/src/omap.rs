//! An ordered association table: key/value pairs kept in a vector whose keys
//! are strictly ascending. Insertion replaces the previous holder of an equal
//! key (last write wins); iteration order is therefore deterministic, which
//! both parties of a channel rely on.

use vstd::prelude::*;

verus! {

/// Keys of a pair sequence strictly ascending (hence unique).
pub open spec fn seq_wf<V>(s: Seq<(u128, V)>) -> bool {
    forall|j: int, k: int| 0 <= j < k < s.len() ==> #[trigger] s[j].0 < #[trigger] s[k].0
}

pub open spec fn seq_has_key<V>(s: Seq<(u128, V)>, key: u128) -> bool {
    exists|j: int| 0 <= j < s.len() && #[trigger] s[j].0 == key
}

pub open spec fn seq_index_of<V>(s: Seq<(u128, V)>, key: u128) -> int {
    choose|j: int| 0 <= j < s.len() && #[trigger] s[j].0 == key
}

/// The value a pair sequence holds under a key, if any.
pub open spec fn seq_get<V>(s: Seq<(u128, V)>, key: u128) -> Option<V> {
    if seq_has_key(s, key) {
        Some(s[seq_index_of(s, key)].1)
    } else {
        None
    }
}

/// Every key of `s` lies below `bound`.
pub open spec fn seq_keys_below<V>(s: Seq<(u128, V)>, bound: u128) -> bool {
    forall|j: int| 0 <= j < s.len() ==> #[trigger] s[j].0 < bound
}

/// How many keys of `s` lie in the half-open range `lo <= key < hi`.
pub open spec fn seq_count_range<V>(s: Seq<(u128, V)>, lo: u128, hi: u128) -> nat
    decreases s.len(),
{
    if s.len() == 0 {
        0
    } else {
        seq_count_range(s.drop_last(), lo, hi) + (if lo <= s.last().0 < hi {
            1nat
        } else {
            0nat
        })
    }
}

/// Key/value pairs sorted by strictly ascending key.
pub struct OrderedMap<V> {
    entries: Vec<(u128, V)>,
}

impl<V> OrderedMap<V> {
    /// The stored pairs, in storage order.
    pub closed spec fn entries(&self) -> Seq<(u128, V)> {
        self.entries@
    }

    /// Well-formed: keys strictly ascending (hence unique).
    pub open spec fn wf(&self) -> bool {
        seq_wf(self.entries())
    }

    pub open spec fn contains_key_spec(&self, key: u128) -> bool {
        seq_has_key(self.entries(), key)
    }

    pub open spec fn spec_index_of(&self, key: u128) -> int {
        seq_index_of(self.entries(), key)
    }

    /// The value stored under a key, if any.
    pub open spec fn spec_get(&self, key: u128) -> Option<V> {
        seq_get(self.entries(), key)
    }

    /// In a well-formed table a key occurs in at most one position.
    pub proof fn lemma_key_unique(&self, j: int, k: int)
        requires
            self.wf(),
            0 <= j < self.entries().len(),
            0 <= k < self.entries().len(),
            self.entries()[j].0 == self.entries()[k].0,
        ensures
            j == k,
    {
    }

    /// If position `j` holds `key`, the lookup yields exactly that pair.
    pub proof fn lemma_get_at(&self, j: int)
        requires
            self.wf(),
            0 <= j < self.entries().len(),
        ensures
            self.spec_get(self.entries()[j].0) == Some(self.entries()[j].1),
    {
        let key = self.entries()[j].0;
        assert(self.contains_key_spec(key));
        self.lemma_key_unique(j, self.spec_index_of(key));
    }

    pub fn new() -> (r: Self)
        ensures
            r.wf(),
            r.entries() == Seq::<(u128, V)>::empty(),
    {
        OrderedMap { entries: Vec::new() }
    }

    pub fn len(&self) -> (r: usize)
        ensures
            r == self.entries().len(),
    {
        self.entries.len()
    }

    /// The pair at a storage position.
    pub fn at(&self, j: usize) -> (r: &(u128, V))
        requires
            j < self.entries().len(),
        ensures
            *r == self.entries()[j as int],
    {
        &self.entries[j]
    }

    pub fn get(&self, key: u128) -> (r: Option<&V>)
        requires
            self.wf(),
        ensures
            match r {
                Some(v) => self.spec_get(key) == Some(*v),
                None => self.spec_get(key) is None,
            },
    {
        let n = self.entries.len();
        let mut j: usize = 0;
        while j < n
            invariant
                self.wf(),
                n == self.entries().len(),
                j <= n,
                forall|m: int| 0 <= m < j ==> #[trigger] self.entries()[m].0 != key,
            decreases n - j,
        {
            if self.entries[j].0 == key {
                proof {
                    self.lemma_get_at(j as int);
                }
                return Some(&self.entries[j].1);
            }
            j += 1;
        }
        None
    }

    /// Mutable access to the value stored under a key; the key set and the
    /// storage order are untouched, only that one value can change.
    pub fn get_mut(&mut self, key: u128) -> (r: Option<&mut V>)
        requires
            old(self).wf(),
        ensures
            match r {
                Some(v) => {
                    &&& old(self).spec_get(key) == Some(*v)
                    &&& final(self).entries() == old(self).entries().update(
                        old(self).spec_index_of(key),
                        (key, *final(v)),
                    )
                },
                None => {
                    &&& old(self).spec_get(key) is None
                    &&& *final(self) == *old(self)
                },
            },
        no_unwind
    {
        let n = self.entries.len();
        let mut j: usize = 0;
        while j < n
            invariant
                *self == *old(self),
                self.wf(),
                n == self.entries().len(),
                j <= n,
                forall|m: int| 0 <= m < j ==> #[trigger] self.entries()[m].0 != key,
            decreases n - j,
        {
            if self.entries[j].0 == key {
                proof {
                    self.lemma_get_at(j as int);
                    self.lemma_key_unique(j as int, self.spec_index_of(key));
                }
                let e = &mut self.entries[j];
                return Some(&mut e.1);
            }
            j += 1;
        }
        None
    }

    /// Take the pair at a storage position out, shifting later pairs down.
    pub(crate) fn remove_at(&mut self, j: usize) -> (r: (u128, V))
        requires
            j < old(self).entries().len(),
        ensures
            r == old(self).entries()[j as int],
            final(self).entries() == old(self).entries().remove(j as int),
    {
        self.entries.remove(j)
    }

    /// Put a pair in at a storage position, shifting later pairs up.
    pub(crate) fn insert_at(&mut self, j: usize, pair: (u128, V))
        requires
            j <= old(self).entries().len(),
        ensures
            final(self).entries() == old(self).entries().insert(j as int, pair),
    {
        self.entries.insert(j, pair);
    }

    /// How many stored keys lie in the half-open range `lo <= key < hi`.
    pub fn count_range(&self, lo: u128, hi: u128) -> (r: usize)
        ensures
            r == seq_count_range(self.entries(), lo, hi),
    {
        let n = self.entries.len();
        let mut count: usize = 0;
        let mut j: usize = 0;
        while j < n
            invariant
                n == self.entries().len(),
                j <= n,
                count <= j,
                count == seq_count_range(self.entries().take(j as int), lo, hi),
            decreases n - j,
        {
            proof {
                assert(self.entries().take(j + 1).drop_last() =~= self.entries().take(j as int));
                assert(self.entries().take(j + 1).last() == self.entries()[j as int]);
            }
            if lo <= self.entries[j].0 && self.entries[j].0 < hi {
                count += 1;
            }
            j += 1;
        }
        proof {
            assert(self.entries().take(n as int) =~= self.entries());
        }
        count
    }

    /// Insert or replace under `key`; the previous holder, if any, is returned.
    pub fn insert(&mut self, key: u128, value: V) -> (prev: Option<V>)
        requires
            old(self).wf(),
        ensures
            final(self).wf(),
            prev == old(self).spec_get(key),
            final(self).spec_get(key) == Some(value),
            forall|k2: u128| k2 != key ==> #[trigger] final(self).spec_get(k2) == old(self).spec_get(k2),
            final(self).entries().len() == old(self).entries().len() + (if old(self).contains_key_spec(key) {
                0int
            } else {
                1int
            }),
            old(self).contains_key_spec(key) ==> final(self).entries() == old(self).entries().update(
                old(self).spec_index_of(key),
                (key, value),
            ),
            !old(self).contains_key_spec(key) ==> exists|j: int|
                0 <= j <= old(self).entries().len() && final(self).entries() == old(self).entries().insert(
                    j,
                    (key, value),
                ),
    {
        let n = self.entries.len();
        let mut j: usize = 0;
        while j < n && self.entries[j].0 < key
            invariant
                self.wf(),
                n == self.entries().len(),
                j <= n,
                forall|m: int| 0 <= m < j ==> #[trigger] self.entries()[m].0 < key,
            decreases n - j,
        {
            j += 1;
        }
        // here: all positions before j hold keys below `key`, and either
        // j == n or the key at j is at least `key`
        if j < n && self.entries[j].0 == key {
            let ghost jj = j as int;
            let old_pair = self.entries.remove(j);
            self.entries.insert(j, (key, value));
            proof {
                let se = self.entries();
                let oe = old(self).entries();
                assert(se =~= oe.update(jj, (key, value)));
                assert forall|a: int, b: int| 0 <= a < b < se.len() implies #[trigger] se[a].0 < #[trigger] se[b].0 by {
                    assert(oe[a].0 < oe[b].0);
                }
                old(self).lemma_get_at(jj);
                self.lemma_get_at(jj);
                old(self).lemma_key_unique(jj, old(self).spec_index_of(key));
                assert forall|k2: u128| k2 != key implies #[trigger] self.spec_get(k2) == old(self).spec_get(k2) by {
                    lemma_pointwise_get(*old(self), *self, k2);
                }
            }
            Some(old_pair.1)
        } else {
            let ghost jj = j as int;
            self.entries.insert(j, (key, value));
            proof {
                let se = self.entries();
                let oe = old(self).entries();
                assert(se =~= oe.insert(jj, (key, value)));
                assert forall|a: int, b: int| 0 <= a < b < se.len() implies #[trigger] se[a].0 < #[trigger] se[b].0 by {
                    if a < jj && b > jj {
                        assert(oe[a].0 < key);
                        assert(se[b] == oe[b - 1]);
                    } else if a == jj && b > jj {
                        assert(se[b] == oe[b - 1]);
                    } else if a < jj && b == jj {
                        assert(oe[a].0 < key);
                    } else {
                        assert(oe[if a < jj { a } else { a - 1 }].0 < oe[if b < jj { b } else { b - 1 }].0);
                    }
                }
                assert(!old(self).contains_key_spec(key)) by {
                    if old(self).contains_key_spec(key) {
                        let m = old(self).spec_index_of(key);
                        assert(0 <= m < oe.len() && oe[m].0 == key);
                        assert(m < jj ==> oe[m].0 < key);
                        assert(m >= jj ==> se[m + 1] == oe[m]);
                        assert(m >= jj ==> key <= se[jj].0 < se[m + 1].0);
                    }
                }
                self.lemma_get_at(jj);
                assert forall|k2: u128| k2 != key implies #[trigger] self.spec_get(k2) == old(self).spec_get(k2) by {
                    lemma_insert_other_get(*old(self), *self, jj, key, value, k2);
                }
            }
            None
        }
    }
}

/// Two tables that agree, position by position, on where a key sits and on
/// the pairs holding it, agree on the lookup of that key.
proof fn lemma_pointwise_get<V>(a: OrderedMap<V>, b: OrderedMap<V>, key: u128)
    requires
        a.wf(),
        b.wf(),
        a.entries().len() == b.entries().len(),
        forall|m: int|
            0 <= m < a.entries().len() ==> (#[trigger] a.entries()[m].0 == key <==> #[trigger] b.entries()[m].0
                == key),
        forall|m: int| 0 <= m < a.entries().len() && #[trigger] a.entries()[m].0 == key ==> a.entries()[m]
            == b.entries()[m],
    ensures
        a.spec_get(key) == b.spec_get(key),
{
    if a.contains_key_spec(key) {
        let m = a.spec_index_of(key);
        assert(b.contains_key_spec(key));
        b.lemma_key_unique(m, b.spec_index_of(key));
    } else {
        if b.contains_key_spec(key) {
            let m = b.spec_index_of(key);
            assert(a.entries()[m].0 == key);
        }
    }
}

/// Lookups other than the inserted key are unchanged by an insertion that
/// shifts the tail one position to the right.
proof fn lemma_insert_other_get<V>(a: OrderedMap<V>, b: OrderedMap<V>, j: int, key: u128, value: V, k2: u128)
    requires
        a.wf(),
        b.wf(),
        0 <= j <= a.entries().len(),
        b.entries() == a.entries().insert(j, (key, value)),
        k2 != key,
    ensures
        a.spec_get(k2) == b.spec_get(k2),
{
    if a.contains_key_spec(k2) {
        let m = a.spec_index_of(k2);
        let mb = if m < j {
            m
        } else {
            m + 1
        };
        assert(b.entries()[mb] == a.entries()[m]);
        assert(b.contains_key_spec(k2));
        b.lemma_key_unique(mb, b.spec_index_of(k2));
    } else {
        if b.contains_key_spec(k2) {
            let mb = b.spec_index_of(k2);
            let m = if mb < j {
                mb
            } else {
                mb - 1
            };
            assert(a.entries()[m] == b.entries()[mb]);
        }
    }
}

/// A well-formed pair sequence is determined by its lookup function: two
/// parties that store the same associations store them in the same order.
pub proof fn lemma_canonical_form<V>(s1: Seq<(u128, V)>, s2: Seq<(u128, V)>)
    requires
        seq_wf(s1),
        seq_wf(s2),
        forall|k: u128| #[trigger] seq_get(s1, k) == seq_get(s2, k),
    ensures
        s1 == s2,
    decreases s1.len(),
{
    if s1.len() == 0 {
        if s2.len() > 0 {
            lemma_seq_get_at(s2, 0);
            assert(seq_get(s1, s2[0].0) is None);
        }
        assert(s1 =~= s2);
    } else if s2.len() == 0 {
        lemma_seq_get_at(s1, 0);
        assert(seq_get(s2, s1[0].0) is None);
    } else {
        // the head keys are the minima of equal key sets, so they are equal
        lemma_seq_get_at(s1, 0);
        lemma_seq_get_at(s2, 0);
        assert(seq_has_key(s2, s1[0].0));
        assert(seq_has_key(s1, s2[0].0));
        let m2 = choose|j: int| 0 <= j < s2.len() && #[trigger] s2[j].0 == s1[0].0;
        let m1 = choose|j: int| 0 <= j < s1.len() && #[trigger] s1[j].0 == s2[0].0;
        assert(s2[0].0 <= s2[m2].0);
        assert(s1[0].0 <= s1[m1].0);
        assert(s1[0].0 == s2[0].0);
        assert(s1[0] == s2[0]);
        // the tails agree on every lookup
        let t1 = s1.subrange(1, s1.len() as int);
        let t2 = s2.subrange(1, s2.len() as int);
        assert forall|k: u128| #[trigger] seq_get(t1, k) == seq_get(t2, k) by {
            lemma_tail_get(s1, k);
            lemma_tail_get(s2, k);
        }
        lemma_canonical_form(t1, t2);
        assert(s1.len() == s2.len());
        assert forall|i: int| 0 <= i < s1.len() implies s1[i] == s2[i] by {
            if i > 0 {
                assert(t1[i - 1] == s1[i]);
                assert(t2[i - 1] == s2[i]);
                assert(t1[i - 1] == t2[i - 1]);
            }
        }
        assert(s1 =~= s2);
    }
}

/// Looking up in the tail of a well-formed pair sequence: the head key is
/// absent, every other key is found as in the whole sequence.
proof fn lemma_tail_get<V>(s: Seq<(u128, V)>, k: u128)
    requires
        seq_wf(s),
        s.len() > 0,
    ensures
        k == s[0].0 ==> seq_get(s.subrange(1, s.len() as int), k) is None,
        k != s[0].0 ==> seq_get(s.subrange(1, s.len() as int), k) == seq_get(s, k),
{
    let t = s.subrange(1, s.len() as int);
    if k == s[0].0 {
        if seq_has_key(t, k) {
            let j = seq_index_of(t, k);
            assert(t[j] == s[j + 1]);
        }
    } else {
        if seq_has_key(t, k) {
            let j = seq_index_of(t, k);
            assert(t[j] == s[j + 1]);
            assert(seq_has_key(s, k));
            let m = seq_index_of(s, k);
            assert(0 <= m < s.len() && s[m].0 == k);
            assert(m != 0);
            assert(t[m - 1] == s[m]);
            lemma_seq_key_unique(t, j, m - 1);
        } else {
            if seq_has_key(s, k) {
                let m = seq_index_of(s, k);
                assert(m != 0);
                assert(t[m - 1] == s[m]);
            }
        }
    }
}

/// Replacing the value at the position holding `key` leaves the sequence
/// well-formed, stores the new value under `key`, and changes no other
/// lookup.
pub proof fn lemma_update_value_get<V>(s: Seq<(u128, V)>, m: int, key: u128, v: V)
    requires
        seq_wf(s),
        0 <= m < s.len(),
        s[m].0 == key,
    ensures
        seq_wf(s.update(m, (key, v))),
        seq_get(s.update(m, (key, v)), key) == Some(v),
        forall|k2: u128| k2 != key ==> #[trigger] seq_get(s.update(m, (key, v)), k2) == seq_get(s, k2),
{
    let t = s.update(m, (key, v));
    lemma_same_keys_wf(s, t);
    lemma_seq_get_at(t, m);
    assert forall|k2: u128| k2 != key implies #[trigger] seq_get(t, k2) == seq_get(s, k2) by {
        if seq_has_key(s, k2) {
            let j = seq_index_of(s, k2);
            assert(j != m);
            assert(t[j] == s[j]);
            assert(seq_has_key(t, k2));
            lemma_seq_key_unique(t, j, seq_index_of(t, k2));
        } else {
            if seq_has_key(t, k2) {
                let j = seq_index_of(t, k2);
                assert(j != m);
                assert(s[j] == t[j]);
            }
        }
    }
}

/// Sortedness depends on the keys alone.
pub proof fn lemma_same_keys_wf<V>(s: Seq<(u128, V)>, t: Seq<(u128, V)>)
    requires
        seq_wf(s),
        t.len() == s.len(),
        forall|m: int| 0 <= m < t.len() ==> #[trigger] t[m].0 == s[m].0,
    ensures
        seq_wf(t),
{
}

/// Looking up in a well-formed sequence extended at the back: the new key is
/// found with its new value, every other key as before.
pub proof fn lemma_snoc_get<V>(s: Seq<(u128, V)>, e: (u128, V), k: u128)
    requires
        seq_wf(s.push(e)),
    ensures
        k == e.0 ==> seq_get(s.push(e), k) == Some(e.1),
        k != e.0 ==> seq_get(s.push(e), k) == seq_get(s, k),
{
    let t = s.push(e);
    if k == e.0 {
        assert(t[s.len() as int] == e);
        lemma_seq_get_at(t, s.len() as int);
    } else {
        if seq_has_key(s, k) {
            let j = seq_index_of(s, k);
            assert(t[j] == s[j]);
            assert(seq_has_key(t, k));
            lemma_seq_key_unique(t, j, seq_index_of(t, k));
        } else {
            if seq_has_key(t, k) {
                let j = seq_index_of(t, k);
                assert(j != s.len());
                assert(s[j] == t[j]);
            }
        }
    }
}

/// In a well-formed pair sequence a key occurs in at most one position.
pub proof fn lemma_seq_key_unique<V>(s: Seq<(u128, V)>, j: int, k: int)
    requires
        seq_wf(s),
        0 <= j < s.len(),
        0 <= k < s.len(),
        s[j].0 == s[k].0,
    ensures
        j == k,
{
}

/// If position `j` of a well-formed pair sequence holds `key`, the lookup
/// yields exactly that pair.
pub proof fn lemma_seq_get_at<V>(s: Seq<(u128, V)>, j: int)
    requires
        seq_wf(s),
        0 <= j < s.len(),
    ensures
        seq_get(s, s[j].0) == Some(s[j].1),
{
    let key = s[j].0;
    assert(seq_has_key(s, key));
    lemma_seq_key_unique(s, j, seq_index_of(s, key));
}

} // verus!
