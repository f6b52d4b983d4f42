//! An ordered map keyed by stable text identifiers. Entries are kept in
//! strictly increasing key order, so iteration follows stable-ID order.

use vstd::prelude::*;
use crate::text::{lemma_text_lt_asymmetric, lemma_text_lt_irreflexive, lemma_text_lt_transitive, text_compare, text_lt};

verus! {

/// Entries whose keys are in strictly increasing text order.
pub open spec fn keys_sorted<V>(s: Seq<(Seq<char>, V)>) -> bool {
    forall|i: int, j: int| 0 <= i < j < s.len() ==> text_lt(#[trigger] s[i].0, #[trigger] s[j].0)
}

/// Whether some entry has key `k`.
pub open spec fn has_key<V>(s: Seq<(Seq<char>, V)>, k: Seq<char>) -> bool {
    exists|i: int| 0 <= i < s.len() && #[trigger] s[i].0 == k
}

/// The value stored under `k`, if any.
pub open spec fn lookup<V>(s: Seq<(Seq<char>, V)>, k: Seq<char>) -> Option<V> {
    if has_key(s, k) {
        Some(s[choose|i: int| 0 <= i < s.len() && #[trigger] s[i].0 == k].1)
    } else {
        None
    }
}

/// The entries read as a finite map.
pub open spec fn entries_map<V>(s: Seq<(Seq<char>, V)>) -> Map<Seq<char>, V> {
    Map::new(|k: Seq<char>| has_key(s, k), |k: Seq<char>| lookup(s, k)->0)
}

/// Any entry sequence has finitely many keys.
pub proof fn lemma_entries_map_finite<V>(s: Seq<(Seq<char>, V)>)
    ensures
        entries_map(s).dom().finite(),
{
    let keys = s.map_values(|e: (Seq<char>, V)| e.0).to_set();
    assert(entries_map(s).dom().subset_of(keys)) by {
        assert forall|k: Seq<char>| entries_map(s).dom().contains(k) implies keys.contains(k) by {
            let i = choose|i: int| 0 <= i < s.len() && #[trigger] s[i].0 == k;
            assert(s.map_values(|e: (Seq<char>, V)| e.0)[i] == k);
        }
    }
    vstd::seq_lib::seq_to_set_is_finite(s.map_values(|e: (Seq<char>, V)| e.0));
    vstd::set_lib::lemma_set_subset_finite(keys, entries_map(s).dom());
}

pub proof fn lemma_lookup_at<V>(s: Seq<(Seq<char>, V)>, i: int)
    requires
        keys_sorted(s),
        0 <= i < s.len(),
    ensures
        has_key(s, s[i].0),
        lookup(s, s[i].0) == Some(s[i].1),
        entries_map(s).contains_key(s[i].0),
        entries_map(s)[s[i].0] == s[i].1,
{
    let k = s[i].0;
    assert(has_key(s, k));
    let j = choose|j: int| 0 <= j < s.len() && #[trigger] s[j].0 == k;
    if j < i {
        assert(text_lt(s[j].0, s[i].0));
        lemma_text_lt_irreflexive(k);
    } else if i < j {
        assert(text_lt(s[i].0, s[j].0));
        lemma_text_lt_irreflexive(k);
    }
}

pub proof fn lemma_lookup_all<V>(s: Seq<(Seq<char>, V)>)
    requires
        keys_sorted(s),
    ensures
        forall|i: int| 0 <= i < s.len() ==> #[trigger] lookup(s, s[i].0) == Some(s[i].1),
        forall|i: int| 0 <= i < s.len() ==> entries_map(s).contains_key(#[trigger] s[i].0),
        forall|i: int| 0 <= i < s.len() ==> entries_map(s)[#[trigger] s[i].0] == s[i].1,
{
    assert forall|i: int| 0 <= i < s.len() implies #[trigger] lookup(s, s[i].0) == Some(s[i].1)
        && entries_map(s).contains_key(s[i].0) && entries_map(s)[s[i].0] == s[i].1 by {
        lemma_lookup_at(s, i);
    }
}

/// The first error `check` reports, scanning entries in key order.
pub open spec fn first_entry_failure<V, E>(s: Seq<(Seq<char>, V)>, check: spec_fn(Seq<char>, V) -> Option<E>) -> Option<E>
    decreases s.len(),
{
    if s.len() == 0 {
        None
    } else if first_entry_failure(s.drop_last(), check) is Some {
        first_entry_failure(s.drop_last(), check)
    } else {
        check(s.last().0, s.last().1)
    }
}

/// Once a prefix has failed, the whole scan reports that failure.
pub proof fn lemma_first_entry_failure_prefix<V, E>(s: Seq<(Seq<char>, V)>, check: spec_fn(Seq<char>, V) -> Option<E>, k: int)
    requires
        0 <= k <= s.len(),
        first_entry_failure(s.take(k), check) is Some,
    ensures
        first_entry_failure(s, check) == first_entry_failure(s.take(k), check),
    decreases s.len() - k,
{
    if k < s.len() {
        assert(s.take(k + 1).drop_last() =~= s.take(k));
        lemma_first_entry_failure_prefix(s, check, k + 1);
    } else {
        assert(s.take(k) =~= s);
    }
}

/// One more clean entry extends a clean prefix.
pub proof fn lemma_first_entry_failure_step<V, E>(s: Seq<(Seq<char>, V)>, check: spec_fn(Seq<char>, V) -> Option<E>, k: int)
    requires
        0 <= k < s.len(),
        first_entry_failure(s.take(k), check) is None,
    ensures
        first_entry_failure(s.take(k + 1), check) == check(s[k].0, s[k].1),
{
    assert(s.take(k + 1).drop_last() =~= s.take(k));
}

/// A map keeping only the entries `keep` accepts.
pub open spec fn map_filter<V>(m: Map<Seq<char>, V>, keep: spec_fn(V) -> bool) -> Map<Seq<char>, V> {
    Map::new(|k: Seq<char>| m.contains_key(k) && keep(m[k]), |k: Seq<char>| m[k])
}

/// A sorted entry sequence has exactly as many map keys as entries.
pub proof fn lemma_map_len<V>(s: Seq<(Seq<char>, V)>)
    requires
        keys_sorted(s),
    ensures
        entries_map(s).len() == s.len(),
        entries_map(s).dom().finite(),
    decreases s.len(),
{
    if s.len() == 0 {
        assert(entries_map(s).dom() =~= Set::<Seq<char>>::empty());
    } else {
        let t = s.drop_last();
        assert(keys_sorted(t));
        lemma_map_len(t);
        let k = s.last().0;
        assert(entries_map(s).dom() =~= entries_map(t).dom().insert(k)) by {
            assert forall|key: Seq<char>| entries_map(s).dom().contains(key) <==> entries_map(t).dom().insert(k).contains(key) by {
                if has_key(s, key) {
                    let j = choose|j: int| 0 <= j < s.len() && #[trigger] s[j].0 == key;
                    if j < s.len() - 1 {
                        assert(t[j].0 == key);
                    }
                }
                if has_key(t, key) {
                    let j = choose|j: int| 0 <= j < t.len() && #[trigger] t[j].0 == key;
                    assert(s[j].0 == key);
                }
                if key == k {
                    assert(s[s.len() - 1].0 == key);
                }
            }
        }
        assert(!entries_map(t).dom().contains(k)) by {
            if has_key(t, k) {
                let j = choose|j: int| 0 <= j < t.len() && #[trigger] t[j].0 == k;
                assert(text_lt(s[j].0, s[s.len() - 1].0));
                lemma_text_lt_irreflexive(k);
            }
        }
    }
}

/// Dropping the last of sorted entries drops its key from the map.
pub proof fn lemma_entries_drop_last<V>(s: Seq<(Seq<char>, V)>)
    requires
        keys_sorted(s),
        s.len() > 0,
    ensures
        entries_map(s.drop_last()) == entries_map(s).remove(s.last().0),
{
    let t = s.drop_last();
    let k = s.last().0;
    assert(keys_sorted(t));
    lemma_lookup_all(s);
    lemma_lookup_all(t);
    assert forall|key: Seq<char>| #[trigger] entries_map(t).contains_key(key) <==> entries_map(s).remove(k).contains_key(key) by {
        if has_key(t, key) {
            let j = choose|j: int| 0 <= j < t.len() && #[trigger] t[j].0 == key;
            assert(s[j].0 == key);
            assert(text_lt(s[j].0, s[s.len() - 1].0));
            lemma_text_lt_irreflexive(k);
        }
        if has_key(s, key) && key != k {
            let j = choose|j: int| 0 <= j < s.len() && #[trigger] s[j].0 == key;
            assert(t[j].0 == key);
        }
    }
    assert forall|key: Seq<char>| #[trigger] entries_map(t).contains_key(key) implies entries_map(t)[key] == entries_map(s)[key] by {
        let j = choose|j: int| 0 <= j < t.len() && #[trigger] t[j].0 == key;
        lemma_lookup_at(t, j);
        lemma_lookup_at(s, j);
    }
    assert(entries_map(t) =~= entries_map(s).remove(k));
}

/// Sorted entries with each value mapped through `f` hold the mapped map.
pub proof fn lemma_entries_map_values<V, W>(s: Seq<(Seq<char>, V)>, f: spec_fn(V) -> W)
    requires
        keys_sorted(s),
    ensures
        keys_sorted(s.map_values(|e: (Seq<char>, V)| (e.0, f(e.1)))),
        entries_map(s.map_values(|e: (Seq<char>, V)| (e.0, f(e.1)))) == entries_map(s).map_values(f),
{
    let t = s.map_values(|e: (Seq<char>, V)| (e.0, f(e.1)));
    assert(keys_sorted(t)) by {
        assert forall|i: int, j: int| 0 <= i < j < t.len() implies text_lt(#[trigger] t[i].0, #[trigger] t[j].0) by {
            assert(text_lt(s[i].0, s[j].0));
        }
    }
    lemma_lookup_all(s);
    lemma_lookup_all(t);
    assert forall|key: Seq<char>| #[trigger] entries_map(t).contains_key(key) <==> entries_map(s).contains_key(key) by {
        if has_key(t, key) {
            let j = choose|j: int| 0 <= j < t.len() && #[trigger] t[j].0 == key;
            assert(s[j].0 == key);
        }
        if has_key(s, key) {
            let j = choose|j: int| 0 <= j < s.len() && #[trigger] s[j].0 == key;
            assert(t[j].0 == key);
        }
    }
    assert forall|key: Seq<char>| #[trigger] entries_map(t).contains_key(key) implies entries_map(t)[key] == f(entries_map(s)[key]) by {
        let j = choose|j: int| 0 <= j < t.len() && #[trigger] t[j].0 == key;
        lemma_lookup_at(t, j);
        lemma_lookup_at(s, j);
    }
    assert(entries_map(t) =~= entries_map(s).map_values(f));
}

/// Removing entry `i` from sorted entries removes its key from the map.
pub proof fn lemma_entries_remove_at<V>(s: Seq<(Seq<char>, V)>, i: int)
    requires
        keys_sorted(s),
        0 <= i < s.len(),
    ensures
        keys_sorted(s.remove(i)),
        entries_map(s.remove(i)) == entries_map(s).remove(s[i].0),
{
    let t = s.remove(i);
    let k = s[i].0;
    assert(keys_sorted(t)) by {
        assert forall|a: int, b: int| 0 <= a < b < t.len() implies text_lt(#[trigger] t[a].0, #[trigger] t[b].0) by {
            let a2 = if a < i { a } else { a + 1 };
            let b2 = if b < i { b } else { b + 1 };
            assert(t[a] == s[a2] && t[b] == s[b2]);
        }
    }
    lemma_lookup_all(s);
    lemma_lookup_all(t);
    assert forall|key: Seq<char>| #[trigger] entries_map(t).contains_key(key) <==> entries_map(s).remove(k).contains_key(key) by {
        if has_key(t, key) {
            let j = choose|j: int| 0 <= j < t.len() && #[trigger] t[j].0 == key;
            let j2 = if j < i { j } else { j + 1 };
            assert(t[j] == s[j2]);
            if j < i {
                assert(text_lt(s[j2].0, s[i].0));
            } else {
                assert(text_lt(s[i].0, s[j2].0));
            }
            lemma_text_lt_irreflexive(k);
        }
        if has_key(s, key) && key != k {
            let j = choose|j: int| 0 <= j < s.len() && #[trigger] s[j].0 == key;
            if j < i {
                assert(t[j] == s[j]);
            } else {
                assert(j != i);
                assert(t[j - 1] == s[j]);
            }
        }
    }
    assert forall|key: Seq<char>| #[trigger] entries_map(t).contains_key(key) implies entries_map(t)[key] == entries_map(s)[key] by {
        let j = choose|j: int| 0 <= j < t.len() && #[trigger] t[j].0 == key;
        let j2 = if j < i { j } else { j + 1 };
        assert(t[j] == s[j2]);
        lemma_lookup_at(t, j);
        lemma_lookup_at(s, j2);
    }
    assert(entries_map(t) =~= entries_map(s).remove(k));
}

/// Replacing the value of entry `i` replaces it in the map.
pub proof fn lemma_entries_update_at<V>(s: Seq<(Seq<char>, V)>, i: int, v: V)
    requires
        keys_sorted(s),
        0 <= i < s.len(),
    ensures
        keys_sorted(s.update(i, (s[i].0, v))),
        entries_map(s.update(i, (s[i].0, v))) == entries_map(s).insert(s[i].0, v),
{
    let t = s.update(i, (s[i].0, v));
    let k = s[i].0;
    assert(keys_sorted(t)) by {
        assert forall|a: int, b: int| 0 <= a < b < t.len() implies text_lt(#[trigger] t[a].0, #[trigger] t[b].0) by {
            assert(t[a].0 == s[a].0 && t[b].0 == s[b].0);
        }
    }
    lemma_lookup_all(s);
    lemma_lookup_all(t);
    assert forall|key: Seq<char>| #[trigger] entries_map(t).contains_key(key) <==> entries_map(s).insert(k, v).contains_key(key) by {
        if has_key(t, key) {
            let j = choose|j: int| 0 <= j < t.len() && #[trigger] t[j].0 == key;
            assert(s[j].0 == key);
        }
        if has_key(s, key) {
            let j = choose|j: int| 0 <= j < s.len() && #[trigger] s[j].0 == key;
            assert(t[j].0 == key);
        }
        if key == k {
            assert(t[i].0 == key);
        }
    }
    assert forall|key: Seq<char>| #[trigger] entries_map(t).contains_key(key) implies entries_map(t)[key] == entries_map(s).insert(k, v)[key] by {
        let j = choose|j: int| 0 <= j < t.len() && #[trigger] t[j].0 == key;
        lemma_lookup_at(t, j);
        lemma_lookup_at(s, j);
        if j != i {
            assert(s[j].0 != k) by {
                if j < i {
                    assert(text_lt(s[j].0, s[i].0));
                } else {
                    assert(text_lt(s[i].0, s[j].0));
                }
                lemma_text_lt_irreflexive(k);
            }
        }
    }
    assert(entries_map(t) =~= entries_map(s).insert(k, v));
}

/// Sorted entries are determined by the map they hold.
pub proof fn lemma_sorted_entries_unique<V>(s1: Seq<(Seq<char>, V)>, s2: Seq<(Seq<char>, V)>)
    requires
        keys_sorted(s1),
        keys_sorted(s2),
        entries_map(s1) == entries_map(s2),
    ensures
        s1 == s2,
    decreases s1.len(),
{
    lemma_map_len(s1);
    lemma_map_len(s2);
    if s1.len() > 0 {
        let n = s1.len() as int;
        let k1 = s1[n - 1].0;
        let k2 = s2[n - 1].0;
        lemma_lookup_at(s1, n - 1);
        lemma_lookup_at(s2, n - 1);
        let j = choose|j: int| 0 <= j < s2.len() && #[trigger] s2[j].0 == k1;
        let m = choose|m: int| 0 <= m < s1.len() && #[trigger] s1[m].0 == k2;
        if j < n - 1 {
            assert(text_lt(s2[j].0, s2[n - 1].0));
            if m < n - 1 {
                assert(text_lt(s1[m].0, s1[n - 1].0));
                lemma_text_lt_asymmetric(k1, k2);
            } else {
                lemma_text_lt_irreflexive(k1);
            }
        }
        assert(k1 == k2);
        lemma_entries_drop_last(s1);
        lemma_entries_drop_last(s2);
        lemma_sorted_entries_unique(s1.drop_last(), s2.drop_last());
        assert(s1 =~= s2.drop_last().push(s2[n - 1]));
        assert(s2 =~= s2.drop_last().push(s2[n - 1]));
    } else {
        assert(s1 =~= s2);
    }
}

#[derive(Debug, Clone, PartialEq, Eq)]
pub struct IdMap<V> {
    entries: Vec<(String, V)>,
}

impl<V> IdMap<V> {
    /// The entries in increasing key order.
    pub closed spec fn view(&self) -> Seq<(Seq<char>, V)> {
        self.entries@.map_values(|e: (String, V)| (e.0@, e.1))
    }

    pub open spec fn wf(&self) -> bool {
        keys_sorted(self@)
    }

    /// The entries read as a map from key to value.
    pub open spec fn map(&self) -> Map<Seq<char>, V> {
        entries_map(self@)
    }

    pub fn new() -> (r: Self)
        ensures
            r@ == Seq::<(Seq<char>, V)>::empty(),
            r.wf(),
            r.map() == Map::<Seq<char>, V>::empty(),
    {
        let r = IdMap { entries: Vec::new() };
        assert(r@ =~= Seq::<(Seq<char>, V)>::empty());
        assert(r.map() =~= Map::<Seq<char>, V>::empty());
        r
    }

    pub fn len(&self) -> (r: usize)
        ensures
            r == self@.len(),
    {
        self.entries.len()
    }

    pub fn key_at(&self, i: usize) -> (r: &String)
        requires
            i < self@.len(),
        ensures
            r@ == self@[i as int].0,
    {
        &self.entries[i].0
    }

    pub fn value_at(&self, i: usize) -> (r: &V)
        requires
            i < self@.len(),
        ensures
            *r == self@[i as int].1,
    {
        &self.entries[i].1
    }

    /// Locate `k`: `Ok(i)` when entry `i` has key `k`, otherwise `Err(p)`
    /// with `p` the position that keeps the keys ordered.
    pub fn find(&self, k: &str) -> (r: Result<usize, usize>)
        requires
            self.wf(),
        ensures
            r matches Ok(i) ==> i < self@.len() && self@[i as int].0 == k@,
            r matches Err(p) ==> p <= self@.len() && (forall|j: int| 0 <= j < p ==> text_lt(
                #[trigger] self@[j].0,
                k@,
            )) && (forall|j: int| p <= j < self@.len() ==> text_lt(k@, #[trigger] self@[j].0)),
            r is Ok <==> has_key(self@, k@),
    {
        let n = self.entries.len();
        let mut i: usize = 0;
        while i < n
            invariant
                n == self@.len(),
                i <= n,
                self.wf(),
                forall|j: int| 0 <= j < i ==> text_lt(#[trigger] self@[j].0, k@),
            decreases n - i,
        {
            let c = text_compare(self.entries[i].0.as_str(), k);
            assert(self@[i as int].0 == self.entries@[i as int].0@);
            if c == 0 {
                return Ok(i);
            }
            if c > 0 {
                assert forall|j: int| i <= j < self@.len() implies text_lt(k@, #[trigger] self@[j].0) by {
                    if j > i {
                        lemma_text_lt_transitive(k@, self@[i as int].0, self@[j].0);
                    }
                }
                assert(!has_key(self@, k@)) by {
                    if has_key(self@, k@) {
                        let j = choose|j: int| 0 <= j < self@.len() && #[trigger] self@[j].0 == k@;
                        if j < i {
                            lemma_text_lt_irreflexive(k@);
                        } else {
                            lemma_text_lt_irreflexive(k@);
                        }
                    }
                }
                return Err(i);
            }
            i = i + 1;
        }
        assert(!has_key(self@, k@)) by {
            if has_key(self@, k@) {
                let j = choose|j: int| 0 <= j < self@.len() && #[trigger] self@[j].0 == k@;
                lemma_text_lt_irreflexive(k@);
            }
        }
        Err(n)
    }

    pub fn contains_key(&self, k: &str) -> (r: bool)
        requires
            self.wf(),
        ensures
            r == self.map().contains_key(k@),
    {
        self.find(k).is_ok()
    }

    pub fn get(&self, k: &str) -> (r: Option<&V>)
        requires
            self.wf(),
        ensures
            r is Some == self.map().contains_key(k@),
            r matches Some(v) ==> *v == self.map()[k@],
    {
        match self.find(k) {
            Ok(i) => {
                proof {
                    lemma_lookup_at(self@, i as int);
                }
                Some(&self.entries[i].1)
            },
            Err(_) => None,
        }
    }

    /// Insert or replace the value under `k`, returning the replaced value.
    pub fn insert(&mut self, k: String, v: V) -> (r: Option<V>)
        requires
            old(self).wf(),
        ensures
            final(self).wf(),
            final(self).map() == old(self).map().insert(k@, v),
            r is Some == old(self).map().contains_key(k@),
            r matches Some(x) ==> x == old(self).map()[k@],
            final(self)@.len() == old(self)@.len() + if r is Some { 0int } else { 1int },
    {
        let ghost old_s = self@;
        match self.find(k.as_str()) {
            Ok(i) => {
                proof {
                    lemma_lookup_at(old_s, i as int);
                }
                let (_, prev) = self.entries.remove(i);
                self.entries.insert(i, (k, v));
                proof {
                    assert(self@ =~= old_s.update(i as int, (k@, v)));
                    assert(keys_sorted(self@));
                    lemma_lookup_all(self@);
                    lemma_lookup_all(old_s);
                    assert forall|key: Seq<char>| has_key(self@, key) == (has_key(old_s, key)) by {
                        if has_key(old_s, key) {
                            let j = choose|j: int| 0 <= j < old_s.len() && #[trigger] old_s[j].0 == key;
                            assert(self@[j].0 == key);
                        }
                        if has_key(self@, key) {
                            let j = choose|j: int| 0 <= j < self@.len() && #[trigger] self@[j].0 == key;
                            assert(old_s[j].0 == key);
                        }
                    }
                    assert forall|key: Seq<char>| has_key(self@, key) implies entries_map(self@)[key] == entries_map(old_s).insert(k@, v)[key] by {
                        let j = choose|j: int| 0 <= j < self@.len() && #[trigger] self@[j].0 == key;
                        assert(entries_map(self@)[self@[j].0] == self@[j].1);
                        assert(entries_map(old_s)[old_s[j].0] == old_s[j].1);
                    }
                    assert(self.map() =~= old(self).map().insert(k@, v));
                }
                Some(prev)
            },
            Err(p) => {
                self.entries.insert(p, (k, v));
                proof {
                    assert(self@ =~= old_s.insert(p as int, (k@, v)));
                    assert(keys_sorted(self@)) by {
                        assert forall|i: int, j: int| 0 <= i < j < self@.len() implies text_lt(#[trigger] self@[i].0, #[trigger] self@[j].0) by {
                            if i < p && j > p {
                                lemma_text_lt_transitive(self@[i].0, k@, self@[j].0);
                            }
                            if i < p && j < p {
                                assert(self@[i] == old_s[i] && self@[j] == old_s[j]);
                            }
                            if i > p {
                                assert(self@[i] == old_s[i - 1] && self@[j] == old_s[j - 1]);
                            }
                            if i == p {
                                assert(self@[j] == old_s[j - 1]);
                            }
                            if j == p {
                                assert(self@[i] == old_s[i]);
                            }
                        }
                    }
                    lemma_lookup_all(self@);
                    lemma_lookup_all(old_s);
                    assert forall|key: Seq<char>| has_key(self@, key) == (has_key(old_s, key) || key == k@) by {
                        if has_key(old_s, key) {
                            let j = choose|j: int| 0 <= j < old_s.len() && #[trigger] old_s[j].0 == key;
                            if j < p {
                                assert(self@[j].0 == key);
                            } else {
                                assert(self@[j + 1].0 == key);
                            }
                        }
                        if key == k@ {
                            assert(self@[p as int].0 == key);
                        }
                        if has_key(self@, key) {
                            let j = choose|j: int| 0 <= j < self@.len() && #[trigger] self@[j].0 == key;
                            if j < p {
                                assert(old_s[j].0 == key);
                            } else if j > p {
                                assert(old_s[j - 1].0 == key);
                            }
                        }
                    }
                    assert forall|key: Seq<char>| has_key(self@, key) implies entries_map(self@)[key] == entries_map(old_s).insert(k@, v)[key] by {
                        let j = choose|j: int| 0 <= j < self@.len() && #[trigger] self@[j].0 == key;
                        assert(entries_map(self@)[self@[j].0] == self@[j].1);
                        if j < p {
                            assert(entries_map(old_s)[old_s[j].0] == old_s[j].1);
                        } else if j > p {
                            assert(entries_map(old_s)[old_s[j - 1].0] == old_s[j - 1].1);
                        }
                    }
                    assert(self.map() =~= old(self).map().insert(k@, v));
                }
                None
            },
        }
    }

    /// Remove the entry under `k`, returning its value.
    pub fn remove(&mut self, k: &str) -> (r: Option<V>)
        requires
            old(self).wf(),
        ensures
            final(self).wf(),
            final(self).map() == old(self).map().remove(k@),
            r is Some == old(self).map().contains_key(k@),
            r matches Some(x) ==> x == old(self).map()[k@],
            final(self)@.len() == old(self)@.len() - if r is Some { 1int } else { 0int },
    {
        let ghost old_s = self@;
        match self.find(k) {
            Ok(i) => {
                proof {
                    lemma_lookup_at(old_s, i as int);
                }
                let (_, prev) = self.entries.remove(i);
                proof {
                    assert(self@ =~= old_s.remove(i as int));
                    assert(keys_sorted(self@)) by {
                        assert forall|a: int, b: int| 0 <= a < b < self@.len() implies text_lt(#[trigger] self@[a].0, #[trigger] self@[b].0) by {
                            if a < i && b < i {
                                assert(self@[a] == old_s[a] && self@[b] == old_s[b]);
                            } else if a < i {
                                assert(self@[a] == old_s[a] && self@[b] == old_s[b + 1]);
                            } else {
                                assert(self@[a] == old_s[a + 1] && self@[b] == old_s[b + 1]);
                            }
                        }
                    }
                    lemma_lookup_all(self@);
                    lemma_lookup_all(old_s);
                    assert forall|key: Seq<char>| has_key(self@, key) == (has_key(old_s, key) && key != k@) by {
                        if has_key(old_s, key) && key != k@ {
                            let j = choose|j: int| 0 <= j < old_s.len() && #[trigger] old_s[j].0 == key;
                            if j < i {
                                assert(self@[j].0 == key);
                            } else {
                                assert(self@[j - 1].0 == key);
                            }
                        }
                        if has_key(self@, key) {
                            let j = choose|j: int| 0 <= j < self@.len() && #[trigger] self@[j].0 == key;
                            if j < i {
                                assert(old_s[j].0 == key);
                                assert(text_lt(old_s[j].0, old_s[i as int].0));
                                lemma_text_lt_irreflexive(key);
                            } else {
                                assert(old_s[j + 1].0 == key);
                                assert(text_lt(old_s[i as int].0, old_s[j + 1].0));
                                lemma_text_lt_irreflexive(key);
                            }
                        }
                    }
                    assert forall|key: Seq<char>| has_key(self@, key) implies entries_map(self@)[key] == entries_map(old_s).remove(k@)[key] by {
                        let j = choose|j: int| 0 <= j < self@.len() && #[trigger] self@[j].0 == key;
                        assert(entries_map(self@)[self@[j].0] == self@[j].1);
                        if j < i {
                            assert(entries_map(old_s)[old_s[j].0] == old_s[j].1);
                        } else {
                            assert(entries_map(old_s)[old_s[j + 1].0] == old_s[j + 1].1);
                        }
                    }
                    assert(self.map() =~= old(self).map().remove(k@));
                }
                Some(prev)
            },
            Err(_) => {
                proof {
                    assert(self.map() =~= old(self).map().remove(k@));
                }
                None
            },
        }
    }
}

impl IdMap<()> {
    /// Whether `k` is a member, reading the map as a set of keys.
    pub open spec fn has(&self, k: Seq<char>) -> bool {
        self.map().contains_key(k)
    }

    /// An identical copy of a key set.
    pub fn duplicate(&self) -> (r: Self)
        ensures
            r@ == self@,
            r.map() == self.map(),
    {
        let mut entries: Vec<(String, ())> = Vec::new();
        let n = self.entries.len();
        let mut i: usize = 0;
        while i < n
            invariant
                n == self.entries@.len(),
                i <= n,
                entries@.len() == i,
                forall|j: int| 0 <= j < i ==> (#[trigger] entries@[j]).0@ == self.entries@[j].0@,
            decreases n - i,
        {
            entries.push((self.entries[i].0.clone(), ()));
            i = i + 1;
        }
        let r = IdMap { entries };
        assert(r@ =~= self@);
        r
    }

    /// Add every key of `other`.
    pub fn absorb(&mut self, other: &IdMap<()>)
        requires
            old(self).wf(),
            other.wf(),
        ensures
            final(self).wf(),
            final(self).map().dom() == old(self).map().dom().union(other.map().dom()),
    {
        let n = other.entries.len();
        let mut i: usize = 0;
        proof {
            lemma_lookup_all(other@);
        }
        while i < n
            invariant
                n == other@.len(),
                i <= n,
                self.wf(),
                other.wf(),
                forall|k: Seq<char>| self.map().dom().contains(k) <==> (old(self).map().dom().contains(k) || exists|j: int|
                    0 <= j < i && #[trigger] other@[j].0 == k),
            decreases n - i,
        {
            let k = other.entries[i].0.clone();
            assert(k@ == other@[i as int].0);
            self.insert(k, ());
            i = i + 1;
        }
        proof {
            assert forall|k: Seq<char>| #[trigger] other.map().dom().contains(k) implies exists|j: int| 0 <= j < n && #[trigger] other@[j].0 == k by {
                assert(has_key(other@, k));
            }
            assert forall|k: Seq<char>| (exists|j: int| 0 <= j < n && #[trigger] other@[j].0 == k) implies other.map().dom().contains(k) by {
                let j = choose|j: int| 0 <= j < n && #[trigger] other@[j].0 == k;
                lemma_lookup_at(other@, j);
            }
            assert(self.map().dom() =~= old(self).map().dom().union(other.map().dom()));
        }
    }
}

/// Owned entries read as (key text, value) pairs.
pub open spec fn entries_view<V>(v: Seq<(String, V)>) -> Seq<(Seq<char>, V)> {
    v.map_values(|e: (String, V)| (e.0@, e.1))
}

impl<V> IdMap<V> {
    /// Move every entry out, in key order, leaving the map empty.
    pub fn take_entries(&mut self) -> (r: Vec<(String, V)>)
        ensures
            entries_view(r@) == old(self)@,
            final(self)@.len() == 0,
            final(self).wf(),
            final(self).map() == Map::<Seq<char>, V>::empty(),
    {
        let mut out: Vec<(String, V)> = Vec::new();
        std::mem::swap(&mut out, &mut self.entries);
        assert(entries_view(out@) =~= old(self)@);
        assert(self@ =~= Seq::<(Seq<char>, V)>::empty());
        assert(self.map() =~= Map::<Seq<char>, V>::empty());
        out
    }

    /// A map of entries already in strictly increasing key order.
    pub fn from_entries(entries: Vec<(String, V)>) -> (r: Self)
        requires
            keys_sorted(entries_view(entries@)),
        ensures
            r@ == entries_view(entries@),
            r.wf(),
    {
        let r = IdMap { entries };
        assert(r@ =~= entries_view(r.entries@));
        r
    }
}

impl<V> IdMap<V> {
    /// Remove and return the entry at position `i`.
    pub fn take_at(&mut self, i: usize) -> (r: (String, V))
        requires
            old(self).wf(),
            i < old(self)@.len(),
        ensures
            final(self).wf(),
            final(self)@ == old(self)@.remove(i as int),
            (r.0@, r.1) == old(self)@[i as int],
    {
        let r = self.entries.remove(i);
        proof {
            assert(self@ =~= old(self)@.remove(i as int));
            let s = self@;
            let o = old(self)@;
            assert forall|a: int, b: int| 0 <= a < b < s.len() implies text_lt(#[trigger] s[a].0, #[trigger] s[b].0) by {
                if b < i {
                    assert(s[a] == o[a] && s[b] == o[b]);
                } else if a < i {
                    assert(s[a] == o[a] && s[b] == o[b + 1]);
                } else {
                    assert(s[a] == o[a + 1] && s[b] == o[b + 1]);
                }
            }
        }
        r
    }

    /// Insert an entry at position `i`, where its key keeps the order.
    pub fn put_at(&mut self, i: usize, e: (String, V))
        requires
            old(self).wf(),
            i <= old(self)@.len(),
            keys_sorted(old(self)@.insert(i as int, (e.0@, e.1))),
        ensures
            final(self).wf(),
            final(self)@ == old(self)@.insert(i as int, (e.0@, e.1)),
    {
        let ghost k = e.0@;
        let ghost v = e.1;
        self.entries.insert(i, e);
        assert(self@ =~= old(self)@.insert(i as int, (k, v)));
    }
}

/// Values that can be copied exactly.
pub trait ExactCopy: Sized {
    fn exact_copy(&self) -> (r: Self)
        ensures
            r == *self,
    ;
}

impl<V: ExactCopy> IdMap<V> {
    /// A copy holding the same entries.
    pub fn copy_entries(&self) -> (r: Self)
        ensures
            r@ == self@,
            r.map() == self.map(),
            self.wf() ==> r.wf(),
    {
        let mut entries: Vec<(String, V)> = Vec::new();
        let n = self.entries.len();
        let mut i: usize = 0;
        while i < n
            invariant
                n == self.entries@.len(),
                i <= n,
                entries@.len() == i,
                forall|j: int|
                    0 <= j < i ==> (#[trigger] entries@[j]).0@ == self.entries@[j].0@ && entries@[j].1
                        == self.entries@[j].1,
            decreases n - i,
        {
            entries.push((self.entries[i].0.clone(), self.entries[i].1.exact_copy()));
            i = i + 1;
        }
        let r = IdMap { entries };
        assert(r@ =~= self@);
        r
    }
}

} // verus!
