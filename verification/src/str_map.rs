//! Maps keyed by strings, held as a list of distinct keys with their values.

use vstd::prelude::*;

verus! {

/// Values that can be copied with a verified copy.
pub trait Duplicate: View + Sized {
    fn duplicate_value(&self) -> (r: Self)
        ensures
            r@ == self@,
    ;
}

impl Duplicate for u32 {
    fn duplicate_value(&self) -> (r: u32) {
        *self
    }
}

/// A map from strings to values. Every key occurs once.
pub struct StrMap<V> {
    entries: Vec<(String, V)>,
}

/// Whether the keys of `s` are pairwise distinct.
pub open spec fn distinct_keys<V>(s: Seq<(String, V)>) -> bool {
    forall|i: int, j: int| 0 <= i < j < s.len() ==> s[i].0@ != s[j].0@
}

/// Whether some entry of `s` has key `k`.
pub open spec fn has_key<V>(s: Seq<(String, V)>, k: Seq<char>) -> bool {
    exists|i: int| 0 <= i < s.len() && (#[trigger] s[i]).0@ == k
}

/// The index of the entry of `s` with key `k`.
pub open spec fn key_index<V>(s: Seq<(String, V)>, k: Seq<char>) -> int {
    choose|i: int| 0 <= i < s.len() && (#[trigger] s[i]).0@ == k
}

/// The map that an entry list stands for.
pub open spec fn entries_map<V: View>(s: Seq<(String, V)>) -> Map<Seq<char>, V::V> {
    Map::new(|k: Seq<char>| has_key(s, k), |k: Seq<char>| s[key_index(s, k)].1@)
}

impl<V: View> View for StrMap<V> {
    type V = Map<Seq<char>, V::V>;

    closed spec fn view(&self) -> Map<Seq<char>, V::V> {
        entries_map(self.entries@)
    }
}

impl<V> StrMap<V> {
    #[verifier::type_invariant]
    closed spec fn inv(self) -> bool {
        distinct_keys(self.entries@)
    }
}

impl<V: View + Duplicate> StrMap<V> {
    /// The entries, in insertion order.
    pub closed spec fn entry_seq(self) -> Seq<(String, V)> {
        self.entries@
    }

    /// An empty map.
    pub fn new() -> (m: StrMap<V>)
        ensures
            m@ == Map::<Seq<char>, V::V>::empty(),
    {
        let m = StrMap { entries: Vec::new() };
        assert(m@ =~= Map::<Seq<char>, V::V>::empty());
        m
    }

    /// Number of keys.
    pub fn len(&self) -> (r: usize)
        ensures
            r == self.entry_seq().len(),
    {
        self.entries.len()
    }

    /// The position of `key` in the entry list.
    fn find(&self, key: &str) -> (r: Option<usize>)
        ensures
            r matches Some(i) ==> i < self.entries@.len() && self.entries@[i as int].0@ == key@,
            r is None ==> !has_key(self.entries@, key@),
    {
        let mut i: usize = 0;
        while i < self.entries.len()
            invariant
                i <= self.entries@.len(),
                forall|j: int| 0 <= j < i ==> (#[trigger] self.entries@[j]).0@ != key@,
            decreases self.entries.len() - i,
        {
            if crate::text::str_eq(self.entries[i].0.as_str(), key) {
                return Some(i);
            }
            i = i + 1;
        }
        None
    }

    /// Whether `key` is present.
    pub fn contains_key(&self, key: &str) -> (r: bool)
        ensures
            r == self@.contains_key(key@),
    {
        self.find(key).is_some()
    }

    /// The value for `key`, if any.
    pub fn get(&self, key: &str) -> (r: Option<&V>)
        ensures
            r is Some == self@.contains_key(key@),
            r matches Some(v) ==> v@ == self@[key@],
    {
        proof {
            use_type_invariant(self);
        }
        match self.find(key) {
            Some(i) => {
                proof {
                    let s = self.entries@;
                    assert(has_key(s, key@));
                    assert(key_index(s, key@) == i);
                }
                Some(&self.entries[i].1)
            },
            None => None,
        }
    }

    /// Sets the value for `key`, replacing any earlier one.
    pub fn insert(&mut self, key: String, value: V)
        ensures
            final(self)@ == old(self)@.insert(key@, value@),
    {
        proof {
            use_type_invariant(&*self);
        }
        let ghost old_s = self.entries@;
        let ghost kv = key@;
        let ghost vv = value@;
        match self.find(key.as_str()) {
            Some(i) => {
                let mut entries: Vec<(String, V)> = Vec::new();
                std::mem::swap(&mut entries, &mut self.entries);
                entries.set(i, (key, value));
                self.entries = entries;
                proof {
                    let s = self.entries@;
                    assert(s == old_s.update(i as int, s[i as int]));
                    assert forall|a: int, b: int| 0 <= a < b < s.len() implies s[a].0@ != s[b].0@ by {
                        if a != i && b != i {
                            assert(s[a] == old_s[a] && s[b] == old_s[b]);
                        }
                    }
                    assert forall|k: Seq<char>| #[trigger] entries_map(s).contains_key(k) == old_s_map_insert(old_s, kv, vv).contains_key(k) by {
                        if has_key(old_s, k) {
                            let j = key_index(old_s, k);
                            assert(s[j].0@ == k || j == i);
                        }
                        if has_key(s, k) {
                            let j = key_index(s, k);
                            if j != i {
                                assert(old_s[j] == s[j]);
                            }
                        }
                    }
                    assert forall|k: Seq<char>| entries_map(s).contains_key(k) implies #[trigger] entries_map(s)[k] == old_s_map_insert(old_s, kv, vv)[k] by {
                        let j = key_index(s, k);
                        if k == kv {
                            assert(j == i);
                        } else {
                            assert(j != i);
                            assert(old_s[j] == s[j]);
                            assert(has_key(old_s, k));
                            assert(key_index(old_s, k) == j);
                        }
                    }
                    assert(entries_map(s) =~= old_s_map_insert(old_s, kv, vv));
                }
            },
            None => {
                let mut entries: Vec<(String, V)> = Vec::new();
                std::mem::swap(&mut entries, &mut self.entries);
                entries.push((key, value));
                self.entries = entries;
                proof {
                    let s = self.entries@;
                    let n = old_s.len() as int;
                    assert forall|a: int, b: int| 0 <= a < b < s.len() implies s[a].0@ != s[b].0@ by {
                        if b == n {
                            assert(s[a] == old_s[a]);
                            assert(!has_key(old_s, kv));
                            assert(old_s[a].0@ != kv);
                        } else {
                            assert(s[a] == old_s[a] && s[b] == old_s[b]);
                        }
                    }
                    assert forall|k: Seq<char>| #[trigger] entries_map(s).contains_key(k) == old_s_map_insert(old_s, kv, vv).contains_key(k) by {
                        if has_key(old_s, k) {
                            let j = key_index(old_s, k);
                            assert(s[j] == old_s[j]);
                        }
                        if k == kv {
                            assert(s[n].0@ == kv);
                        }
                        if has_key(s, k) {
                            let j = key_index(s, k);
                            if j < n {
                                assert(old_s[j] == s[j]);
                            }
                        }
                    }
                    assert forall|k: Seq<char>| entries_map(s).contains_key(k) implies #[trigger] entries_map(s)[k] == old_s_map_insert(old_s, kv, vv)[k] by {
                        let j = key_index(s, k);
                        if k == kv {
                            assert(s[n].0@ == kv);
                            assert(j == n);
                        } else {
                            assert(j < n);
                            assert(old_s[j] == s[j]);
                            assert(has_key(old_s, k));
                            assert(key_index(old_s, k) == j);
                        }
                    }
                    assert(entries_map(s) =~= old_s_map_insert(old_s, kv, vv));
                }
            },
        }
    }

    /// The keys, in insertion order.
    pub fn keys(&self) -> (r: Vec<String>)
        ensures
            r@.len() == self.entry_seq().len(),
            forall|i: int| 0 <= i < r@.len() ==> (#[trigger] r@[i])@ == self.entry_seq()[i].0@,
            forall|i: int, j: int| 0 <= i < j < r@.len() ==> r@[i]@ != r@[j]@,
            forall|k: Seq<char>| self@.contains_key(k) <==> exists|i: int| 0 <= i < r@.len() && (#[trigger] r@[i])@ == k,
    {
        proof {
            use_type_invariant(self);
        }
        let mut r: Vec<String> = Vec::new();
        let mut i: usize = 0;
        while i < self.entries.len()
            invariant
                i <= self.entries@.len(),
                r@.len() == i,
                forall|j: int| 0 <= j < i ==> (#[trigger] r@[j])@ == self.entries@[j].0@,
            decreases self.entries.len() - i,
        {
            r.push(self.entries[i].0.clone());
            i = i + 1;
        }
        proof {
            let s = self.entries@;
            assert forall|k: Seq<char>| self@.contains_key(k) <==> exists|i: int| 0 <= i < r@.len() && (#[trigger] r@[i])@ == k by {
                if has_key(s, k) {
                    let j = key_index(s, k);
                    assert(r@[j]@ == k);
                }
                if exists|i: int| 0 <= i < r@.len() && (#[trigger] r@[i])@ == k {
                    let i = choose|i: int| 0 <= i < r@.len() && (#[trigger] r@[i])@ == k;
                    assert(s[i].0@ == k);
                }
            }
        }
        r
    }

    /// Keeps only the keys that occur in `keep`.
    pub fn retain_keys(&mut self, keep: &[String])
        ensures
            final(self)@ == Map::new(
                |k: Seq<char>| old(self)@.contains_key(k) && exists|i: int| 0 <= i < keep@.len() && (#[trigger] keep@[i])@ == k,
                |k: Seq<char>| old(self)@[k],
            ),
    {
        proof {
            use_type_invariant(&*self);
        }
        let ghost s = self.entries@;
        let ghost m = entries_map(s);
        let mut kept: StrMap<V> = StrMap::new();
        let mut i: usize = 0;
        while i < self.entries.len()
            invariant
                self.entries@ == s,
                m == entries_map(s),
                distinct_keys(s),
                i <= s.len(),
                kept@ == Map::new(
                    |k: Seq<char>| has_key(s.subrange(0, i as int), k) && exists|t: int| 0 <= t < keep@.len() && (#[trigger] keep@[t])@ == k,
                    |k: Seq<char>| m[k],
                ),
            decreases s.len() - i,
        {
            let mut found = false;
            let mut q: usize = 0;
            while q < keep.len()
                invariant
                    q <= keep@.len(),
                    i < s.len(),
                    self.entries@ == s,
                    found == exists|t: int| 0 <= t < q && (#[trigger] keep@[t])@ == s[i as int].0@,
                decreases keep.len() - q,
            {
                if crate::text::str_eq(keep[q].as_str(), self.entries[i].0.as_str()) {
                    found = true;
                }
                q = q + 1;
            }
            let ghost prev = kept@;
            assert(found == exists|t: int| 0 <= t < keep@.len() && (#[trigger] keep@[t])@ == s[i as int].0@);
            if found {
                let k = self.entries[i].0.clone();
                let v = self.entries[i].1.duplicate_value();
                kept.insert(k, v);
            }
            proof {
                let ki = s[i as int].0@;
                lemma_value_at(s, i as int);
                assert forall|k: Seq<char>| has_key(s.subrange(0, i + 1), k) <==> (has_key(s.subrange(0, i as int), k) || k == ki) by {
                    lemma_prefix_key(s, i as int, k);
                }
                let target = Map::new(
                    |k: Seq<char>| has_key(s.subrange(0, i + 1), k) && exists|t: int| 0 <= t < keep@.len() && (#[trigger] keep@[t])@ == k,
                    |k: Seq<char>| m[k],
                );
                assert forall|k: Seq<char>| #[trigger] kept@.contains_key(k) == target.contains_key(k) by {
                    assert(target.contains_key(k) == (has_key(s.subrange(0, i + 1), k) && exists|t: int| 0 <= t < keep@.len() && (#[trigger] keep@[t])@ == k));
                    assert(prev.contains_key(k) == (has_key(s.subrange(0, i as int), k) && exists|t: int| 0 <= t < keep@.len() && (#[trigger] keep@[t])@ == k));
                    if k == ki {
                        if found {
                            assert(kept@.contains_key(k));
                        } else {
                            assert(!prev.contains_key(k)) by {
                                if has_key(s.subrange(0, i as int), k) {
                                    let j = choose|j: int| 0 <= j < i && (#[trigger] s.subrange(0, i as int)[j]).0@ == k;
                                    assert(s[j].0@ == k);
                                }
                            }
                        }
                    }
                }
                assert forall|k: Seq<char>| kept@.contains_key(k) implies #[trigger] kept@[k] == target[k] by {
                    if k == ki {
                    } else {
                        assert(prev.contains_key(k));
                    }
                }
                assert(kept@ =~= target);
            }
            i = i + 1;
        }
        proof {
            assert(s.subrange(0, s.len() as int) =~= s);
            let target = Map::new(
                |k: Seq<char>| m.contains_key(k) && exists|t: int| 0 <= t < keep@.len() && (#[trigger] keep@[t])@ == k,
                |k: Seq<char>| m[k],
            );
            assert(kept@ =~= target);
        }
        proof {
            use_type_invariant(&kept);
        }
        self.entries = kept.entries;
    }

    /// A copy of the map.
    pub fn duplicate(&self) -> (r: StrMap<V>)
        ensures
            r@ == self@,
            r.entry_seq().len() == self.entry_seq().len(),
            forall|i: int| 0 <= i < r.entry_seq().len() ==> (#[trigger] r.entry_seq()[i]).0@ == self.entry_seq()[i].0@
                && r.entry_seq()[i].1@ == self.entry_seq()[i].1@,
    {
        proof {
            use_type_invariant(self);
        }
        let mut r: Vec<(String, V)> = Vec::new();
        let mut i: usize = 0;
        while i < self.entries.len()
            invariant
                distinct_keys(self.entries@),
                i <= self.entries@.len(),
                r@.len() == i,
                forall|j: int| 0 <= j < i ==> (#[trigger] r@[j]).0@ == self.entries@[j].0@ && r@[j].1@ == self.entries@[j].1@,
            decreases self.entries.len() - i,
        {
            let k = self.entries[i].0.clone();
            let v = self.entries[i].1.duplicate_value();
            r.push((k, v));
            i = i + 1;
        }
        proof {
            let s = self.entries@;
            assert forall|k: Seq<char>| #[trigger] has_key(r@, k) == has_key(s, k) by {
                if has_key(r@, k) {
                    let j = key_index(r@, k);
                    assert(s[j].0@ == k);
                }
                if has_key(s, k) {
                    let j = key_index(s, k);
                    assert(r@[j].0@ == k);
                }
            }
            assert forall|k: Seq<char>| has_key(r@, k) implies #[trigger] entries_map(r@)[k] == entries_map(s)[k] by {
                let j = key_index(r@, k);
                let j2 = key_index(s, k);
                assert(s[j].0@ == k);
                assert(j == j2);
            }
            assert(entries_map(r@) =~= entries_map(s));
        }
        StrMap { entries: r }
    }
}

/// A key is in a one-longer prefix when it is in the prefix or is the new entry's key.
pub proof fn lemma_prefix_key<V>(s: Seq<(String, V)>, i: int, k: Seq<char>)
    requires
        0 <= i < s.len(),
    ensures
        has_key(s.subrange(0, i + 1), k) <==> (has_key(s.subrange(0, i), k) || k == s[i].0@),
{
    let a = s.subrange(0, i);
    let b = s.subrange(0, i + 1);
    if has_key(b, k) {
        let j = choose|j: int| 0 <= j < b.len() && (#[trigger] b[j]).0@ == k;
        if j < i {
            assert(a[j] == b[j]);
        }
    }
    if has_key(a, k) {
        let j = choose|j: int| 0 <= j < a.len() && (#[trigger] a[j]).0@ == k;
        assert(b[j] == a[j]);
    }
    if k == s[i].0@ {
        assert(b[i] == s[i]);
    }
}

/// With distinct keys, each entry's key maps to that entry's value.
pub proof fn lemma_value_at<V: View>(s: Seq<(String, V)>, i: int)
    requires
        0 <= i < s.len(),
        distinct_keys(s),
    ensures
        entries_map(s).contains_key(s[i].0@),
        entries_map(s)[s[i].0@] == s[i].1@,
{
    assert(has_key(s, s[i].0@));
    let j = key_index(s, s[i].0@);
    assert(j == i);
}

/// `entries_map(s).insert(k, v)`, named for the proofs of `insert`.
pub open spec fn old_s_map_insert<V: View>(s: Seq<(String, V)>, k: Seq<char>, v: V::V) -> Map<Seq<char>, V::V> {
    entries_map(s).insert(k, v)
}

} // verus!
