//! A map keyed by strings, kept as a list of entries with distinct keys.
use vstd::prelude::*;

verus! {

pub struct StrMap<V> {
    entries: Vec<(String, V)>,
}

/// Some entry of `e` has key `k`.
pub open spec fn has_key<V>(e: Seq<(String, V)>, k: Seq<char>) -> bool {
    exists|i: int| 0 <= i < e.len() && (#[trigger] e[i]).0@ == k
}

/// The position of the entry with key `k`.
pub open spec fn key_index<V>(e: Seq<(String, V)>, k: Seq<char>) -> int {
    choose|i: int| 0 <= i < e.len() && (#[trigger] e[i]).0@ == k
}

/// No two entries share a key.
pub open spec fn keys_distinct<V>(e: Seq<(String, V)>) -> bool {
    forall|i: int, j: int| 0 <= i < e.len() && 0 <= j < e.len() && i != j ==> (#[trigger] e[i]).0@ != (#[trigger] e[j]).0@
}

/// The map that a list of entries with distinct keys stands for.
pub open spec fn entries_map<V>(e: Seq<(String, V)>) -> Map<Seq<char>, V> {
    Map::new(|k: Seq<char>| has_key(e, k), |k: Seq<char>| e[key_index(e, k)].1)
}

proof fn lemma_key_index<V>(e: Seq<(String, V)>, i: int)
    requires
        keys_distinct(e),
        0 <= i < e.len(),
    ensures
        has_key(e, e[i].0@),
        key_index(e, e[i].0@) == i,
{
    let k = e[i].0@;
    assert(0 <= i < e.len() && e[i].0@ == k);
    let j = key_index(e, k);
    if j != i {
        assert(e[j].0@ != e[i].0@);
    }
}

impl<V> View for StrMap<V> {
    type V = Map<Seq<char>, V>;

    closed spec fn view(&self) -> Map<Seq<char>, V> {
        entries_map(self.entries@)
    }
}

impl<V> StrMap<V> {
    #[verifier::type_invariant]
    spec fn inv(&self) -> bool {
        keys_distinct(self.entries@)
    }

    /// The entries, in the order they were first inserted.
    pub closed spec fn entry_seq(&self) -> Seq<(String, V)> {
        self.entries@
    }

    pub fn new() -> (r: StrMap<V>)
        ensures
            r@ == Map::<Seq<char>, V>::empty(),
    {
        let r = StrMap { entries: Vec::new() };
        proof {
            assert(r@ =~= Map::<Seq<char>, V>::empty());
        }
        r
    }

    fn find(&self, key: &String) -> (r: Option<usize>)
        ensures
            match r {
                Some(i) => i < self.entries@.len() && self.entries@[i as int].0@ == key@,
                None => !has_key(self.entries@, key@),
            },
    {
        let mut i: usize = 0;
        while i < self.entries.len()
            invariant
                i <= self.entries@.len(),
                forall|j: int| 0 <= j < i ==> (#[trigger] self.entries@[j]).0@ != key@,
            decreases self.entries@.len() - i,
        {
            if self.entries[i].0 == *key {
                return Some(i);
            }
            i = i + 1;
        }
        None
    }

    pub fn len(&self) -> (r: usize)
        ensures
            r == self@.dom().len(),
            self@.dom().finite(),
    {
        proof {
            use_type_invariant(self);
            self.lemma_len();
        }
        self.entries.len()
    }

    proof fn lemma_len(&self)
        requires
            keys_distinct(self.entries@),
        ensures
            self@.dom().len() == self.entries@.len(),
            self@.dom().finite(),
    {
        let e = self.entries@;
        let keys = e.map_values(|p: (String, V)| p.0@);
        assert forall|i: int, j: int| 0 <= i < keys.len() && 0 <= j < keys.len() && i != j implies keys[i] != keys[j] by {
            assert(e[i].0@ != e[j].0@);
        }
        assert(keys.no_duplicates());
        keys.unique_seq_to_set();
        assert forall|k: Seq<char>| #[trigger] self@.dom().contains(k) <==> keys.to_set().contains(k) by {
            if self@.dom().contains(k) {
                let i = key_index(e, k);
                assert(keys[i] == k);
            }
            if keys.to_set().contains(k) {
                let i = choose|i: int| 0 <= i < keys.len() && keys[i] == k;
                assert(e[i].0@ == k);
            }
        }
        assert(self@.dom() =~= keys.to_set());
    }

    pub fn is_empty(&self) -> (r: bool)
        ensures
            r == (self@.dom().len() == 0),
            r == (self@ == Map::<Seq<char>, V>::empty()),
    {
        proof {
            use_type_invariant(self);
            self.lemma_len();
            if self.entries@.len() == 0 {
                assert(self@ =~= Map::<Seq<char>, V>::empty());
            } else {
                let k = self.entries@[0].0@;
                assert(has_key(self.entries@, k));
                assert(self@.dom().contains(k));
            }
        }
        self.entries.len() == 0
    }

    pub fn contains_key(&self, key: &String) -> (r: bool)
        ensures
            r == self@.dom().contains(key@),
    {
        self.find(key).is_some()
    }

    pub fn get(&self, key: &String) -> (r: Option<&V>)
        ensures
            match r {
                Some(v) => self@.dom().contains(key@) && *v == self@[key@],
                None => !self@.dom().contains(key@),
            },
    {
        proof {
            use_type_invariant(self);
        }
        match self.find(key) {
            Some(i) => {
                proof {
                    lemma_key_index(self.entries@, i as int);
                }
                Some(&self.entries[i].1)
            },
            None => None,
        }
    }

    /// Sets the value of `key`; an existing key keeps its position.
    pub fn insert(&mut self, key: String, value: V)
        ensures
            final(self)@ == old(self)@.insert(key@, value),
    {
        proof {
            use_type_invariant(&*self);
        }
        let ghost k = key@;
        let ghost before = self.entries@;
        match self.find(&key) {
            Some(i) => {
                let mut entries: Vec<(String, V)> = Vec::new();
                std::mem::swap(&mut entries, &mut self.entries);
                entries.set(i, (key, value));
                let ghost after = entries@;
                proof {
                    assert forall|a: int, b: int| 0 <= a < after.len() && 0 <= b < after.len() && a != b implies (#[trigger] after[a]).0@ != (#[trigger] after[b]).0@ by {
                        if a != i as int && b != i as int {
                            assert(before[a].0@ != before[b].0@);
                        } else if a == i as int {
                            assert(before[i as int].0@ != before[b].0@);
                        } else {
                            assert(before[a].0@ != before[i as int].0@);
                        }
                    }
                    assert forall|q: Seq<char>| #[trigger] has_key(after, q) == (has_key(before, q) || q == k) by {
                        if has_key(before, q) {
                            let j = key_index(before, q);
                            assert(after[j].0@ == q);
                        }
                        if has_key(after, q) {
                            let j = key_index(after, q);
                            assert(before[j].0@ == q);
                        }
                    }
                    assert forall|q: Seq<char>| has_key(after, q) implies #[trigger] after[key_index(after, q)].1 == old(self)@.insert(k, value)[q] by {
                        let j = key_index(after, q);
                        lemma_key_index(after, j);
                        if q != k {
                            lemma_key_index(before, j);
                        }
                    }
                    assert(entries_map(after) =~= old(self)@.insert(k, value));
                }
                self.entries = entries;
            },
            None => {
                let mut entries: Vec<(String, V)> = Vec::new();
                std::mem::swap(&mut entries, &mut self.entries);
                entries.push((key, value));
                let ghost after = entries@;
                proof {
                    assert forall|a: int, b: int| 0 <= a < after.len() && 0 <= b < after.len() && a != b implies (#[trigger] after[a]).0@ != (#[trigger] after[b]).0@ by {
                        if a < before.len() && b < before.len() {
                            assert(before[a].0@ != before[b].0@);
                        } else if a < before.len() {
                            assert(before[a].0@ != k);
                        } else {
                            assert(before[b].0@ != k);
                        }
                    }
                    assert forall|q: Seq<char>| #[trigger] has_key(after, q) == (has_key(before, q) || q == k) by {
                        if has_key(before, q) {
                            let j = key_index(before, q);
                            assert(after[j].0@ == q);
                        }
                        if q == k {
                            assert(after[before.len() as int].0@ == q);
                        }
                        if has_key(after, q) && q != k {
                            let j = key_index(after, q);
                            assert(before[j].0@ == q);
                        }
                    }
                    assert forall|q: Seq<char>| has_key(after, q) implies #[trigger] after[key_index(after, q)].1 == old(self)@.insert(k, value)[q] by {
                        let j = key_index(after, q);
                        lemma_key_index(after, j);
                        if q != k {
                            lemma_key_index(before, j);
                        }
                    }
                    assert(entries_map(after) =~= old(self)@.insert(k, value));
                }
                self.entries = entries;
            },
        }
    }

    /// Removes `key`, giving back its value where it was present.
    pub fn remove(&mut self, key: &String) -> (r: Option<V>)
        ensures
            final(self)@ == old(self)@.remove(key@),
            match r {
                Some(v) => old(self)@.dom().contains(key@) && v == old(self)@[key@],
                None => !old(self)@.dom().contains(key@),
            },
    {
        proof {
            use_type_invariant(&*self);
        }
        let ghost k = key@;
        let ghost before = self.entries@;
        match self.find(key) {
            Some(i) => {
                let mut entries: Vec<(String, V)> = Vec::new();
                std::mem::swap(&mut entries, &mut self.entries);
                let (_k, v) = entries.remove(i);
                let ghost after = entries@;
                proof {
                    lemma_key_index(before, i as int);
                    assert forall|a: int| 0 <= a < after.len() implies #[trigger] after[a] == before[if a < i { a } else { a + 1 }] by {}
                    assert forall|a: int, b: int| 0 <= a < after.len() && 0 <= b < after.len() && a != b implies (#[trigger] after[a]).0@ != (#[trigger] after[b]).0@ by {
                        let a2 = if a < i { a } else { a + 1 };
                        let b2 = if b < i { b } else { b + 1 };
                        assert(before[a2].0@ != before[b2].0@);
                    }
                    assert forall|q: Seq<char>| #[trigger] has_key(after, q) == (has_key(before, q) && q != k) by {
                        if has_key(before, q) && q != k {
                            let j = key_index(before, q);
                            assert(j != i);
                            let j2 = if j < i { j } else { j - 1 };
                            assert(after[j2].0@ == q);
                        }
                        if has_key(after, q) {
                            let j = key_index(after, q);
                            let j2 = if j < i { j } else { j + 1 };
                            assert(before[j2].0@ == q);
                            assert(j2 != i);
                            assert(before[i as int].0@ != q);
                        }
                    }
                    assert forall|q: Seq<char>| has_key(after, q) implies #[trigger] after[key_index(after, q)].1 == old(self)@.remove(k)[q] by {
                        let j = key_index(after, q);
                        lemma_key_index(after, j);
                        let j2 = if j < i { j } else { j + 1 };
                        assert(before[j2].0@ == q);
                        lemma_key_index(before, j2);
                    }
                    assert(entries_map(after) =~= old(self)@.remove(k));
                }
                self.entries = entries;
                Some(v)
            },
            None => {
                proof {
                    assert(old(self)@.remove(k) =~= old(self)@);
                }
                None
            },
        }
    }

    /// The keys, in the order they were first inserted.
    pub fn keys(&self) -> (r: Vec<String>)
        ensures
            r@.len() == self.entry_seq().len(),
            forall|i: int| 0 <= i < r@.len() ==> #[trigger] r@[i]@ == self.entry_seq()[i].0@,
            forall|k: Seq<char>| self@.dom().contains(k) <==> exists|i: int| 0 <= i < r@.len() && #[trigger] r@[i]@ == k,
    {
        let mut r: Vec<String> = Vec::new();
        let mut i: usize = 0;
        while i < self.entries.len()
            invariant
                i <= self.entries@.len(),
                r@.len() == i,
                forall|j: int| 0 <= j < i ==> #[trigger] r@[j]@ == self.entries@[j].0@,
            decreases self.entries@.len() - i,
        {
            r.push(self.entries[i].0.clone());
            i = i + 1;
        }
        proof {
            assert forall|k: Seq<char>| self@.dom().contains(k) <==> exists|i: int| 0 <= i < r@.len() && #[trigger] r@[i]@ == k by {
                if self@.dom().contains(k) {
                    let j = key_index(self.entries@, k);
                    assert(r@[j]@ == k);
                }
                if exists|i: int| 0 <= i < r@.len() && #[trigger] r@[i]@ == k {
                    let j = choose|i: int| 0 <= i < r@.len() && #[trigger] r@[i]@ == k;
                    assert(self.entries@[j].0@ == k);
                }
            }
        }
        r
    }
}

impl<V: Copy> StrMap<V> {
    /// A copy holding the same entries.
    pub fn duplicate(&self) -> (r: StrMap<V>)
        ensures
            r@ == self@,
    {
        let keys = self.keys();
        let mut r: StrMap<V> = StrMap::new();
        let mut i: usize = 0;
        while i < keys.len()
            invariant
                i <= keys@.len(),
                forall|k: Seq<char>| self@.dom().contains(k) <==> exists|j: int| 0 <= j < keys@.len() && #[trigger] keys@[j]@ == k,
                forall|k: Seq<char>| r@.dom().contains(k) <==> exists|j: int| 0 <= j < i && #[trigger] keys@[j]@ == k,
                forall|k: Seq<char>| #[trigger] r@.dom().contains(k) ==> self@.dom().contains(k) && r@[k] == self@[k],
            decreases keys@.len() - i,
        {
            assert(self@.dom().contains(keys@[i as int]@));
            match self.get(&keys[i]) {
                Some(v) => {
                    r.insert(keys[i].clone(), *v);
                },
                None => {},
            }
            i = i + 1;
        }
        assert(r@ =~= self@);
        r
    }
}

} // verus!
